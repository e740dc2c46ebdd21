//! A block of slots with a free list.
//!
//! Each slot either holds a value or is free; free slots are chained into a
//! list through the slots themselves, and a removed slot is the first one reused.

use vstd::prelude::*;

verus! {

/// `Vec::capacity`: per the standard library's documentation the capacity is
/// never below the length; the exact amount is the allocator's choice and is
/// left unstated.
#[verifier::external_body]
fn vec_capacity<T>(v: &Vec<T>) -> (r: usize)
    ensures
        r >= v@.len(),
{
    v.capacity()
}

/// A slot: a stored value, or a free slot pointing at the next free slot.
enum Cell<T> {
    Occupied(T),
    Free(Option<usize>),
}

/// A block of slots; removed slots are reused by later insertions.
pub struct Block<T> {
    cells: Vec<Cell<T>>,
    free: Option<usize>,
    deleted: usize,
    free_list: Ghost<Seq<usize>>,
}

impl<T> View for Block<T> {
    type V = Seq<Option<T>>;

    /// The slots: `Some(value)` for a stored value, `None` for a free slot.
    closed spec fn view(&self) -> Seq<Option<T>> {
        self.slots()
    }
}

impl<T> Block<T> {
    spec fn slots(&self) -> Seq<Option<T>> {
        self.cells@.map_values(
            |c: Cell<T>|
                match c {
                    Cell::Occupied(v) => Some(v),
                    Cell::Free(_) => None,
                },
        )
    }

    /// The indices of the slots that hold values.
    pub open spec fn occupied(slots: Seq<Option<T>>) -> Set<int> {
        Set::new(|i: int| 0 <= i < slots.len() && slots[i] is Some)
    }

    /// The slot the next insertion fills: the most recently freed slot, or a
    /// new slot at the end.
    pub closed spec fn next_slot(&self) -> nat {
        match self.free {
            Some(i) => i as nat,
            None => self.cells@.len(),
        }
    }

    /// The free slots, most recently freed first: the order in which later
    /// insertions reuse them.
    pub closed spec fn free_order(&self) -> Seq<usize> {
        self.free_list@
    }

    /// The free order lists exactly the free slots, each once; the next
    /// insertion fills its first slot, or appends when it is empty.
    pub proof fn lemma_free_order(&self)
        requires
            self.wf(),
        ensures
            forall|i: int| 0 <= i < self@.len() ==> (self@[i] is None <==> self.free_order().contains(i as usize)),
            forall|i: int| 0 <= i < self.free_order().len() ==> #[trigger] self.free_order()[i] < self@.len(),
            forall|i: int, j: int|
                0 <= i < j < self.free_order().len() ==> self.free_order()[i] != self.free_order()[j],
            self.next_slot() == (if self.free_order().len() > 0 {
                self.free_order()[0] as nat
            } else {
                self@.len()
            }),
            self.free_order().len() + Self::occupied(self@).len() == self@.len(),
    {
        let fl = self.free_list@;
        assert(self@.len() == self.cells@.len());
        assert forall|i: int| 0 <= i < self@.len() implies (self@[i] is None <==> self.free_order().contains(
            i as usize,
        )) by {
            assert(self@[i] is None <==> self.cells@[i] is Free);
            if fl.contains(i as usize) {
                let k = choose|k: int| 0 <= k < fl.len() && fl[k] == i as usize;
                assert(self.cells@[fl[k] as int] is Free);
            }
            if self.cells@[i] is Free {
                assert(fl.contains(i as usize));
            }
        }
        assert forall|i: int| 0 <= i < self.free_order().len() implies #[trigger] self.free_order()[i] < self@.len() by {
            let c = self.cells@[fl[i] as int];
            assert(fl[i] < self.cells@.len());
        }
    }

    /// `fl` lists the free cells of `cells` in chain order, each once.
    spec fn free_list_ok(cells: Seq<Cell<T>>, fl: Seq<usize>) -> bool {
        &&& forall|i: int, j: int| 0 <= i < j < fl.len() ==> fl[i] != fl[j]
        &&& forall|i: int|
            0 <= i < fl.len() ==> fl[i] < cells.len() && #[trigger] cells[fl[i] as int]
                == Cell::<T>::Free(
                if i + 1 < fl.len() {
                    Some(fl[i + 1])
                } else {
                    None::<usize>
                },
            )
        &&& forall|k: int| 0 <= k < cells.len() && #[trigger] cells[k] is Free ==> fl.contains(k as usize)
    }

    /// The head of a free list.
    spec fn head(fl: Seq<usize>) -> Option<usize> {
        if fl.len() > 0 {
            Some(fl[0])
        } else {
            None::<usize>
        }
    }

    /// Freeing an occupied cell puts it at the front of the free list.
    proof fn lemma_free_list_push(cells: Seq<Cell<T>>, fl: Seq<usize>, index: usize)
        requires
            Self::free_list_ok(cells, fl),
            cells.len() <= usize::MAX,
            index < cells.len(),
            cells[index as int] is Occupied,
        ensures
            Self::free_list_ok(
                cells.update(index as int, Cell::Free(Self::head(fl))),
                seq![index].add(fl),
            ),
    {
        let nfl = seq![index].add(fl);
        let nc = cells.update(index as int, Cell::Free(Self::head(fl)));
        assert(!fl.contains(index)) by {
            if fl.contains(index) {
                let i = choose|i: int| 0 <= i < fl.len() && fl[i] == index;
                assert(cells[fl[i] as int] is Free);
            }
        }
        assert forall|i: int| 0 <= i < nfl.len() implies nfl[i] < nc.len() && #[trigger] nc[nfl[i] as int]
            == Cell::<T>::Free(
            if i + 1 < nfl.len() {
                Some(nfl[i + 1])
            } else {
                None::<usize>
            },
        ) by {
            if i > 0 {
                assert(nfl[i] == fl[i - 1]);
                assert(cells[fl[i - 1] as int] is Free);
                assert(fl[i - 1] != index);
            } else if fl.len() > 0 {
                assert(cells[fl[0] as int] is Free);
            }
        }
        assert forall|i: int, j: int| 0 <= i < j < nfl.len() implies nfl[i] != nfl[j] by {
            assert(nfl[j] == fl[j - 1]);
            if i > 0 {
                assert(nfl[i] == fl[i - 1]);
            }
        }
        assert forall|k: int| 0 <= k < nc.len() && #[trigger] nc[k] is Free implies nfl.contains(
            k as usize,
        ) by {
            if k != index {
                assert(cells[k] is Free);
                let i = choose|i: int| 0 <= i < fl.len() && fl[i] == k as usize;
                assert(nfl[i + 1] == k as usize);
            } else {
                assert(nfl[0] == index);
            }
        }
    }

    /// Filling the head of the free list removes it from the list.
    proof fn lemma_free_list_pop(cells: Seq<Cell<T>>, fl: Seq<usize>, c: Cell<T>)
        requires
            Self::free_list_ok(cells, fl),
            cells.len() <= usize::MAX,
            fl.len() > 0,
            c is Occupied,
        ensures
            Self::free_list_ok(cells.update(fl[0] as int, c), fl.drop_first()),
            cells[fl[0] as int] == Cell::<T>::Free(Self::head(fl.drop_first())),
    {
        let nc = cells.update(fl[0] as int, c);
        let nfl = fl.drop_first();
        assert(cells[fl[0] as int] is Free);
        assert(fl[0] < cells.len());
        assert forall|i: int| 0 <= i < nfl.len() implies nfl[i] < nc.len() && #[trigger] nc[nfl[i] as int]
            == Cell::<T>::Free(
            if i + 1 < nfl.len() {
                Some(nfl[i + 1])
            } else {
                None::<usize>
            },
        ) by {
            assert(nfl[i] == fl[i + 1]);
            assert(cells[fl[i + 1] as int] is Free);
            assert(fl[i + 1] != fl[0]);
        }
        assert forall|k: int| 0 <= k < nc.len() && #[trigger] nc[k] is Free implies nfl.contains(
            k as usize,
        ) by {
            assert(cells[k] is Free);
            let i = choose|i: int| 0 <= i < fl.len() && fl[i] == k as usize;
            if i == 0 {
                assert(k == fl[0] as int);
                assert(nc[k] == c);
            }
            assert(nfl[i - 1] == k as usize);
        }
    }

    /// The block's internal invariant.
    pub closed spec fn wf(&self) -> bool {
        let fl = self.free_list@;
        &&& self.cells@.len() <= usize::MAX
        &&& self.deleted == fl.len()
        &&& self.free == Self::head(fl)
        &&& Self::free_list_ok(self.cells@, fl)
        &&& Self::occupied(self.slots()).finite()
        &&& Self::occupied(self.slots()).len() + fl.len() == self.cells@.len()
    }

    /// The slot that `remove` frees is the one the next `insert` fills: the
    /// block then holds the new value there and is otherwise unchanged.
    pub proof fn law_remove_then_insert(
        a: Self,
        b: Self,
        c: Self,
        index: usize,
        r: usize,
        value: T,
    )
        requires
            index < a@.len(),
            a@[index as int] is Some,
            b@ == a@.update(index as int, None),
            b.next_slot() == index,
            r == b.next_slot(),
            r < b@.len() ==> c@ == b@.update(r as int, Some(value)),
        ensures
            r == index,
            c@ == a@.update(index as int, Some(value)),
    {
        assert(c@ =~= a@.update(index as int, Some(value)));
    }

    /// A sequence of slots stores as many values as it has occupied slots.
    pub proof fn lemma_stored_count(slots: Seq<Option<T>>)
        ensures
            stored_values(slots).len() == Self::occupied(slots).len(),
        decreases slots.len(),
    {
        if slots.len() == 0 {
            assert(Self::occupied(slots) =~= Set::<int>::empty());
        } else {
            let t = slots.drop_last();
            let x = slots.last();
            assert(slots =~= t.push(x));
            lemma_stored_push(t, x);
            Self::lemma_stored_count(t);
            Self::lemma_occupied_finite(t);
            if x is Some {
                assert(Self::occupied(slots) =~= Self::occupied(t).insert(t.len() as int));
            } else {
                assert(Self::occupied(slots) =~= Self::occupied(t));
            }
        }
    }

    /// Free slots are reused in the free order, most recently freed first:
    /// an insertion fills the first free slot, and the one after it fills the
    /// second.
    pub proof fn law_reuse_in_free_order(a: Self, b: Self, r: usize)
        requires
            a.wf(),
            b.wf(),
            r == a.next_slot(),
            a.free_order().len() > 0,
            b.free_order() == a.free_order().drop_first(),
        ensures
            r == a.free_order()[0],
            a.free_order().len() > 1 ==> b.next_slot() == a.free_order()[1],
            a.free_order().len() == 1 ==> b.next_slot() == b@.len(),
    {
        a.lemma_free_order();
        b.lemma_free_order();
    }

    /// The occupied slots of a sequence of slots are finitely many, no more
    /// than the slots.
    pub proof fn lemma_occupied_finite(slots: Seq<Option<T>>)
        ensures
            Self::occupied(slots).finite(),
            Self::occupied(slots).len() <= slots.len(),
    {
        vstd::set_lib::lemma_int_range(0, slots.len() as int);
        vstd::set_lib::lemma_len_subset(Self::occupied(slots), vstd::set_lib::set_int_range(0, slots.len() as int));
    }

    /// `insert` fills a slot that held nothing: afterwards the occupied slots
    /// are the old ones and the returned slot, which holds the new value, and
    /// every old value stays where it was.
    pub proof fn law_insert_fills_free_slot(a: Self, b: Self, r: usize, value: T)
        requires
            r <= a@.len(),
            r < a@.len() ==> a@[r as int] is None && b@ == a@.update(r as int, Some(value)),
            r == a@.len() ==> b@ == a@.push(Some(value)),
        ensures
            !Self::occupied(a@).contains(r as int),
            Self::occupied(b@) == Self::occupied(a@).insert(r as int),
            b@[r as int] == Some(value),
            forall|j: int| #[trigger] Self::occupied(a@).contains(j) ==> b@[j] == a@[j],
            Self::occupied(b@).len() == Self::occupied(a@).len() + 1,
    {
        Self::lemma_occupied_finite(a@);
        assert(Self::occupied(b@) =~= Self::occupied(a@).insert(r as int));
    }

    /// Removing the slot that `insert` just filled gives back the inserted
    /// value and the old slots, with one more free slot at the end when the
    /// insertion appended one.
    pub proof fn law_insert_then_remove(a: Self, b: Self, c: Self, r: usize, value: T, out: T)
        requires
            r <= a@.len(),
            r < a@.len() ==> a@[r as int] is None && b@ == a@.update(r as int, Some(value)),
            r == a@.len() ==> b@ == a@.push(Some(value)),
            c@ == b@.update(r as int, None),
            out == b@[r as int]->0,
        ensures
            out == value,
            r < a@.len() ==> c@ == a@,
            r == a@.len() ==> c@ == a@.push(None),
            Self::occupied(c@) == Self::occupied(a@),
    {
        if r < a@.len() {
            assert(c@ =~= a@);
        } else {
            assert(c@ =~= a@.push(None));
        }
        assert(Self::occupied(c@) =~= Self::occupied(a@));
    }

    /// A block with a free slot holds fewer values than it has slots, so
    /// `is_full` answers `false` (in particular right after a `remove`).
    pub proof fn law_free_slot_not_full(b: Self, index: usize)
        requires
            index < b@.len(),
            b@[index as int] is None,
        ensures
            Self::occupied(b@).len() < b@.len(),
    {
        Self::lemma_occupied_finite(b@);
        vstd::set_lib::lemma_int_range(0, b@.len() as int);
        let all = vstd::set_lib::set_int_range(0, b@.len() as int);
        assert(Self::occupied(b@).subset_of(all.remove(index as int)));
        vstd::set_lib::lemma_len_subset(Self::occupied(b@), all.remove(index as int));
    }

    /// Creates an empty block with room for `size` values.
    pub fn new(size: usize) -> (r: Self)
        ensures
            r.wf(),
            r@ == Seq::<Option<T>>::empty(),
            r.next_slot() == 0,
            r.free_order() == Seq::<usize>::empty(),
    {
        let r = Block {
            cells: Vec::with_capacity(size),
            free: None,
            deleted: 0,
            free_list: Ghost(Seq::empty()),
        };
        assert(Self::occupied(r.slots()) =~= Set::empty());
        r
    }

    /// The number of stored values.
    pub fn len(&self) -> (r: usize)
        requires
            self.wf(),
        ensures
            r == Self::occupied(self@).len(),
    {
        self.cells.len() - self.deleted
    }

    /// The number of freed slots not yet reused.
    pub fn deleted(&self) -> (r: usize)
        requires
            self.wf(),
        ensures
            r == self@.len() - Self::occupied(self@).len(),
    {
        self.deleted
    }

    /// Whether no value is stored.
    pub fn is_empty(&self) -> (r: bool)
        requires
            self.wf(),
        ensures
            r == (Self::occupied(self@).len() == 0),
    {
        self.len() == 0
    }

    /// Whether the number of stored values has reached the vector's capacity;
    /// this can only happen when no slot is free.
    pub fn is_full(&self) -> (r: bool)
        requires
            self.wf(),
        ensures
            r ==> Self::occupied(self@).len() == self@.len(),
    {
        self.is_full_at(vec_capacity(&self.cells))
    }

    /// Whether the number of stored values equals `capacity`, the capacity
    /// the slot vector reports.
    pub fn is_full_at(&self, capacity: usize) -> (r: bool)
        requires
            self.wf(),
        ensures
            r == (Self::occupied(self@).len() == capacity),
    {
        self.len() == capacity
    }

    /// Stores `value` in the most recently freed slot, or in a new slot at the
    /// end, and returns its index.
    pub fn insert(&mut self, value: T) -> (r: usize)
        requires
            old(self).wf(),
            old(self)@.len() < usize::MAX,
        ensures
            final(self).wf(),
            r == old(self).next_slot(),
            r < old(self)@.len() ==> old(self)@[r as int] is None && final(self)@ == old(self)@.update(
                r as int,
                Some(value),
            ),
            r == old(self)@.len() ==> final(self)@ == old(self)@.push(Some(value)),
            r <= old(self)@.len(),
            (exists|i: int| 0 <= i < old(self)@.len() && #[trigger] old(self)@[i] is None) ==> r < old(
                self,
            )@.len(),
            final(self).free_order() == (if old(self).free_order().len() > 0 {
                old(self).free_order().drop_first()
            } else {
                old(self).free_order()
            }),
    {
        let ghost old_slots = self.slots();
        let ncells = self.cells.len();
        let cell = Cell::Occupied(value);
        if let Some(free_index) = self.free {
            let ghost fl = self.free_list@;
            assert(fl[0] == free_index);
            assert(self.cells@[fl[0] as int] is Free);
            let mut replaced = cell;
            std::mem::swap(&mut self.cells[free_index], &mut replaced);
            match replaced {
                Cell::Free(next_free) => {
                    self.free = next_free;
                    self.deleted = self.deleted - 1;
                },
                Cell::Occupied(_) => {},
            }
            proof {
                Self::lemma_free_list_pop(old(self).cells@, fl, Cell::Occupied(value));
                self.free_list = Ghost(fl.drop_first());
                assert(self.slots() =~= old_slots.update(free_index as int, Some(value)));
                assert(Self::occupied(self.slots()) =~= Self::occupied(old_slots).insert(free_index as int));
            }
            free_index
        } else {
            proof {
                assert forall|i: int| 0 <= i < old_slots.len() implies !(#[trigger] old_slots[i] is None) by {
                    if self.cells@[i] is Free {
                        assert(self.free_list@.contains(i as usize));
                    }
                }
            }
            let index = self.cells.len();
            self.cells.push(cell);
            proof {
                assert(self.slots() =~= old_slots.push(Some(value)));
                assert(Self::occupied(self.slots()) =~= Self::occupied(old_slots).insert(index as int));
            }
            index
        }
    }

    /// Removes and returns the value in slot `index`, which must hold one; the
    /// slot becomes the next one to be reused.
    #[verifier::spinoff_prover]
    #[verifier::rlimit(60)]
    pub fn remove(&mut self, index: usize) -> (r: T)
        requires
            old(self).wf(),
            index < old(self)@.len(),
            old(self)@[index as int] is Some,
        ensures
            final(self).wf(),
            r == old(self)@[index as int]->0,
            final(self)@ == old(self)@.update(index as int, None),
            final(self).next_slot() == index,
            final(self).free_order() == seq![index].add(old(self).free_order()),
    {
        let ghost old_slots = self.slots();
        let ghost fl = self.free_list@;
        let ncells = self.cells.len();
        proof {
            assert(Self::occupied(old_slots).contains(index as int));
            assert(self.cells@[index as int] is Occupied);
            vstd::set_lib::lemma_set_empty_equivalency_len(Self::occupied(old_slots));
            assert(Self::occupied(old_slots).len() > 0);
            if fl.contains(index) {
                let i = choose|i: int| 0 <= i < fl.len() && fl[i] == index;
                assert(self.cells@[fl[i] as int] is Free);
            }
        }
        let cell = Cell::Free(self.free);
        self.free = Some(index);
        self.deleted = self.deleted + 1;
        let mut replaced = cell;
        std::mem::swap(&mut self.cells[index], &mut replaced);
        proof {
            Self::lemma_free_list_push(old(self).cells@, fl, index);
            self.free_list = Ghost(seq![index].add(fl));
            assert(self.slots() =~= old_slots.update(index as int, None));
            assert(Self::occupied(self.slots()) =~= Self::occupied(old_slots).remove(index as int));
        }
        match replaced {
            Cell::Occupied(value) => value,
            Cell::Free(_) => vstd::pervasive::unreached(),
        }
    }

    /// The value in slot `index`, which must hold one.
    pub fn get_unchecked(&self, index: usize) -> (r: &T)
        requires
            self.wf(),
            index < self@.len(),
            self@[index as int] is Some,
        ensures
            *r == self@[index as int]->0,
    {
        match &self.cells[index] {
            Cell::Occupied(value) => value,
            Cell::Free(_) => vstd::pervasive::unreached(),
        }
    }

    /// Mutable access to the value in slot `index`, which must hold one.
    pub fn get_unchecked_mut(&mut self, index: usize) -> (r: &mut T)
        requires
            old(self).wf(),
            index < old(self)@.len(),
            old(self)@[index as int] is Some,
        ensures
            *r == old(self)@[index as int]->0,
            final(self).wf(),
            final(self).next_slot() == old(self).next_slot(),
            final(self).free_order() == old(self).free_order(),
            final(self)@ == old(self)@.update(index as int, Some(*final(r))),
    {
        proof {
            let a = *old(self);
            assert forall|b: Self|
                #![trigger b.wf()]
                #![trigger b.view()]
                b.free == a.free && b.deleted == a.deleted && b.free_list == a.free_list && b.cells@.len()
                    == a.cells@.len() && b.cells@[index as int] is Occupied && (forall|k: int|
                    0 <= k < a.cells@.len() && k != index ==> b.cells@[k] == a.cells@[k]) implies b.wf()
                && b.view() == a.view().update(index as int, b.view()[index as int]) by {
                assert(b.slots() =~= a.slots().update(index as int, b.slots()[index as int]));
                assert(Self::occupied(b.slots()) =~= Self::occupied(a.slots()));
                assert forall|i: int| 0 <= i < b.free_list@.len() implies b.free_list@[i]
                    < b.cells@.len() && #[trigger] b.cells@[b.free_list@[i] as int] == Cell::<T>::Free(
                    if i + 1 < b.free_list@.len() {
                        Some(b.free_list@[i + 1])
                    } else {
                        None::<usize>
                    },
                ) by {
                    assert(a.cells@[a.free_list@[i] as int] is Free);
                }
                assert forall|k: int| 0 <= k < b.cells@.len() && #[trigger] b.cells@[k] is Free implies b.free_list@.contains(
                    k as usize,
                ) by {
                    assert(a.cells@[k] is Free);
                }
            }
        }
        match &mut self.cells[index] {
            Cell::Occupied(value) => value,
            Cell::Free(_) => vstd::pervasive::unreached(),
        }
    }

    /// Iteration over the stored values, in slot order.
    pub fn iter(&self) -> (r: Iter<'_, T>)
        requires
            self.wf(),
        ensures
            r.valid(),
            r.remaining() == self@,
    {
        let r = Iter { cells: &self.cells, pos: 0 };
        assert(r.remaining() =~= self@);
        r
    }
}

/// The stored values of a sequence of slots, in slot order.
pub open spec fn stored_values<T>(slots: Seq<Option<T>>) -> Seq<T>
    decreases slots.len(),
{
    if slots.len() == 0 {
        Seq::empty()
    } else {
        match slots[0] {
            Some(v) => seq![v] + stored_values(slots.drop_first()),
            None => stored_values(slots.drop_first()),
        }
    }
}

/// Slots that are all free store nothing.
proof fn lemma_stored_none<T>(slots: Seq<Option<T>>)
    requires
        forall|j: int| 0 <= j < slots.len() ==> #[trigger] slots[j] is None,
    ensures
        stored_values(slots) == Seq::<T>::empty(),
    decreases slots.len(),
{
    if slots.len() > 0 {
        lemma_stored_none(slots.drop_first());
    }
}

/// The first stored value of slots whose first `i` slots are free is the one
/// in slot `i`.
proof fn lemma_stored_first<T>(slots: Seq<Option<T>>, i: int, v: T)
    requires
        0 <= i < slots.len(),
        slots[i] == Some(v),
        forall|j: int| 0 <= j < i ==> #[trigger] slots[j] is None,
    ensures
        stored_values(slots) == seq![v] + stored_values(slots.subrange(i + 1, slots.len() as int)),
    decreases i,
{
    if i == 0 {
        assert(slots.drop_first() =~= slots.subrange(1, slots.len() as int));
    } else {
        let rest = slots.drop_first();
        assert forall|j: int| 0 <= j < i - 1 implies #[trigger] rest[j] is None by {
            assert(rest[j] == slots[j + 1]);
        }
        lemma_stored_first(rest, i - 1, v);
        assert(rest.subrange(i, rest.len() as int) =~= slots.subrange(i + 1, slots.len() as int));
    }
}

/// The stored value of one slot, as a sequence of at most one value.
pub open spec fn slot_value<T>(slot: Option<T>) -> Seq<T> {
    match slot {
        Some(v) => seq![v],
        None => Seq::empty(),
    }
}

/// Appending a slot appends its stored value.
proof fn lemma_stored_push<T>(slots: Seq<Option<T>>, x: Option<T>)
    ensures
        stored_values(slots.push(x)) == stored_values(slots) + slot_value(x),
    decreases slots.len(),
{
    if slots.len() == 0 {
        assert(slots.push(x).drop_first() =~= Seq::<Option<T>>::empty());
        assert(stored_values(Seq::<Option<T>>::empty()) == Seq::<T>::empty());
        assert(stored_values(slots.push(x)) =~= stored_values(slots) + slot_value(x));
    } else {
        assert(slots.push(x).drop_first() =~= slots.drop_first().push(x));
        lemma_stored_push(slots.drop_first(), x);
        assert(stored_values(slots.push(x)) =~= stored_values(slots) + slot_value(x));
    }
}

/// A whole pass of `Iter::next`: if each call hands out `outs[k]` and moves
/// from the unvisited slots `rems[k]` to `rems[k + 1]` (as `next` ensures),
/// then the values handed out, followed by those still unvisited, are the
/// stored values the pass started from. A pass that ends with `None` has
/// nothing left unvisited, so it hands out exactly the stored values, in slot
/// order, as many as there are occupied slots.
pub proof fn law_iter_pass<T>(rems: Seq<Seq<Option<T>>>, outs: Seq<Option<T>>)
    requires
        rems.len() == outs.len() + 1,
        forall|k: int|
            0 <= k < outs.len() ==> stored_values(#[trigger] rems[k]) == slot_value(outs[k]) + stored_values(
                rems[k + 1],
            ),
    ensures
        stored_values(rems[0]) == stored_values(outs) + stored_values(rems[outs.len() as int]),
        stored_values(rems[outs.len() as int]).len() == 0 ==> stored_values(outs).len() == Block::<T>::occupied(
            rems[0],
        ).len(),
    decreases outs.len(),
{
    let n = outs.len();
    if n == 0 {
        assert(stored_values(outs) =~= Seq::<T>::empty());
        assert(stored_values(rems[0]) =~= stored_values(outs) + stored_values(rems[0]));
    } else {
        let rs = rems.drop_last();
        let os = outs.drop_last();
        assert forall|k: int| 0 <= k < os.len() implies stored_values(#[trigger] rs[k]) == slot_value(os[k])
            + stored_values(rs[k + 1]) by {
            assert(rs[k] == rems[k] && rs[k + 1] == rems[k + 1] && os[k] == outs[k]);
        }
        law_iter_pass(rs, os);
        assert(outs =~= os.push(outs[n - 1]));
        lemma_stored_push(os, outs[n - 1]);
        assert(stored_values(rems[n - 1]) == slot_value(outs[n - 1]) + stored_values(rems[n as int]));
        assert(stored_values(rems[0]) =~= stored_values(outs) + stored_values(rems[n as int]));
    }
    Block::<T>::lemma_stored_count(rems[0]);
}

/// Iteration over the stored values of a `Block`, in slot order.
pub struct Iter<'a, T> {
    cells: &'a Vec<Cell<T>>,
    pos: usize,
}

impl<'a, T> Iter<'a, T> {
    /// The slots not yet visited.
    pub closed spec fn remaining(&self) -> Seq<Option<T>> {
        self.cells@.subrange(self.pos as int, self.cells@.len() as int).map_values(
            |c: Cell<T>|
                match c {
                    Cell::Occupied(v) => Some(v),
                    Cell::Free(_) => None,
                },
        )
    }

    /// The cursor's internal invariant.
    pub closed spec fn valid(&self) -> bool {
        self.pos <= self.cells@.len()
    }

    /// The next stored value, skipping free slots, or `None` at the end.
    pub fn next(&mut self) -> (r: Option<&'a T>)
        requires
            old(self).valid(),
        ensures
            final(self).valid(),
            r is None ==> forall|i: int|
                0 <= i < old(self).remaining().len() ==> old(self).remaining()[i] is None,
            r is None ==> final(self).remaining().len() == 0,
            r is Some ==> exists|i: int|
                0 <= i < old(self).remaining().len() && old(self).remaining()[i] == Some(*r->0)
                    && (forall|j: int| 0 <= j < i ==> old(self).remaining()[j] is None)
                    && final(self).remaining() == old(self).remaining().subrange(
                    i + 1,
                    old(self).remaining().len() as int,
                ),
            stored_values(old(self).remaining()) == (match r {
                Some(v) => seq![*v],
                None => Seq::<T>::empty(),
            }) + stored_values(final(self).remaining()),
    {
        while self.pos < self.cells.len()
            invariant
                old(self).pos <= self.pos <= self.cells@.len(),
                self.cells == old(self).cells,
                forall|j: int| old(self).pos <= j < self.pos ==> self.cells@[j] is Free,
            decreases self.cells@.len() - self.pos,
        {
            let i = self.pos;
            self.pos = self.pos + 1;
            if let Cell::Occupied(v) = &self.cells[i] {
                proof {
                    let k = i - old(self).pos;
                    assert(old(self).remaining()[k] == Some(*v));
                    assert forall|j: int| 0 <= j < k implies old(self).remaining()[j] is None by {
                        assert(self.cells@[old(self).pos + j] is Free);
                    }
                    assert(self.remaining() =~= old(self).remaining().subrange(
                        k + 1,
                        old(self).remaining().len() as int,
                    ));
                    lemma_stored_first(old(self).remaining(), k, *v);
                }
                return Some(v);
            }
        }
        proof {
            assert forall|i: int| 0 <= i < old(self).remaining().len() implies old(
                self,
            ).remaining()[i] is None by {
                assert(self.cells@[old(self).pos + i] is Free);
            }
            lemma_stored_none(old(self).remaining());
            lemma_stored_none(self.remaining());
            assert(Seq::<T>::empty() + Seq::<T>::empty() =~= Seq::<T>::empty());
        }
        None
    }
}

} // verus!
