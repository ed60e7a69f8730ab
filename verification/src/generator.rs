//! The generator: a free list held in a vector, with `get_slot` to take an
//! identifier and `replace_slot` to give one back.

use crate::ranges::{
    acquire, initial, lemma_acquire, lemma_initial, lemma_nothing_free, lemma_rank, lemma_rank_is,
    lemma_release, lemma_upper, members, merged, rank, release, size, spans, well_formed,
};
use crate::slot::Slot;
use std::ops::Range;
use vstd::prelude::*;
use vstd::set_lib::set_int_range;

verus! {

/// The error of `get_slot`: no identifier is free.
#[derive(Debug, Clone, Copy, PartialEq, Eq)]
pub struct PoolExhausted;

/// The error of `replace_slot`: the identifier is already free.
#[derive(Debug, Clone, Copy, PartialEq, Eq)]
pub struct DoubleRelease;

/// Hands out identifiers of type `T` from a range and takes them back.
///
/// The free identifiers are held as ranges `start..end`, sorted, disjoint
/// and never adjacent: that is the invariant of the type, `wf`. The view of
/// a generator is that list, each range as the pair of integers
/// `(start, end)`.
#[derive(Debug)]
pub struct SlotGenerator<T: Slot> {
    slots: Vec<Range<T>>,
}

/// The ranges of `v`, each as the pair of the integers its ends stand for.
spec fn pairs<T: Slot>(v: Seq<Range<T>>) -> Seq<(int, int)> {
    Seq::new(v.len(), |i: int| (v[i].start.value(), v[i].end.value()))
}

impl<T: Slot> View for SlotGenerator<T> {
    type V = Seq<(int, int)>;

    closed spec fn view(&self) -> Seq<(int, int)> {
        pairs(self.slots@)
    }
}

impl<T: Slot> Clone for SlotGenerator<T> {
    /// A generator with the same free list.
    fn clone(&self) -> (g: Self)
        ensures
            g@ == self@,
    {
        let slots = self.ranges();
        proof {
            use_type_invariant(self);
            assert(pairs(slots@) =~= self@);
        }
        SlotGenerator { slots }
    }
}

impl<T: Slot> SlotGenerator<T> {
    /// The invariant of the type, which holds of every generator at all
    /// times: the free list is well-formed.
    #[verifier::type_invariant]
    pub open spec fn wf(&self) -> bool {
        well_formed(self@)
    }

    /// The set of free identifiers.
    pub open spec fn free(&self) -> Set<int> {
        members(self@)
    }

    /// How many identifiers are free.
    pub open spec fn free_count(&self) -> int {
        size(self@)
    }

    /// A generator over `range`, with every identifier of it free. A range
    /// whose start is not below its end holds no identifier.
    pub fn new(range: Range<T>) -> (g: Self)
        ensures
            g.wf(),
            g@ == initial(range.start.value(), range.end.value()),
            g.free() == set_int_range(range.start.value(), range.end.value()),
            g.free_count() == (if range.start.value() < range.end.value() {
                range.end.value() - range.start.value()
            } else {
                0
            }),
    {
        let mut slots: Vec<Range<T>> = Vec::new();
        if range.start.precedes(range.end) {
            slots.push(range);
        }
        proof {
            assert(pairs(slots@) =~= initial(range.start.value(), range.end.value()));
            lemma_initial(range.start.value(), range.end.value());
        }
        SlotGenerator { slots }
    }

    /// The free ranges, lowest first.
    pub fn ranges(&self) -> (v: Vec<Range<T>>)
        ensures
            v@.len() == self@.len(),
            forall|i: int|
                0 <= i < v@.len() ==> (#[trigger] v@[i].start.value(), v@[i].end.value())
                    == self@[i],
    {
        let mut v: Vec<Range<T>> = Vec::new();
        let mut i: usize = 0;
        while i < self.slots.len()
            invariant
                i <= self.slots.len(),
                v@.len() == i,
                forall|j: int| 0 <= j < i ==> #[trigger] v@[j] == self.slots@[j],
            decreases self.slots.len() - i,
        {
            v.push(Range { start: self.slots[i].start, end: self.slots[i].end });
            i += 1;
        }
        v
    }

    /// Takes a free identifier: the lowest one of the highest range. Fails,
    /// and changes nothing, where none is free.
    pub fn get_slot(&mut self) -> (r: Result<T, PoolExhausted>)
        ensures
            final(self).wf(),
            (match acquire(old(self)@) {
                Some((id, rest)) => {
                    r matches Ok(slot) && slot.value() == id && final(self)@ == rest
                },
                None => r is Err && *final(self) == *old(self),
            }),
            r is Err <==> old(self).free() == Set::<int>::empty(),
            r is Err <==> old(self).free_count() == 0,
            r matches Ok(slot) ==> ({
                &&& old(self).free().contains(slot.value())
                &&& final(self).free() == old(self).free().remove(slot.value())
                &&& final(self).free_count() == old(self).free_count() - 1
                &&& slot.value() < T::greatest()
            }),
    {
        proof {
            use_type_invariant(&*self);
            lemma_nothing_free(self@);
        }
        let len = self.slots.len();
        if len == 0 {
            return Err(PoolExhausted);
        }
        let top = len - 1;
        let slot = self.slots[top].start;
        let end = self.slots[top].end;
        proof {
            lemma_acquire(self@);
            T::lemma_value_bounded(end);
            assert(self@[top as int] == (slot.value(), end.value()));
        }
        let next = slot.succ();
        let mut slots: Vec<Range<T>> = Vec::new();
        std::mem::swap(&mut slots, &mut self.slots);
        if next.same(end) {
            slots.pop();
        } else {
            slots.set(top, Range { start: next, end });
        }
        assert(pairs(slots@) =~= acquire(old(self)@).unwrap().1);
        self.slots = slots;
        Ok(slot)
    }

    /// How many ranges end below `slot`, found by bisection.
    fn rank_of(&self, slot: T) -> (k: usize)
        ensures
            k == rank(self@, slot.value()),
            k <= self.slots.len(),
    {
        proof {
            use_type_invariant(self);
        }
        let ghost id = slot.value();
        let mut lo: usize = 0;
        let mut hi: usize = self.slots.len();
        while lo < hi
            invariant
                self.wf(),
                id == slot.value(),
                lo <= hi <= self.slots.len(),
                forall|j: int| 0 <= j < lo ==> (#[trigger] self@[j]).1 < id,
                forall|j: int| hi <= j < self.slots.len() ==> (#[trigger] self@[j]).1 >= id,
            decreases hi - lo,
        {
            let mid = lo + (hi - lo) / 2;
            if self.slots[mid].end.precedes(slot) {
                assert forall|j: int| 0 <= j < mid + 1 implies (#[trigger] self@[j]).1 < id by {
                    if j < mid {
                        assert(self@[j].1 < self@[mid as int].0);
                    }
                }
                lo = mid + 1;
            } else {
                assert forall|j: int| mid <= j < self.slots.len() implies
                    (#[trigger] self@[j]).1 >= id by {
                    if j > mid {
                        assert(self@[mid as int].1 < self@[j].0);
                    }
                }
                hi = mid;
            }
        }
        proof {
            lemma_rank_is(self@, id, lo as int);
        }
        lo
    }

    /// Gives `slot` back. Fails, and changes nothing, where `slot` is
    /// already free. Else `slot` joins the range that ends at it and the
    /// range that starts just above it, where there are such ranges, and
    /// these become one range; with neither, it becomes a range of its own.
    ///
    /// A generator keeps no record of what it has handed out: an identifier
    /// that is not free is taken, wherever it comes from.
    ///
    /// The greatest value of `T` cannot be released: no half-open range
    /// over `T` holds it.
    pub fn replace_slot(&mut self, slot: T) -> (r: Result<(), DoubleRelease>)
        requires
            slot.value() < T::greatest(),
        ensures
            final(self).wf(),
            (match release(old(self)@, slot.value()) {
                Some(after) => r is Ok && final(self)@ == after,
                None => r is Err && *final(self) == *old(self),
            }),
            r is Err <==> old(self).free().contains(slot.value()),
            r is Ok ==> ({
                &&& final(self).free() == old(self).free().insert(slot.value())
                &&& final(self).free_count() == old(self).free_count() + 1
            }),
    {
        let ghost id = slot.value();
        let len = self.slots.len();
        let k = self.rank_of(slot);
        proof {
            use_type_invariant(&*self);
            lemma_rank(self@, id);
            lemma_release(self@, id);
        }
        let mut joins_below = false;
        if k < len {
            let start = self.slots[k].start;
            let end = self.slots[k].end;
            assert(self@[k as int] == (start.value(), end.value()));
            if end.same(slot) {
                joins_below = true;
            } else if !slot.precedes(start) {
                assert(spans(self@[k as int], id));
                return Err(DoubleRelease);
            }
        }
        proof {
            assert forall|j: int| 0 <= j < len implies !spans(#[trigger] self@[j], id) by {
                if j > k {
                    assert(self@[k as int].1 < self@[j].0);
                }
            }
            lemma_upper(self@, id);
        }
        let m = if joins_below { k + 1 } else { k };
        let next = slot.succ();
        let joins_above = m < len && self.slots[m].start.same(next);
        let mut slots: Vec<Range<T>> = Vec::new();
        std::mem::swap(&mut slots, &mut self.slots);
        if joins_below {
            let start = slots[k].start;
            if joins_above {
                let end = slots[m].end;
                slots.set(k, Range { start, end });
                slots.remove(m);
            } else {
                slots.set(k, Range { start, end: next });
            }
        } else if joins_above {
            let end = slots[m].end;
            slots.set(m, Range { start: slot, end });
        } else {
            slots.insert(k, Range { start: slot, end: next });
        }
        assert(pairs(slots@) =~= merged(old(self)@, id));
        self.slots = slots;
        Ok(())
    }
}

} // verus!
