//! The timeout heap: delivered jobs ordered by the instant of their delivery.
//!
//! The heap holds one small entry per delivery. Its root is always the entry
//! that was delivered first, so a sweep finds the next candidate for a timeout
//! without scanning every pending job.

use vstd::multiset::{group_multiset_axioms, lemma_multiset_empty_len, Multiset};
use vstd::prelude::*;
use vstd::seq_lib::{to_multiset_build, to_multiset_contains, to_multiset_len, to_multiset_update};

verus! {

/// One delivery: when the job was handed out, and which job it was.
#[derive(Clone, Copy, Debug)]
pub struct TimeoutEntry {
    /// Clock reading, in nanoseconds, at the instant of delivery.
    pub sent: u128,
    /// Identifier of the delivered job.
    pub id: u64,
}

impl TimeoutEntry {
    /// The order of the heap: earlier delivery first, and among deliveries of
    /// the same instant the smaller id first.
    pub open spec fn no_later_than(self, other: TimeoutEntry) -> bool {
        self.sent < other.sent || (self.sent == other.sent && self.id <= other.id)
    }

    /// Decides the order of the heap for two entries.
    pub fn is_no_later_than(&self, other: &TimeoutEntry) -> (earlier: bool)
        ensures
            earlier == self.no_later_than(*other),
    {
        self.sent < other.sent || (self.sent == other.sent && self.id <= other.id)
    }
}

/// The order is antisymmetric: two entries that are each no later than the
/// other are the same entry.
pub proof fn lemma_order_antisymmetric(a: TimeoutEntry, b: TimeoutEntry)
    requires
        a.no_later_than(b),
        b.no_later_than(a),
    ensures
        a == b,
{
}

/// Position of the parent of slot `i` in the implicit binary tree.
spec fn parent(i: int) -> int {
    (i - 1) / 2
}

/// Slot `i` respects the heap order with regard to its parent.
spec fn ordered_at(slots: Seq<TimeoutEntry>, i: int) -> bool {
    slots[parent(i)].no_later_than(slots[i])
}

/// Every slot but the root respects the heap order.
spec fn heap_ordered(slots: Seq<TimeoutEntry>) -> bool {
    forall|i: int| 0 < i < slots.len() ==> #[trigger] ordered_at(slots, i)
}

/// In an ordered heap the root is no later than any other slot.
proof fn lemma_root_is_first(slots: Seq<TimeoutEntry>, i: int)
    requires
        heap_ordered(slots),
        0 <= i < slots.len(),
    ensures
        slots[0].no_later_than(slots[i]),
    decreases i,
{
    if i > 0 {
        assert(ordered_at(slots, i));
        lemma_root_is_first(slots, parent(i));
    }
}

/// Exchanging two slots changes the layout and not the contents.
proof fn lemma_swap_keeps_contents(slots: Seq<TimeoutEntry>, a: int, b: int)
    requires
        0 <= a < slots.len(),
        0 <= b < slots.len(),
        a != b,
    ensures
        slots.update(a, slots[b]).update(b, slots[a]).to_multiset() == slots.to_multiset(),
{
    broadcast use group_multiset_axioms;
    let half = slots.update(a, slots[b]);
    to_multiset_update(slots, a, slots[b]);
    to_multiset_update(half, b, slots[a]);
    to_multiset_contains(slots, slots[a]);
    to_multiset_contains(slots, slots[b]);
    assert(slots.contains(slots[a]));
    assert(slots.contains(slots[b]));
    assert(half.update(b, slots[a]).to_multiset() =~= slots.to_multiset());
}

/// A binary min-heap of deliveries.
pub struct TimeoutHeap {
    slots: Vec<TimeoutEntry>,
}

impl TimeoutHeap {
    /// What the heap holds, without regard to its layout.
    pub closed spec fn view(&self) -> Multiset<TimeoutEntry> {
        self.slots@.to_multiset()
    }

    /// The layout invariant: each slot is no earlier than its parent.
    pub closed spec fn wf(&self) -> bool {
        heap_ordered(self.slots@)
    }

    /// An empty heap.
    pub fn new() -> (heap: TimeoutHeap)
        ensures
            heap.wf(),
            heap@ == Multiset::<TimeoutEntry>::empty(),
    {
        let heap = TimeoutHeap { slots: Vec::new() };
        proof {
            to_multiset_len(heap.slots@);
            lemma_multiset_empty_len(heap.slots@.to_multiset());
        }
        heap
    }

    /// The entry that was delivered first, if there is any entry.
    pub fn peek(&self) -> (first: Option<TimeoutEntry>)
        requires
            self.wf(),
        ensures
            match first {
                Some(entry) => self@.contains(entry) && forall|other: TimeoutEntry|
                    self@.contains(other) ==> entry.no_later_than(other),
                None => self@.len() == 0,
            },
    {
        proof {
            broadcast use to_multiset_len;
        }
        if self.slots.len() == 0 {
            None
        } else {
            let entry = self.slots[0];
            proof {
                self.lemma_root_is_minimum();
            }
            Some(entry)
        }
    }

    /// Adds one entry.
    pub fn push(&mut self, entry: TimeoutEntry)
        requires
            old(self).wf(),
        ensures
            final(self).wf(),
            final(self)@ == old(self)@.insert(entry),
    {
        self.slots.push(entry);
        proof {
            broadcast use to_multiset_build;
            assert forall|j: int| 0 < j < self.slots@.len() && j != self.slots@.len() - 1 implies
                #[trigger] ordered_at(self.slots@, j) by {
                assert(ordered_at(old(self).slots@, j));
            }
        }
        let mut i: usize = self.slots.len() - 1;
        while i > 0
            invariant
                i < self.slots.len(),
                self.slots@.to_multiset() == old(self)@.insert(entry),
                forall|j: int| 0 < j < self.slots@.len() && j != i ==> #[trigger] ordered_at(self.slots@, j),
                forall|j: int| 0 < j < self.slots@.len() && parent(j) == i && i > 0
                    ==> self.slots@[parent(i as int)].no_later_than(#[trigger] self.slots@[j]),
            ensures
                heap_ordered(self.slots@),
                self.slots@.to_multiset() == old(self)@.insert(entry),
            decreases i,
        {
            let up: usize = (i - 1) / 2;
            let child = self.slots[i];
            let above = self.slots[up];
            if above.is_no_later_than(&child) {
                assert(ordered_at(self.slots@, i as int));
                break;
            }
            let ghost before = self.slots@;
            self.slots.set(up, child);
            self.slots.set(i, above);
            proof {
                lemma_swap_keeps_contents(before, up as int, i as int);
                assert(self.slots@ =~= before.update(up as int, child).update(i as int, above));
                assert forall|j: int| 0 < j < self.slots@.len() && j != up implies
                    #[trigger] ordered_at(self.slots@, j) by {
                    if j != i {
                        assert(ordered_at(before, j));
                    }
                }
                assert forall|j: int| 0 < j < self.slots@.len() && parent(j) == up && up > 0
                    implies self.slots@[parent(up as int)].no_later_than(#[trigger] self.slots@[j]) by {
                    assert(ordered_at(before, up as int));
                    if j != i {
                        assert(ordered_at(before, j));
                    }
                }
            }
            i = up;
        }
    }

    /// Removes the entry that was delivered first, if there is any entry.
    pub fn pop(&mut self) -> (first: Option<TimeoutEntry>)
        requires
            old(self).wf(),
        ensures
            final(self).wf(),
            match first {
                Some(entry) => {
                    &&& old(self)@.contains(entry)
                    &&& forall|other: TimeoutEntry| old(self)@.contains(other) ==> entry.no_later_than(other)
                    &&& final(self)@ == old(self)@.remove(entry)
                },
                None => old(self)@.len() == 0 && final(self)@ == old(self)@,
            },
    {
        proof {
            broadcast use to_multiset_len;
            if self.slots@.len() > 0 {
                self.lemma_root_is_minimum();
            }
        }
        let last = match self.slots.pop() {
            Some(last) => last,
            None => {
                return None;
            },
        };
        let ghost full = old(self).slots@;
        proof {
            broadcast use to_multiset_build;
            assert(full =~= self.slots@.push(last));
            assert(self.slots@.to_multiset() =~= full.to_multiset().remove(last));
            assert forall|j: int| 0 < j < self.slots@.len() implies #[trigger] ordered_at(self.slots@, j) by {
                assert(ordered_at(full, j));
            }
        }
        let len: usize = self.slots.len();
        if len == 0 {
            return Some(last);
        }
        let root = self.slots[0];
        self.slots.set(0, last);
        proof {
            broadcast use to_multiset_update;
            assert(self.slots@.to_multiset() =~= full.to_multiset().remove(root));
            assert forall|j: int| 0 < j < self.slots@.len() && parent(j) != 0 implies
                #[trigger] ordered_at(self.slots@, j) by {
                assert(ordered_at(full, j));
            }
        }
        let mut i: usize = 0;
        while i < len / 2
            invariant
                len == self.slots.len(),
                i < len,
                self.slots@.to_multiset() == old(self)@.remove(root),
                forall|j: int| 0 < j < len && parent(j) != i ==> #[trigger] ordered_at(self.slots@, j),
                forall|j: int| 0 < j < len && parent(j) == i && i > 0
                    ==> self.slots@[parent(i as int)].no_later_than(#[trigger] self.slots@[j]),
            ensures
                heap_ordered(self.slots@),
                self.slots@.to_multiset() == old(self)@.remove(root),
            decreases len - i,
        {
            let left: usize = 2 * i + 1;
            let right: usize = left + 1;
            let mut least: usize = left;
            if right < len {
                let r = self.slots[right];
                let l = self.slots[left];
                if !l.is_no_later_than(&r) {
                    least = right;
                }
            }
            let here = self.slots[i];
            let below = self.slots[least];
            if here.is_no_later_than(&below) {
                assert forall|j: int| 0 < j < len implies #[trigger] ordered_at(self.slots@, j) by {
                    if parent(j) == i {
                        assert(j == left || j == right);
                    }
                }
                break;
            }
            let ghost before = self.slots@;
            self.slots.set(i, below);
            self.slots.set(least, here);
            proof {
                lemma_swap_keeps_contents(before, i as int, least as int);
                assert(self.slots@ =~= before.update(i as int, below).update(least as int, here));
                assert forall|j: int| 0 < j < len && parent(j) != least implies
                    #[trigger] ordered_at(self.slots@, j) by {
                    if parent(j) == i {
                        assert(j == left || j == right);
                    } else if j == i {
                        assert(before[parent(i as int)].no_later_than(before[least as int]));
                    } else {
                        assert(ordered_at(before, j));
                    }
                }
                assert forall|j: int| 0 < j < len && parent(j) == least && least > 0
                    implies self.slots@[parent(least as int)].no_later_than(#[trigger] self.slots@[j]) by {
                    assert(ordered_at(before, j));
                }
            }
            i = least;
        }
        proof {
            if i >= len / 2 {
                assert forall|j: int| 0 < j < len implies #[trigger] ordered_at(self.slots@, j) by {
                    if parent(j) == i {
                        assert(j >= 2 * i + 1);
                    }
                }
            }
        }
        Some(root)
    }

    /// The root of a well-formed heap is the least of all its entries.
    proof fn lemma_root_is_minimum(&self)
        requires
            self.wf(),
            self.slots@.len() > 0,
        ensures
            self@.contains(self.slots@[0]),
            forall|other: TimeoutEntry| self@.contains(other) ==> self.slots@[0].no_later_than(other),
    {
        broadcast use to_multiset_contains;
        assert(self.slots@.contains(self.slots@[0]));
        assert forall|other: TimeoutEntry| self@.contains(other) implies self.slots@[0].no_later_than(
            other,
        ) by {
            assert(self.slots@.contains(other));
            let i = choose|i: int| 0 <= i < self.slots@.len() && self.slots@[i] == other;
            lemma_root_is_first(self.slots@, i);
        }
    }
}

} // verus!
