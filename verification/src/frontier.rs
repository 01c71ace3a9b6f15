//! The priority frontier of the search: a binary heap.

use vstd::prelude::*;
use vstd::seq_lib::{to_multiset_build, to_multiset_contains, to_multiset_remove, to_multiset_update};
use crate::handle::LocationId;

verus! {

/// A location waiting to be expanded, with the cost key under which it was
/// discovered.
#[derive(Clone, Copy, Debug)]
pub struct Entry {
    pub cost: u64,
    pub position: LocationId,
}

/// The order in which entries leave the frontier: by ascending cost, and
/// among equal costs by ascending handle index.
pub open spec fn comes_first(a: Entry, b: Entry) -> bool {
    a.cost < b.cost || (a.cost == b.cost && a.position.index() <= b.position.index())
}

/// Whether `a` leaves the frontier no later than `b`.
fn precedes(a: Entry, b: Entry) -> (r: bool)
    ensures
        r == comes_first(a, b),
{
    a.cost < b.cost || (a.cost == b.cost && a.position.index() <= b.position.index())
}

/// The slot above slot `k` of the heap.
spec fn parent(k: int) -> int {
    (k - 1) / 2
}

/// No slot holds an entry that comes before the one above it.
spec fn ordered(h: Seq<Entry>) -> bool {
    forall|k: int| 0 < k < h.len() ==> comes_first(h[parent(k)], #[trigger] h[k])
}

/// Heap order but for slot `hole`, which is held against neither the slot
/// above it nor the slots below it; the slots below it are in order with the
/// slot above it.
spec fn ordered_but(h: Seq<Entry>, hole: int, upward: bool) -> bool {
    &&& forall|k: int|
        0 < k < h.len() && (if upward {
            k != hole
        } else {
            parent(k) != hole
        }) ==> comes_first(h[parent(k)], #[trigger] h[k])
    &&& forall|k: int|
        0 < k < h.len() && parent(k) == hole && hole > 0 ==> comes_first(
            h[parent(hole)],
            #[trigger] h[k],
        )
}

/// In an ordered heap the top slot comes first of all.
proof fn lemma_top_comes_first(h: Seq<Entry>, k: int)
    requires
        ordered(h),
        0 <= k < h.len(),
    ensures
        comes_first(h[0], h[k]),
    decreases k,
{
    if k > 0 {
        lemma_top_comes_first(h, parent(k));
        assert(comes_first(h[parent(k)], h[k]));
    }
}

/// Exchanging two slots keeps what the heap holds.
proof fn lemma_exchange(h: Seq<Entry>, i: int, j: int)
    requires
        0 <= i < h.len(),
        0 <= j < h.len(),
    ensures
        h.update(i, h[j]).update(j, h[i]).to_multiset() == h.to_multiset(),
{
    broadcast use vstd::multiset::group_multiset_axioms;

    to_multiset_update(h, i, h[j]);
    to_multiset_update(h.update(i, h[j]), j, h[i]);
    to_multiset_contains(h, h[i]);
    to_multiset_contains(h, h[j]);
    assert(h.contains(h[i]));
    assert(h.contains(h[j]));
    assert(h.update(i, h[j]).update(j, h[i]).to_multiset() =~= h.to_multiset());
}

/// What the heap holds once its last slot has been moved to the top: all
/// but the entry that was at the top.
proof fn lemma_without_top(full: Seq<Entry>)
    requires
        full.len() > 0,
    ensures
        full.len() == 1 ==> full.drop_last().to_multiset() == full.to_multiset().remove(full[0]),
        full.len() > 1 ==> full.drop_last().update(0, full.last()).to_multiset()
            == full.to_multiset().remove(full[0]),
{
    broadcast use vstd::multiset::group_multiset_axioms;

    let rest = full.drop_last();
    assert(rest =~= full.remove(full.len() - 1));
    to_multiset_remove(full, full.len() - 1);
    if full.len() > 1 {
        to_multiset_update(rest, 0, full.last());
        to_multiset_contains(full, full.last());
        assert(full.contains(full.last()));
        assert(rest[0] == full[0]);
        assert(rest.update(0, full.last()).to_multiset() =~= full.to_multiset().remove(full[0]));
    }
}

/// Where a value occurs in a sequence, it occurs somewhere first.
proof fn lemma_first_occurrence(s: Seq<Entry>, e: Entry) -> (i: int)
    requires
        s.contains(e),
    ensures
        0 <= i < s.len(),
        s[i] == e,
        forall|j: int| 0 <= j < i ==> s[j] != e,
    decreases s.len(),
{
    let front = s.drop_last();
    if front.contains(e) {
        let i = lemma_first_occurrence(front, e);
        assert(front[i] == s[i]);
        assert forall|j: int| 0 <= j < i implies s[j] != e by {
            assert(front[j] == s[j]);
        }
        i
    } else {
        let k = choose|k: int| 0 <= k < s.len() && s[k] == e;
        assert forall|j: int| 0 <= j < s.len() - 1 implies s[j] != e by {
            assert(front[j] == s[j]);
        }
        s.len() - 1
    }
}

/// The locations discovered but not yet expanded.
///
/// Entries are never revised in place: a location that is discovered again
/// at a lower cost is entered again, and the search passes over the
/// outdated entry when it comes out. The view is the entries still waiting,
/// in the order in which they were entered.
pub struct Frontier {
    heap: Vec<Entry>,
    entered: Ghost<Seq<Entry>>,
}

impl View for Frontier {
    type V = Seq<Entry>;

    closed spec fn view(&self) -> Seq<Entry> {
        self.entered@
    }
}

impl Frontier {
    /// The heap is in order and holds exactly the entries still waiting.
    pub closed spec fn wf(&self) -> bool {
        &&& ordered(self.heap@)
        &&& self.heap@.to_multiset() == self.entered@.to_multiset()
    }

    pub fn new() -> (f: Self)
        ensures
            f.wf(),
            f@ == Seq::<Entry>::empty(),
    {
        Frontier { heap: Vec::new(), entered: Ghost(Seq::empty()) }
    }

    pub fn push(&mut self, entry: Entry)
        requires
            old(self).wf(),
        ensures
            final(self).wf(),
            final(self)@ == old(self)@.push(entry),
    {
        proof {
            to_multiset_build(self.heap@, entry);
            to_multiset_build(self.entered@, entry);
        }
        self.heap.push(entry);
        self.entered = Ghost(self.entered@.push(entry));
        let mut k: usize = self.heap.len() - 1;
        while k > 0 && !precedes(self.heap[(k - 1) / 2], self.heap[k])
            invariant
                k < self.heap@.len(),
                self.entered@ == old(self).entered@.push(entry),
                self.heap@.to_multiset() == self.entered@.to_multiset(),
                ordered_but(self.heap@, k as int, true),
            decreases k,
        {
            let up: usize = (k - 1) / 2;
            let ghost before = self.heap@;
            let above = self.heap[up];
            let below = self.heap[k];
            self.heap.set(up, below);
            self.heap.set(k, above);
            proof {
                lemma_exchange(before, up as int, k as int);
                let after = self.heap@;
                assert(comes_first(below, above));
                assert forall|j: int| 0 < j < after.len() && j != up implies comes_first(
                    after[parent(j)],
                    #[trigger] after[j],
                ) by {
                    if j == k {
                    } else if parent(j) == k {
                        assert(comes_first(before[parent(k as int)], before[j]));
                    } else if parent(j) == up {
                        assert(comes_first(before[parent(j)], before[j]));
                    } else {
                        assert(comes_first(before[parent(j)], before[j]));
                    }
                }
                assert forall|j: int|
                    0 < j < after.len() && parent(j) == up && up > 0 implies comes_first(
                    after[parent(up as int)],
                    #[trigger] after[j],
                ) by {
                    assert(comes_first(before[parent(up as int)], before[up as int]));
                    if j != k {
                        assert(comes_first(before[parent(j)], before[j]));
                    }
                }
            }
            k = up;
        }
    }

    /// Take out the entry that comes first. Among entries equal in cost and
    /// handle, the earliest entered leaves; the others keep their order.
    pub fn pop(&mut self) -> (r: Option<Entry>)
        requires
            old(self).wf(),
        ensures
            final(self).wf(),
            old(self)@.len() == 0 ==> r is None && final(self)@ == old(self)@,
            old(self)@.len() > 0 ==> r is Some,
            r matches Some(e) ==> exists|i: int|
                {
                    &&& 0 <= i < old(self)@.len()
                    &&& #[trigger] old(self)@[i] == e
                    &&& final(self)@ == old(self)@.remove(i)
                    &&& forall|j: int|
                        0 <= j < old(self)@.len() ==> comes_first(e, #[trigger] old(self)@[j])
                    &&& forall|j: int|
                        0 <= j < i ==> !comes_first(#[trigger] old(self)@[j], e)
                },
    {
        proof {
            vstd::seq_lib::to_multiset_len(self.heap@);
            vstd::seq_lib::to_multiset_len(self.entered@);
        }
        if self.heap.len() == 0 {
            return None;
        }
        let ghost full = self.heap@;
        let ghost waiting = self.entered@;
        let last = self.heap.pop().unwrap();
        let top = if self.heap.len() == 0 {
            last
        } else {
            let top = self.heap[0];
            self.heap.set(0, last);
            self.settle();
            top
        };
        proof {
            assert(top == full[0]);
            lemma_without_top(full);
            assert(self.heap@.to_multiset() == full.to_multiset().remove(top));
            assert(full.contains(top));
            to_multiset_contains(full, top);
            to_multiset_contains(waiting, top);
            let i = lemma_first_occurrence(waiting, top);
            to_multiset_remove(waiting, i);
            self.entered = Ghost(waiting.remove(i));
            assert forall|j: int| 0 <= j < waiting.len() implies comes_first(
                top,
                #[trigger] waiting[j],
            ) by {
                to_multiset_contains(waiting, waiting[j]);
                to_multiset_contains(full, waiting[j]);
                assert(waiting.contains(waiting[j]));
                let k = choose|k: int| 0 <= k < full.len() && full[k] == waiting[j];
                lemma_top_comes_first(full, k);
            }
            assert forall|j: int| 0 <= j < i implies !comes_first(#[trigger] waiting[j], top) by {
                assert(comes_first(top, waiting[j]));
                if comes_first(waiting[j], top) {
                    waiting[j].position.lemma_same_index(top.position);
                }
            }
            assert(old(self)@ == waiting);
            assert(self@ == waiting.remove(i));
            assert(old(self)@[i] == top);
        }
        Some(top)
    }

    /// Let the entry in the top slot sink to its place.
    fn settle(&mut self)
        requires
            old(self).heap@.len() > 0,
            ordered_but(old(self).heap@, 0, false),
        ensures
            ordered(final(self).heap@),
            final(self).heap@.to_multiset() == old(self).heap@.to_multiset(),
            final(self).entered == old(self).entered,
    {
        let mut k: usize = 0;
        let len = self.heap.len();
        loop
            invariant
                len == self.heap@.len(),
                k < len,
                self.heap@.to_multiset() == old(self).heap@.to_multiset(),
                self.entered == old(self).entered,
                ordered_but(self.heap@, k as int, false),
            ensures
                ordered(self.heap@),
            decreases len - k,
        {
            if k >= len / 2 {
                break ;
            }
            let left: usize = 2 * k + 1;
            let right: usize = left + 1;
            let child: usize = if right < len && !precedes(self.heap[left], self.heap[right]) {
                right
            } else {
                left
            };
            if precedes(self.heap[k], self.heap[child]) {
                proof {
                    let h = self.heap@;
                    assert forall|j: int| 0 < j < h.len() implies comes_first(
                        h[parent(j)],
                        #[trigger] h[j],
                    ) by {
                        if parent(j) == k {
                            assert(j == left || j == right);
                        }
                    }
                }
                break ;
            }
            let ghost before = self.heap@;
            let above = self.heap[k];
            let below = self.heap[child];
            self.heap.set(k, below);
            self.heap.set(child, above);
            proof {
                lemma_exchange(before, k as int, child as int);
                let after = self.heap@;
                assert(comes_first(below, above));
                assert forall|j: int|
                    0 < j < after.len() && parent(j) != child implies comes_first(
                    after[parent(j)],
                    #[trigger] after[j],
                ) by {
                    if j == child {
                    } else if parent(j) == k {
                        assert(j == left || j == right);
                        assert(comes_first(before[child as int], before[j]));
                    } else if j == k {
                        assert(comes_first(before[parent(k as int)], before[child as int]));
                    } else {
                        assert(comes_first(before[parent(j)], before[j]));
                    }
                }
                assert forall|j: int|
                    0 < j < after.len() && parent(j) == child && child > 0 implies comes_first(
                    after[parent(child as int)],
                    #[trigger] after[j],
                ) by {
                    assert(comes_first(before[parent(j)], before[j]));
                }
            }
            k = child;
        }
    }
}

} // verus!
