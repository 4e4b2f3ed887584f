//! The priority discipline: a binary heap of configurations, the one with
//! the fewest people left on the left bank first.

use crate::frontier::StateQueue;
use crate::state::{remaining, score, State};
use vstd::multiset::Multiset;
use vstd::prelude::*;

verus! {

broadcast use {vstd::seq_lib::group_to_multiset_ensures, vstd::multiset::group_multiset_axioms};

/// The place of the configuration that the one at `place` is stacked under.
spec fn parent(place: int) -> int {
    (place - 1) / 2
}

/// The configuration at `place` has no fewer people left than the one it is
/// stacked under.
spec fn above_parent(heap: Seq<State>, place: int) -> bool {
    remaining(heap[parent(place)]) <= remaining(heap[place])
}

/// The configuration at `place` has no fewer people left than the one two
/// levels up.
spec fn above_grandparent(heap: Seq<State>, place: int) -> bool {
    remaining(heap[parent(parent(place))]) <= remaining(heap[place])
}

/// Every configuration but the first has no fewer people left than the one
/// it is stacked under.
spec fn heap_ordered(heap: Seq<State>) -> bool {
    forall|place: int| 1 <= place < heap.len() ==> #[trigger] above_parent(heap, place)
}

/// `heap` is in order but for the configuration at `hole`, which may have
/// fewer people left than the one it is stacked under.
spec fn ordered_but_above(heap: Seq<State>, hole: int) -> bool {
    &&& forall|place: int|
        1 <= place < heap.len() && place != hole ==> #[trigger] above_parent(heap, place)
    &&& forall|place: int|
        1 <= place < heap.len() && parent(place) == hole && hole >= 1
            ==> #[trigger] above_grandparent(heap, place)
}

/// `heap` is in order but for the configuration at `hole`, which may have
/// more people left than those stacked under it.
spec fn ordered_but_below(heap: Seq<State>, hole: int) -> bool {
    &&& forall|place: int|
        1 <= place < heap.len() && parent(place) != hole ==> #[trigger] above_parent(heap, place)
    &&& forall|place: int|
        1 <= place < heap.len() && parent(place) == hole && hole >= 1
            ==> #[trigger] above_grandparent(heap, place)
}

/// Every configuration of `heap` has a head count that `score` can return.
spec fn all_countable(heap: Seq<State>) -> bool {
    forall|place: int| 0 <= place < heap.len() ==> (#[trigger] heap[place]).countable()
}

/// In an ordered heap nobody has fewer people left than the first.
proof fn lemma_first_is_least(heap: Seq<State>, place: int)
    requires
        heap_ordered(heap),
        0 <= place < heap.len(),
    ensures
        remaining(heap[0]) <= remaining(heap[place]),
    decreases place,
{
    if place > 0 {
        assert(above_parent(heap, place));
        lemma_first_is_least(heap, parent(place));
    }
}

/// Exchanges the configurations at two places.
fn exchange(heap: &mut Vec<State>, first: usize, second: usize)
    requires
        first < old(heap)@.len(),
        second < old(heap)@.len(),
        first != second,
    ensures
        final(heap)@ == old(heap)@.update(first as int, old(heap)@[second as int]).update(
            second as int,
            old(heap)@[first as int],
        ),
        final(heap)@.to_multiset() == old(heap)@.to_multiset(),
{
    let ghost before = heap@;
    let at_first = heap[first];
    let at_second = heap[second];
    heap.set(first, at_second);
    heap.set(second, at_first);
    proof {
        let between = before.update(first as int, at_second);
        vstd::seq_lib::to_multiset_update(before, first as int, at_second);
        vstd::seq_lib::to_multiset_update(between, second as int, at_first);
    }
}

/// Whether `first` has fewer people left on the left bank than `second`.
fn fewer_left(first: &State, second: &State) -> (fewer: bool)
    requires
        first.countable(),
        second.countable(),
    ensures
        fewer == (remaining(*first) < remaining(*second)),
{
    score(first.cannibals_left, first.missionaries_left) < score(
        second.cannibals_left,
        second.missionaries_left,
    )
}

/// Restores the order of a heap whose configuration at `hole` may have fewer
/// people left than the one it is stacked under, by moving it up.
fn sift_up(heap: &mut Vec<State>, hole: usize)
    requires
        hole < old(heap)@.len(),
        all_countable(old(heap)@),
        ordered_but_above(old(heap)@, hole as int),
    ensures
        all_countable(final(heap)@),
        heap_ordered(final(heap)@),
        final(heap)@.to_multiset() == old(heap)@.to_multiset(),
{
    let mut place: usize = hole;
    while place > 0
        invariant
            place < heap@.len(),
            all_countable(heap@),
            ordered_but_above(heap@, place as int),
            heap@.to_multiset() == old(heap)@.to_multiset(),
        ensures
            all_countable(heap@),
            heap_ordered(heap@),
            heap@.to_multiset() == old(heap)@.to_multiset(),
        decreases place,
    {
        let above: usize = (place - 1) / 2;
        if !fewer_left(&heap[place], &heap[above]) {
            break ;
        }
        let ghost before = heap@;
        exchange(heap, place, above);
        proof {
            let after = heap@;
            assert forall|at: int| 1 <= at < after.len() && at != above implies
                #[trigger] above_parent(after, at) by {
                if at == place {
                    // The two were exchanged because the lower had fewer.
                } else if parent(at) == place {
                    assert(above_grandparent(before, at));
                } else {
                    assert(above_parent(before, at));
                }
            }
            assert forall|at: int|
                1 <= at < after.len() && parent(at) == above && above >= 1 implies
                #[trigger] above_grandparent(after, at) by {
                assert(above_parent(before, above as int));
                if at != place {
                    assert(above_parent(before, at));
                }
            }
        }
        place = above;
    }
}

/// Restores the order of a heap whose configuration at `hole` may have more
/// people left than those stacked under it, by moving it down.
fn sift_down(heap: &mut Vec<State>, hole: usize)
    requires
        hole < old(heap)@.len(),
        all_countable(old(heap)@),
        ordered_but_below(old(heap)@, hole as int),
    ensures
        all_countable(final(heap)@),
        heap_ordered(final(heap)@),
        final(heap)@.to_multiset() == old(heap)@.to_multiset(),
{
    let mut place: usize = hole;
    let len: usize = heap.len();
    while place < len / 2
        invariant
            len == heap@.len(),
            place < len,
            all_countable(heap@),
            ordered_but_below(heap@, place as int),
            heap@.to_multiset() == old(heap)@.to_multiset(),
        ensures
            all_countable(heap@),
            heap_ordered(heap@),
            heap@.to_multiset() == old(heap)@.to_multiset(),
        decreases len - place,
    {
        let left: usize = 2 * place + 1;
        let right: usize = left + 1;
        let below: usize = if right < len && fewer_left(&heap[right], &heap[left]) {
            right
        } else {
            left
        };
        if !fewer_left(&heap[below], &heap[place]) {
            proof {
                lemma_settled(heap@, place as int);
            }
            break ;
        }
        let ghost before = heap@;
        exchange(heap, place, below);
        proof {
            let after = heap@;
            assert forall|at: int| 1 <= at < after.len() && parent(at) != below implies
                #[trigger] above_parent(after, at) by {
                if at == place {
                    assert(above_grandparent(before, below as int));
                } else if parent(at) == place {
                    // The one that moved up had no more than the other below.
                } else {
                    assert(above_parent(before, at));
                }
            }
            assert forall|at: int|
                1 <= at < after.len() && parent(at) == below && below >= 1 implies
                #[trigger] above_grandparent(after, at) by {
                assert(above_parent(before, at));
            }
        }
        place = below;
    }
    proof {
        lemma_settled(heap@, place as int);
    }
}

/// A heap in order but below `hole` is in order altogether once the
/// configuration at `hole` has no more people left than those stacked under
/// it, of which there are two at most.
proof fn lemma_settled(heap: Seq<State>, hole: int)
    requires
        ordered_but_below(heap, hole),
        0 <= hole,
        2 * hole + 1 < heap.len() ==> above_parent(heap, 2 * hole + 1),
        2 * hole + 2 < heap.len() ==> above_parent(heap, 2 * hole + 2),
    ensures
        heap_ordered(heap),
{
    assert forall|at: int| 1 <= at < heap.len() implies #[trigger] above_parent(heap, at) by {
        if parent(at) == hole {
            assert(at == 2 * hole + 1 || at == 2 * hole + 2);
        }
    }
}

/// The priority discipline: `pop` hands back a configuration with the fewest
/// people left on the left bank. The waiting configurations are kept as a
/// binary heap, the one with the fewest first. Which of several with the
/// fewest comes first follows from the pushes and pops made, and from
/// nothing else.
pub struct MinScoreQueue {
    heap: Vec<State>,
}

impl StateQueue for MinScoreQueue {
    closed spec fn items(&self) -> Multiset<State> {
        self.heap@.to_multiset()
    }

    closed spec fn wf(&self) -> bool {
        all_countable(self.heap@) && heap_ordered(self.heap@)
    }

    fn empty() -> (queue: Self) {
        MinScoreQueue { heap: Vec::new() }
    }

    fn push(&mut self, state: State) {
        let ghost before = self.heap@;
        let last: usize = self.heap.len();
        self.heap.push(state);
        proof {
            assert forall|at: int| 1 <= at < self.heap@.len() && at != last implies
                #[trigger] above_parent(self.heap@, at) by {
                assert(above_parent(before, at));
            }
        }
        sift_up(&mut self.heap, last);
    }

    fn pop(&mut self) -> (popped: Option<State>)
        ensures
            popped matches Some(state) ==> forall|other: State|
                old(self).items().count(other) > 0 ==> remaining(state) <= remaining(other),
    {
        let ghost before = self.heap@;
        let last = match self.heap.pop() {
            Some(last) => last,
            None => {
                return None;
            },
        };
        proof {
            assert(before.drop_last() =~= before.remove(before.len() - 1));
            assert forall|other: State| before.to_multiset().count(other) > 0 implies
                remaining(before[0]) <= remaining(other) by {
                let at = choose|at: int| 0 <= at < before.len() && before[at] == other;
                lemma_first_is_least(before, at);
            }
        }
        if self.heap.len() == 0 {
            return Some(last);
        }
        let ghost shorter = self.heap@;
        let first = self.heap[0];
        self.heap.set(0, last);
        proof {
            vstd::seq_lib::to_multiset_update(shorter, 0, last);
            assert forall|at: int| 1 <= at < self.heap@.len() && parent(at) != 0 implies
                #[trigger] above_parent(self.heap@, at) by {
                assert(above_parent(before, at));
            }
        }
        sift_down(&mut self.heap, 0);
        Some(first)
    }

    fn is_empty(&self) -> (none_waiting: bool) {
        self.heap.len() == 0
    }
}

} // verus!
