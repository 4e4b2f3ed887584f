//! The search: configurations are taken from a frontier, examined, and their
//! undiscovered successors recorded and queued, until the goal is taken out
//! or nothing is left.

use crate::frontier::StateQueue;
use crate::priority::MinScoreQueue;
use crate::puzzle::{successors, Puzzle};
use crate::state::{BoatMovement, State};
use crate::visited::{keyed_state, lemma_key_round_trip, state_key, Visited};
use vstd::multiset::Multiset;
use vstd::prelude::*;
use vstd::set_lib::{lemma_int_range, lemma_len_subset, lemma_set_subset_finite, set_int_range};

verus! {

/// The number of the puzzle's configurations that have no history yet.
pub open spec fn unexplored(puzzle: Puzzle, visited: Map<State, Seq<BoatMovement>>) -> nat {
    puzzle.states().difference(visited.dom()).len()
}

/// `next` was discovered between `before` and `after`.
pub open spec fn discovered(
    before: Map<State, Seq<BoatMovement>>,
    after: Map<State, Seq<BoatMovement>>,
    next: State,
) -> bool {
    after.contains_key(next) && !before.contains_key(next)
}

/// How many times more `next` waits after an expansion than before it: once
/// if it was discovered, not at all if it was not.
pub open spec fn queued(
    before: Map<State, Seq<BoatMovement>>,
    after: Map<State, Seq<BoatMovement>>,
    next: State,
) -> int {
    if discovered(before, after, next) {
        1
    } else {
        0
    }
}

/// What holds of a search between two expansions.
///
/// Whatever waits is a configuration of the puzzle, and has a history unless
/// it is the initial one. Every history is a legal path to its
/// configuration, which waits or has been expanded; so does, or has, the
/// initial configuration. From an expanded configuration every legal trip
/// leads to a configuration with a history, and no expanded configuration is
/// the goal.
spec fn consistent(
    puzzle: Puzzle,
    waiting: Multiset<State>,
    visited: Map<State, Seq<BoatMovement>>,
    expanded: Set<State>,
) -> bool {
    &&& forall|state: State|
        #![trigger waiting.count(state)]
        waiting.count(state) > 0 ==> {
            &&& puzzle.holds(state)
            &&& visited.contains_key(state) || state == puzzle.initial()
        }
    &&& forall|state: State|
        #![trigger visited.contains_key(state)]
        visited.contains_key(state) ==> {
            &&& puzzle.holds(state)
            &&& puzzle.reaches(visited[state], state)
            &&& waiting.count(state) > 0 || expanded.contains(state)
        }
    &&& waiting.count(puzzle.initial()) > 0 || expanded.contains(puzzle.initial())
    &&& forall|state: State, trip: BoatMovement|
        #![trigger expanded.contains(state), puzzle.legal(state, trip)]
        expanded.contains(state) && puzzle.legal(state, trip) ==> visited.contains_key(
            state.after(trip),
        )
    &&& forall|state: State| #[trigger] expanded.contains(state) ==> !state.is_goal()
}

/// A puzzle has finitely many configurations.
pub proof fn lemma_states_finite(puzzle: Puzzle)
    requires
        puzzle.valid(),
    ensures
        puzzle.states().finite(),
{
    let keys = set_int_range(0, 0x8000_0000_0000_0000_0000_0000_0000_0000);
    let filed = keys.map(|key: int| keyed_state(key));
    lemma_int_range(0, 0x8000_0000_0000_0000_0000_0000_0000_0000);
    keys.lemma_map_finite(|key: int| keyed_state(key));
    assert forall|state: State| puzzle.states().contains(state) implies filed.contains(state) by {
        lemma_key_round_trip(state);
        assert(keys.contains(state_key(state)));
    }
    lemma_set_subset_finite(filed, puzzle.states());
}

/// Once nothing waits, every legal path ends in an expanded configuration.
proof fn lemma_exhausted_covers(
    puzzle: Puzzle,
    visited: Map<State, Seq<BoatMovement>>,
    expanded: Set<State>,
    path: Seq<BoatMovement>,
)
    requires
        consistent(puzzle, Multiset::empty(), visited, expanded),
        puzzle.valid_path(path),
    ensures
        expanded.contains(puzzle.replay(path)),
    decreases path.len(),
{
    broadcast use vstd::multiset::group_multiset_axioms;

    if path.len() > 0 {
        lemma_exhausted_covers(puzzle, visited, expanded, path.drop_last());
        // The last trip leaves from an expanded configuration, so it leads
        // to one with a history, which no longer waits.
        let from = puzzle.replay(path.drop_last());
        assert(visited.contains_key(from.after(path.last())));
    }
}

/// Once nothing waits and the goal was never taken out, no sequence of legal
/// trips carries everybody over.
proof fn lemma_exhausted_unsolvable(
    puzzle: Puzzle,
    visited: Map<State, Seq<BoatMovement>>,
    expanded: Set<State>,
)
    requires
        consistent(puzzle, Multiset::empty(), visited, expanded),
    ensures
        !puzzle.solvable(),
{
    if puzzle.solvable() {
        let path = choose|path: Seq<BoatMovement>| puzzle.is_solution(path);
        lemma_exhausted_covers(puzzle, visited, expanded, path);
    }
}

/// Examines `state`, which `path` leads to: every legal trip from it that
/// ends in a configuration without a history gives that configuration the
/// history `path` followed by the trip, and queues it. Histories that exist
/// stay as they are.
pub fn expand<T: StateQueue>(
    puzzle: &Puzzle,
    state: &State,
    path: &Vec<BoatMovement>,
    visited: &mut Visited,
    frontier: &mut T,
)
    requires
        puzzle.valid(),
        puzzle.countable(),
        puzzle.holds(*state),
        old(frontier).wf(),
    ensures
        final(frontier).wf(),
        forall|known: State|
            #![trigger old(visited)@.contains_key(known)]
            old(visited)@.contains_key(known) ==> final(visited)@.contains_key(known)
                && final(visited)@[known] == old(visited)@[known],
        forall|trip: BoatMovement|
            #![trigger puzzle.legal(*state, trip)]
            puzzle.legal(*state, trip) ==> final(visited)@.contains_key(state.after(trip)),
        forall|next: State|
            #![trigger final(visited)@.contains_key(next)]
            discovered(old(visited)@, final(visited)@, next) ==> exists|trip: BoatMovement|
                #![trigger puzzle.legal(*state, trip)]
                puzzle.legal(*state, trip) && state.after(trip) == next && final(visited)@[next]
                    == path@.push(trip),
        forall|next: State|
            #![trigger final(frontier).items().count(next)]
            final(frontier).items().count(next) == old(frontier).items().count(next) + queued(
                old(visited)@,
                final(visited)@,
                next,
            ),
        final(frontier).items().len() + unexplored(*puzzle, final(visited)@)
            == old(frontier).items().len() + unexplored(*puzzle, old(visited)@),
{
    broadcast use vstd::multiset::group_multiset_axioms;

    let trips = successors(puzzle, state);
    proof {
        lemma_states_finite(*puzzle);
    }
    let mut i: usize = 0;
    while i < trips.len()
        invariant
            puzzle.valid(),
            puzzle.countable(),
            puzzle.holds(*state),
            puzzle.states().finite(),
            frontier.wf(),
            i <= trips.len(),
            forall|trip: BoatMovement| trips@.contains(trip) <==> puzzle.legal(*state, trip),
            forall|known: State|
                #![trigger old(visited)@.contains_key(known)]
                old(visited)@.contains_key(known) ==> visited@.contains_key(known)
                    && visited@[known] == old(visited)@[known],
            forall|j: int|
                #![trigger trips@[j]]
                0 <= j < i ==> visited@.contains_key(state.after(trips@[j])),
            forall|next: State|
                #![trigger visited@.contains_key(next)]
                discovered(old(visited)@, visited@, next) ==> exists|trip: BoatMovement|
                    #![trigger puzzle.legal(*state, trip)]
                    puzzle.legal(*state, trip) && state.after(trip) == next && visited@[next]
                        == path@.push(trip),
            forall|next: State|
                #![trigger frontier.items().count(next)]
                frontier.items().count(next) == old(frontier).items().count(next) + queued(
                    old(visited)@,
                    visited@,
                    next,
                ),
            frontier.items().len() + unexplored(*puzzle, visited@)
                == old(frontier).items().len() + unexplored(*puzzle, old(visited)@),
        decreases trips.len() - i,
    {
        let trip = trips[i];
        proof {
            assert(trips@.contains(trips@[i as int]));
            puzzle.lemma_legal_stays_inside(*state, trip);
        }
        let next = state.cross(&trip);
        if !visited.contains(&next) {
            let ghost known = visited@;
            let ghost waiting = frontier.items();
            let mut next_path = path.clone();
            next_path.push(trip);
            visited.record(next, next_path);
            frontier.push(next);
            proof {
                let unknown = puzzle.states().difference(known.dom());
                assert(puzzle.states().difference(visited@.dom()) =~= unknown.remove(next));
                assert forall|other: State|
                    #![trigger frontier.items().count(other)]
                    frontier.items().count(other) == old(frontier).items().count(other) + queued(
                        old(visited)@,
                        visited@,
                        other,
                    ) by {
                    assert(waiting.count(other) == old(frontier).items().count(other) + queued(
                        old(visited)@,
                        known,
                        other,
                    ));
                }
            }
        }
        i += 1;
    }
    proof {
        assert forall|trip: BoatMovement|
            #![trigger puzzle.legal(*state, trip)]
            puzzle.legal(*state, trip) implies visited@.contains_key(state.after(trip)) by {
            let j = choose|j: int| 0 <= j < trips@.len() && trips@[j] == trip;
            assert(trips@[j] == trip);
        }
    }
}

/// Examining `state` and marking it expanded keeps a search consistent.
proof fn lemma_expansion_consistent(
    puzzle: Puzzle,
    state: State,
    path: Seq<BoatMovement>,
    waiting: Multiset<State>,
    visited: Map<State, Seq<BoatMovement>>,
    expanded: Set<State>,
    waiting_after: Multiset<State>,
    visited_after: Map<State, Seq<BoatMovement>>,
)
    requires
        puzzle.valid(),
        consistent(puzzle, waiting.insert(state), visited, expanded),
        puzzle.reaches(path, state),
        !state.is_goal(),
        forall|known: State|
            #![trigger visited.contains_key(known)]
            visited.contains_key(known) ==> visited_after.contains_key(known)
                && visited_after[known] == visited[known],
        forall|trip: BoatMovement|
            #![trigger puzzle.legal(state, trip)]
            puzzle.legal(state, trip) ==> visited_after.contains_key(state.after(trip)),
        forall|next: State|
            #![trigger visited_after.contains_key(next)]
            discovered(visited, visited_after, next) ==> exists|trip: BoatMovement|
                #![trigger puzzle.legal(state, trip)]
                puzzle.legal(state, trip) && state.after(trip) == next && visited_after[next]
                    == path.push(trip),
        forall|next: State|
            #![trigger waiting_after.count(next)]
            waiting_after.count(next) == waiting.count(next) + queued(visited, visited_after, next),
    ensures
        consistent(puzzle, waiting_after, visited_after, expanded.insert(state)),
{
    broadcast use vstd::multiset::group_multiset_axioms;

    let grown = expanded.insert(state);
    assert(puzzle.holds(state)) by {
        assert(waiting.insert(state).count(state) > 0);
    }
    assert forall|other: State|
        #![trigger waiting_after.count(other)]
        waiting_after.count(other) > 0 implies {
        &&& puzzle.holds(other)
        &&& visited_after.contains_key(other) || other == puzzle.initial()
    } by {
        if discovered(visited, visited_after, other) {
            let trip = choose|trip: BoatMovement|
                #![trigger puzzle.legal(state, trip)]
                puzzle.legal(state, trip) && state.after(trip) == other && visited_after[other]
                    == path.push(trip);
            puzzle.lemma_legal_stays_inside(state, trip);
        } else {
            assert(waiting.insert(state).count(other) > 0);
        }
    }
    assert forall|other: State|
        #![trigger visited_after.contains_key(other)]
        visited_after.contains_key(other) implies {
        &&& puzzle.holds(other)
        &&& puzzle.reaches(visited_after[other], other)
        &&& waiting_after.count(other) > 0 || grown.contains(other)
    } by {
        if discovered(visited, visited_after, other) {
            let trip = choose|trip: BoatMovement|
                #![trigger puzzle.legal(state, trip)]
                puzzle.legal(state, trip) && state.after(trip) == other && visited_after[other]
                    == path.push(trip);
            puzzle.lemma_legal_stays_inside(state, trip);
            puzzle.lemma_extend(path, state, trip);
        }
    }
    assert forall|from: State, trip: BoatMovement|
        #![trigger grown.contains(from), puzzle.legal(from, trip)]
        grown.contains(from) && puzzle.legal(from, trip) implies visited_after.contains_key(
        from.after(trip),
    ) by {
        if from != state {
            assert(expanded.contains(from));
        }
    }
}

/// Searches for a way to carry everybody over, examining configurations in
/// the order the frontier `T` hands them back.
///
/// Returns a sequence of trips exactly when one exists that carries
/// everybody to the right bank by legal trips; the returned trips are such a
/// sequence. With nobody to carry there is no trip to make, the boat stays
/// on the left bank, and the answer is `None`.
pub fn solve<T: StateQueue>(
    cannibals_num: i64,
    missionaries_num: i64,
    boat_capacity: i64,
) -> (found: Option<Vec<BoatMovement>>)
    requires
        0 <= cannibals_num,
        0 <= missionaries_num,
        0 <= boat_capacity,
        cannibals_num + missionaries_num <= i64::MAX,
    ensures
        Puzzle::of(cannibals_num, missionaries_num, boat_capacity).answered_by(found),
        found.is_some() <==> Puzzle::of(cannibals_num, missionaries_num, boat_capacity).solvable(),
        found matches Some(path) ==> forall|i: int|
            0 <= i < path@.len() ==> 0 < (#[trigger] path@[i]).cannibals_boat
                + path@[i].missionaries_boat,
{
    broadcast use vstd::multiset::group_multiset_axioms;

    let puzzle = Puzzle { cannibals: cannibals_num, missionaries: missionaries_num, boat_capacity };
    let state = State {
        cannibals_left: cannibals_num,
        missionaries_left: missionaries_num,
        boat_left: true,
    };

    let mut history = Visited::new();
    let mut queue = T::empty();
    let ghost mut expanded: Set<State> = Set::empty();

    queue.push(state);
    proof {
        lemma_states_finite(puzzle);
    }

    while !queue.is_empty()
        invariant
            puzzle == Puzzle::of(cannibals_num, missionaries_num, boat_capacity),
            puzzle.valid(),
            puzzle.countable(),
            puzzle.states().finite(),
            queue.wf(),
            consistent(puzzle, queue.items(), history@, expanded),
        decreases 2 * unexplored(puzzle, history@) + queue.items().len(),
    {
        let state = queue.pop().unwrap();
        let ghost waiting = queue.items();

        // Only the initial configuration ever waits without a history, and
        // then its history is the empty one.
        let path = match history.history(&state) {
            Some(value) => value.clone(),
            None => Vec::new(),
        };

        if state.cannibals_left == 0 && state.missionaries_left == 0 && !state.boat_left {
            proof {
                puzzle.lemma_no_empty_load(path@);
            }
            return Some(path);
        }
        let ghost visited_before = history@;
        expand(&puzzle, &state, &path, &mut history, &mut queue);
        proof {
            lemma_expansion_consistent(
                puzzle,
                state,
                path@,
                waiting,
                visited_before,
                expanded,
                queue.items(),
                history@,
            );
            expanded = expanded.insert(state);
            lemma_len_subset(
                puzzle.states().difference(history@.dom()),
                puzzle.states().difference(visited_before.dom()),
            );
        }
    }
    proof {
        lemma_exhausted_unsolvable(puzzle, history@, expanded);
    }
    return None;
}

/// Two right answers to one puzzle are both a sequence of trips or both
/// `None`: searches agree on whether the puzzle can be solved, whatever
/// their frontiers hand back first.
pub proof fn lemma_answers_agree(
    puzzle: Puzzle,
    first: Option<Vec<BoatMovement>>,
    second: Option<Vec<BoatMovement>>,
)
    requires
        puzzle.answered_by(first),
        puzzle.answered_by(second),
    ensures
        first.is_some() <==> puzzle.solvable(),
        first.is_some() <==> second.is_some(),
{
}

/// Searches once with the stack discipline and once with the priority
/// discipline, and returns the two answers in that order. They need not be
/// the same trips, but one is `None` exactly when the other is.
pub fn solve_both(
    cannibals_num: i64,
    missionaries_num: i64,
    boat_capacity: i64,
) -> (found: (Option<Vec<BoatMovement>>, Option<Vec<BoatMovement>>))
    requires
        0 <= cannibals_num,
        0 <= missionaries_num,
        0 <= boat_capacity,
        cannibals_num + missionaries_num <= i64::MAX,
    ensures
        Puzzle::of(cannibals_num, missionaries_num, boat_capacity).answered_by(found.0),
        Puzzle::of(cannibals_num, missionaries_num, boat_capacity).answered_by(found.1),
        found.0.is_some() <==> found.1.is_some(),
{
    let by_stack = solve::<Vec<State>>(cannibals_num, missionaries_num, boat_capacity);
    let by_priority = solve::<MinScoreQueue>(cannibals_num, missionaries_num, boat_capacity);
    proof {
        lemma_answers_agree(
            Puzzle::of(cannibals_num, missionaries_num, boat_capacity),
            by_stack,
            by_priority,
        );
    }
    (by_stack, by_priority)
}

} // verus!
