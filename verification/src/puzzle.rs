//! The puzzle as a transition system: which trips are legal from a
//! configuration, what a sequence of trips leads to, and the enumeration of
//! the legal trips.

use crate::state::{
    balanced, update_counts, validate_cannibal_missionary_balance, BoatMovement, State,
    ValidateCannibalMissionaryBalanceProp,
};
use vstd::prelude::*;

verus! {

/// The head counts to carry over and the number of seats in the boat.
#[derive(Clone, Copy, Debug, PartialEq, Eq, Structural)]
pub struct Puzzle {
    pub cannibals: i64,
    pub missionaries: i64,
    pub boat_capacity: i64,
}

/// `trip` carries fewer than `cannibals` cannibals, or as many and fewer than
/// `missionaries` missionaries: loads are listed in this order.
pub open spec fn load_before(trip: BoatMovement, cannibals: int, missionaries: int) -> bool {
    ||| trip.cannibals_boat < cannibals
    ||| (trip.cannibals_boat == cannibals && trip.missionaries_boat < missionaries)
}

/// `first` is listed before `second`.
pub open spec fn listed_before(first: BoatMovement, second: BoatMovement) -> bool {
    load_before(first, second.cannibals_boat as int, second.missionaries_boat as int)
}

/// `trips` is in the order of listing, and so holds no trip twice.
pub open spec fn in_listing_order(trips: Seq<BoatMovement>) -> bool {
    forall|i: int, j: int|
        0 <= i < j < trips.len() ==> listed_before(#[trigger] trips[i], #[trigger] trips[j])
}

impl Puzzle {
    /// The puzzle of these head counts and this boat.
    pub open spec fn of(cannibals: i64, missionaries: i64, boat_capacity: i64) -> Puzzle {
        Puzzle { cannibals, missionaries, boat_capacity }
    }

    /// No count is negative.
    pub open spec fn valid(self) -> bool {
        &&& 0 <= self.cannibals
        &&& 0 <= self.missionaries
        &&& 0 <= self.boat_capacity
    }

    /// The whole party fits the machine integer that counts one bank.
    pub open spec fn countable(self) -> bool {
        self.cannibals + self.missionaries <= i64::MAX
    }

    /// Everybody on the left bank, the boat with them.
    pub open spec fn initial(self) -> State {
        State {
            cannibals_left: self.cannibals,
            missionaries_left: self.missionaries,
            boat_left: true,
        }
    }

    /// `state` places no more people on the left bank than the puzzle has.
    pub open spec fn holds(self, state: State) -> bool {
        &&& 0 <= state.cannibals_left <= self.cannibals
        &&& 0 <= state.missionaries_left <= self.missionaries
    }

    /// Every configuration of this puzzle's people.
    pub open spec fn states(self) -> Set<State> {
        Set::new(|state: State| self.holds(state))
    }

    /// The cannibals on the bank the boat is moored at.
    pub open spec fn cannibals_ashore(self, state: State) -> int {
        if state.boat_left {
            state.cannibals_left as int
        } else {
            self.cannibals - state.cannibals_left
        }
    }

    /// The missionaries on the bank the boat is moored at.
    pub open spec fn missionaries_ashore(self, state: State) -> int {
        if state.boat_left {
            state.missionaries_left as int
        } else {
            self.missionaries - state.missionaries_left
        }
    }

    /// `trip` may be made from `state`: it leaves from the boat's bank with
    /// people who are there, carries somebody but no more than the boat
    /// seats, and leaves both banks and the boat in balance.
    pub open spec fn legal(self, state: State, trip: BoatMovement) -> bool {
        let next = state.after(trip);
        &&& trip.move_right == state.boat_left
        &&& 0 <= trip.cannibals_boat <= self.cannibals_ashore(state)
        &&& 0 <= trip.missionaries_boat <= self.missionaries_ashore(state)
        &&& 0 < trip.cannibals_boat + trip.missionaries_boat <= self.boat_capacity
        &&& balanced(
            next.cannibals_left as int,
            next.missionaries_left as int,
            self.cannibals - next.cannibals_left,
            self.missionaries - next.missionaries_left,
            trip.cannibals_boat as int,
            trip.missionaries_boat as int,
        )
    }

    /// The configuration that `path` leads to from the initial one, each trip
    /// applied in turn.
    pub open spec fn replay(self, path: Seq<BoatMovement>) -> State
        decreases path.len(),
    {
        if path.len() == 0 {
            self.initial()
        } else {
            self.replay(path.drop_last()).after(path.last())
        }
    }

    /// Every trip of `path` is legal in the configuration it is made from,
    /// starting at the initial one.
    pub open spec fn valid_path(self, path: Seq<BoatMovement>) -> bool
        decreases path.len(),
    {
        path.len() == 0 || (self.valid_path(path.drop_last()) && self.legal(
            self.replay(path.drop_last()),
            path.last(),
        ))
    }

    /// `path` is a legal sequence of trips from the initial configuration to
    /// `state`.
    pub open spec fn reaches(self, path: Seq<BoatMovement>, state: State) -> bool {
        self.valid_path(path) && self.replay(path) == state
    }

    /// `path` carries everybody over: legal trips from the initial
    /// configuration to the goal.
    pub open spec fn is_solution(self, path: Seq<BoatMovement>) -> bool {
        self.valid_path(path) && self.replay(path).is_goal()
    }

    /// Some sequence of legal trips carries everybody over.
    pub open spec fn solvable(self) -> bool {
        exists|path: Seq<BoatMovement>| self.is_solution(path)
    }

    /// `found` is a right answer to the puzzle: a sequence of trips that
    /// carries everybody over, or `None` where there is no such sequence.
    pub open spec fn answered_by(self, found: Option<Vec<BoatMovement>>) -> bool {
        match found {
            Some(path) => self.is_solution(path@),
            None => !self.solvable(),
        }
    }

    /// A legal trip leads from one of the puzzle's configurations to another.
    pub proof fn lemma_legal_stays_inside(self, state: State, trip: BoatMovement)
        requires
            self.valid(),
            self.holds(state),
            self.legal(state, trip),
        ensures
            self.holds(state.after(trip)),
            state.after(trip).boat_left != state.boat_left,
    {
    }

    /// A legal path extended by a trip that is legal where the path ends is a
    /// legal path to where that trip leads.
    pub proof fn lemma_extend(
        self,
        path: Seq<BoatMovement>,
        state: State,
        trip: BoatMovement,
    )
        requires
            self.reaches(path, state),
            self.legal(state, trip),
        ensures
            self.reaches(path.push(trip), state.after(trip)),
    {
        assert(path.push(trip).drop_last() =~= path);
    }

    /// A legal path never leaves the puzzle's configurations.
    pub proof fn lemma_replay_stays_inside(self, path: Seq<BoatMovement>)
        requires
            self.valid(),
            self.valid_path(path),
        ensures
            self.holds(self.replay(path)),
        decreases path.len(),
    {
        if path.len() > 0 {
            self.lemma_replay_stays_inside(path.drop_last());
            self.lemma_legal_stays_inside(self.replay(path.drop_last()), path.last());
        }
    }

    /// What a legal path begins with is a legal path.
    pub proof fn lemma_prefix_valid(self, path: Seq<BoatMovement>, len: int)
        requires
            self.valid_path(path),
            0 <= len <= path.len(),
        ensures
            self.valid_path(path.take(len)),
        decreases path.len() - len,
    {
        if len == path.len() {
            assert(path.take(len) =~= path);
        } else {
            self.lemma_prefix_valid(path, len + 1);
            assert(path.take(len + 1).drop_last() =~= path.take(len));
        }
    }

    /// Replaying a solution trip by trip from the initial configuration:
    /// each trip is legal where it is made, the configuration it leads to is
    /// one of the puzzle's and is in balance on both banks and in the boat,
    /// and the last configuration is the goal.
    pub proof fn lemma_solution_replays_safely(self, path: Seq<BoatMovement>)
        requires
            self.valid(),
            self.is_solution(path),
        ensures
            self.replay(path.take(0)) == self.initial(),
            forall|i: int|
                #![trigger path[i]]
                0 <= i < path.len() ==> {
                    let from = self.replay(path.take(i));
                    let to = self.replay(path.take(i + 1));
                    &&& self.legal(from, path[i])
                    &&& to == from.after(path[i])
                    &&& to.boat_left != from.boat_left
                    &&& self.holds(to)
                    &&& balanced(
                        to.cannibals_left as int,
                        to.missionaries_left as int,
                        self.cannibals - to.cannibals_left,
                        self.missionaries - to.missionaries_left,
                        path[i].cannibals_boat as int,
                        path[i].missionaries_boat as int,
                    )
                },
            self.replay(path.take(path.len() as int)).is_goal(),
    {
        assert forall|i: int| #![trigger path[i]] 0 <= i < path.len() implies {
            let from = self.replay(path.take(i));
            let to = self.replay(path.take(i + 1));
            &&& self.legal(from, path[i])
            &&& to == from.after(path[i])
            &&& to.boat_left != from.boat_left
            &&& self.holds(to)
            &&& balanced(
                to.cannibals_left as int,
                to.missionaries_left as int,
                self.cannibals - to.cannibals_left,
                self.missionaries - to.missionaries_left,
                path[i].cannibals_boat as int,
                path[i].missionaries_boat as int,
            )
        } by {
            self.lemma_prefix_valid(path, i + 1);
            self.lemma_prefix_valid(path, i);
            assert(path.take(i + 1).drop_last() =~= path.take(i));
            self.lemma_replay_stays_inside(path.take(i));
            self.lemma_legal_stays_inside(self.replay(path.take(i)), path[i]);
        }
    }

    /// With nobody to carry no trip is legal: the boat never leaves the left
    /// bank, where the goal wants it on the right. The puzzle of nobody has
    /// no solution.
    pub proof fn lemma_nobody_has_no_solution(self)
        requires
            self.cannibals == 0,
            self.missionaries == 0,
        ensures
            !self.solvable(),
    {
        assert forall|path: Seq<BoatMovement>| !self.is_solution(path) by {
            self.lemma_nobody_stays(path);
        }
    }

    /// With nobody to carry the only legal path is the one without a trip.
    proof fn lemma_nobody_stays(self, path: Seq<BoatMovement>)
        requires
            self.cannibals == 0,
            self.missionaries == 0,
        ensures
            self.valid_path(path) ==> path.len() == 0,
        decreases path.len(),
    {
        if path.len() > 0 {
            self.lemma_nobody_stays(path.drop_last());
        }
    }

    /// No trip of a legal path sails empty.
    pub proof fn lemma_no_empty_load(self, path: Seq<BoatMovement>)
        requires
            self.valid_path(path),
        ensures
            forall|i: int|
                0 <= i < path.len() ==> 0 < (#[trigger] path[i]).cannibals_boat
                    + path[i].missionaries_boat,
        decreases path.len(),
    {
        if path.len() > 0 {
            self.lemma_no_empty_load(path.drop_last());
            assert forall|i: int| 0 <= i < path.len() implies
                0 < (#[trigger] path[i]).cannibals_boat + path[i].missionaries_boat by {
                if i < path.len() - 1 {
                    assert(path[i] == path.drop_last()[i]);
                }
            }
        }
    }
}

/// The smaller of two counts.
fn smaller(first: i64, second: i64) -> (least: i64)
    ensures
        least <= first,
        least <= second,
        least == first || least == second,
{
    if first <= second {
        first
    } else {
        second
    }
}

/// The trips that may be made from `state`, each once, ordered by the number
/// of cannibals aboard and then by the number of missionaries.
pub fn successors(puzzle: &Puzzle, state: &State) -> (trips: Vec<BoatMovement>)
    requires
        puzzle.valid(),
        puzzle.holds(*state),
    ensures
        forall|trip: BoatMovement| trips@.contains(trip) <==> puzzle.legal(*state, trip),
        in_listing_order(trips@),
{
    let cannibals_left: i64 = state.cannibals_left;
    let missionaries_left: i64 = state.missionaries_left;
    let cannibals_right: i64 = puzzle.cannibals - cannibals_left;
    let missionaries_right: i64 = puzzle.missionaries - missionaries_left;

    let max_cannibals_on_boat: i64 = if state.boat_left {
        smaller(puzzle.boat_capacity, cannibals_left)
    } else {
        smaller(puzzle.boat_capacity, cannibals_right)
    };

    let mut trips: Vec<BoatMovement> = Vec::new();
    let mut cannibals_boat: i64 = 0;
    loop
        invariant_except_break
            forall|trip: BoatMovement|
                trips@.contains(trip) <==> puzzle.legal(*state, trip) && load_before(
                    trip,
                    cannibals_boat as int,
                    0,
                ),
        invariant
            puzzle.valid(),
            puzzle.holds(*state),
            cannibals_left == state.cannibals_left,
            missionaries_left == state.missionaries_left,
            cannibals_right == puzzle.cannibals - cannibals_left,
            missionaries_right == puzzle.missionaries - missionaries_left,
            max_cannibals_on_boat <= puzzle.boat_capacity,
            max_cannibals_on_boat <= puzzle.cannibals_ashore(*state),
            max_cannibals_on_boat == puzzle.boat_capacity || max_cannibals_on_boat
                == puzzle.cannibals_ashore(*state),
            0 <= cannibals_boat <= max_cannibals_on_boat,
            in_listing_order(trips@),
        ensures
            forall|trip: BoatMovement| trips@.contains(trip) <==> puzzle.legal(*state, trip),
        decreases max_cannibals_on_boat - cannibals_boat,
    {
        let max_missionaries_on_boat: i64 = if state.boat_left {
            smaller(puzzle.boat_capacity - cannibals_boat, missionaries_left)
        } else {
            smaller(puzzle.boat_capacity - cannibals_boat, missionaries_right)
        };

        let mut missionaries_boat: i64 = 0;
        loop
            invariant_except_break
                forall|trip: BoatMovement|
                    trips@.contains(trip) <==> puzzle.legal(*state, trip) && load_before(
                        trip,
                        cannibals_boat as int,
                        missionaries_boat as int,
                    ),
            invariant
                puzzle.valid(),
                puzzle.holds(*state),
                cannibals_left == state.cannibals_left,
                missionaries_left == state.missionaries_left,
                cannibals_right == puzzle.cannibals - cannibals_left,
                missionaries_right == puzzle.missionaries - missionaries_left,
                0 <= cannibals_boat <= max_cannibals_on_boat,
                max_cannibals_on_boat <= puzzle.boat_capacity,
                max_cannibals_on_boat <= puzzle.cannibals_ashore(*state),
                max_missionaries_on_boat <= puzzle.boat_capacity - cannibals_boat,
                max_missionaries_on_boat <= puzzle.missionaries_ashore(*state),
                max_missionaries_on_boat == puzzle.boat_capacity - cannibals_boat
                    || max_missionaries_on_boat == puzzle.missionaries_ashore(*state),
                0 <= missionaries_boat <= max_missionaries_on_boat,
                in_listing_order(trips@),
            ensures
                forall|trip: BoatMovement|
                    trips@.contains(trip) <==> puzzle.legal(*state, trip) && load_before(
                        trip,
                        cannibals_boat + 1,
                        0,
                    ),
            decreases max_missionaries_on_boat - missionaries_boat,
        {
            let ghost listed = trips@;
            let trip = BoatMovement {
                cannibals_boat,
                missionaries_boat,
                move_right: state.boat_left,
            };
            let legal = if cannibals_boat + missionaries_boat == 0 {
                false
            } else {
                let (next_cannibals_left, next_cannibals_right) = update_counts(
                    cannibals_left,
                    cannibals_right,
                    cannibals_boat,
                    state.boat_left,
                );
                let (next_missionaries_left, next_missionaries_right) = update_counts(
                    missionaries_left,
                    missionaries_right,
                    missionaries_boat,
                    state.boat_left,
                );
                validate_cannibal_missionary_balance(
                    ValidateCannibalMissionaryBalanceProp {
                        cannibals_left: next_cannibals_left,
                        missionaries_left: next_missionaries_left,
                        cannibals_right: next_cannibals_right,
                        missionaries_right: next_missionaries_right,
                        cannibals_boat,
                        missionaries_boat,
                    },
                )
            };
            if legal {
                trips.push(trip);
            }
            proof {
                assert forall|other: BoatMovement|
                    trips@.contains(other) <==> puzzle.legal(*state, other) && load_before(
                        other,
                        cannibals_boat as int,
                        missionaries_boat + 1,
                    ) by {
                    if legal {
                        assert(trips@[listed.len() as int] == trip);
                        if listed.contains(other) {
                            let at = choose|at: int| 0 <= at < listed.len() && listed[at] == other;
                            assert(trips@[at] == other);
                        }
                    }
                }
            }
            if missionaries_boat == max_missionaries_on_boat {
                break ;
            }
            missionaries_boat += 1;
        }
        if cannibals_boat == max_cannibals_on_boat {
            break ;
        }
        cannibals_boat += 1;
    }
    trips
}

} // verus!
