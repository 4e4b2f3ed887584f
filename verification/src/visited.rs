//! The visited set: each discovered configuration with the trips that first
//! led to it.

use crate::state::{BoatMovement, State};
use std::collections::HashMap;
use vstd::prelude::*;

verus! {

broadcast use vstd::std_specs::hash::group_hash_axioms;

/// The number a configuration is filed under. Distinct configurations of
/// non-negative counts get distinct numbers.
pub open spec fn state_key(state: State) -> int {
    let side: int = if state.boat_left {
        1
    } else {
        0
    };
    state.cannibals_left * 0x1_0000_0000_0000_0000 + state.missionaries_left * 2 + side
}

/// The configuration filed under `key`.
pub open spec fn keyed_state(key: int) -> State {
    State {
        cannibals_left: (key / 0x1_0000_0000_0000_0000) as i64,
        missionaries_left: ((key % 0x1_0000_0000_0000_0000) / 2) as i64,
        boat_left: key % 2 == 1,
    }
}

/// A configuration of non-negative counts is found again from its key, which
/// is below 2^127.
pub proof fn lemma_key_round_trip(state: State)
    requires
        state.valid(),
    ensures
        keyed_state(state_key(state)) == state,
        0 <= state_key(state) < 0x8000_0000_0000_0000_0000_0000_0000_0000,
{
}

/// The discovered configurations, each with its history: the trips that led
/// to it when it was first discovered.
pub struct Visited {
    histories: HashMap<u128, Vec<BoatMovement>>,
}

impl View for Visited {
    type V = Map<State, Seq<BoatMovement>>;

    closed spec fn view(&self) -> Map<State, Seq<BoatMovement>> {
        Map::new(
            |state: State| state.valid() && self.histories@.contains_key(state_key(state) as u128),
            |state: State| self.histories@[state_key(state) as u128]@,
        )
    }
}

/// The key of `state` as the machine holds it.
fn key_of(state: &State) -> (key: u128)
    requires
        state.valid(),
    ensures
        key == state_key(*state),
{
    let side: u128 = if state.boat_left {
        1
    } else {
        0
    };
    (state.cannibals_left as u128) * 0x1_0000_0000_0000_0000u128 + (state.missionaries_left as u128)
        * 2u128 + side
}

impl Visited {
    /// Nothing discovered yet.
    pub fn new() -> (visited: Self)
        ensures
            visited@ == Map::<State, Seq<BoatMovement>>::empty(),
    {
        Visited { histories: HashMap::new() }
    }

    /// Whether `state` has been discovered.
    pub fn contains(&self, state: &State) -> (known: bool)
        requires
            state.valid(),
        ensures
            known == self@.contains_key(*state),
    {
        let key: u128 = key_of(state);
        self.histories.contains_key(&key)
    }

    /// The history recorded for `state`, if it has been discovered.
    pub fn history(&self, state: &State) -> (found: Option<&Vec<BoatMovement>>)
        requires
            state.valid(),
        ensures
            match found {
                Some(path) => self@.contains_key(*state) && path@ == self@[*state],
                None => !self@.contains_key(*state),
            },
    {
        let key: u128 = key_of(state);
        self.histories.get(&key)
    }

    /// Records `path` as the history of `state`, unless `state` has one: the
    /// first discovery stands. Tells whether `state` was new.
    pub fn record(&mut self, state: State, path: Vec<BoatMovement>) -> (fresh: bool)
        requires
            state.valid(),
        ensures
            fresh == !old(self)@.contains_key(state),
            fresh ==> final(self)@ == old(self)@.insert(state, path@),
            !fresh ==> final(self)@ == old(self)@,
            forall|known: State|
                old(self)@.contains_key(known) ==> final(self)@.contains_key(known)
                    && final(self)@[known] == old(self)@[known],
    {
        let key: u128 = key_of(&state);
        if self.histories.contains_key(&key) {
            return false;
        }
        self.histories.insert(key, path);
        proof {
            // No other configuration is filed under the key just written.
            lemma_key_round_trip(state);
            assert forall|other: State| other.valid() && other != state implies state_key(other)
                != state_key(state) by {
                lemma_key_round_trip(other);
            }
        }
        true
    }
}

} // verus!
