//! Configurations, boat trips and the balance rule.

use vstd::prelude::*;

verus! {

/// Where everybody is: the head counts on the left bank and the side the boat
/// is moored on. The right bank holds whoever is not on the left.
#[derive(Clone, Copy, Debug, PartialEq, Eq, Structural, Hash)]
pub struct State {
    pub cannibals_left: i64,
    pub missionaries_left: i64,
    pub boat_left: bool,
}

/// One crossing: who is aboard, and which way the boat goes.
#[derive(Clone, Copy, Debug, PartialEq, Eq, Structural)]
pub struct BoatMovement {
    pub cannibals_boat: i64,
    pub missionaries_boat: i64,
    pub move_right: bool,
}

/// The six head counts the balance rule looks at: both banks as they are
/// after a crossing, and the boat that made it.
#[derive(Clone, Copy, Debug, PartialEq, Eq, Structural)]
pub struct ValidateCannibalMissionaryBalanceProp {
    pub cannibals_left: i64,
    pub missionaries_left: i64,
    pub cannibals_right: i64,
    pub missionaries_right: i64,
    pub cannibals_boat: i64,
    pub missionaries_boat: i64,
}

/// One place is in balance when its cannibals do not outnumber its
/// missionaries, or when it has no missionary to outnumber.
pub open spec fn side_balanced(cannibals: int, missionaries: int) -> bool {
    cannibals <= missionaries || missionaries == 0
}

/// Both banks and the boat are in balance.
pub open spec fn balanced(
    cannibals_left: int,
    missionaries_left: int,
    cannibals_right: int,
    missionaries_right: int,
    cannibals_boat: int,
    missionaries_boat: int,
) -> bool {
    &&& side_balanced(cannibals_left, missionaries_left)
    &&& side_balanced(cannibals_right, missionaries_right)
    &&& side_balanced(cannibals_boat, missionaries_boat)
}

/// The left-bank head count: what the priority frontier orders by.
pub open spec fn remaining(state: State) -> int {
    state.cannibals_left + state.missionaries_left
}

impl ValidateCannibalMissionaryBalanceProp {
    /// The balance rule applied to these six counts.
    pub open spec fn balanced(self) -> bool {
        balanced(
            self.cannibals_left as int,
            self.missionaries_left as int,
            self.cannibals_right as int,
            self.missionaries_right as int,
            self.cannibals_boat as int,
            self.missionaries_boat as int,
        )
    }
}

impl State {
    /// Nobody is counted negatively.
    pub open spec fn valid(self) -> bool {
        &&& 0 <= self.cannibals_left
        &&& 0 <= self.missionaries_left
    }

    /// The left-bank head count fits the machine integer that [`score`]
    /// returns.
    pub open spec fn countable(self) -> bool {
        i64::MIN <= remaining(self) <= i64::MAX
    }

    /// Everybody is on the right bank, and so is the boat.
    pub open spec fn is_goal(self) -> bool {
        &&& self.cannibals_left == 0
        &&& self.missionaries_left == 0
        &&& !self.boat_left
    }

    /// The configuration after `trip`, which leaves from the bank the boat is
    /// on: the load leaves that bank and the boat changes sides.
    pub open spec fn after(self, trip: BoatMovement) -> State {
        if self.boat_left {
            State {
                cannibals_left: (self.cannibals_left - trip.cannibals_boat) as i64,
                missionaries_left: (self.missionaries_left - trip.missionaries_boat) as i64,
                boat_left: false,
            }
        } else {
            State {
                cannibals_left: (self.cannibals_left + trip.cannibals_boat) as i64,
                missionaries_left: (self.missionaries_left + trip.missionaries_boat) as i64,
                boat_left: true,
            }
        }
    }

    /// Makes `trip` from this configuration: computes [`State::after`].
    pub fn cross(&self, trip: &BoatMovement) -> (next: State)
        requires
            self.boat_left ==> i64::MIN <= self.cannibals_left - trip.cannibals_boat <= i64::MAX
                && i64::MIN <= self.missionaries_left - trip.missionaries_boat <= i64::MAX,
            !self.boat_left ==> i64::MIN <= self.cannibals_left + trip.cannibals_boat <= i64::MAX
                && i64::MIN <= self.missionaries_left + trip.missionaries_boat <= i64::MAX,
        ensures
            next == self.after(*trip),
    {
        if self.boat_left {
            State {
                cannibals_left: self.cannibals_left - trip.cannibals_boat,
                missionaries_left: self.missionaries_left - trip.missionaries_boat,
                boat_left: false,
            }
        } else {
            State {
                cannibals_left: self.cannibals_left + trip.cannibals_boat,
                missionaries_left: self.missionaries_left + trip.missionaries_boat,
                boat_left: true,
            }
        }
    }
}

/// Decides the balance rule: true exactly when neither bank nor the boat has
/// its missionaries outnumbered. Defined for every six counts.
pub fn validate_cannibal_missionary_balance(prop: ValidateCannibalMissionaryBalanceProp) -> (ok:
    bool)
    ensures
        ok == prop.balanced(),
{
    let left_side_balance = prop.cannibals_left <= prop.missionaries_left || prop.missionaries_left
        == 0;
    let right_side_balance = prop.cannibals_right <= prop.missionaries_right
        || prop.missionaries_right == 0;
    let boat_balance = prop.cannibals_boat <= prop.missionaries_boat || prop.missionaries_boat == 0;

    left_side_balance && right_side_balance && boat_balance
}

/// The number of people still on the left bank.
pub fn score(cannibals_left: i64, missionaries_left: i64) -> (total: i64)
    requires
        i64::MIN <= cannibals_left + missionaries_left <= i64::MAX,
    ensures
        total == cannibals_left + missionaries_left,
{
    cannibals_left + missionaries_left
}

/// Moves `boat` people of one role across: off the left bank when the boat
/// leaves from there, onto it otherwise. Returns the new left and right
/// counts of that role.
pub fn update_counts(left: i64, right: i64, boat: i64, boat_left: bool) -> (counts: (i64, i64))
    requires
        boat_left ==> i64::MIN <= left - boat <= i64::MAX && i64::MIN <= right + boat <= i64::MAX,
        !boat_left ==> i64::MIN <= left + boat <= i64::MAX && i64::MIN <= right - boat <= i64::MAX,
    ensures
        boat_left ==> counts.0 == left - boat && counts.1 == right + boat,
        !boat_left ==> counts.0 == left + boat && counts.1 == right - boat,
{
    if boat_left {
        (left - boat, right + boat)
    } else {
        (left + boat, right - boat)
    }
}

} // verus!
