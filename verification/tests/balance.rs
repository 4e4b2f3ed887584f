use river_crossing::{validate_cannibal_missionary_balance, ValidateCannibalMissionaryBalanceProp};

fn balance(
    cannibals_left: i64,
    missionaries_left: i64,
    cannibals_right: i64,
    missionaries_right: i64,
    cannibals_boat: i64,
    missionaries_boat: i64,
) -> bool {
    validate_cannibal_missionary_balance(ValidateCannibalMissionaryBalanceProp {
        cannibals_left,
        missionaries_left,
        cannibals_right,
        missionaries_right,
        cannibals_boat,
        missionaries_boat,
    })
}

#[test]
fn each_place_alone_can_break_the_balance() {
    assert!(balance(1, 1, 1, 1, 1, 1));
    assert!(!balance(2, 1, 1, 1, 1, 1));
    assert!(!balance(1, 1, 2, 1, 1, 1));
    assert!(!balance(1, 1, 1, 1, 2, 1));
}

#[test]
fn cannibals_without_missionaries_are_in_balance() {
    assert!(balance(5, 0, 0, 3, 0, 0));
    assert!(balance(0, 3, 5, 0, 0, 0));
    assert!(balance(0, 0, 0, 0, 3, 0));
    assert!(balance(7, 0, 9, 0, 2, 0));
}

#[test]
fn nobody_anywhere_is_in_balance() {
    assert!(balance(0, 0, 0, 0, 0, 0));
}

#[test]
fn equal_numbers_are_in_balance() {
    assert!(balance(3, 3, 2, 2, 1, 1));
    assert!(balance(i64::MAX, i64::MAX, 0, 0, 0, 0));
}

#[test]
fn balance_is_decided_for_the_extremes() {
    assert!(!balance(i64::MAX, 1, 0, 0, 0, 0));
    assert!(balance(i64::MAX, 0, 0, i64::MAX, 0, 0));
    assert!(balance(0, i64::MAX, 0, 0, 0, 1));
    assert!(!balance(0, 0, 0, 0, i64::MAX, i64::MAX - 1));
}

#[test]
fn balance_follows_the_rule_on_every_small_count() {
    let fine = |cannibals: i64, missionaries: i64| cannibals <= missionaries || missionaries == 0;
    for cannibals_left in 0..4 {
        for missionaries_left in 0..4 {
            for cannibals_right in 0..4 {
                for missionaries_right in 0..4 {
                    for cannibals_boat in 0..3 {
                        for missionaries_boat in 0..3 {
                            assert_eq!(
                                balance(
                                    cannibals_left,
                                    missionaries_left,
                                    cannibals_right,
                                    missionaries_right,
                                    cannibals_boat,
                                    missionaries_boat,
                                ),
                                fine(cannibals_left, missionaries_left)
                                    && fine(cannibals_right, missionaries_right)
                                    && fine(cannibals_boat, missionaries_boat)
                            );
                        }
                    }
                }
            }
        }
    }
}
