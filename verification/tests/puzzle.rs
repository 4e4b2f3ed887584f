use river_crossing::{
    expand, solve_both, successors, update_counts, BoatMovement, MinScoreQueue, Puzzle, State,
    StateQueue, Visited,
};

fn state(cannibals_left: i64, missionaries_left: i64, boat_left: bool) -> State {
    State { cannibals_left, missionaries_left, boat_left }
}

fn trip(cannibals_boat: i64, missionaries_boat: i64, move_right: bool) -> BoatMovement {
    BoatMovement { cannibals_boat, missionaries_boat, move_right }
}

const CLASSIC: Puzzle = Puzzle { cannibals: 3, missionaries: 3, boat_capacity: 2 };

#[test]
fn update_counts_moves_the_load_across() {
    assert_eq!(update_counts(3, 0, 2, true), (1, 2));
    assert_eq!(update_counts(1, 2, 1, false), (2, 1));
    assert_eq!(update_counts(5, 5, 0, true), (5, 5));
    assert_eq!(update_counts(0, 7, 7, false), (7, 0));
}

#[test]
fn cross_applies_a_trip() {
    assert_eq!(state(3, 3, true).cross(&trip(1, 1, true)), state(2, 2, false));
    assert_eq!(state(2, 2, false).cross(&trip(0, 1, false)), state(2, 3, true));
    assert_eq!(state(0, 0, false).cross(&trip(2, 1, false)), state(2, 1, true));
}

#[test]
fn successors_of_the_classic_start() {
    // One missionary or two would leave the others outnumbered.
    assert_eq!(
        successors(&CLASSIC, &state(3, 3, true)),
        vec![trip(1, 0, true), trip(1, 1, true), trip(2, 0, true)]
    );
}

#[test]
fn successors_leave_from_the_right_bank() {
    // Two cannibals and two missionaries have crossed; the boat is with them.
    assert_eq!(
        successors(&CLASSIC, &state(1, 1, false)),
        vec![trip(0, 2, false), trip(1, 1, false)]
    );
    // Everybody has crossed. A missionary who rows back alone leaves two
    // behind with three cannibals.
    assert_eq!(
        successors(&CLASSIC, &state(0, 0, false)),
        vec![trip(1, 0, false), trip(1, 1, false), trip(2, 0, false)]
    );
}

#[test]
fn successors_are_bounded_by_seats_and_people() {
    let crowded = Puzzle { cannibals: 1, missionaries: 0, boat_capacity: 5 };
    assert_eq!(successors(&crowded, &state(1, 0, true)), vec![trip(1, 0, true)]);
    let nobody = Puzzle { cannibals: 0, missionaries: 0, boat_capacity: 3 };
    assert_eq!(successors(&nobody, &state(0, 0, true)), vec![]);
    let no_seat = Puzzle { cannibals: 2, missionaries: 2, boat_capacity: 0 };
    assert_eq!(successors(&no_seat, &state(2, 2, true)), vec![]);
}

#[test]
fn successors_reject_an_outnumbered_boat() {
    let puzzle = Puzzle { cannibals: 2, missionaries: 3, boat_capacity: 3 };
    // Two cannibals and one missionary aboard would be out of balance, and
    // so would the left bank be once two missionaries have left it.
    assert_eq!(
        successors(&puzzle, &state(2, 3, true)),
        vec![
            trip(0, 1, true),
            trip(0, 3, true),
            trip(1, 0, true),
            trip(1, 1, true),
            trip(1, 2, true),
            trip(2, 0, true),
        ]
    );
}

#[test]
fn visited_starts_empty_and_answers_what_was_recorded() {
    let mut visited = Visited::new();
    assert!(!visited.contains(&state(3, 3, true)));
    assert_eq!(visited.history(&state(3, 3, true)), None);

    assert!(visited.record(state(2, 2, false), vec![trip(1, 1, true)]));
    assert!(visited.contains(&state(2, 2, false)));
    assert_eq!(visited.history(&state(2, 2, false)), Some(&vec![trip(1, 1, true)]));
    // The same counts with the boat on the other side are another
    // configuration, and so are the counts exchanged.
    assert!(!visited.contains(&state(2, 2, true)));
    assert!(!visited.contains(&state(2, 3, false)));
    assert!(!visited.contains(&state(3, 2, false)));
}

#[test]
fn visited_keeps_the_first_history() {
    let mut visited = Visited::new();
    let first = vec![trip(1, 1, true)];
    let second = vec![trip(2, 0, true), trip(1, 0, false), trip(0, 1, true)];
    assert!(visited.record(state(2, 2, false), first.clone()));
    assert!(!visited.record(state(2, 2, false), second));
    assert_eq!(visited.history(&state(2, 2, false)), Some(&first));
}

#[test]
fn visited_tells_large_counts_apart() {
    let mut visited = Visited::new();
    assert!(visited.record(state(i64::MAX, 0, true), vec![]));
    assert!(visited.record(state(0, i64::MAX, true), vec![trip(0, 1, true)]));
    assert!(visited.record(state(0, i64::MAX, false), vec![]));
    assert!(visited.contains(&state(i64::MAX, 0, true)));
    assert!(!visited.contains(&state(i64::MAX, 0, false)));
    assert!(!visited.contains(&state(i64::MAX - 1, 1, true)));
    assert_eq!(visited.history(&state(0, i64::MAX, true)), Some(&vec![trip(0, 1, true)]));
}

#[test]
fn expand_records_and_queues_what_is_new() {
    let mut visited = Visited::new();
    let mut frontier: Vec<State> = StateQueue::empty();
    let known = vec![trip(2, 0, true), trip(1, 0, false)];
    assert!(visited.record(state(2, 2, false), known.clone()));

    expand(&CLASSIC, &state(3, 3, true), &vec![], &mut visited, &mut frontier);

    // The configuration known before keeps its history and is not queued.
    assert_eq!(visited.history(&state(2, 2, false)), Some(&known));
    assert_eq!(visited.history(&state(2, 3, false)), Some(&vec![trip(1, 0, true)]));
    assert_eq!(visited.history(&state(1, 3, false)), Some(&vec![trip(2, 0, true)]));
    assert_eq!(frontier, vec![state(2, 3, false), state(1, 3, false)]);
}

#[test]
fn expand_extends_the_history_it_is_given() {
    let mut visited = Visited::new();
    let mut frontier = MinScoreQueue::empty();
    let path = vec![trip(1, 1, true)];

    expand(&CLASSIC, &state(2, 2, false), &path, &mut visited, &mut frontier);

    // Only a missionary can row back, or both who came.
    assert_eq!(
        visited.history(&state(2, 3, true)),
        Some(&vec![trip(1, 1, true), trip(0, 1, false)])
    );
    assert_eq!(
        visited.history(&state(3, 3, true)),
        Some(&vec![trip(1, 1, true), trip(1, 1, false)])
    );
    assert!(!visited.contains(&state(3, 2, true)));
    assert_eq!(frontier.pop(), Some(state(2, 3, true)));
    assert_eq!(frontier.pop(), Some(state(3, 3, true)));
    assert_eq!(frontier.pop(), None);
}

#[test]
fn both_answers_come_in_the_order_stack_then_priority() {
    let (by_stack, by_priority) = solve_both(3, 3, 2);
    let by_stack = by_stack.unwrap();
    let by_priority = by_priority.unwrap();
    assert_eq!(by_stack.first(), Some(&trip(2, 0, true)));
    assert_eq!(by_stack.len(), 11);
    assert_eq!(by_priority.len(), 11);

    let (by_stack, by_priority) = solve_both(4, 3, 2);
    assert_eq!(by_stack, None);
    assert_eq!(by_priority, None);
}
