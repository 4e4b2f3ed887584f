use river_crossing::{score, MinScoreQueue, State, StateQueue};

fn state(cannibals_left: i64, missionaries_left: i64, boat_left: bool) -> State {
    State { cannibals_left, missionaries_left, boat_left }
}

#[test]
fn score_counts_the_left_bank() {
    assert_eq!(score(0, 0), 0);
    assert_eq!(score(3, 4), 7);
    assert_eq!(score(10, 20), 30);
    assert_eq!(score(i64::MAX, 0), i64::MAX);
    assert_eq!(score(1, i64::MAX - 1), i64::MAX);
}

#[test]
fn stack_pops_the_last_pushed_first() {
    let mut stack: Vec<State> = StateQueue::empty();
    assert!(StateQueue::is_empty(&stack));
    StateQueue::push(&mut stack, state(3, 3, true));
    StateQueue::push(&mut stack, state(0, 1, false));
    StateQueue::push(&mut stack, state(2, 2, true));
    assert!(!StateQueue::is_empty(&stack));

    assert_eq!(StateQueue::pop(&mut stack), Some(state(2, 2, true)));
    assert_eq!(StateQueue::pop(&mut stack), Some(state(0, 1, false)));
    assert_eq!(StateQueue::pop(&mut stack), Some(state(3, 3, true)));
    assert_eq!(StateQueue::pop(&mut stack), None);
    assert!(StateQueue::is_empty(&stack));
}

#[test]
fn priority_pops_the_emptiest_left_bank_first() {
    let mut queue = MinScoreQueue::empty();
    assert!(queue.is_empty());
    for pushed in [
        state(3, 3, true),
        state(0, 1, false),
        state(2, 2, true),
        state(0, 0, false),
        state(5, 0, true),
        state(1, 1, false),
    ] {
        queue.push(pushed);
    }
    assert!(!queue.is_empty());

    assert_eq!(queue.pop(), Some(state(0, 0, false)));
    assert_eq!(queue.pop(), Some(state(0, 1, false)));
    assert_eq!(queue.pop(), Some(state(1, 1, false)));
    assert_eq!(queue.pop(), Some(state(2, 2, true)));
    assert_eq!(queue.pop(), Some(state(5, 0, true)));
    assert_eq!(queue.pop(), Some(state(3, 3, true)));
    assert_eq!(queue.pop(), None);
    assert!(queue.is_empty());
}

#[test]
fn priority_keeps_what_is_pushed_twice() {
    let mut queue = MinScoreQueue::empty();
    queue.push(state(1, 2, true));
    queue.push(state(1, 2, true));
    queue.push(state(0, 1, true));
    assert_eq!(queue.pop(), Some(state(0, 1, true)));
    assert_eq!(queue.pop(), Some(state(1, 2, true)));
    assert_eq!(queue.pop(), Some(state(1, 2, true)));
    assert_eq!(queue.pop(), None);
}

#[test]
fn priority_pops_in_order_of_head_count() {
    // A fixed scramble of head counts, pushed and popped in two rounds.
    let mut queue = MinScoreQueue::empty();
    let mut seed: i64 = 17;
    let mut pushed: Vec<i64> = Vec::new();
    for _ in 0..200 {
        seed = (seed * 73 + 41) % 1009;
        let cannibals_left = seed % 50;
        let missionaries_left = (seed / 50) % 50;
        queue.push(state(cannibals_left, missionaries_left, seed % 2 == 0));
        pushed.push(cannibals_left + missionaries_left);
    }
    pushed.sort();
    let mut popped: Vec<i64> = Vec::new();
    while let Some(next) = queue.pop() {
        popped.push(score(next.cannibals_left, next.missionaries_left));
    }
    assert_eq!(popped, pushed);
}

#[test]
fn priority_orders_the_largest_head_counts() {
    let mut queue = MinScoreQueue::empty();
    queue.push(state(i64::MAX, 0, true));
    queue.push(state(0, i64::MAX - 1, true));
    queue.push(state(1, 1, true));
    assert_eq!(queue.pop(), Some(state(1, 1, true)));
    assert_eq!(queue.pop(), Some(state(0, i64::MAX - 1, true)));
    assert_eq!(queue.pop(), Some(state(i64::MAX, 0, true)));
}
