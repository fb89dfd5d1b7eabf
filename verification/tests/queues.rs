use presolve::queues::{ActivityRows, Queues, Worklist};

#[test]
fn queues_changes_during_propagation_are_scheduled_for_the_next_round() {
    let mut queue = Worklist::new(3);
    queue.push(1);
    queue.push(1);
    queue.push(2);
    let round = queue.take_round();
    queue.push(1);
    queue.push(1);
    assert_eq!(round, [1, 2]);
    assert_eq!(queue.pop(), Some(1));
    assert!(queue.is_empty());
}

#[test]
fn changes_during_propagation_are_scheduled_for_the_next_round() {
    let mut queue = Worklist::new(3);
    queue.push(1);
    queue.push(1);
    queue.push(2);
    let round = queue.take_round();
    queue.push(1);
    queue.push(1);
    assert_eq!(round, [1, 2]);
    assert_eq!(queue.pop(), Some(1));
    assert!(queue.is_empty());
}

#[test]
fn swapped_rounds_reuse_the_previous_round_and_unmark_entries() {
    let mut queue = Worklist::new(3);
    let mut round = vec![7, 8, 9];
    queue.push(2);
    queue.push(0);
    queue.swap_round(&mut round);
    assert_eq!(round, [2, 0]);
    assert!(queue.is_empty());
    queue.push(2);
    queue.swap_round(&mut round);
    assert_eq!(round, [2]);
    queue.swap_round(&mut round);
    assert!(round.is_empty());
}

#[test]
fn shared_activity_flags_keep_independent_rounds_for_both_consumers() {
    let mut rows = ActivityRows::new(4);
    rows.push(2);
    rows.push(0);
    rows.push(2);
    assert_eq!(rows.iter(), [2, 0]);
    assert_eq!(rows.take_round(), [2, 0]);
    // The singleton consumer still holds both rows; a repeated push
    // reaches only the drained propagation list.
    rows.push(0);
    rows.push(3);
    assert_eq!(rows.take_singleton_round(), [2, 0, 3]);
    assert_eq!(rows.take_round(), [0, 3]);
    assert!(rows.take_round().is_empty());
    assert!(rows.take_singleton_round().is_empty());
}

#[test]
fn a_worklist_pops_what_was_pushed_last_and_can_be_reset() {
    let mut queue = Worklist::new(4);
    queue.push(3);
    queue.push(0);
    assert_eq!(queue.iter(), [3, 0]);
    assert_eq!(queue.pop(), Some(0));
    queue.push(0);
    queue.clear();
    assert!(queue.is_empty());
    queue.reset(2);
    queue.push(1);
    assert_eq!(queue.pop(), Some(1));
    assert_eq!(queue.pop(), None);
    let mut queues = Queues::new(2, 2);
    queues.row_changed(1, 1, false);
    queues.column_changed(0, 0);
    assert!(!queues.singleton_rows.is_empty());
}
