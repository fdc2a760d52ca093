use concurrency_patterns::read_write_lock::{
    apply_action, compute_expected_values, generate_random_queue, op_name, LightSwitch,
};

#[test]
fn expected_values_follow_the_queue() {
    let queue: Vec<u8> = vec![0, 1, 2, 0, 1, 2, 2];
    assert_eq!(compute_expected_values(&queue), vec![0, 1, 3, 3, 4, 6, 8]);
}

#[test]
fn expected_values_of_empty_queue() {
    let queue: Vec<u8> = vec![];
    assert_eq!(compute_expected_values(&queue), Vec::<i32>::new());
}

#[test]
fn expected_values_treat_any_large_action_as_write2() {
    let queue: Vec<u8> = vec![7, 0, 255];
    assert_eq!(compute_expected_values(&queue), vec![2, 2, 4]);
}

#[test]
fn final_value_does_not_depend_on_order() {
    let queue: Vec<u8> = vec![2, 0, 1, 1, 2, 0];
    let reordered: Vec<u8> = vec![1, 0, 2, 0, 2, 1];
    let a = compute_expected_values(&queue);
    let b = compute_expected_values(&reordered);
    assert_eq!(a[a.len() - 1], 6);
    assert_eq!(b[b.len() - 1], 6);
}

#[test]
fn op_names() {
    assert_eq!(op_name(0), "Read");
    assert_eq!(op_name(1), "Write");
    assert_eq!(op_name(2), "Write2");
    assert_eq!(op_name(9), "Write2");
}

#[test]
fn apply_action_reads_and_writes() {
    let mut value: i32 = 5;
    assert_eq!(apply_action(&mut value, 0), 5);
    assert_eq!(value, 5);
    assert_eq!(apply_action(&mut value, 1), 6);
    assert_eq!(value, 6);
    assert_eq!(apply_action(&mut value, 2), 8);
    assert_eq!(value, 8);
}

#[test]
fn sequential_run_matches_expected_values() {
    let queue: Vec<u8> = vec![1, 0, 2, 2, 0, 1];
    let expected = compute_expected_values(&queue);
    let mut value: i32 = 0;
    for (i, &action) in queue.iter().enumerate() {
        assert_eq!(apply_action(&mut value, action), expected[i]);
    }
}

#[test]
fn random_queue_has_length_and_range() {
    let queue = generate_random_queue(50);
    assert_eq!(queue.len(), 50);
    assert!(queue.iter().all(|&a| a <= 2));
    assert!(generate_random_queue(0).is_empty());
}

#[test]
fn lightswitch_first_and_last() {
    let mut switch = LightSwitch::new();
    assert_eq!(switch.readers(), 0);
    assert!(switch.enter());
    assert!(!switch.enter());
    assert!(!switch.enter());
    assert_eq!(switch.readers(), 3);
    assert!(!switch.leave());
    assert!(!switch.leave());
    assert!(switch.leave());
    assert_eq!(switch.readers(), 0);
}

#[test]
fn lightswitch_takes_and_returns_room_in_balance() {
    // true = a reader comes in, false = a reader leaves
    let ops = [true, true, false, true, false, false, true, false];
    let mut switch = LightSwitch::new();
    let mut held: i32 = 0;
    for &op in ops.iter() {
        if op {
            if switch.enter() {
                held += 1;
            }
        } else if switch.leave() {
            held -= 1;
        }
        assert_eq!(held, if switch.readers() > 0 { 1 } else { 0 });
    }
    assert_eq!(held, 0);
}

#[test]
fn names_tell_how_the_value_changes() {
    let queue: Vec<u8> = vec![2, 0, 1, 0, 2, 1];
    let expected = compute_expected_values(&queue);
    for i in 0..queue.len() {
        let prev = if i == 0 { 0 } else { expected[i - 1] };
        let name = op_name(queue[i]);
        assert_eq!(name == "Read", expected[i] == prev);
        assert_eq!(name == "Write", expected[i] == prev + 1);
        assert_eq!(name == "Write2", expected[i] == prev + 2);
    }
}
