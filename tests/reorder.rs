use parstream::reorder::{Reorder, ReportMsg, Step};

fn batch(s: Step<u32, String>) -> (Vec<u32>, bool) {
    match s {
        Step::Report(b) => (b, false),
        Step::Complete(b) => (b, true),
        Step::Fail(e) => panic!("unexpected failure {}", e),
        Step::Halt => panic!("unexpected halt"),
    }
}

fn ok(pos: usize, v: u32) -> ReportMsg<u32, String> {
    ReportMsg::NewResult(pos, Ok(v))
}

#[test]
fn in_order_results_pass_straight_through() {
    let mut r: Reorder<u32> = Reorder::new();
    assert_eq!(batch(r.on_message(0, ok(0, 10))), (vec![10], false));
    assert_eq!(batch(r.on_message(0, ok(1, 11))), (vec![11], false));
    assert_eq!(batch(r.on_message(3, ReportMsg::Total(2))), (vec![], true));
}

#[test]
fn reverse_completion_is_reported_in_ascending_order() {
    let n: usize = 6;
    let mut r: Reorder<u32> = Reorder::new();
    let mut out: Vec<u32> = Vec::new();
    for i in (0..n).rev() {
        let (b, done) = batch(r.on_message(0, ok(i, (i * i) as u32)));
        assert!(!done);
        if i > 0 {
            assert!(b.is_empty());
        }
        out.extend(b);
    }
    assert_eq!(out, vec![0, 1, 4, 9, 16, 25]);
    assert_eq!(r.next_position(), 6);
    assert_eq!(batch(r.on_message(7, ReportMsg::Total(n))), (vec![], true));
}

#[test]
fn skewed_arrivals_release_the_longest_run() {
    let mut r: Reorder<u32> = Reorder::new();
    assert_eq!(batch(r.on_message(0, ok(2, 2))), (vec![], false));
    assert_eq!(batch(r.on_message(0, ok(4, 4))), (vec![], false));
    assert_eq!(batch(r.on_message(0, ok(1, 1))), (vec![], false));
    assert_eq!(batch(r.on_message(6, ReportMsg::Total(5))), (vec![], false));
    assert_eq!(batch(r.on_message(6, ok(0, 0))), (vec![0, 1, 2], false));
    assert_eq!(batch(r.on_message(6, ok(3, 3))), (vec![3, 4], true));
}

#[test]
fn total_before_results_waits_for_them() {
    let mut r: Reorder<u32> = Reorder::new();
    assert_eq!(batch(r.on_message(0, ok(1, 7))), (vec![], false));
    assert_eq!(batch(r.on_message(3, ReportMsg::Total(2))), (vec![], false));
    assert_eq!(batch(r.on_message(3, ok(0, 6))), (vec![6, 7], true));
}

#[test]
fn empty_input_completes_without_reporting() {
    let mut r: Reorder<u32> = Reorder::new();
    assert_eq!(batch(r.on_message(1, ReportMsg::Total(0))), (vec![], true));
    assert!(matches!(r.on_message(1, ok(0, 1)), Step::Halt));
}

#[test]
fn first_error_stops_before_any_report() {
    let mut r: Reorder<u32> = Reorder::new();
    match r.on_message(0, ReportMsg::NewResult(5, Err("bad 5".to_string()))) {
        Step::Fail(e) => assert_eq!(e, "bad 5"),
        _ => panic!("expected a failure"),
    }
    assert!(matches!(r.on_message(0, ok(0, 0)), Step::Halt));
    assert!(matches!(r.on_message(0, ReportMsg::<u32, String>::Total(6)), Step::Halt));
    assert_eq!(r.next_position(), 0);
}

#[test]
fn error_after_some_reports_stops_there() {
    let mut r: Reorder<u32> = Reorder::new();
    assert_eq!(batch(r.on_message(0, ok(0, 5))), (vec![5], false));
    match r.on_message(0, ReportMsg::NewResult(2, Err("bad 2".to_string()))) {
        Step::Fail(e) => assert_eq!(e, "bad 2"),
        _ => panic!("expected a failure"),
    }
    assert!(matches!(r.on_message(0, ok(1, 6)), Step::Halt));
}

#[test]
fn cancelled_word_halts_the_coordinator() {
    let mut r: Reorder<u32> = Reorder::new();
    assert!(matches!(r.on_message(-2, ok(0, 1)), Step::Halt));
    assert!(matches!(r.on_message(0, ok(0, 1)), Step::Halt));
    assert!(!r.is_received(0));
}

#[test]
fn nothing_is_handed_on_after_completion() {
    let mut r: Reorder<u32> = Reorder::new();
    assert_eq!(batch(r.on_message(0, ok(0, 3))), (vec![3], false));
    assert_eq!(batch(r.on_message(2, ReportMsg::Total(1))), (vec![], true));
    assert!(matches!(r.on_message(2, ok(1, 4)), Step::Halt));
    assert!(matches!(r.on_message(2, ReportMsg::<u32, String>::Total(2)), Step::Halt));
}

#[test]
fn received_positions_are_tracked() {
    let mut r: Reorder<u32> = Reorder::new();
    assert!(!r.is_received(0));
    batch(r.on_message(0, ok(3, 3)));
    batch(r.on_message(0, ok(0, 0)));
    assert!(r.is_received(0));
    assert!(r.is_received(3));
    assert!(!r.is_received(1));
    assert!(!r.is_received(2));
    assert_eq!(r.next_position(), 1);
}

#[test]
fn any_arrival_order_reports_the_mapped_input() {
    let input: Vec<u32> = vec![100, 4, 3, 2, 1, 0, 1, 2, 3, 4, 5];
    let arrival: Vec<usize> = vec![5, 4, 6, 3, 7, 2, 8, 1, 9, 10, 0];
    let mut r: Reorder<u32> = Reorder::new();
    let mut out: Vec<u32> = Vec::new();
    for (k, &i) in arrival.iter().enumerate() {
        let (b, done) = batch(r.on_message(0, ok(i, input[i] * input[i])));
        assert!(!done);
        if k + 1 < arrival.len() {
            assert!(b.is_empty());
        }
        out.extend(b);
    }
    let (b, done) = batch(r.on_message(12, ReportMsg::Total(input.len())));
    assert!(b.is_empty() && done);
    assert_eq!(out, input.iter().map(|x| x * x).collect::<Vec<u32>>());
}

#[test]
fn count_in_the_control_word_completes_the_run() {
    let word = parstream::control::encode(parstream::control::Control::Count(1));
    let mut r: Reorder<u32> = Reorder::new();
    assert_eq!(batch(r.on_message(word, ok(0, 9))), (vec![9], true));
    assert!(matches!(r.on_message(word, ReportMsg::<u32, String>::Total(1)), Step::Halt));
}

#[test]
fn count_in_the_word_is_used_once_results_catch_up() {
    let word = parstream::control::encode(parstream::control::Control::Count(2));
    let mut r: Reorder<u32> = Reorder::new();
    assert_eq!(batch(r.on_message(0, ok(1, 4))), (vec![], false));
    assert_eq!(batch(r.on_message(word, ok(0, 3))), (vec![3, 4], true));
}

#[test]
fn running_word_leaves_the_total_unknown() {
    let mut r: Reorder<u32> = Reorder::new();
    assert_eq!(batch(r.on_message(0, ok(0, 1))), (vec![1], false));
    assert_eq!(batch(r.on_message(0, ok(1, 2))), (vec![2], false));
}

#[test]
fn stopped_coordinator_hands_nothing_on() {
    let mut r: Reorder<u32> = Reorder::new();
    assert_eq!(batch(r.on_message(0, ok(0, 1))), (vec![1], false));
    r.stop();
    assert!(matches!(r.on_message(0, ok(1, 2)), Step::Halt));
    assert_eq!(r.next_position(), 1);
}
