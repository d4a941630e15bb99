use parstream::control::{advance, decode, encode, is_cancelled, outcome, Control, Failure};
use parstream::pipeline::{finish_dispatch, worker_step, Wrapup};

#[test]
fn words_have_fixed_encodings() {
    assert_eq!(encode(Control::Running), 0);
    assert_eq!(encode(Control::Count(0)), 1);
    assert_eq!(encode(Control::Count(41)), 42);
    assert_eq!(encode(Control::Failed(Failure::CallbackError)), -1);
    assert_eq!(encode(Control::Failed(Failure::WorkerPanic)), -2);
    assert_eq!(encode(Control::Failed(Failure::ReportPanic)), -3);
}

#[test]
fn words_read_back_as_written() {
    let all = [
        Control::Running,
        Control::Count(0),
        Control::Count(7),
        Control::Count((isize::MAX - 1) as usize),
        Control::Failed(Failure::CallbackError),
        Control::Failed(Failure::WorkerPanic),
        Control::Failed(Failure::ReportPanic),
    ];
    for c in all {
        assert_eq!(decode(encode(c)), Some(c));
    }
    assert_eq!(decode(-4), None);
    assert_eq!(decode(isize::MIN), None);
}

#[test]
fn negative_words_cancel() {
    assert!(is_cancelled(-1));
    assert!(is_cancelled(-3));
    assert!(!is_cancelled(0));
    assert!(!is_cancelled(5));
}

#[test]
fn first_failure_wins() {
    let w = advance(0, Control::Failed(Failure::WorkerPanic));
    assert_eq!(w, -2);
    let w = advance(w, Control::Failed(Failure::CallbackError));
    assert_eq!(w, -2);
    let w = advance(w, Control::Count(3));
    assert_eq!(w, -2);
    assert_eq!(advance(4, Control::Failed(Failure::ReportPanic)), -3);
    assert_eq!(advance(0, Control::Count(3)), 4);
}

#[test]
fn outcome_follows_the_final_word() {
    assert_eq!(outcome(1), Some(Ok(0)));
    assert_eq!(outcome(12), Some(Ok(11)));
    assert_eq!(outcome(-1), Some(Err(Failure::CallbackError)));
    assert_eq!(outcome(-2), Some(Err(Failure::WorkerPanic)));
    assert_eq!(outcome(-3), Some(Err(Failure::ReportPanic)));
    assert_eq!(outcome(0), None);
    assert_eq!(outcome(-9), None);
}

#[test]
fn count_published_by_dispatcher_is_the_outcome() {
    for n in [0usize, 1, 11] {
        match finish_dispatch(0, n) {
            Wrapup::Publish(total) => {
                assert_eq!(total, n);
                assert_eq!(outcome(advance(0, Control::Count(total))), Some(Ok(n)));
            }
            Wrapup::Discard => panic!("nothing failed"),
        }
    }
}

#[test]
fn dispatcher_discards_after_failure() {
    assert_eq!(finish_dispatch(-1, 4), Wrapup::Discard);
    assert_eq!(finish_dispatch(-3, 0), Wrapup::Discard);
}

#[test]
fn workers_exit_on_cancel_or_shutdown() {
    assert_eq!(worker_step(0, Some((3usize, "x"))), Some((3, "x")));
    assert_eq!(worker_step(4, Some((0usize, "y"))), Some((0, "y")));
    assert_eq!(worker_step::<&str>(0, None), None);
    assert_eq!(worker_step(-1, Some((3usize, "x"))), None);
    assert_eq!(worker_step(-2, Some((1usize, "z"))), None);
}
