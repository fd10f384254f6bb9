use bitcore::{SerialError, WriteRetry, WriteStep};

/// Runs the policy against scripted attempt outcomes; returns the attempts
/// made and the final outcome.
fn run(max_retries: usize, outcomes: &[Result<usize, String>]) -> (usize, Result<usize, SerialError>) {
    let mut policy = WriteRetry::new(max_retries);
    let mut attempts = 0;
    loop {
        let outcome = outcomes[attempts].clone();
        attempts += 1;
        match policy.record(outcome) {
            WriteStep::Retry => {}
            WriteStep::Done(r) => return (attempts, r),
        }
    }
}

fn fail(msg: &str) -> Result<usize, String> {
    Err(msg.to_string())
}

#[test]
fn first_attempt_success() {
    assert_eq!(run(3, &[Ok(4)]), (1, Ok(4)));
}

#[test]
fn all_attempts_fail_after_retries_plus_one() {
    let outcomes = vec![fail("e1"), fail("e2"), fail("e3"), fail("e4"), fail("e5")];
    assert_eq!(run(2, &outcomes), (3, Err(SerialError::WriteFailed("e3".to_string()))));
}

#[test]
fn zero_retries_means_one_attempt() {
    assert_eq!(run(0, &[fail("gone"), Ok(9)]), (1, Err(SerialError::WriteFailed("gone".to_string()))));
}

#[test]
fn success_after_failures_stops_attempts() {
    let outcomes = vec![fail("a"), fail("b"), Ok(2), Ok(99)];
    assert_eq!(run(5, &outcomes), (3, Ok(2)));
}

#[test]
fn success_on_last_allowed_attempt() {
    let outcomes = vec![fail("a"), fail("b"), Ok(1)];
    assert_eq!(run(2, &outcomes), (3, Ok(1)));
}

#[test]
fn partial_write_is_returned_as_is() {
    assert_eq!(run(1, &[Ok(2)]), (1, Ok(2)));
}

#[test]
fn failed_attempts_are_counted() {
    let mut policy = WriteRetry::new(2);
    assert_eq!(policy.failed_attempts(), 0);
    assert_eq!(policy.record(fail("x")), WriteStep::Retry);
    assert_eq!(policy.failed_attempts(), 1);
    assert_eq!(policy.record(fail("y")), WriteStep::Retry);
    assert_eq!(policy.failed_attempts(), 2);
    assert_eq!(policy.record(fail("z")), WriteStep::Done(Err(SerialError::WriteFailed("z".to_string()))));
}
