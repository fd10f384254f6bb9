use bitcore::poll::{probe_after_query, probe_after_read};
use bitcore::{Probe, ReadPoll, ReadStep, SerialError, POLL_INTERVAL_MS};

/// Runs the poll loop against a simulated clock that advances one poll
/// interval per sleep; `probes` gives the outcome of each poll, `Idle` once
/// they run out. Returns the elapsed time at the end, the probes used and the
/// outcome.
fn run(timeout_ms: u64, probes: Vec<Probe>) -> (u64, usize, Result<usize, SerialError>) {
    let mut poll = ReadPoll::new(timeout_ms);
    let mut now: u64 = 0;
    let mut used = 0;
    let mut probes = probes.into_iter();
    let mut step = poll.on_clock(now);
    loop {
        match step {
            ReadStep::Poll => {
                used += 1;
                step = poll.on_probe(probes.next().unwrap_or(Probe::Idle));
            }
            ReadStep::Sleep => {
                now += POLL_INTERVAL_MS;
                step = poll.on_clock(now);
            }
            ReadStep::Done(r) => return (now, used, r),
        }
    }
}

#[test]
fn idle_device_times_out_within_one_interval() {
    let (elapsed, used, r) = run(1000, vec![]);
    assert_eq!(r, Err(SerialError::TimedOut));
    assert!(elapsed >= 1000);
    assert!(elapsed < 1000 + POLL_INTERVAL_MS);
    assert_eq!(used, 10);
}

#[test]
fn idle_device_with_uneven_timeout() {
    let (elapsed, _, r) = run(250, vec![]);
    assert_eq!(r, Err(SerialError::TimedOut));
    assert_eq!(elapsed, 300);
}

#[test]
fn zero_timeout_times_out_without_polling() {
    let (elapsed, used, r) = run(0, vec![Probe::Received(3)]);
    assert_eq!((elapsed, used, r), (0, 0, Err(SerialError::TimedOut)));
}

#[test]
fn ready_device_returns_after_first_poll() {
    let (elapsed, used, r) = run(1000, vec![Probe::Received(4)]);
    assert_eq!((elapsed, used, r), (0, 1, Ok(4)));
}

#[test]
fn zero_byte_read_is_not_end_of_stream() {
    let (elapsed, used, r) = run(1000, vec![Probe::Received(0), Probe::Idle, Probe::Received(2)]);
    assert_eq!((elapsed, used, r), (200, 3, Ok(2)));
}

#[test]
fn driver_error_ends_read() {
    let (_, used, r) = run(1000, vec![Probe::Idle, Probe::Failed("io".to_string())]);
    assert_eq!((used, r), (2, Err(SerialError::ReadFailed("io".to_string()))));
}

#[test]
fn probe_classification() {
    assert_eq!(probe_after_query(Ok(0)), Some(Probe::Idle));
    assert_eq!(probe_after_query(Ok(5)), None);
    assert_eq!(probe_after_query(Err("x".to_string())), Some(Probe::Failed("x".to_string())));
    assert_eq!(probe_after_read(Ok(0)), Probe::Received(0));
    assert_eq!(probe_after_read(Ok(3)), Probe::Received(3));
    assert_eq!(probe_after_read(Err("y".to_string())), Probe::Failed("y".to_string()));
}
