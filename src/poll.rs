use vstd::prelude::*;
use crate::error::SerialError;

verus! {

/// Pause between two unsuccessful polls, in milliseconds.
pub const POLL_INTERVAL_MS: u64 = 100;

/// The outcome of one poll of the connection.
#[derive(Debug, PartialEq, Eq)]
pub enum Probe {
    /// The device reported no bytes available: not yet ready, not an error.
    Idle,
    /// One read was made and delivered this many bytes (possibly zero).
    Received(usize),
    /// The driver failed.
    Failed(String),
}

/// What the reader does next.
#[derive(Debug, PartialEq, Eq)]
pub enum ReadStep {
    /// Poll the connection once and report the probe.
    Poll,
    /// Sleep one poll interval, then report the elapsed time.
    Sleep,
    /// Stop, with this outcome for the caller.
    Done(Result<usize, SerialError>),
}

/// How a probe follows from the device's count of available bytes: `None`
/// when bytes are available and exactly one read must be made.
pub open spec fn probe_after_query_spec(available: Result<u32, String>) -> Option<Probe> {
    match available {
        Err(e) => Some(Probe::Failed(e)),
        Ok(n) => if n == 0 {
            Some(Probe::Idle)
        } else {
            None
        },
    }
}

/// The connection-level read primitive, first half: classify the count of
/// available bytes.
pub fn probe_after_query(available: Result<u32, String>) -> (r: Option<Probe>)
    ensures
        r == probe_after_query_spec(available),
{
    match available {
        Err(e) => Some(Probe::Failed(e)),
        Ok(n) => if n == 0 {
            Some(Probe::Idle)
        } else {
            None
        },
    }
}

/// The connection-level read primitive, second half: the outcome of the one
/// read that follows a positive count.
pub fn probe_after_read(read: Result<usize, String>) -> (r: Probe)
    ensures
        r == (match read {
            Ok(n) => Probe::Received(n),
            Err(e) => Probe::Failed(e),
        }),
{
    match read {
        Ok(n) => Probe::Received(n),
        Err(e) => Probe::Failed(e),
    }
}

/// The decision at a clock reading: poll while the deadline has not passed.
pub open spec fn clock_next(timeout_ms: u64, elapsed_ms: u64) -> ReadStep {
    if elapsed_ms < timeout_ms {
        ReadStep::Poll
    } else {
        ReadStep::Done(Err(SerialError::TimedOut))
    }
}

/// The decision after a probe: return at once on a read that delivered at
/// least one byte, fail on a driver error, and otherwise wait and poll again.
/// A zero-byte read is not the end of the stream.
pub open spec fn probe_next(probe: Probe) -> ReadStep {
    match probe {
        Probe::Received(n) => if n > 0 {
            ReadStep::Done(Ok(n))
        } else {
            ReadStep::Sleep
        },
        Probe::Failed(e) => ReadStep::Done(Err(SerialError::ReadFailed(e))),
        Probe::Idle => ReadStep::Sleep,
    }
}

/// The poll loop over clock readings `times` (the time elapsed since the read
/// began, taken before each round) and the probes of successive rounds,
/// starting at round `i`. Returns the number of probes used and the outcome,
/// if the readings and probes given suffice to reach one.
pub open spec fn read_run(timeout_ms: u64, times: Seq<u64>, probes: Seq<Probe>, i: nat) -> (
    nat,
    Option<Result<usize, SerialError>>,
)
    decreases times.len() - i,
{
    if i >= times.len() {
        (i, None)
    } else {
        match clock_next(timeout_ms, times[i as int]) {
            ReadStep::Done(r) => (i, Some(r)),
            _ => if i >= probes.len() {
                (i, None)
            } else {
                match probe_next(probes[i as int]) {
                    ReadStep::Done(r) => (i + 1, Some(r)),
                    _ => read_run(timeout_ms, times, probes, i + 1),
                }
            },
        }
    }
}

/// Poll policy for one timeout-bounded read. The deadline is measured from
/// the moment the read began.
pub struct ReadPoll {
    timeout_ms: u64,
    awaiting_probe: bool,
    finished: bool,
}

impl ReadPoll {
    pub closed spec fn timeout_ms(&self) -> u64 {
        self.timeout_ms
    }

    /// Whether the last step asked for a poll.
    pub closed spec fn awaiting_probe(&self) -> bool {
        self.awaiting_probe
    }

    /// Whether a final outcome has been handed out.
    pub closed spec fn finished(&self) -> bool {
        self.finished
    }

    pub fn new(timeout_ms: u64) -> (r: Self)
        ensures
            r.timeout_ms() == timeout_ms,
            !r.awaiting_probe(),
            !r.finished(),
    {
        ReadPoll { timeout_ms, awaiting_probe: false, finished: false }
    }

    /// Reports the time elapsed since the read began; at the start and after
    /// every sleep.
    pub fn on_clock(&mut self, elapsed_ms: u64) -> (r: ReadStep)
        requires
            !old(self).awaiting_probe(),
            !old(self).finished(),
        ensures
            r == clock_next(old(self).timeout_ms(), elapsed_ms),
            final(self).timeout_ms() == old(self).timeout_ms(),
            final(self).awaiting_probe() == (r is Poll),
            final(self).finished() == (r is Done),
    {
        if elapsed_ms < self.timeout_ms {
            self.awaiting_probe = true;
            ReadStep::Poll
        } else {
            self.finished = true;
            ReadStep::Done(Err(SerialError::TimedOut))
        }
    }

    /// Reports the probe of the poll that the last step asked for.
    pub fn on_probe(&mut self, probe: Probe) -> (r: ReadStep)
        requires
            old(self).awaiting_probe(),
            !old(self).finished(),
        ensures
            r == probe_next(probe),
            final(self).timeout_ms() == old(self).timeout_ms(),
            !final(self).awaiting_probe(),
            final(self).finished() == (r is Done),
    {
        self.awaiting_probe = false;
        match probe {
            Probe::Received(n) => if n > 0 {
                self.finished = true;
                ReadStep::Done(Ok(n))
            } else {
                ReadStep::Sleep
            },
            Probe::Failed(e) => {
                self.finished = true;
                ReadStep::Done(Err(SerialError::ReadFailed(e)))
            },
            Probe::Idle => ReadStep::Sleep,
        }
    }
}

proof fn lemma_idle_from(
    timeout_ms: u64,
    latency_ms: u64,
    times: Seq<u64>,
    probes: Seq<Probe>,
    i: nat,
)
    requires
        latency_ms > 0,
        i < times.len(),
        times[times.len() - 1] >= timeout_ms,
        probes.len() >= times.len(),
        forall|j: int| 0 <= j < probes.len() ==> #[trigger] probes[j] == Probe::Idle,
        forall|j: int| 0 < j < times.len() ==> #[trigger] times[j] <= times[j - 1] + latency_ms,
        i == 0 ==> times[0] == 0,
        i > 0 ==> times[i - 1] < timeout_ms,
    ensures
        exists|k: nat|
            i <= k < times.len() && read_run(timeout_ms, times, probes, i) == (
                k,
                Some(Err::<usize, SerialError>(SerialError::TimedOut)),
            ) && timeout_ms <= #[trigger] times[k as int] < timeout_ms + latency_ms,
    decreases times.len() - i,
{
    if times[i as int] >= timeout_ms {
        assert(read_run(timeout_ms, times, probes, i) == (
            i,
            Some(Err::<usize, SerialError>(SerialError::TimedOut)),
        ));
    } else {
        assert(probe_next(probes[i as int]) == ReadStep::Sleep);
        lemma_idle_from(timeout_ms, latency_ms, times, probes, i + 1);
    }
}

/// Against a device that never reports available bytes, a read ends in
/// `TimedOut`, at a clock reading no earlier than the timeout and earlier than
/// the timeout plus `latency_ms`, where `latency_ms` bounds how long one round
/// (a probe and a pause of `POLL_INTERVAL_MS`) takes. Readings are measured
/// from the moment the read began.
pub proof fn lemma_idle_device_times_out(
    timeout_ms: u64,
    latency_ms: u64,
    times: Seq<u64>,
    probes: Seq<Probe>,
)
    requires
        latency_ms > 0,
        times.len() > 0,
        times[0] == 0,
        times[times.len() - 1] >= timeout_ms,
        forall|j: int| 0 < j < times.len() ==> #[trigger] times[j] <= times[j - 1] + latency_ms,
        probes.len() >= times.len(),
        forall|j: int| 0 <= j < probes.len() ==> #[trigger] probes[j] == Probe::Idle,
    ensures
        exists|k: nat|
            k < times.len() && read_run(timeout_ms, times, probes, 0) == (
                k,
                Some(Err::<usize, SerialError>(SerialError::TimedOut)),
            ) && timeout_ms <= #[trigger] times[k as int] < timeout_ms + latency_ms,
{
    lemma_idle_from(timeout_ms, latency_ms, times, probes, 0);
}

/// When no probe reports a driver failure, a read that ends either returns a
/// positive byte count delivered by one probe, or times out.
pub proof fn lemma_read_ok_or_timed_out(
    timeout_ms: u64,
    times: Seq<u64>,
    probes: Seq<Probe>,
    i: nat,
)
    requires
        forall|j: int| 0 <= j < probes.len() ==> !(#[trigger] probes[j] is Failed),
    ensures
        match read_run(timeout_ms, times, probes, i).1 {
            Some(Ok(n)) => n > 0 && exists|j: int|
                0 <= j < probes.len() && #[trigger] probes[j] == Probe::Received(n),
            Some(Err(e)) => e == SerialError::TimedOut,
            None => true,
        },
    decreases times.len() - i,
{
    if i < times.len() && times[i as int] < timeout_ms && i < probes.len() {
        match probes[i as int] {
            Probe::Received(n) => {
                if n == 0 {
                    lemma_read_ok_or_timed_out(timeout_ms, times, probes, i + 1);
                }
            },
            Probe::Idle => {
                lemma_read_ok_or_timed_out(timeout_ms, times, probes, i + 1);
            },
            Probe::Failed(_) => {
                assert(probes[i as int] is Failed);
            },
        }
    }
}

/// Against a device whose first poll delivers `n > 0` bytes before the
/// deadline, a read returns `n` after that single probe.
pub proof fn lemma_ready_device_returns_at_once(
    timeout_ms: u64,
    times: Seq<u64>,
    probes: Seq<Probe>,
)
    requires
        times.len() > 0,
        times[0] < timeout_ms,
        probes.len() > 0,
        probes[0] is Received,
        probes[0]->Received_0 > 0,
    ensures
        read_run(timeout_ms, times, probes, 0) == (
            1nat,
            Some(Ok::<usize, SerialError>(probes[0]->Received_0)),
        ),
{
}

} // verus!
