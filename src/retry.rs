use vstd::prelude::*;
use crate::error::SerialError;

verus! {

/// What the writer does after one attempt.
#[derive(Debug, PartialEq, Eq)]
pub enum WriteStep {
    /// Attempt the same write again.
    Retry,
    /// Stop, with this outcome for the caller.
    Done(Result<usize, SerialError>),
}

/// One decision of the retry policy: `failures` attempts have failed so far,
/// at most `max_retries` of them may be retried. Returns the new failure
/// count and the step.
pub open spec fn write_next(failures: nat, max_retries: nat, outcome: Result<usize, String>) -> (
    nat,
    WriteStep,
) {
    match outcome {
        Ok(n) => (failures, WriteStep::Done(Ok(n))),
        Err(e) => if failures < max_retries {
            (failures + 1, WriteStep::Retry)
        } else {
            (failures, WriteStep::Done(Err(SerialError::WriteFailed(e))))
        },
    }
}

/// The policy driven over the outcomes of successive attempts, starting after
/// `failures` failed ones. Returns how many attempts were made in all and the
/// final outcome, if the outcomes given suffice to reach one.
pub open spec fn write_run(
    failures: nat,
    max_retries: nat,
    outcomes: Seq<Result<usize, String>>,
) -> (nat, Option<Result<usize, SerialError>>)
    decreases outcomes.len() - failures,
{
    if failures >= outcomes.len() {
        (failures, None)
    } else {
        let (next, step) = write_next(failures, max_retries, outcomes[failures as int]);
        match step {
            WriteStep::Done(r) => (failures + 1, Some(r)),
            WriteStep::Retry => write_run(next, max_retries, outcomes),
        }
    }
}

/// Retry policy for one write: the first attempt plus up to `max_retries`
/// further attempts, with the last driver error reported when all fail.
pub struct WriteRetry {
    failures: usize,
    max_retries: usize,
    finished: bool,
}

impl WriteRetry {
    pub closed spec fn failures(&self) -> nat {
        self.failures as nat
    }

    pub closed spec fn max_retries(&self) -> nat {
        self.max_retries as nat
    }

    /// Whether a final outcome has been handed out.
    pub closed spec fn finished(&self) -> bool {
        self.finished
    }

    pub closed spec fn wf(&self) -> bool {
        self.failures <= self.max_retries
    }

    pub fn new(max_retries: usize) -> (r: Self)
        ensures
            r.wf(),
            r.failures() == 0,
            r.max_retries() == max_retries,
            !r.finished(),
    {
        WriteRetry { failures: 0, max_retries, finished: false }
    }

    /// The number of failed attempts so far.
    pub fn failed_attempts(&self) -> (r: usize)
        ensures
            r == self.failures(),
    {
        self.failures
    }

    /// Records the outcome of one attempt and says what to do next.
    pub fn record(&mut self, outcome: Result<usize, String>) -> (r: WriteStep)
        requires
            old(self).wf(),
            !old(self).finished(),
        ensures
            final(self).wf(),
            final(self).max_retries() == old(self).max_retries(),
            (final(self).failures(), r) == write_next(
                old(self).failures(),
                old(self).max_retries(),
                outcome,
            ),
            final(self).finished() == (r is Done),
    {
        match outcome {
            Ok(n) => {
                self.finished = true;
                WriteStep::Done(Ok(n))
            },
            Err(e) => {
                if self.failures < self.max_retries {
                    self.failures = self.failures + 1;
                    WriteStep::Retry
                } else {
                    self.finished = true;
                    WriteStep::Done(Err(SerialError::WriteFailed(e)))
                }
            },
        }
    }
}

proof fn lemma_all_fail_from(i: nat, max_retries: nat, outcomes: Seq<Result<usize, String>>)
    requires
        i <= max_retries,
        outcomes.len() > max_retries,
        forall|j: int| 0 <= j < outcomes.len() ==> (#[trigger] outcomes[j]) is Err,
    ensures
        write_run(i, max_retries, outcomes) == (
            max_retries + 1,
            Some(Err::<usize, SerialError>(SerialError::WriteFailed(outcomes[max_retries as int]->Err_0))),
        ),
    decreases max_retries - i,
{
    if i < max_retries {
        lemma_all_fail_from(i + 1, max_retries, outcomes);
    }
}

proof fn lemma_success_from(i: nat, k: nat, max_retries: nat, outcomes: Seq<Result<usize, String>>)
    requires
        i <= k <= max_retries,
        k < outcomes.len(),
        outcomes[k as int] is Ok,
        forall|j: int| 0 <= j < k ==> (#[trigger] outcomes[j]) is Err,
    ensures
        write_run(i, max_retries, outcomes) == (
            k + 1,
            Some(Ok::<usize, SerialError>(outcomes[k as int]->Ok_0)),
        ),
    decreases k - i,
{
    if i < k {
        lemma_success_from(i + 1, k, max_retries, outcomes);
    }
}

/// A write whose every attempt fails is attempted exactly `max_retries + 1`
/// times and ends in `WriteFailed` with the last error; a write whose attempt
/// `k` (counting from zero, `k <= max_retries`) is the first to succeed stops
/// after that attempt with its byte count.
pub proof fn lemma_write_attempts(max_retries: nat, outcomes: Seq<Result<usize, String>>)
    ensures
        (outcomes.len() > max_retries && forall|j: int|
            0 <= j < outcomes.len() ==> (#[trigger] outcomes[j]) is Err) ==> write_run(
            0,
            max_retries,
            outcomes,
        ) == (
            max_retries + 1,
            Some(Err::<usize, SerialError>(SerialError::WriteFailed(outcomes[max_retries as int]->Err_0))),
        ),
        forall|k: nat|
            k <= max_retries && k < outcomes.len() && (#[trigger] outcomes[k as int]) is Ok && (
            forall|j: int| 0 <= j < k ==> (#[trigger] outcomes[j]) is Err) ==> write_run(
                0,
                max_retries,
                outcomes,
            ) == (k + 1, Some(Ok::<usize, SerialError>(outcomes[k as int]->Ok_0))),
{
    if outcomes.len() > max_retries && forall|j: int|
        0 <= j < outcomes.len() ==> (#[trigger] outcomes[j]) is Err {
        lemma_all_fail_from(0, max_retries, outcomes);
    }
    assert forall|k: nat|
        k <= max_retries && k < outcomes.len() && (#[trigger] outcomes[k as int]) is Ok && (
        forall|j: int| 0 <= j < k ==> (#[trigger] outcomes[j]) is Err) implies write_run(
        0,
        max_retries,
        outcomes,
    ) == (k + 1, Some(Ok::<usize, SerialError>(outcomes[k as int]->Ok_0))) by {
        lemma_success_from(0, k, max_retries, outcomes);
    }
}

} // verus!
