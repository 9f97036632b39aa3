//! Fetching over HTTP, with retries.
#[allow(unused_imports)]
use vstd::arithmetic::power2::*;
#[allow(unused_imports)]
use vstd::bits::*;
use vstd::prelude::*;

verus! {

/// How often a fetch is tried.
pub const MAX_RETRIES: u32 = 3;

/// How an attempt to fetch has ended. An error is of whatever type the transport reports.
#[derive(Debug)]
pub enum Attempt<E> {
    /// The response was a success, with this body.
    Fetched(Vec<u8>),
    /// The response was a success, but its body could not be read.
    BodyLost(E),
    /// There was no response, or it was no success.
    Failed(E),
}

/// What to do after an attempt.
#[derive(Debug)]
pub enum FetchStep<E> {
    /// Return these bytes.
    Return(Vec<u8>),
    /// Make this attempt after so many seconds.
    Retry { attempt: u32, seconds: u64 },
    /// Fail with this error.
    GiveUp(E),
}

/// How long to wait after attempt number `attempt` has failed: a second, and twice as long every
/// time.
pub open spec fn wait_after(attempt: u32) -> nat {
    pow2((attempt - 1) as nat)
}

/// What to do after attempt number `attempt`, counted from one.
pub open spec fn step_after<E>(attempt: u32, outcome: Attempt<E>) -> FetchStep<E> {
    match outcome {
        Attempt::Fetched(bytes) => FetchStep::Return(bytes),
        Attempt::BodyLost(e) => FetchStep::GiveUp(e),
        Attempt::Failed(e) => if attempt < MAX_RETRIES {
            FetchStep::Retry {
                attempt: (attempt + 1) as u32,
                seconds: wait_after(attempt) as u64,
            }
        } else {
            FetchStep::GiveUp(e)
        },
    }
}

/// Decides what to do after attempt number `attempt`, counted from one: HTTP GET with up to
/// [`MAX_RETRIES`] attempts and `2^(attempt-1)` seconds of backoff. A body that is lost is not
/// fetched again.
pub fn fetch_with_retry<E>(attempt: u32, outcome: Attempt<E>) -> (res: FetchStep<E>)
    requires
        1 <= attempt <= MAX_RETRIES,
    ensures
        res == step_after(attempt, outcome),
        res matches FetchStep::Retry { seconds, .. } ==> seconds == wait_after(attempt),
{
    match outcome {
        Attempt::Fetched(bytes) => FetchStep::Return(bytes),
        Attempt::BodyLost(e) => FetchStep::GiveUp(e),
        Attempt::Failed(e) => if attempt < MAX_RETRIES {
            let doublings: u64 = (attempt - 1) as u64;
            proof {
                lemma2_to64();
                lemma_u64_shl_is_mul(1, doublings);
            }
            FetchStep::Retry { attempt: attempt + 1, seconds: 1u64 << doublings }
        } else {
            FetchStep::GiveUp(e)
        },
    }
}

/// A whole fetch: how many attempts it makes, how long it waits between them, and how it ends.
pub struct FetchRun<E> {
    pub attempts: nat,
    pub waits: Seq<u64>,
    pub end: FetchStep<E>,
}

/// The fetch from attempt number `attempt` on, where each attempt `i` ends as `outcomes[i - 1]`
/// says.
pub open spec fn run_from<E>(outcomes: Seq<Attempt<E>>, attempt: u32) -> FetchRun<E>
    decreases
            if attempt <= MAX_RETRIES {
                MAX_RETRIES - attempt + 1
            } else {
                0
            },
{
    match step_after(attempt, outcomes[attempt - 1]) {
        FetchStep::Retry { seconds, .. } if attempt < MAX_RETRIES => {
            let rest = run_from(outcomes, (attempt + 1) as u32);
            FetchRun { waits: seq![seconds] + rest.waits, ..rest }
        },
        end => FetchRun { attempts: attempt as nat, waits: Seq::empty(), end },
    }
}

/// A fetch makes at most three attempts, waits one second after the first that has failed and two
/// after the second, and goes on only after a failure. It ends with what its last attempt gave: the
/// body, or the error, which after the third attempt is that of the last failure.
pub proof fn law_fetch_is_bounded<E>(outcomes: Seq<Attempt<E>>)
    requires
        outcomes.len() >= 3,
    ensures
        ({
            let run = run_from(outcomes, 1);
            &&& 1 <= run.attempts <= 3
            &&& run.waits == seq![1u64, 2].take(run.attempts - 1)
            &&& forall|i: int| 0 <= i < run.attempts - 1 ==> (#[trigger] outcomes[i]) is Failed
            &&& match outcomes[run.attempts - 1] {
                Attempt::Fetched(bytes) => run.end == FetchStep::<E>::Return(bytes),
                Attempt::BodyLost(e) => run.end == FetchStep::GiveUp(e),
                Attempt::Failed(e) => run.attempts == 3 && run.end == FetchStep::GiveUp(e),
            }
        }),
{
    lemma2_to64();
    reveal_with_fuel(run_from, 4);
    let run = run_from(outcomes, 1);
    assert(run.waits =~= seq![1u64, 2].take(run.attempts - 1));
}

/// What each attempt leads to. A body is returned as it is, and a lost one gives up with its own
/// error. A failure leads to the next attempt, after a second and twice as long every time, but for
/// the third, which gives up with its error.
pub proof fn law_attempts_lead_on<E>(attempt: u32, bytes: Vec<u8>, error: E)
    requires
        1 <= attempt <= 3,
    ensures
        step_after(attempt, Attempt::<E>::Fetched(bytes)) == FetchStep::<E>::Return(bytes),
        step_after(attempt, Attempt::BodyLost(error)) == FetchStep::GiveUp(error),
        attempt == 3 <==> step_after(attempt, Attempt::Failed(error)) == FetchStep::GiveUp(error),
        attempt < 3 ==> step_after(attempt, Attempt::Failed(error)) == (FetchStep::<E>::Retry {
            attempt: (attempt + 1) as u32,
            seconds: if attempt == 1 {
                1
            } else {
                2
            },
        }),
        wait_after(1) == 1,
        wait_after((attempt + 1) as u32) == 2 * wait_after(attempt),
        MAX_RETRIES == 3,
{
    lemma2_to64();
}

} // verus!
