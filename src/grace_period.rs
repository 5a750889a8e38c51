use vstd::prelude::*;

verus! {

/// Number of consecutive successful sweeps after which the warm-up window closes for good.
pub const REQUIRED_SUCCESS_EVENTS: usize = 3;

/// The success counter after one sweep has been registered: a successful sweep counts up,
/// an unsuccessful one starts over, and once the threshold is reached nothing moves it.
pub open spec fn next_count(count: nat, success: bool) -> nat {
    if count >= REQUIRED_SUCCESS_EVENTS {
        count
    } else if success {
        count + 1
    } else {
        0
    }
}

/// The success counter after a run of sweeps, each marked successful or not, in order.
pub open spec fn count_after(count: nat, ticks: Seq<bool>) -> nat
    decreases ticks.len(),
{
    if ticks.len() == 0 {
        count
    } else {
        next_count(count_after(count, ticks.drop_last()), ticks.last())
    }
}

/// Whether an outcome for an event first seen at `event_timestamp` is held back.
pub open spec fn suppresses(count: nat, deadline: int, event_timestamp: int) -> bool {
    count < REQUIRED_SUCCESS_EVENTS && event_timestamp <= deadline
}

/// The Grace Period Detector determines whether an event falls within the warm-up window of
/// a freshly started tracker. Events that were already part way through the pipeline at
/// startup may never be seen by some services, and reporting them would give false negatives.
///
/// The window lasts at most until `timeout_timestamp`, and closes earlier, for good, once
/// `REQUIRED_SUCCESS_EVENTS` successful sweeps in a row have been registered.
pub struct Detector {
    success_count: usize,
    timeout_timestamp: i64,
}

impl Detector {
    /// Consecutive successful sweeps registered so far (saturating at the threshold).
    pub closed spec fn count(&self) -> nat {
        self.success_count as nat
    }

    /// Absolute time (seconds) after which no event is within the window.
    pub closed spec fn deadline(&self) -> int {
        self.timeout_timestamp as int
    }

    pub open spec fn wf(&self) -> bool {
        self.count() <= REQUIRED_SUCCESS_EVENTS
    }

    pub fn new(timeout_timestamp: i64) -> (d: Self)
        ensures
            d.wf(),
            d.count() == 0,
            d.deadline() == timeout_timestamp as int,
    {
        Detector { success_count: 0, timeout_timestamp }
    }

    pub fn register_successful_event(&mut self)
        requires
            old(self).wf(),
        ensures
            final(self).wf(),
            final(self).count() == next_count(old(self).count(), true),
            final(self).deadline() == old(self).deadline(),
    {
        if self.success_count < REQUIRED_SUCCESS_EVENTS {
            self.success_count = self.success_count + 1;
        }
    }

    pub fn register_unsuccessful_event(&mut self)
        requires
            old(self).wf(),
        ensures
            final(self).wf(),
            final(self).count() == next_count(old(self).count(), false),
            final(self).deadline() == old(self).deadline(),
    {
        if self.success_count < REQUIRED_SUCCESS_EVENTS {
            self.success_count = 0;
        }
    }

    pub fn within_grace_period(&self, event_timestamp: u32) -> (r: bool)
        ensures
            r == suppresses(self.count(), self.deadline(), event_timestamp as int),
    {
        if self.success_count >= REQUIRED_SUCCESS_EVENTS {
            return false;
        }
        event_timestamp as i64 <= self.timeout_timestamp
    }
}

/// A run of successful sweeps only ever counts up, one per sweep, up to the threshold.
pub proof fn lemma_successes_count_up(ticks: Seq<bool>)
    requires
        forall|i: int| 0 <= i < ticks.len() ==> ticks[i],
    ensures
        count_after(0, ticks) == if ticks.len() < REQUIRED_SUCCESS_EVENTS {
            ticks.len()
        } else {
            REQUIRED_SUCCESS_EVENTS as nat
        },
    decreases ticks.len(),
{
    if ticks.len() > 0 {
        lemma_successes_count_up(ticks.drop_last());
    }
}

/// Once the threshold is reached, no further sweep, healthy or not, moves the counter.
pub proof fn lemma_latch_stays_closed(count: nat, ticks: Seq<bool>)
    requires
        count >= REQUIRED_SUCCESS_EVENTS,
    ensures
        count_after(count, ticks) == count,
    decreases ticks.len(),
{
    if ticks.len() > 0 {
        lemma_latch_stays_closed(count, ticks.drop_last());
    }
}

/// The warm-up window of a fresh detector with deadline `deadline`: while fewer than three
/// successful sweeps have been registered, every event first seen at or before the deadline
/// is suppressed; once three have been, no event is suppressed ever again, whatever sweeps
/// follow; and an event first seen after the deadline is never suppressed.
pub proof fn lemma_grace_window(
    successes: Seq<bool>,
    later: Seq<bool>,
    deadline: int,
    event_timestamp: int,
)
    requires
        forall|i: int| 0 <= i < successes.len() ==> successes[i],
    ensures
        successes.len() < REQUIRED_SUCCESS_EVENTS && event_timestamp <= deadline ==> suppresses(
            count_after(0, successes),
            deadline,
            event_timestamp,
        ),
        successes.len() >= REQUIRED_SUCCESS_EVENTS ==> !suppresses(
            count_after(count_after(0, successes), later),
            deadline,
            event_timestamp,
        ),
        forall|count: nat| event_timestamp > deadline ==> !suppresses(count, deadline, event_timestamp),
{
    lemma_successes_count_up(successes);
    if successes.len() >= REQUIRED_SUCCESS_EVENTS {
        lemma_latch_stays_closed(count_after(0, successes), later);
    }
}

} // verus!
