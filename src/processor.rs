use vstd::prelude::*;
use std::collections::HashMap;
use crate::grace_period::{Detector, next_count, suppresses};
use crate::pipeline::{Pipeline, is_full_mask, is_required_mask};

verus! {

broadcast use vstd::std_specs::hash::group_hash_axioms;

/// One correlation id in flight within a pipeline's ledger.
#[derive(Debug, Copy, Clone, PartialEq, Eq)]
pub struct Event {
    pub id: u128,
    /// When this pipeline's worker first saw the id (seconds).
    pub timestamp: u32,
    /// Bit `i` is set once service `i` has reported the id; bits are never cleared.
    pub services: u32,
}

/// "This service observed these ids just now."
pub struct EventBatch {
    pub service_mask: u32,
    pub events: Vec<u128>,
}

/// What is reported for an event when it leaves the ledger.
#[derive(Debug, Copy, Clone, PartialEq, Eq)]
pub struct Outcome {
    pub id: u128,
    pub complete: bool,
    pub services: u32,
}

/// Completion rule: every service has seen the event, or at least every required one has.
pub open spec fn is_complete(services: u32, full: u32, required: u32) -> bool {
    services == full || services & required == required
}

pub open spec fn outcome_of(e: Event, complete: bool) -> Outcome {
    Outcome { id: e.id, complete, services: e.services }
}

pub open spec fn unique_ids(s: Seq<Event>) -> bool {
    forall|i: int, j: int| 0 <= i < j < s.len() ==> s[i].id != s[j].id
}

pub open spec fn sorted_by_first_seen(s: Seq<Event>) -> bool {
    forall|i: int, j: int| 0 <= i <= j < s.len() ==> s[i].timestamp <= s[j].timestamp
}

pub open spec fn in_ledger(s: Seq<Event>, id: u128) -> bool {
    exists|i: int| 0 <= i < s.len() && s[i].id == id
}

/// The staged bits of `id` with `mask` OR'd in (just `mask` if nothing was staged).
pub open spec fn staged_bits(staged: Map<u128, u32>, id: u128, mask: u32) -> u32 {
    if staged.contains_key(id) {
        staged[id] | mask
    } else {
        mask
    }
}

/// Staged updates after a service with bit `mask` reported `ids`, in order.
pub open spec fn merge_ids(staged: Map<u128, u32>, mask: u32, ids: Seq<u128>) -> Map<u128, u32>
    decreases ids.len(),
{
    if ids.len() == 0 {
        staged
    } else {
        let before = merge_ids(staged, mask, ids.drop_last());
        before.insert(ids.last(), staged_bits(before, ids.last(), mask))
    }
}

/// The ids staged for the first time while merging `ids`, in order of first arrival.
pub open spec fn first_arrivals(staged: Map<u128, u32>, mask: u32, ids: Seq<u128>) -> Seq<u128>
    decreases ids.len(),
{
    if ids.len() == 0 {
        Seq::empty()
    } else {
        let before = first_arrivals(staged, mask, ids.drop_last());
        if merge_ids(staged, mask, ids.drop_last()).contains_key(ids.last()) {
            before
        } else {
            before.push(ids.last())
        }
    }
}

/// Sweep step 1: a ledger entry with its staged update OR'd in.
pub open spec fn apply_update(e: Event, staged: Map<u128, u32>) -> Event {
    if staged.contains_key(e.id) {
        Event { services: e.services | staged[e.id], ..e }
    } else {
        e
    }
}

pub open spec fn updated_ledger(ledger: Seq<Event>, staged: Map<u128, u32>) -> Seq<Event> {
    ledger.map_values(|e: Event| apply_update(e, staged))
}

pub open spec fn complete_pred(full: u32, required: u32) -> spec_fn(Event) -> bool {
    |e: Event| is_complete(e.services, full, required)
}

pub open spec fn incomplete_pred(full: u32, required: u32) -> spec_fn(Event) -> bool {
    |e: Event| !is_complete(e.services, full, required)
}

/// Sweep step 2: completed entries whose report is not held back by the warm-up window.
pub open spec fn reported_pred(full: u32, required: u32, count: nat, deadline: int) -> spec_fn(
    Event,
) -> bool {
    |e: Event|
        is_complete(e.services, full, required) && !suppresses(count, deadline, e.timestamp as int)
}

pub open spec fn overdue(e: Event, ttl: i64, now: u32) -> bool {
    e.timestamp + ttl < now
}

pub open spec fn overdue_pred(ttl: i64, now: u32) -> spec_fn(Event) -> bool {
    |e: Event| overdue(e, ttl, now)
}

pub open spec fn fresh_pred(ttl: i64, now: u32) -> spec_fn(Event) -> bool {
    |e: Event| !overdue(e, ttl, now)
}

pub open spec fn completion_report(e: Event) -> Outcome {
    outcome_of(e, true)
}

pub open spec fn expiry_report(full: u32, required: u32) -> spec_fn(Event) -> Outcome {
    |e: Event| outcome_of(e, is_complete(e.services, full, required))
}

pub open spec fn not_in_ledger_pred(ledger: Seq<Event>) -> spec_fn(u128) -> bool {
    |id: u128| !in_ledger(ledger, id)
}

pub open spec fn admit_fn(staged: Map<u128, u32>, now: u32) -> spec_fn(u128) -> Event {
    |id: u128| Event { id, timestamp: now, services: staged[id] }
}

/// Sweep step 5: the staged ids not already in the ledger, as new entries first seen `now`,
/// in order of first arrival.
pub open spec fn admitted(
    arrivals: Seq<u128>,
    ledger: Seq<Event>,
    staged: Map<u128, u32>,
    now: u32,
) -> Seq<Event> {
    arrivals.filter(not_in_ledger_pred(ledger)).map_values(admit_fn(staged, now))
}

/// The completion records of a sweep, in ledger order.
pub open spec fn completion_outcomes(
    updated: Seq<Event>,
    full: u32,
    required: u32,
    count: nat,
    deadline: int,
) -> Seq<Outcome> {
    updated.filter(reported_pred(full, required, count, deadline)).map_values(
        |e: Event| completion_report(e),
    )
}

/// The ledger after a sweep at `now`: the unresolved entries that are not overdue, in
/// their order, followed by the admitted ones.
pub open spec fn swept_ledger(
    ledger: Seq<Event>,
    staged: Map<u128, u32>,
    arrivals: Seq<u128>,
    full: u32,
    required: u32,
    ttl: i64,
    now: u32,
) -> Seq<Event> {
    updated_ledger(ledger, staged).filter(incomplete_pred(full, required)).filter(
        fresh_pred(ttl, now),
    ) + admitted(arrivals, ledger, staged, now)
}

/// The entries a sweep at `now` expires: unresolved and overdue.
pub open spec fn expired_entries(
    ledger: Seq<Event>,
    staged: Map<u128, u32>,
    full: u32,
    required: u32,
    ttl: i64,
    now: u32,
) -> Seq<Event> {
    updated_ledger(ledger, staged).filter(incomplete_pred(full, required)).filter(
        overdue_pred(ttl, now),
    )
}

/// The records a sweep at `now` emits: the completions not held back by the warm-up
/// window, then one record per expired entry, never held back.
pub open spec fn sweep_outcomes(
    ledger: Seq<Event>,
    staged: Map<u128, u32>,
    full: u32,
    required: u32,
    count: nat,
    deadline: int,
    ttl: i64,
    now: u32,
) -> Seq<Outcome> {
    completion_outcomes(updated_ledger(ledger, staged), full, required, count, deadline)
        + expired_entries(ledger, staged, full, required, ttl, now).map_values(
        expiry_report(full, required),
    )
}

/// Whether a sweep resolved anything: a completion (reported or held back) or an expiry.
pub open spec fn made_progress(
    ledger: Seq<Event>,
    staged: Map<u128, u32>,
    full: u32,
    required: u32,
    ttl: i64,
    now: u32,
) -> bool {
    updated_ledger(ledger, staged).filter(complete_pred(full, required)).len() > 0
        || expired_entries(ledger, staged, full, required, ttl, now).len() > 0
}

pub proof fn lemma_filter_all<A>(s: Seq<A>, p: spec_fn(A) -> bool)
    requires
        forall|j: int| 0 <= j < s.len() ==> p(s[j]),
    ensures
        s.filter(p) == s,
    decreases s.len(),
{
    reveal(Seq::filter);
    if s.len() > 0 {
        lemma_filter_all(s.drop_last(), p);
        assert(s.drop_last().push(s.last()) =~= s);
    }
}

pub proof fn lemma_filter_none<A>(s: Seq<A>, p: spec_fn(A) -> bool)
    requires
        forall|j: int| 0 <= j < s.len() ==> !p(s[j]),
    ensures
        s.filter(p) == Seq::<A>::empty(),
    decreases s.len(),
{
    reveal(Seq::filter);
    if s.len() > 0 {
        lemma_filter_none(s.drop_last(), p);
    } else {
        assert(s =~= Seq::<A>::empty());
    }
}

/// A sequence whose first `k` elements satisfy `p` and fail `q`, and whose rest is the
/// other way round, filters into its two parts.
pub proof fn lemma_filter_split<A>(s: Seq<A>, k: int, p: spec_fn(A) -> bool, q: spec_fn(A) -> bool)
    requires
        0 <= k <= s.len(),
        forall|j: int| 0 <= j < k ==> p(s[j]) && !q(s[j]),
        forall|j: int| k <= j < s.len() ==> !p(s[j]) && q(s[j]),
    ensures
        s.filter(p) == s.take(k),
        s.filter(q) == s.skip(k),
{
    let a = s.take(k);
    let b = s.skip(k);
    assert(a + b =~= s);
    Seq::filter_distributes_over_add(a, b, p);
    Seq::filter_distributes_over_add(a, b, q);
    lemma_filter_all(a, p);
    lemma_filter_none(b, p);
    lemma_filter_none(a, q);
    lemma_filter_all(b, q);
    assert(a + Seq::<A>::empty() =~= a);
    assert(Seq::<A>::empty() + b =~= b);
}

fn is_overdue(ev: &Event, ttl: i64, now: u32) -> (r: bool)
    ensures
        r == overdue(*ev, ttl, now),
{
    (ev.timestamp as i128) + (ttl as i128) < (now as i128)
}

/// Decides reporting for an event leaving the ledger: nothing while the warm-up window
/// holds it back, else the outcome record.
pub fn report_event_status(ev: &Event, complete: bool, in_grace_period: bool) -> (r: Option<
    Outcome,
>)
    ensures
        in_grace_period ==> r is None,
        !in_grace_period ==> r == Some(outcome_of(*ev, complete)),
{
    if in_grace_period {
        return None;
    }
    Some(Outcome { id: ev.id, complete, services: ev.services })
}

/// The event-correlation engine of one pipeline: the ledger of events in flight, the
/// updates staged since the last sweep, and the warm-up detector.
pub struct Processor {
    pipeline: Pipeline,
    complete: u32,
    required: u32,
    events: Vec<Event>,
    event_set: HashMap<u128, u32>,
    arrivals: Vec<u128>,
    grace_period: Detector,
    latest: u32,
}

impl Processor {
    pub closed spec fn pipeline(&self) -> Pipeline {
        self.pipeline
    }

    pub closed spec fn full_mask(&self) -> u32 {
        self.complete
    }

    pub closed spec fn required_mask(&self) -> u32 {
        self.required
    }

    pub closed spec fn ttl(&self) -> i64 {
        self.pipeline.max_seconds_to_reach_end
    }

    /// The ledger, in order of first sighting.
    pub closed spec fn ledger(&self) -> Seq<Event> {
        self.events@
    }

    /// Updates merged since the last sweep: id to accumulated service bits.
    pub closed spec fn staged(&self) -> Map<u128, u32> {
        self.event_set@
    }

    /// The staged ids in order of first arrival since the last sweep.
    pub closed spec fn arrivals(&self) -> Seq<u128> {
        self.arrivals@
    }

    pub closed spec fn detector(&self) -> Detector {
        self.grace_period
    }

    /// Time of the latest sweep (or of the start).
    pub closed spec fn latest(&self) -> u32 {
        self.latest
    }

    pub closed spec fn wf(&self) -> bool {
        &&& self.pipeline.wf()
        &&& is_full_mask(self.complete, self.pipeline.services@.len())
        &&& is_required_mask(self.required, self.pipeline.services@)
        &&& self.grace_period.wf()
        &&& unique_ids(self.events@)
        &&& sorted_by_first_seen(self.events@)
        &&& forall|i: int| 0 <= i < self.events@.len() ==> self.events@[i].timestamp <= self.latest
        &&& self.arrivals@.no_duplicates()
        &&& forall|k: u128| self.event_set@.contains_key(k) <==> self.arrivals@.contains(k)
    }

    /// A processor for `pipeline` started at `start`: empty ledger, warm-up window until
    /// `start` plus the pipeline's time budget.
    pub fn new(pipeline: Pipeline, start: u32) -> (p: Self)
        requires
            pipeline.wf(),
            start + pipeline.max_seconds_to_reach_end <= i64::MAX,
        ensures
            p.wf(),
            p.pipeline() == pipeline,
            is_full_mask(p.full_mask(), pipeline.services@.len()),
            is_required_mask(p.required_mask(), pipeline.services@),
            p.ledger() == Seq::<Event>::empty(),
            p.staged() == Map::<u128, u32>::empty(),
            p.arrivals() == Seq::<u128>::empty(),
            p.detector().count() == 0,
            p.detector().deadline() == start + pipeline.max_seconds_to_reach_end,
            p.latest() == start,
    {
        let complete = pipeline.completed_services_mask();
        let required = pipeline.required_services_mask();
        let grace_period = Detector::new(start as i64 + pipeline.max_seconds_to_reach_end);
        Processor {
            pipeline,
            complete,
            required,
            events: Vec::new(),
            event_set: HashMap::new(),
            arrivals: Vec::new(),
            grace_period,
            latest: start,
        }
    }

    pub fn pipeline_spec(&self) -> (r: &Pipeline)
        ensures
            *r == self.pipeline(),
    {
        &self.pipeline
    }

    pub fn events(&self) -> (r: &Vec<Event>)
        ensures
            r@ == self.ledger(),
    {
        &self.events
    }

    pub fn grace_period(&self) -> (r: &Detector)
        ensures
            *r == self.detector(),
    {
        &self.grace_period
    }

    pub fn latest_sweep(&self) -> (r: u32)
        ensures
            r == self.latest(),
    {
        self.latest
    }

    /// Stages a batch: ORs the service's bit into the staged update of each id. The ledger
    /// is not touched.
    pub fn merge(&mut self, batch: &EventBatch)
        requires
            old(self).wf(),
        ensures
            final(self).wf(),
            final(self).staged() == merge_ids(old(self).staged(), batch.service_mask, batch.events@),
            final(self).arrivals() == old(self).arrivals() + first_arrivals(
                old(self).staged(),
                batch.service_mask,
                batch.events@,
            ),
            final(self).ledger() == old(self).ledger(),
            final(self).detector() == old(self).detector(),
            final(self).pipeline() == old(self).pipeline(),
            final(self).full_mask() == old(self).full_mask(),
            final(self).required_mask() == old(self).required_mask(),
            final(self).latest() == old(self).latest(),
    {
        let ghost staged0 = self.event_set@;
        let ghost arrivals0 = self.arrivals@;
        let mask = batch.service_mask;
        let mut i: usize = 0;
        while i < batch.events.len()
            invariant
                self.wf(),
                i <= batch.events@.len(),
                self.event_set@ == merge_ids(staged0, mask, batch.events@.take(i as int)),
                self.arrivals@ == arrivals0 + first_arrivals(
                    staged0,
                    mask,
                    batch.events@.take(i as int),
                ),
                self.events == old(self).events,
                self.grace_period == old(self).grace_period,
                self.pipeline == old(self).pipeline,
                self.complete == old(self).complete,
                self.required == old(self).required,
                self.latest == old(self).latest,
            decreases batch.events@.len() - i,
        {
            let id = batch.events[i];
            proof {
                assert(batch.events@.take(i + 1).drop_last() =~= batch.events@.take(i as int));
            }
            let ghost arr = self.arrivals@;
            match self.event_set.get(&id) {
                Some(seen) => {
                    let merged = *seen | mask;
                    self.event_set.insert(id, merged);
                },
                None => {
                    self.event_set.insert(id, mask);
                    self.arrivals.push(id);
                    proof {
                        assert(!arr.contains(id));
                        assert forall|k: u128|
                            self.event_set@.contains_key(k) <==> self.arrivals@.contains(k) by {
                            assert(self.arrivals@ == arr.push(id));
                            if k != id && self.arrivals@.contains(k) {
                                let j = choose|j: int|
                                    0 <= j < self.arrivals@.len() && self.arrivals@[j] == k;
                                assert(arr[j] == k);
                            }
                            if k != id && arr.contains(k) {
                                let j = choose|j: int| 0 <= j < arr.len() && arr[j] == k;
                                assert(self.arrivals@[j] == k);
                            }
                            if k == id {
                                assert(self.arrivals@[self.arrivals@.len() - 1] == id);
                            }
                        }
                    }
                },
            }
            proof {
                assert(self.arrivals@ =~= arrivals0 + first_arrivals(
                    staged0,
                    mask,
                    batch.events@.take(i + 1),
                ));
            }
            i = i + 1;
        }
        proof {
            assert(batch.events@.take(batch.events@.len() as int) =~= batch.events@);
        }
    }

    /// One sweep at time `now`, the only step that changes the ledger: applies the staged
    /// updates, reports and removes completed entries (unless the warm-up window holds the
    /// report back), expires and reports the overdue prefix, admits the new ids with
    /// `now` as their first sighting, clears the staging area, and tells the detector
    /// whether anything was resolved.
    pub fn sweep(&mut self, now: u32) -> (outcomes: Vec<Outcome>)
        requires
            old(self).wf(),
            old(self).latest() <= now,
        ensures
            final(self).wf(),
            final(self).ledger() == swept_ledger(
                old(self).ledger(),
                old(self).staged(),
                old(self).arrivals(),
                old(self).full_mask(),
                old(self).required_mask(),
                old(self).ttl(),
                now,
            ),
            outcomes@ == sweep_outcomes(
                old(self).ledger(),
                old(self).staged(),
                old(self).full_mask(),
                old(self).required_mask(),
                old(self).detector().count(),
                old(self).detector().deadline(),
                old(self).ttl(),
                now,
            ),
            final(self).detector().count() == if made_progress(
                old(self).ledger(),
                old(self).staged(),
                old(self).full_mask(),
                old(self).required_mask(),
                old(self).ttl(),
                now,
            ) {
                next_count(old(self).detector().count(), true)
            } else {
                old(self).detector().count()
            },
            final(self).detector().deadline() == old(self).detector().deadline(),
            final(self).staged() == Map::<u128, u32>::empty(),
            final(self).arrivals() == Seq::<u128>::empty(),
            final(self).latest() == now,
            final(self).pipeline() == old(self).pipeline(),
            final(self).full_mask() == old(self).full_mask(),
            final(self).required_mask() == old(self).required_mask(),
            sorted_by_first_seen(final(self).ledger()),
            unique_ids(final(self).ledger()),
    {
        let ghost ledger0 = self.events@;
        let ghost staged0 = self.event_set@;
        let ghost arrivals0 = self.arrivals@;
        let ghost upd = updated_ledger(ledger0, staged0);
        let ghost count0 = self.grace_period.count();
        let ghost deadline0 = self.grace_period.deadline();
        let full = self.complete;
        let required = self.required;
        let ttl = self.pipeline.max_seconds_to_reach_end;
        let mut outcomes: Vec<Outcome> = Vec::new();
        let mut completed: usize = 0;
        let mut retained: Vec<Event> = Vec::new();
        let mut i: usize = 0;
        proof {
            assert(upd.take(0) =~= Seq::<Event>::empty());
            reveal(Seq::filter);
        }
        // Apply staged updates and settle completed entries, in ledger order.
        while i < self.events.len()
            invariant
                i <= ledger0.len(),
                self.events@ == ledger0,
                self.arrivals@ == arrivals0,
                self.grace_period == old(self).grace_period,
                self.pipeline == old(self).pipeline,
                self.complete == full,
                self.required == required,
                self.latest == old(self).latest,
                self.latest <= now,
                count0 == self.grace_period.count(),
                deadline0 == self.grace_period.deadline(),
                upd == updated_ledger(ledger0, staged0),
                unique_ids(ledger0),
                sorted_by_first_seen(ledger0),
                forall|j: int| 0 <= j < ledger0.len() ==> ledger0[j].timestamp <= self.latest,
                forall|key: u128|
                    #[trigger] self.event_set@.contains_key(key) ==> staged0.contains_key(key)
                        && self.event_set@[key] == staged0[key],
                forall|j: int|
                    i <= j < ledger0.len() && staged0.contains_key(ledger0[j].id)
                        ==> self.event_set@.contains_key(ledger0[j].id),
                forall|j: int| 0 <= j < i ==> !self.event_set@.contains_key(ledger0[j].id),
                forall|key: u128|
                    staged0.contains_key(key) && !in_ledger(ledger0, key)
                        ==> self.event_set@.contains_key(key),
                retained@ == upd.take(i as int).filter(incomplete_pred(full, required)),
                outcomes@ == completion_outcomes(upd.take(i as int), full, required, count0, deadline0),
                completed as int == upd.take(i as int).filter(complete_pred(full, required)).len(),
                completed <= i,
                unique_ids(retained@),
                sorted_by_first_seen(retained@),
                forall|x: int, j: int|
                    0 <= x < retained@.len() && i <= j < ledger0.len() ==> retained@[x].id
                        != ledger0[j].id && retained@[x].timestamp <= ledger0[j].timestamp,
                forall|x: int|
                    0 <= x < retained@.len() ==> retained@[x].timestamp <= self.latest
                        && !self.event_set@.contains_key(retained@[x].id),
            decreases ledger0.len() - i,
        {
            let mut ev = self.events[i];
            let ghost before = self.event_set@;
            match self.event_set.remove(&ev.id) {
                Some(update) => {
                    ev.services = ev.services | update;
                },
                None => {},
            }
            proof {
                assert(ev == upd[i as int]);
                assert(upd.take(i + 1) =~= upd.take(i as int).push(upd[i as int]));
                upd.take(i as int).lemma_filter_push(ev, incomplete_pred(full, required));
                upd.take(i as int).lemma_filter_push(ev, complete_pred(full, required));
                upd.take(i as int).lemma_filter_push(
                    ev,
                    reported_pred(full, required, count0, deadline0),
                );
                assert forall|key: u128| self.event_set@.contains_key(key) implies staged0.contains_key(
                    key,
                ) && self.event_set@[key] == staged0[key] by {
                    assert(before.contains_key(key));
                    assert(self.event_set@[key] == before[key]);
                }
                assert forall|key: u128|
                    staged0.contains_key(key) && !in_ledger(ledger0, key)
                        implies self.event_set@.contains_key(key) by {
                    assert(before.contains_key(key));
                    assert(ledger0[i as int].id != key);
                }
            }
            if ev.services == full || ev.services & required == required {
                let in_grace = self.grace_period.within_grace_period(ev.timestamp);
                match report_event_status(&ev, true, in_grace) {
                    Some(o) => {
                        outcomes.push(o);
                    },
                    None => {},
                }
                proof {
                    let f = |e: Event| completion_report(e);
                    let kept = upd.take(i as int).filter(
                        reported_pred(full, required, count0, deadline0),
                    );
                    kept.lemma_push_map_commute(f, ev);
                    assert(outcomes@ =~= completion_outcomes(
                        upd.take(i + 1),
                        full,
                        required,
                        count0,
                        deadline0,
                    ));
                }
                completed = completed + 1;
            } else {
                retained.push(ev);
                proof {
                    assert(outcomes@ =~= completion_outcomes(
                        upd.take(i + 1),
                        full,
                        required,
                        count0,
                        deadline0,
                    ));
                }
            }
            i = i + 1;
        }
        proof {
            assert(upd.take(ledger0.len() as int) =~= upd);
        }
        let ghost unresolved = retained@;
        let mut k: usize = 0;
        // The ledger is sorted by first sighting, so the overdue entries form a prefix.
        while k < retained.len() && is_overdue(&retained[k], ttl, now)
            invariant
                k <= retained@.len(),
                retained@ == unresolved,
                forall|j: int| 0 <= j < k ==> overdue(retained@[j], ttl, now),
                outcomes@ == completion_outcomes(upd, full, required, count0, deadline0)
                    + retained@.take(k as int).map_values(expiry_report(full, required)),
            decreases retained@.len() - k,
        {
            let ev = retained[k];
            let is_done = ev.services == full || ev.services & required == required;
            match report_event_status(&ev, is_done, false) {
                Some(o) => {
                    outcomes.push(o);
                },
                None => {},
            }
            proof {
                assert(retained@.take(k + 1) =~= retained@.take(k as int).push(ev));
                retained@.take(k as int).lemma_push_map_commute(expiry_report(full, required), ev);
                assert(outcomes@ =~= completion_outcomes(upd, full, required, count0, deadline0)
                    + retained@.take(k + 1).map_values(expiry_report(full, required)));
            }
            k = k + 1;
        }
        proof {
            assert forall|j: int| k <= j < retained@.len() implies !overdue(retained@[j], ttl, now) by {
                assert(retained@[k as int].timestamp <= retained@[j].timestamp);
            }
            lemma_filter_split(unresolved, k as int, overdue_pred(ttl, now), fresh_pred(ttl, now));
        }
        let mut ledger: Vec<Event> = Vec::new();
        let mut j: usize = k;
        while j < retained.len()
            invariant
                k <= j <= retained@.len(),
                retained@ == unresolved,
                ledger@ == unresolved.subrange(k as int, j as int),
            decreases retained@.len() - j,
        {
            ledger.push(retained[j]);
            proof {
                assert(ledger@ =~= unresolved.subrange(k as int, j + 1));
            }
            j = j + 1;
        }
        let ghost kept = ledger@;
        proof {
            assert forall|key: u128| self.event_set@.contains_key(key) implies staged0.contains_key(
                key,
            ) && self.event_set@[key] == staged0[key] by {
                assert(self.event_set@.contains_key(key));
            }
            assert(kept =~= unresolved.skip(k as int));
            assert(arrivals0.take(0) =~= Seq::<u128>::empty());
            reveal(Seq::filter);
            assert(kept + admitted(arrivals0.take(0), ledger0, staged0, now) =~= kept);
            assert forall|x: int| 0 <= x < arrivals0.len() implies staged0.contains_key(
                arrivals0[x],
            ) by {
                assert(arrivals0.contains(arrivals0[x]));
            }
        }
        let mut a: usize = 0;
        // Admit the ids staged for the first time, in order of arrival.
        while a < self.arrivals.len()
            invariant
                a <= arrivals0.len(),
                self.arrivals@ == arrivals0,
                arrivals0.no_duplicates(),
                forall|x: int| 0 <= x < arrivals0.len() ==> staged0.contains_key(arrivals0[x]),
                self.grace_period == old(self).grace_period,
                self.pipeline == old(self).pipeline,
                self.complete == full,
                self.required == required,
                self.latest == old(self).latest,
                self.latest <= now,
                forall|key: u128|
                    #[trigger] self.event_set@.contains_key(key) ==> staged0.contains_key(key)
                        && self.event_set@[key] == staged0[key],
                forall|key: u128|
                    self.event_set@.contains_key(key) ==> !in_ledger(ledger0, key),
                forall|x: int|
                    a <= x < arrivals0.len() && !in_ledger(ledger0, arrivals0[x])
                        ==> self.event_set@.contains_key(arrivals0[x]),
                ledger@ == kept + admitted(arrivals0.take(a as int), ledger0, staged0, now),
                unique_ids(ledger@),
                sorted_by_first_seen(ledger@),
                forall|x: int|
                    0 <= x < ledger@.len() ==> ledger@[x].timestamp <= now
                        && !self.event_set@.contains_key(ledger@[x].id),
            decreases arrivals0.len() - a,
        {
            let id = self.arrivals[a];
            let ghost before = self.event_set@;
            proof {
                assert(arrivals0.take(a + 1) =~= arrivals0.take(a as int).push(id));
                arrivals0.take(a as int).lemma_filter_push(id, not_in_ledger_pred(ledger0));
                arrivals0.take(a as int).filter(not_in_ledger_pred(ledger0)).lemma_push_map_commute(
                    admit_fn(staged0, now),
                    id,
                );
            }
            match self.event_set.remove(&id) {
                Some(services) => {
                    ledger.push(Event { id, timestamp: now, services });
                    proof {
                        assert(ledger@ =~= kept + admitted(
                            arrivals0.take(a + 1),
                            ledger0,
                            staged0,
                            now,
                        ));
                    }
                },
                None => {
                    proof {
                        assert(in_ledger(ledger0, id));
                    }
                },
            }
            proof {
                assert forall|key: u128| self.event_set@.contains_key(key) implies staged0.contains_key(
                    key,
                ) && self.event_set@[key] == staged0[key] by {
                    assert(before.contains_key(key));
                    assert(self.event_set@[key] == before[key]);
                }
                assert forall|x: int|
                    a + 1 <= x < arrivals0.len() && !in_ledger(ledger0, arrivals0[x])
                        implies self.event_set@.contains_key(arrivals0[x]) by {
                    assert(arrivals0[x] != arrivals0[a as int]);
                }
            }
            a = a + 1;
        }
        proof {
            assert(arrivals0.take(arrivals0.len() as int) =~= arrivals0);
        }
        self.events = ledger;
        self.event_set = HashMap::new();
        self.arrivals = Vec::new();
        self.latest = now;
        if completed > 0 || k > 0 {
            self.grace_period.register_successful_event();
        }
        outcomes
    }
}

pub proof fn lemma_or_absorbs(x: u32, m: u32)
    by (bit_vector)
    ensures
        (x | m) | m == x | m,
        m | m == m,
        0u32 | m == m,
        x | 0u32 == x,
{
}

pub proof fn lemma_or_swaps(x: u32, a: u32, b: u32)
    by (bit_vector)
    ensures
        (x | a) | b == (x | b) | a,
        a | b == b | a,
{
}

/// What merging a batch does to one id: it is staged iff it was staged before or the batch
/// names it, and then carries the batch's bit exactly when the batch names it.
pub proof fn lemma_merge_ids_value(staged: Map<u128, u32>, mask: u32, ids: Seq<u128>, k: u128)
    ensures
        merge_ids(staged, mask, ids).contains_key(k) == (staged.contains_key(k) || ids.contains(k)),
        merge_ids(staged, mask, ids).contains_key(k) ==> merge_ids(staged, mask, ids)[k] == if ids.contains(k) {
            staged_bits(staged, k, mask)
        } else {
            staged[k]
        },
    decreases ids.len(),
{
    if ids.len() > 0 {
        let rest = ids.drop_last();
        lemma_merge_ids_value(staged, mask, rest, k);
        assert(ids == rest.push(ids.last()));
        assert(ids.contains(k) == (rest.contains(k) || ids.last() == k)) by {
            if ids.contains(k) && ids.last() != k {
                let j = choose|j: int| 0 <= j < ids.len() && ids[j] == k;
                assert(rest[j] == k);
            }
            if rest.contains(k) {
                let j = choose|j: int| 0 <= j < rest.len() && rest[j] == k;
                assert(ids[j] == k);
            }
        }
        if staged.contains_key(k) {
            lemma_or_absorbs(staged[k], mask);
        } else {
            lemma_or_absorbs(0, mask);
        }
    }
}

/// Staged updates after merging `batches` (service bit, ids), in order.
pub open spec fn merge_batches(staged: Map<u128, u32>, batches: Seq<(u32, Seq<u128>)>) -> Map<
    u128,
    u32,
>
    decreases batches.len(),
{
    if batches.len() == 0 {
        staged
    } else {
        merge_ids(merge_batches(staged, batches.drop_last()), batches.last().0, batches.last().1)
    }
}

/// The OR of the service bits of the batches that name `id`.
pub open spec fn reported_bits(batches: Seq<(u32, Seq<u128>)>, id: u128) -> u32
    decreases batches.len(),
{
    if batches.len() == 0 {
        0
    } else {
        reported_bits(batches.drop_last(), id) | if batches.last().1.contains(id) {
            batches.last().0
        } else {
            0
        }
    }
}

pub open spec fn named_by_some(batches: Seq<(u32, Seq<u128>)>, id: u128) -> bool {
    exists|b: int| 0 <= b < batches.len() && (#[trigger] batches[b]).1.contains(id)
}

/// Between two sweeps, the update staged for an id is the OR of the bits of every batch
/// that named it, and an id is staged iff some batch named it.
pub proof fn lemma_staged_is_union_of_reports(batches: Seq<(u32, Seq<u128>)>, id: u128)
    ensures
        merge_batches(Map::empty(), batches).contains_key(id) == named_by_some(batches, id),
        named_by_some(batches, id) ==> merge_batches(Map::empty(), batches)[id] == reported_bits(
            batches,
            id,
        ),
    decreases batches.len(),
{
    if batches.len() > 0 {
        let rest = batches.drop_last();
        let last = batches.last();
        lemma_staged_is_union_of_reports(rest, id);
        lemma_merge_ids_value(merge_batches(Map::empty(), rest), last.0, last.1, id);
        assert(named_by_some(batches, id) == (named_by_some(rest, id) || last.1.contains(id))) by {
            if named_by_some(batches, id) && !last.1.contains(id) {
                let b = choose|b: int| 0 <= b < batches.len() && (#[trigger] batches[b]).1.contains(id);
                assert(rest[b] == batches[b]);
            }
            if named_by_some(rest, id) {
                let b = choose|b: int| 0 <= b < rest.len() && (#[trigger] rest[b]).1.contains(id);
                assert(batches[b] == rest[b]);
            }
            if last.1.contains(id) {
                assert(batches[batches.len() - 1] == last);
            }
        }
        lemma_or_absorbs(reported_bits(rest, id), last.0);
        lemma_or_absorbs(0, last.0);
        lemma_or_absorbs(reported_bits(rest, id), 0);
        if !named_by_some(rest, id) {
            lemma_zero_bits(rest, id);
        }
    }
}

proof fn lemma_zero_bits(batches: Seq<(u32, Seq<u128>)>, id: u128)
    requires
        !named_by_some(batches, id),
    ensures
        reported_bits(batches, id) == 0,
    decreases batches.len(),
{
    if batches.len() > 0 {
        let rest = batches.drop_last();
        assert(!batches[batches.len() - 1].1.contains(id));
        assert(!named_by_some(rest, id)) by {
            if named_by_some(rest, id) {
                let b = choose|b: int| 0 <= b < rest.len() && (#[trigger] rest[b]).1.contains(id);
                assert(batches[b] == rest[b]);
            }
        }
        lemma_zero_bits(rest, id);
        assert(0u32 | 0u32 == 0u32) by (bit_vector);
    }
}

proof fn lemma_merge_commutes_at(
    staged: Map<u128, u32>,
    a: u32,
    xs: Seq<u128>,
    b: u32,
    ys: Seq<u128>,
    k: u128,
)
    ensures
        merge_ids(merge_ids(staged, a, xs), b, ys).contains_key(k) == merge_ids(
            merge_ids(staged, b, ys),
            a,
            xs,
        ).contains_key(k),
        merge_ids(merge_ids(staged, a, xs), b, ys).contains_key(k) ==> merge_ids(
            merge_ids(staged, a, xs),
            b,
            ys,
        )[k] == merge_ids(merge_ids(staged, b, ys), a, xs)[k],
        a == b && xs == ys ==> merge_ids(merge_ids(staged, a, xs), a, xs).contains_key(k)
            == merge_ids(staged, a, xs).contains_key(k),
        a == b && xs == ys && merge_ids(staged, a, xs).contains_key(k) ==> merge_ids(
            merge_ids(staged, a, xs),
            a,
            xs,
        )[k] == merge_ids(staged, a, xs)[k],
{
    lemma_merge_ids_value(staged, a, xs, k);
    lemma_merge_ids_value(staged, b, ys, k);
    lemma_merge_ids_value(merge_ids(staged, a, xs), b, ys, k);
    lemma_merge_ids_value(merge_ids(staged, b, ys), a, xs, k);
    if staged.contains_key(k) {
        lemma_or_swaps(staged[k], a, b);
        lemma_or_absorbs(staged[k], a);
        lemma_or_absorbs(staged[k] | a, a);
    }
    lemma_or_swaps(0, a, b);
    lemma_or_absorbs(a, b);
    lemma_or_absorbs(b, a);
    lemma_or_absorbs(a, a);
}

/// Merging is insensitive to the order in which two batches arrive, and merging the same
/// batch twice is the same as merging it once.
pub proof fn lemma_merge_commutes(
    staged: Map<u128, u32>,
    a: u32,
    xs: Seq<u128>,
    b: u32,
    ys: Seq<u128>,
)
    ensures
        merge_ids(merge_ids(staged, a, xs), b, ys) == merge_ids(merge_ids(staged, b, ys), a, xs),
        merge_ids(merge_ids(staged, a, xs), a, xs) == merge_ids(staged, a, xs),
{
    let ab = merge_ids(merge_ids(staged, a, xs), b, ys);
    let ba = merge_ids(merge_ids(staged, b, ys), a, xs);
    let aa = merge_ids(merge_ids(staged, a, xs), a, xs);
    assert forall|k: u128| ab.dom().contains(k) == ba.dom().contains(k) by {
        lemma_merge_commutes_at(staged, a, xs, b, ys, k);
    }
    assert forall|k: u128| ab.dom().contains(k) implies ab[k] == ba[k] by {
        lemma_merge_commutes_at(staged, a, xs, b, ys, k);
    }
    assert forall|k: u128| aa.dom().contains(k) == merge_ids(staged, a, xs).dom().contains(k) by {
        lemma_merge_commutes_at(staged, a, xs, a, xs, k);
    }
    assert forall|k: u128| aa.dom().contains(k) implies aa[k] == merge_ids(staged, a, xs)[k] by {
        lemma_merge_commutes_at(staged, a, xs, a, xs, k);
    }
    assert(ab =~= ba);
    assert(aa =~= merge_ids(staged, a, xs));
}

/// Expiry timing: a sweep at `now` expires exactly the unresolved entries first seen more
/// than `ttl` seconds before `now`; every unresolved entry it keeps is within its budget.
pub proof fn lemma_expiry_timing(
    ledger: Seq<Event>,
    staged: Map<u128, u32>,
    full: u32,
    required: u32,
    ttl: i64,
    now: u32,
)
    ensures
        forall|i: int|
            0 <= i < expired_entries(ledger, staged, full, required, ttl, now).len() ==> {
                let e = #[trigger] expired_entries(ledger, staged, full, required, ttl, now)[i];
                e.timestamp + ttl < now
            },
        forall|i: int|
            0 <= i < updated_ledger(ledger, staged).filter(incomplete_pred(full, required)).filter(
                fresh_pred(ttl, now),
            ).len() ==> {
                let e = #[trigger] updated_ledger(ledger, staged).filter(
                    incomplete_pred(full, required),
                ).filter(fresh_pred(ttl, now))[i];
                e.timestamp + ttl >= now
            },
{
    let u = updated_ledger(ledger, staged).filter(incomplete_pred(full, required));
    assert forall|i: int| 0 <= i < u.filter(overdue_pred(ttl, now)).len() implies overdue_pred(ttl, now)(
        u.filter(overdue_pred(ttl, now))[i],
    ) by {
        u.lemma_filter_pred(overdue_pred(ttl, now), i);
    }
    assert forall|i: int| 0 <= i < u.filter(fresh_pred(ttl, now)).len() implies fresh_pred(ttl, now)(
        u.filter(fresh_pred(ttl, now))[i],
    ) by {
        u.lemma_filter_pred(fresh_pred(ttl, now), i);
    }
}

/// Every record a sweep emits follows the completion rule: it says complete iff the
/// event's final mask is the full mask or covers every required service.
pub proof fn lemma_outcomes_follow_completion_rule(
    ledger: Seq<Event>,
    staged: Map<u128, u32>,
    full: u32,
    required: u32,
    count: nat,
    deadline: int,
    ttl: i64,
    now: u32,
)
    ensures
        forall|i: int|
            0 <= i < sweep_outcomes(ledger, staged, full, required, count, deadline, ttl, now).len()
                ==> {
                let o = #[trigger] sweep_outcomes(
                    ledger,
                    staged,
                    full,
                    required,
                    count,
                    deadline,
                    ttl,
                    now,
                )[i];
                o.complete == is_complete(o.services, full, required)
            },
{
    let upd = updated_ledger(ledger, staged);
    let done = upd.filter(reported_pred(full, required, count, deadline));
    let c = completion_outcomes(upd, full, required, count, deadline);
    let x = expired_entries(ledger, staged, full, required, ttl, now).map_values(
        expiry_report(full, required),
    );
    let all = sweep_outcomes(ledger, staged, full, required, count, deadline, ttl, now);
    assert(all == c + x);
    assert forall|i: int| 0 <= i < all.len() implies #[trigger] all[i].complete == is_complete(
        all[i].services,
        full,
        required,
    ) by {
        if i < c.len() {
            upd.lemma_filter_pred(reported_pred(full, required, count, deadline), i);
            assert(all[i] == c[i]);
        } else {
            assert(all[i] == x[i - c.len()]);
        }
    }
}

/// Each event is resolved at most once: when the ledger held each id once, no id that a
/// sweep reports is still in the ledger after it.
pub proof fn lemma_resolved_once(
    ledger: Seq<Event>,
    staged: Map<u128, u32>,
    arrivals: Seq<u128>,
    full: u32,
    required: u32,
    count: nat,
    deadline: int,
    ttl: i64,
    now: u32,
)
    requires
        unique_ids(ledger),
    ensures
        forall|i: int, j: int|
            0 <= i < sweep_outcomes(ledger, staged, full, required, count, deadline, ttl, now).len()
                && 0 <= j < swept_ledger(
                ledger,
                staged,
                arrivals,
                full,
                required,
                ttl,
                now,
            ).len() ==> (#[trigger] sweep_outcomes(
                ledger,
                staged,
                full,
                required,
                count,
                deadline,
                ttl,
                now,
            )[i]).id != (#[trigger] swept_ledger(ledger, staged, arrivals, full, required, ttl, now)[j]).id,
{
    let upd = updated_ledger(ledger, staged);
    let unresolved = upd.filter(incomplete_pred(full, required));
    let kept = unresolved.filter(fresh_pred(ttl, now));
    let expired = unresolved.filter(overdue_pred(ttl, now));
    let done = upd.filter(reported_pred(full, required, count, deadline));
    let c = completion_outcomes(upd, full, required, count, deadline);
    let x = expired.map_values(expiry_report(full, required));
    let adm = admitted(arrivals, ledger, staged, now);
    let all = sweep_outcomes(ledger, staged, full, required, count, deadline, ttl, now);
    let next = swept_ledger(ledger, staged, arrivals, full, required, ttl, now);
    assert(all == c + x);
    assert(next == kept + adm);
    assert(unique_ids(upd));
    assert forall|i: int, j: int| 0 <= i < all.len() && 0 <= j < next.len() implies #[trigger] all[i].id
        != #[trigger] next[j].id by {
        // the reported event, as an entry of the updated ledger
        let src = if i < c.len() {
            upd.lemma_filter_pred(reported_pred(full, required, count, deadline), i);
            upd.lemma_filter_contains_rev(reported_pred(full, required, count, deadline), done[i]);
            assert(all[i] == c[i]);
            done[i]
        } else {
            unresolved.lemma_filter_pred(overdue_pred(ttl, now), i - c.len());
            unresolved.lemma_filter_contains_rev(overdue_pred(ttl, now), expired[i - c.len()]);
            upd.lemma_filter_contains_rev(incomplete_pred(full, required), expired[i - c.len()]);
            assert(all[i] == x[i - c.len()]);
            expired[i - c.len()]
        };
        assert(upd.contains(src));
        let a = choose|a: int| 0 <= a < upd.len() && upd[a] == src;
        assert(all[i].id == upd[a].id);
        if j < kept.len() {
            let e = kept[j];
            assert(next[j] == e);
            unresolved.lemma_filter_pred(fresh_pred(ttl, now), j);
            unresolved.lemma_filter_contains_rev(fresh_pred(ttl, now), e);
            upd.lemma_filter_contains_rev(incomplete_pred(full, required), e);
            let b = choose|b: int| 0 <= b < unresolved.len() && unresolved[b] == e;
            upd.lemma_filter_pred(incomplete_pred(full, required), b);
            assert(upd.contains(e));
            let b2 = choose|b2: int| 0 <= b2 < upd.len() && upd[b2] == e;
            if a != b2 {
                assert(upd[a].id != upd[b2].id);
            } else {
                // the same entry cannot be both reported and kept
                if i < c.len() {
                    assert(is_complete(src.services, full, required));
                    assert(!is_complete(e.services, full, required));
                } else {
                    assert(overdue(src, ttl, now));
                    assert(!overdue(e, ttl, now));
                }
            }
        } else {
            let k = j - kept.len();
            assert(next[j] == adm[k]);
            let f = arrivals.filter(not_in_ledger_pred(ledger));
            arrivals.lemma_filter_pred(not_in_ledger_pred(ledger), k);
            assert(adm[k].id == f[k]);
            assert(upd[a].id == ledger[a].id);
        }
    }
}

} // verus!
