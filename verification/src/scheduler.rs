//! The decisions of the polling scheduler.
//!
//! The scheduler neither waits nor talks to the network. Its caller tells it
//! what happened (the timer fired, a check ended, shutdown was asked for) and
//! does what it answers (start the checks of a tick, record an outcome, stop).

use crate::config::{Entry, EntryView};
use crate::history::CheckOutcome;
use crate::status::UNREACHABLE;
use crate::store::{resolved_url, HistoryStore, StoreModel};
use vstd::prelude::*;

verus! {

/// A registered target as the scheduler polls it.
#[derive(Clone, Debug)]
pub struct PollTarget {
    pub id: i64,
    pub url: String,
}

/// What a `PollTarget` stands for in contracts.
pub struct PollTargetView {
    pub id: i64,
    pub url: Seq<char>,
}

impl View for PollTarget {
    type V = PollTargetView;

    open spec fn view(&self) -> PollTargetView {
        PollTargetView { id: self.id, url: self.url@ }
    }
}

/// The views of `targets`, in order.
pub open spec fn poll_target_views(targets: Seq<PollTarget>) -> Seq<PollTargetView> {
    targets.map_values(|t: PollTarget| t@)
}

/// Whether a tick is under way.
#[derive(Clone, Copy, Debug, PartialEq, Eq, Structural)]
pub enum Phase {
    Idle,
    Ticking,
}

/// How one check ended.
#[derive(Clone, Copy, Debug, PartialEq, Eq, Structural)]
pub enum CheckResult {
    /// The endpoint answered with this status code.
    Responded(i64),
    /// No answer: connection refused, name not resolved, timeout, or an
    /// answer that could not be read.
    Unreachable,
    /// The check was abandoned before it ended.
    Cancelled,
}

/// What the caller tells the scheduler.
#[derive(Clone, Copy, Debug, PartialEq, Eq, Structural)]
pub enum Event {
    /// The polling interval has passed.
    TimerFired,
    /// The check of the target at index `target` ended at `observed_at`.
    CheckFinished { target: usize, result: CheckResult, observed_at: i64 },
    /// The process is asked to stop.
    Shutdown,
}

/// What the scheduler asks of its caller.
#[derive(Clone, Copy, Debug, PartialEq, Eq, Structural)]
pub enum Action {
    /// Nothing to do.
    Wait,
    /// Start one check for every target, all at once.
    StartChecks,
    /// Append this outcome to the history.
    Record(CheckOutcome),
    /// Abandon the checks that are under way and end the loop.
    Stop,
}

/// The outcome that the end of a check leaves behind: the status code of an
/// answer, the code for "unreachable" where there was none, and nothing for
/// a check that was cancelled.
pub open spec fn outcome_of(target_id: i64, result: CheckResult, observed_at: i64) -> Option<
    CheckOutcome,
> {
    match result {
        CheckResult::Responded(code) => Some(
            CheckOutcome { target_id, status_code: code, observed_at },
        ),
        CheckResult::Unreachable => Some(
            CheckOutcome { target_id, status_code: UNREACHABLE, observed_at },
        ),
        CheckResult::Cancelled => None,
    }
}

/// What a `Scheduler` stands for in contracts.
pub struct SchedulerView {
    pub targets: Seq<PollTargetView>,
    pub in_flight: Seq<bool>,
    pub phase: Phase,
}

impl SchedulerView {
    /// Every target has its flag, and a tick is under way exactly while a
    /// check is in flight.
    pub open spec fn wf(self) -> bool {
        &&& self.in_flight.len() == self.targets.len()
        &&& self.phase == Phase::Ticking <==> self.in_flight.contains(true)
    }

    /// The scheduler at rest, with the same targets.
    pub open spec fn at_rest(self) -> SchedulerView {
        SchedulerView {
            targets: self.targets,
            in_flight: Seq::new(self.targets.len(), |i: int| false),
            phase: Phase::Idle,
        }
    }

    /// The scheduler after `event`, and what it asks of its caller.
    ///
    /// The timer starts a tick when none is under way and there is a target.
    /// The end of a check that is in flight takes it out of the tick and has
    /// its outcome recorded, unless it was cancelled; the tick is over with
    /// its last check. The end of a check that is not in flight is ignored.
    /// Shutdown abandons what is in flight and records nothing.
    pub open spec fn step(self, event: Event) -> (SchedulerView, Action) {
        match event {
            Event::TimerFired => {
                if self.phase == Phase::Idle && self.targets.len() > 0 {
                    (
                        SchedulerView {
                            targets: self.targets,
                            in_flight: Seq::new(self.targets.len(), |i: int| true),
                            phase: Phase::Ticking,
                        },
                        Action::StartChecks,
                    )
                } else {
                    (self, Action::Wait)
                }
            },
            Event::CheckFinished { target, result, observed_at } => {
                if target < self.in_flight.len() && self.in_flight[target as int] {
                    let in_flight = self.in_flight.update(target as int, false);
                    (
                        SchedulerView {
                            targets: self.targets,
                            in_flight,
                            phase: if in_flight.contains(true) {
                                Phase::Ticking
                            } else {
                                Phase::Idle
                            },
                        },
                        match outcome_of(self.targets[target as int].id, result, observed_at) {
                            Some(outcome) => Action::Record(outcome),
                            None => Action::Wait,
                        },
                    )
                } else {
                    (self, Action::Wait)
                }
            },
            Event::Shutdown => (self.at_rest(), Action::Stop),
        }
    }
}

/// Every event leaves the scheduler well formed and its targets as they were.
pub proof fn lemma_step_keeps_wf(s: SchedulerView, event: Event)
    requires
        s.wf(),
    ensures
        s.step(event).0.wf(),
        s.step(event).0.targets == s.targets,
{
    let after = s.step(event).0;
    match event {
        Event::TimerFired => {
            if s.phase == Phase::Idle && s.targets.len() > 0 {
                assert(after.in_flight[0]);
            }
        },
        Event::CheckFinished { .. } => {},
        Event::Shutdown => {
            assert forall|i: int| 0 <= i < after.in_flight.len() implies !after.in_flight[i] by {}
        },
    }
}

/// The end of one target's check, however it ended, leaves the check of
/// every other target in flight, and a check in flight that ends with an
/// answer has that answer recorded.
pub proof fn lemma_checks_are_isolated(
    s: SchedulerView,
    failing: usize,
    failure: CheckResult,
    failed_at: i64,
    other: usize,
    code: i64,
    answered_at: i64,
)
    requires
        s.wf(),
        failing != other,
        other < s.targets.len(),
        s.in_flight[other as int],
    ensures
        ({
            let (then, _) = s.step(
                Event::CheckFinished { target: failing, result: failure, observed_at: failed_at },
            );
            let (_, action) = then.step(
                Event::CheckFinished {
                    target: other,
                    result: CheckResult::Responded(code),
                    observed_at: answered_at,
                },
            );
            &&& then.wf()
            &&& then.in_flight[other as int]
            &&& action == Action::Record(
                CheckOutcome {
                    target_id: s.targets[other as int].id,
                    status_code: code,
                    observed_at: answered_at,
                },
            )
        }),
{
    lemma_step_keeps_wf(
        s,
        Event::CheckFinished { target: failing, result: failure, observed_at: failed_at },
    );
}

/// Within a tick a check ends once: a second end of the same target's check
/// changes nothing and has nothing recorded.
pub proof fn lemma_check_ends_once(
    s: SchedulerView,
    target: usize,
    first: CheckResult,
    first_at: i64,
    second: CheckResult,
    second_at: i64,
)
    requires
        s.wf(),
    ensures
        ({
            let (then, _) = s.step(
                Event::CheckFinished { target, result: first, observed_at: first_at },
            );
            then.step(Event::CheckFinished { target, result: second, observed_at: second_at })
                == (then, Action::Wait)
        }),
{
}

/// The store after the first `n` of `entries` were registered, one after the
/// other.
pub open spec fn registered(s: StoreModel, entries: Seq<EntryView>, n: nat) -> StoreModel
    decreases n,
{
    if n == 0 {
        s
    } else {
        registered(s, entries, (n - 1) as nat).register(
            entries[n - 1].name,
            entries[n - 1].public_url,
            entries[n - 1].polling_url,
        ).0
    }
}

/// The targets to poll after the first `n` of `entries` were registered: one
/// for each entry that the store gave an identifier, in the order of the
/// entries, with the URL to check.
pub open spec fn targets_to_poll(s: StoreModel, entries: Seq<EntryView>, n: nat) -> Seq<
    PollTargetView,
>
    decreases n,
{
    if n == 0 {
        Seq::empty()
    } else {
        let before = targets_to_poll(s, entries, (n - 1) as nat);
        let entry = entries[n - 1];
        match registered(s, entries, (n - 1) as nat).register(
            entry.name,
            entry.public_url,
            entry.polling_url,
        ).1 {
            Ok(id) => before.push(
                PollTargetView {
                    id: id as i64,
                    url: resolved_url(entry.public_url, entry.polling_url),
                },
            ),
            Err(_) => before,
        }
    }
}

/// The views of `entries`, in order.
pub open spec fn entry_views(entries: Seq<Entry>) -> Seq<EntryView> {
    entries.map_values(|e: Entry| e@)
}

/// Registers every configured entry with the store, as is done once before
/// the first tick, and returns the targets to poll. An entry that the store
/// refuses is left out and the others are still registered.
pub fn register_entries(store: &mut HistoryStore, entries: &Vec<Entry>) -> (targets: Vec<
    PollTarget,
>)
    requires
        old(store).wf(),
    ensures
        final(store).wf(),
        final(store)@ == registered(old(store)@, entry_views(entries@), entries@.len()),
        poll_target_views(targets@) == targets_to_poll(
            old(store)@,
            entry_views(entries@),
            entries@.len(),
        ),
{
    let mut targets: Vec<PollTarget> = Vec::new();
    let mut i: usize = 0;
    proof {
        assert(poll_target_views(targets@) =~= Seq::<PollTargetView>::empty());
    }
    while i < entries.len()
        invariant
            i <= entries@.len(),
            store.wf(),
            store@ == registered(old(store)@, entry_views(entries@), i as nat),
            poll_target_views(targets@) == targets_to_poll(
                old(store)@,
                entry_views(entries@),
                i as nat,
            ),
        decreases entries@.len() - i,
    {
        let entry = &entries[i];
        let url = entry.check_url().clone();
        proof {
            assert(entry_views(entries@)[i as int] == entry@);
        }
        let ghost before = targets@;
        match store.register_target(
            entry.name.clone(),
            entry.public_url.clone(),
            entry.polling_url.clone(),
        ) {
            Ok(id) => {
                let target = PollTarget { id, url };
                targets.push(target);
                proof {
                    assert(poll_target_views(targets@) =~= poll_target_views(before).push(
                        target@,
                    ));
                }
            },
            Err(_) => {},
        }
        i = i + 1;
    }
    targets
}

/// Does to the store what `action` asks of it: the outcome of a `Record` is
/// appended, any other action leaves the store as it is. An outcome that the
/// store refuses is dropped, and the caller goes on with the tick. Returns
/// whether an outcome was appended.
pub fn perform(store: &mut HistoryStore, action: Action) -> (appended: bool)
    requires
        old(store).wf(),
    ensures
        final(store).wf(),
        match action {
            Action::Record(outcome) => final(store)@ == old(store)@.record(outcome).0
                && appended == (1 <= outcome.target_id <= old(store)@.targets.len()),
            _ => final(store)@ == old(store)@ && !appended,
        },
{
    match action {
        Action::Record(outcome) => {
            match store.record_outcome(
                outcome.target_id,
                outcome.status_code,
                outcome.observed_at,
            ) {
                Ok(()) => true,
                Err(_) => false,
            }
        },
        _ => false,
    }
}

/// The scheduler's state: the targets it polls, which of their checks are in
/// flight, and whether a tick is under way.
#[derive(Debug)]
pub struct Scheduler {
    targets: Vec<PollTarget>,
    in_flight: Vec<bool>,
    phase: Phase,
}

impl View for Scheduler {
    type V = SchedulerView;

    closed spec fn view(&self) -> SchedulerView {
        SchedulerView {
            targets: poll_target_views(self.targets@),
            in_flight: self.in_flight@,
            phase: self.phase,
        }
    }
}

impl Scheduler {
    /// The scheduler's invariant.
    pub open spec fn wf(&self) -> bool {
        self@.wf()
    }

    /// A scheduler at rest that polls `targets`.
    pub fn new(targets: Vec<PollTarget>) -> (scheduler: Scheduler)
        ensures
            scheduler.wf(),
            scheduler@.targets == poll_target_views(targets@),
            scheduler@ == scheduler@.at_rest(),
    {
        let mut in_flight: Vec<bool> = Vec::new();
        let mut i: usize = 0;
        while i < targets.len()
            invariant
                i <= targets@.len(),
                in_flight@.len() == i,
                forall|j: int| 0 <= j < i ==> !in_flight@[j],
            decreases targets@.len() - i,
        {
            in_flight.push(false);
            i = i + 1;
        }
        let scheduler = Scheduler { targets, in_flight, phase: Phase::Idle };
        proof {
            assert(scheduler@.in_flight =~= scheduler@.at_rest().in_flight);
        }
        scheduler
    }

    /// Whether any check is in flight.
    fn any_in_flight(&self) -> (any: bool)
        ensures
            any == self@.in_flight.contains(true),
    {
        let mut i: usize = 0;
        while i < self.in_flight.len()
            invariant
                i <= self.in_flight@.len(),
                forall|j: int| 0 <= j < i ==> !self.in_flight@[j],
            decreases self.in_flight@.len() - i,
        {
            if self.in_flight[i] {
                return true;
            }
            i = i + 1;
        }
        false
    }

    /// Sets the flag of every target to `value`.
    fn set_all(&mut self, value: bool)
        requires
            old(self)@.in_flight.len() == old(self)@.targets.len(),
        ensures
            final(self)@.targets == old(self)@.targets,
            final(self)@.phase == old(self)@.phase,
            final(self)@.in_flight == Seq::new(old(self)@.targets.len(), |i: int| value),
    {
        let mut i: usize = 0;
        while i < self.in_flight.len()
            invariant
                i <= self.in_flight@.len(),
                self.in_flight@.len() == old(self).in_flight@.len(),
                self.targets == old(self).targets,
                self.phase == old(self).phase,
                forall|j: int| 0 <= j < i ==> self.in_flight@[j] == value,
            decreases self.in_flight@.len() - i,
        {
            self.in_flight.set(i, value);
            i = i + 1;
        }
        proof {
            assert(self@.in_flight =~= Seq::new(old(self)@.targets.len(), |i: int| value));
        }
    }

    /// Takes one event and answers with what is to be done.
    pub fn step(&mut self, event: Event) -> (action: Action)
        requires
            old(self).wf(),
        ensures
            final(self).wf(),
            final(self)@ == old(self)@.step(event).0,
            action == old(self)@.step(event).1,
    {
        proof {
            lemma_step_keeps_wf(self@, event);
        }
        match event {
            Event::TimerFired => {
                if self.phase == Phase::Idle && self.targets.len() > 0 {
                    self.set_all(true);
                    self.phase = Phase::Ticking;
                    Action::StartChecks
                } else {
                    Action::Wait
                }
            },
            Event::CheckFinished { target, result, observed_at } => {
                if target < self.in_flight.len() && self.in_flight[target] {
                    self.in_flight.set(target, false);
                    self.phase = if self.any_in_flight() {
                        Phase::Ticking
                    } else {
                        Phase::Idle
                    };
                    let target_id = self.targets[target].id;
                    match result {
                        CheckResult::Responded(code) => Action::Record(
                            CheckOutcome { target_id, status_code: code, observed_at },
                        ),
                        CheckResult::Unreachable => Action::Record(
                            CheckOutcome { target_id, status_code: UNREACHABLE, observed_at },
                        ),
                        CheckResult::Cancelled => Action::Wait,
                    }
                } else {
                    Action::Wait
                }
            },
            Event::Shutdown => {
                self.set_all(false);
                self.phase = Phase::Idle;
                Action::Stop
            },
        }
    }

    /// The targets that are polled, in the order of their indices.
    pub fn targets(&self) -> (targets: &Vec<PollTarget>)
        ensures
            poll_target_views(targets@) == self@.targets,
    {
        &self.targets
    }

    /// Whether a tick is under way.
    pub fn phase(&self) -> (phase: Phase)
        ensures
            phase == self@.phase,
    {
        self.phase
    }

    /// Whether the check of the target at index `target` is in flight.
    pub fn is_in_flight(&self, target: usize) -> (flag: bool)
        ensures
            flag == (target < self@.in_flight.len() && self@.in_flight[target as int]),
    {
        target < self.in_flight.len() && self.in_flight[target]
    }
}

} // verus!
