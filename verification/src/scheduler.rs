//! The periodic runner, as a state machine.
//!
//! The machine decides when the unit of work starts; its driver owns the
//! timer and the work. The driver hands every event to `handle` and does
//! what the returned action says. At most one execution is under way at any
//! time, and a failed execution never stops the ticking.

use vstd::prelude::*;

verus! {

/// The interval at which to update the nodes connectivity data, in seconds.
pub const NODES_CONNECTIVITY_UPDATE_PERIOD_SECS: u64 = 30;

/// Whether an execution of the unit of work is under way.
#[derive(Clone, Copy, Debug, PartialEq, Eq)]
pub enum SchedulerState {
    Idle,
    Running,
}

/// How an execution of the unit of work ended.
#[derive(Clone, Copy, Debug, PartialEq, Eq)]
pub enum CycleOutcome {
    Succeeded,
    Failed,
}

/// What happened outside the machine.
#[derive(Clone, Copy, Debug, PartialEq, Eq)]
pub enum SchedulerEvent {
    /// The timer fired.
    Tick,
    /// The execution that was under way has ended.
    Finished(CycleOutcome),
}

/// What the driver is to do.
#[derive(Clone, Copy, Debug, PartialEq, Eq)]
pub enum SchedulerAction {
    /// Start an execution of the unit of work.
    Run,
    /// Report that the execution failed, then wait for the next tick.
    ReportFailure,
    /// Wait for the next event.
    Wait,
}

/// The transition of the machine: a tick starts an execution unless one is
/// under way; the end of an execution makes the machine idle again, and is
/// reported where the execution failed.
pub open spec fn step(state: SchedulerState, event: SchedulerEvent) -> (SchedulerState, SchedulerAction) {
    match (state, event) {
        (SchedulerState::Idle, SchedulerEvent::Tick) => (SchedulerState::Running, SchedulerAction::Run),
        (SchedulerState::Running, SchedulerEvent::Tick) => (SchedulerState::Running, SchedulerAction::Wait),
        (SchedulerState::Running, SchedulerEvent::Finished(CycleOutcome::Failed)) => (
            SchedulerState::Idle,
            SchedulerAction::ReportFailure,
        ),
        (SchedulerState::Running, SchedulerEvent::Finished(CycleOutcome::Succeeded)) => (
            SchedulerState::Idle,
            SchedulerAction::Wait,
        ),
        (SchedulerState::Idle, SchedulerEvent::Finished(_)) => (SchedulerState::Idle, SchedulerAction::Wait),
    }
}

/// The state of a machine that started in `start` and has handled `events`.
pub open spec fn state_after(start: SchedulerState, events: Seq<SchedulerEvent>) -> SchedulerState
    decreases events.len(),
{
    if events.len() == 0 {
        start
    } else {
        step(state_after(start, events.drop_last()), events.last()).0
    }
}

/// The action with which the machine answers the event at index `i`.
pub open spec fn action_at(start: SchedulerState, events: Seq<SchedulerEvent>, i: int) -> SchedulerAction {
    step(state_after(start, events.take(i)), events[i]).1
}

/// Between two starts of the unit of work an execution has ended: the
/// second start answers a tick that came after the first execution was
/// reported as finished, so no two executions are under way together.
pub proof fn lemma_executions_do_not_overlap(
    start: SchedulerState,
    events: Seq<SchedulerEvent>,
    first: int,
    second: int,
)
    requires
        0 <= first < second < events.len(),
        action_at(start, events, first) == SchedulerAction::Run,
        action_at(start, events, second) == SchedulerAction::Run,
    ensures
        exists|between: int| first < between < second && #[trigger] events[between] is Finished,
{
    if forall|between: int| first < between < second ==> !(#[trigger] events[between] is Finished) {
        lemma_running_until_finished(start, events, first, second);
    }
}

/// After a start, the machine is running for as long as no execution is
/// reported as finished.
proof fn lemma_running_until_finished(start: SchedulerState, events: Seq<SchedulerEvent>, first: int, upto: int)
    requires
        0 <= first < upto <= events.len(),
        action_at(start, events, first) == SchedulerAction::Run,
        forall|between: int| first < between < upto ==> !(#[trigger] events[between] is Finished),
    ensures
        state_after(start, events.take(upto)) == SchedulerState::Running,
    decreases upto,
{
    if upto - 1 > first {
        lemma_running_until_finished(start, events, first, upto - 1);
    }
}

/// A failed execution does not stop the schedule: whatever the machine's
/// state, once an execution is reported as finished, with either outcome,
/// the next tick starts the unit of work again.
pub proof fn lemma_continues_after_failure(state: SchedulerState, outcome: CycleOutcome)
    ensures
        step(step(state, SchedulerEvent::Finished(outcome)).0, SchedulerEvent::Tick)
            == (SchedulerState::Running, SchedulerAction::Run),
{
}

/// A periodic runner for one unit of work.
#[derive(Debug)]
pub struct Scheduler {
    period_secs: u64,
    state: SchedulerState,
}

impl Scheduler {
    #[verifier::type_invariant]
    spec fn well_formed(&self) -> bool {
        self.period_secs > 0
    }

    /// The period between ticks, in seconds.
    pub closed spec fn period(&self) -> u64 {
        self.period_secs
    }

    /// Whether an execution is under way.
    pub closed spec fn state(&self) -> SchedulerState {
        self.state
    }

    /// An idle runner that is to tick every `period_secs` seconds. There is
    /// none for a period of no length: it could never wait for a tick.
    pub fn new(period_secs: u64) -> (scheduler: Option<Self>)
        ensures
            period_secs == 0 ==> scheduler is None,
            period_secs > 0 ==> scheduler is Some && scheduler.unwrap().period() == period_secs
                && scheduler.unwrap().state() == SchedulerState::Idle,
    {
        if period_secs == 0 {
            None
        } else {
            Some(Scheduler { period_secs, state: SchedulerState::Idle })
        }
    }

    /// The period between ticks, in seconds. It is never zero.
    pub fn period_secs(&self) -> (period: u64)
        ensures
            period == self.period(),
            period > 0,
    {
        proof {
            use_type_invariant(self);
        }
        self.period_secs
    }

    /// Whether an execution is under way.
    pub fn current_state(&self) -> (state: SchedulerState)
        ensures
            state == self.state(),
    {
        self.state
    }

    /// Handles one event and says what the driver is to do.
    pub fn handle(&mut self, event: SchedulerEvent) -> (action: SchedulerAction)
        ensures
            (final(self).state(), action) == step(old(self).state(), event),
            final(self).period() == old(self).period(),
    {
        proof {
            use_type_invariant(&*self);
        }
        match (self.state, event) {
            (SchedulerState::Idle, SchedulerEvent::Tick) => {
                self.state = SchedulerState::Running;
                SchedulerAction::Run
            },
            (SchedulerState::Running, SchedulerEvent::Finished(outcome)) => {
                self.state = SchedulerState::Idle;
                match outcome {
                    CycleOutcome::Failed => SchedulerAction::ReportFailure,
                    CycleOutcome::Succeeded => SchedulerAction::Wait,
                }
            },
            _ => SchedulerAction::Wait,
        }
    }
}

} // verus!
