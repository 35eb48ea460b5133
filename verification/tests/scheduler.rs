use node_connectivity::scheduler::{
    CycleOutcome, Scheduler, SchedulerAction, SchedulerEvent, SchedulerState,
    NODES_CONNECTIVITY_UPDATE_PERIOD_SECS,
};

fn every(period_secs: u64) -> Scheduler {
    match Scheduler::new(period_secs) {
        Some(scheduler) => scheduler,
        None => panic!("no scheduler for a period of {} s", period_secs),
    }
}

#[test]
fn period_of_no_length_is_refused() {
    assert!(Scheduler::new(0).is_none());
    assert!(Scheduler::new(1).is_some());
}

#[test]
fn scheduler_starts_idle_with_its_period() {
    let scheduler = every(NODES_CONNECTIVITY_UPDATE_PERIOD_SECS);
    assert_eq!(scheduler.period_secs(), 30);
    assert_eq!(scheduler.current_state(), SchedulerState::Idle);
    assert_eq!(every(5).period_secs(), 5);
    assert_eq!(every(u64::MAX).period_secs(), u64::MAX);
}

#[test]
fn first_tick_starts_the_work() {
    let mut scheduler = every(30);
    assert_eq!(scheduler.handle(SchedulerEvent::Tick), SchedulerAction::Run);
    assert_eq!(scheduler.current_state(), SchedulerState::Running);
}

#[test]
fn tick_during_an_execution_does_not_start_another() {
    let mut scheduler = every(30);
    assert_eq!(scheduler.handle(SchedulerEvent::Tick), SchedulerAction::Run);
    for _ in 0..5 {
        assert_eq!(scheduler.handle(SchedulerEvent::Tick), SchedulerAction::Wait);
        assert_eq!(scheduler.current_state(), SchedulerState::Running);
    }
    assert_eq!(scheduler.handle(SchedulerEvent::Finished(CycleOutcome::Succeeded)), SchedulerAction::Wait);
    assert_eq!(scheduler.current_state(), SchedulerState::Idle);
    assert_eq!(scheduler.handle(SchedulerEvent::Tick), SchedulerAction::Run);
}

#[test]
fn executions_never_overlap() {
    let events = [
        SchedulerEvent::Tick,
        SchedulerEvent::Tick,
        SchedulerEvent::Finished(CycleOutcome::Succeeded),
        SchedulerEvent::Finished(CycleOutcome::Failed),
        SchedulerEvent::Tick,
        SchedulerEvent::Tick,
        SchedulerEvent::Tick,
        SchedulerEvent::Finished(CycleOutcome::Failed),
        SchedulerEvent::Tick,
        SchedulerEvent::Finished(CycleOutcome::Succeeded),
        SchedulerEvent::Tick,
    ];
    let mut scheduler = every(30);
    let mut outstanding = 0;
    let mut started = 0;
    for event in events {
        let was_running = scheduler.current_state() == SchedulerState::Running;
        let action = scheduler.handle(event);
        if matches!(event, SchedulerEvent::Finished(_)) && was_running {
            outstanding -= 1;
        }
        if action == SchedulerAction::Run {
            assert_eq!(outstanding, 0);
            outstanding += 1;
            started += 1;
        }
        assert!(outstanding == 0 || outstanding == 1);
        assert_eq!(outstanding == 1, scheduler.current_state() == SchedulerState::Running);
    }
    assert_eq!(started, 4);
}

#[test]
fn failure_is_reported_and_the_next_tick_runs() {
    let mut scheduler = every(30);
    assert_eq!(scheduler.handle(SchedulerEvent::Tick), SchedulerAction::Run);
    assert_eq!(
        scheduler.handle(SchedulerEvent::Finished(CycleOutcome::Failed)),
        SchedulerAction::ReportFailure
    );
    assert_eq!(scheduler.current_state(), SchedulerState::Idle);
    assert_eq!(scheduler.handle(SchedulerEvent::Tick), SchedulerAction::Run);
    assert_eq!(
        scheduler.handle(SchedulerEvent::Finished(CycleOutcome::Failed)),
        SchedulerAction::ReportFailure
    );
    assert_eq!(scheduler.handle(SchedulerEvent::Tick), SchedulerAction::Run);
    assert_eq!(scheduler.period_secs(), 30);
}

#[test]
fn finish_without_an_execution_is_ignored() {
    let mut scheduler = every(30);
    assert_eq!(scheduler.handle(SchedulerEvent::Finished(CycleOutcome::Failed)), SchedulerAction::Wait);
    assert_eq!(scheduler.handle(SchedulerEvent::Finished(CycleOutcome::Succeeded)), SchedulerAction::Wait);
    assert_eq!(scheduler.current_state(), SchedulerState::Idle);
    assert_eq!(scheduler.handle(SchedulerEvent::Tick), SchedulerAction::Run);
}
