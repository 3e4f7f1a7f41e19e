use session_ui_core::coordinator::{Coordinator, CoordinatorAction, CoordinatorEvent, DEBOUNCE_MS};

/// Feeds one turn whose burst is `items` and returns what was run.
fn run_turn(c: &mut Coordinator<u32>, items: &[u32]) -> Vec<u32> {
    let mut ran = Vec::new();
    let a = c.step(CoordinatorEvent::Received(items[0]));
    assert!(matches!(a, CoordinatorAction::Sleep(ms) if ms == DEBOUNCE_MS));
    let a = c.step(CoordinatorEvent::DebounceElapsed);
    assert!(matches!(a, CoordinatorAction::Poll));
    for &w in &items[1..] {
        let a = c.step(CoordinatorEvent::Polled(Some(w)));
        assert!(matches!(a, CoordinatorAction::Poll));
    }
    if let CoordinatorAction::Execute(w) = c.step(CoordinatorEvent::Polled(None)) {
        ran.push(w);
    }
    let a = c.step(CoordinatorEvent::Finished);
    assert!(matches!(a, CoordinatorAction::Receive));
    ran
}

#[test]
fn debounce_is_five_ms() {
    assert_eq!(DEBOUNCE_MS, 5);
}

#[test]
fn scenario_burst_of_two_runs_only_second() {
    let mut c = Coordinator::new();
    assert_eq!(run_turn(&mut c, &[1, 2]), vec![2]);
}

#[test]
fn scenario_separate_turns_run_in_order() {
    let mut c = Coordinator::new();
    let mut ran = run_turn(&mut c, &[1]);
    ran.extend(run_turn(&mut c, &[2]));
    assert_eq!(ran, vec![1, 2]);
}

#[test]
fn long_burst_runs_last_only() {
    let mut c = Coordinator::new();
    assert_eq!(run_turn(&mut c, &[10, 11, 12, 13, 14]), vec![14]);
}

#[test]
fn closed_queue_stops_loop() {
    let mut c: Coordinator<u32> = Coordinator::new();
    assert!(c.accepts(&CoordinatorEvent::QueueClosed));
    assert!(matches!(c.step(CoordinatorEvent::QueueClosed), CoordinatorAction::Stop));
    assert!(c.is_stopped());
    assert!(!c.accepts(&CoordinatorEvent::Received(1)));
}

#[test]
fn events_out_of_turn_are_refused() {
    let mut c: Coordinator<u32> = Coordinator::new();
    assert!(!c.accepts(&CoordinatorEvent::DebounceElapsed));
    assert!(!c.accepts(&CoordinatorEvent::Finished));
    c.step(CoordinatorEvent::Received(3));
    assert!(c.accepts(&CoordinatorEvent::DebounceElapsed));
    assert!(!c.accepts(&CoordinatorEvent::Polled(None)));
    assert!(!c.accepts(&CoordinatorEvent::Received(4)));
    c.step(CoordinatorEvent::DebounceElapsed);
    assert!(c.accepts(&CoordinatorEvent::Polled(Some(4))));
    assert!(!c.accepts(&CoordinatorEvent::Finished));
    assert!(!c.is_stopped());
}
