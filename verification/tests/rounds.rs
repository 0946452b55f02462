use dmemcg_booster::rounds::{is_stale, AgentState, RoundEvent, RoundStep, Rounds};
use dmemcg_booster::sample::{focus_message, FocusSample};

fn seen(pid: u32) -> FocusSample {
    FocusSample { pid: Some(pid), class: Some("c".to_string()), title: None, app: None }
}

fn name(rounds: &Rounds) -> String {
    match &rounds.step {
        RoundStep::Select(s) => format!("Select {:?}", s.pid),
        step => format!("{step:?}"),
    }
}

#[test]
fn a_focus_gets_stale() {
    assert!(!is_stale(4999, 5000));
    assert!(is_stale(5000, 5000));
    assert!(is_stale(u128::MAX, u64::MAX));
}

#[test]
fn the_daemon_takes_samples_in_order() {
    let mut r = Rounds::run_daemon(true, true, 5000);
    let mut names = vec![name(&r)];
    for event in [
        RoundEvent::Done,
        RoundEvent::Done,
        RoundEvent::Samples(vec![seen(1), seen(2)]),
        RoundEvent::Done,
        RoundEvent::Selected(Some(1)),
        RoundEvent::Done,
        RoundEvent::Selected(None),
        RoundEvent::Done,
        RoundEvent::Elapsed(3),
        RoundEvent::Done,
    ] {
        r.advance(event);
        names.push(name(&r));
    }
    assert_eq!(
        names,
        vec![
            "HandleUnits",
            "ActivateDescendants",
            "Receive",
            "RestartClock",
            "Select Some(1)",
            "Update(Some(1))",
            "Select Some(2)",
            "Update(None)",
            "ReadClock",
            "Sleep",
            "HandleUnits",
        ]
    );
}

#[test]
fn the_daemon_lets_a_stale_focus_go() {
    let mut r = Rounds::run_daemon(false, true, 5000);
    assert_eq!(name(&r), "ActivateDescendants");
    r.advance(RoundEvent::Done);
    r.advance(RoundEvent::Samples(Vec::new()));
    assert_eq!(name(&r), "ReadClock");
    r.advance(RoundEvent::Elapsed(5000));
    assert_eq!(name(&r), "Update(None)");
    r.advance(RoundEvent::Done);
    assert_eq!(name(&r), "Sleep");
    r.advance(RoundEvent::Done);
    r.advance(RoundEvent::Done);
    r.advance(RoundEvent::Samples(Vec::new()));
    r.advance(RoundEvent::Elapsed(4999));
    assert_eq!(name(&r), "Sleep");
}

#[test]
fn a_daemon_without_a_socket_leaves_the_focus_alone() {
    let mut r = Rounds::run_daemon(false, false, 1);
    r.advance(RoundEvent::Done);
    assert_eq!(name(&r), "Sleep");
    r.advance(RoundEvent::Done);
    assert_eq!(name(&r), "ActivateDescendants");
}

#[test]
fn the_standalone_process_polls() {
    let mut r = Rounds::run_standalone(false);
    r.advance(RoundEvent::Done);
    assert_eq!(name(&r), "Poll");
    r.advance(RoundEvent::Samples(vec![seen(7)]));
    assert_eq!(name(&r), "Select Some(7)");
    r.advance(RoundEvent::Selected(Some(7)));
    r.advance(RoundEvent::Done);
    assert_eq!(name(&r), "Sleep");
    r.advance(RoundEvent::Done);
    r.advance(RoundEvent::Done);
    r.advance(RoundEvent::Samples(Vec::new()));
    assert_eq!(name(&r), "Sleep");
}

#[test]
fn events_out_of_turn_change_nothing() {
    let mut r = Rounds::run_daemon(true, true, 5000);
    r.advance(RoundEvent::Selected(None));
    r.advance(RoundEvent::Elapsed(1));
    r.advance(RoundEvent::Samples(vec![seen(1)]));
    assert_eq!(name(&r), "HandleUnits");
    assert!(r.pending.is_empty());
}

#[test]
fn a_round_of_samples_takes_two_events_each() {
    let mut r = Rounds::run_daemon(true, true, 0);
    let mut events = 0;
    while !matches!(r.step, RoundStep::Sleep) {
        events += 1;
        let event = match &r.step {
            RoundStep::Receive => RoundEvent::Samples(vec![seen(1), seen(2), seen(3)]),
            RoundStep::Select(s) => RoundEvent::Selected(s.pid),
            RoundStep::ReadClock => RoundEvent::Elapsed(0),
            _ => RoundEvent::Done,
        };
        r.advance(event);
    }
    assert_eq!(events, 6 + 2 * 3);
}

#[test]
fn the_agent_sends_changes_at_once() {
    let mut a = AgentState::new();
    assert_eq!(a.run_agent(None, 9999, 1500), None);
    assert_eq!(a.run_agent(Some(seen(1)), 0, 1500), Some(focus_message(&seen(1))));
    assert_eq!(a.run_agent(Some(seen(1)), 10, 1500), None);
    assert_eq!(a.run_agent(Some(seen(2)), 10, 1500), Some(focus_message(&seen(2))));
    assert_eq!(a.run_agent(None, 10, 1500), None);
}

#[test]
fn the_agent_repeats_itself() {
    let mut a = AgentState::new();
    a.run_agent(Some(seen(1)), 0, 1500);
    assert_eq!(a.run_agent(None, 1499, 1500), None);
    assert_eq!(a.run_agent(None, 1500, 1500), Some(focus_message(&seen(1))));
    assert_eq!(a.run_agent(None, u128::MAX, u64::MAX), Some(focus_message(&seen(1))));
}

#[test]
fn even_an_empty_sample_is_sent_first() {
    let mut a = AgentState::new();
    let nothing = FocusSample { pid: None, class: None, title: None, app: None };
    assert_eq!(a.run_agent(Some(nothing), 0, 1500), Some("FOCUS\t0\t\t\t\n".to_string()));
}
