use dmemcg_booster::sample::{focus_message, FocusSample};
use dmemcg_booster::socket::{
    receive_focus_samples, remove_stale_socket, setup_daemon_socket, FocusReceiver, PathKind,
    ReceiveEvent, ReceiveStep, SetupEvent, SetupStep, SocketSetup,
};

fn setup(owner: Option<u32>) -> SocketSetup {
    setup_daemon_socket("/run/x/s".to_string(), Some("/run/x".to_string()), 0o660, owner)
}

fn failed() -> SetupEvent {
    SetupEvent::Failed("no way".to_string())
}

fn message(pid: u32) -> String {
    focus_message(&FocusSample { pid: Some(pid), class: None, title: None, app: None })
}

fn hear(receiver: &mut FocusReceiver, peer: Option<u32>, payload: &str) -> Option<String> {
    let warning = receiver.advance(ReceiveEvent::Connected(peer));
    if receiver.step == ReceiveStep::Read {
        assert_eq!(warning, None);
        receiver.advance(ReceiveEvent::Payload(Some(payload.to_string())))
    } else {
        warning
    }
}

fn pids(receiver: &FocusReceiver) -> Vec<Option<u32>> {
    receiver.samples.iter().map(|s| s.pid).collect()
}

#[test]
fn a_socket_is_set_up_step_by_step() {
    let mut s = setup(Some(1000));
    for (event, step) in [
        (SetupEvent::Done, SetupStep::Inspect),
        (SetupEvent::Found(PathKind::Socket), SetupStep::Remove),
        (SetupEvent::Done, SetupStep::Bind),
        (SetupEvent::Done, SetupStep::SetNonblocking),
        (SetupEvent::Done, SetupStep::SetOwner(1000)),
        (SetupEvent::Done, SetupStep::SetMode(0o660)),
        (SetupEvent::Done, SetupStep::Ready),
        (SetupEvent::Done, SetupStep::Ready),
    ] {
        assert_eq!(s.advance(event), None);
        assert_eq!(s.step, step);
    }
}

#[test]
fn a_socket_needs_no_owner_and_no_directory() {
    let mut s = setup_daemon_socket("/s".to_string(), None, 0o600, None);
    assert_eq!(s.step, SetupStep::Inspect);
    for (event, step) in [
        (SetupEvent::Found(PathKind::Missing), SetupStep::Bind),
        (SetupEvent::Done, SetupStep::SetNonblocking),
        (SetupEvent::Done, SetupStep::SetMode(0o600)),
        (SetupEvent::Done, SetupStep::Ready),
    ] {
        assert_eq!(s.advance(event), None);
        assert_eq!(s.step, step);
    }
}

#[test]
fn only_sockets_are_removed() {
    assert_eq!(remove_stale_socket(PathKind::Missing), SetupStep::Bind);
    assert_eq!(remove_stale_socket(PathKind::Socket), SetupStep::Remove);
    assert_eq!(remove_stale_socket(PathKind::Other), SetupStep::GivenUp);
    let mut s = setup(None);
    s.advance(SetupEvent::Done);
    let warning = s.advance(SetupEvent::Found(PathKind::Other));
    assert_eq!(warning.as_deref(), Some("WARNING: Refusing to remove non-socket path '/run/x/s'"));
    assert_eq!(s.step, SetupStep::GivenUp);
}

#[test]
fn failures_of_the_setup_are_warned_about() {
    for (step, text, next) in [
        (
            SetupStep::CreateDirectory,
            "WARNING: Could not create socket directory '/run/x': no way",
            SetupStep::GivenUp,
        ),
        (
            SetupStep::Inspect,
            "WARNING: Could not inspect daemon socket path '/run/x/s': no way",
            SetupStep::GivenUp,
        ),
        (
            SetupStep::Remove,
            "WARNING: Could not remove stale daemon socket '/run/x/s': no way",
            SetupStep::GivenUp,
        ),
        (
            SetupStep::Bind,
            "WARNING: Could not bind daemon socket '/run/x/s': no way",
            SetupStep::GivenUp,
        ),
        (
            SetupStep::SetNonblocking,
            "WARNING: Could not set daemon socket nonblocking mode: no way",
            SetupStep::GivenUp,
        ),
        (
            SetupStep::SetOwner(42),
            "WARNING: Could not set daemon socket owner uid to 42: no way",
            SetupStep::SetMode(0o660),
        ),
        (
            SetupStep::SetMode(0o660),
            "WARNING: Could not set daemon socket permissions: no way",
            SetupStep::Ready,
        ),
    ] {
        let mut s = setup(Some(42));
        s.step = step;
        assert_eq!(s.advance(failed()).as_deref(), Some(text));
        assert_eq!(s.step, next);
    }
    for step in [SetupStep::Ready, SetupStep::GivenUp] {
        let mut s = setup(None);
        s.step = step;
        assert_eq!(s.advance(failed()), None);
        assert_eq!(s.step, step);
    }
}

#[test]
fn anyone_is_heard_where_nobody_is_expected() {
    let mut r = receive_focus_samples(None);
    assert_eq!(hear(&mut r, None, &message(1)), None);
    assert_eq!(hear(&mut r, Some(5), &(message(2) + &message(3))), None);
    assert_eq!(r.advance(ReceiveEvent::Empty), None);
    assert_eq!(r.step, ReceiveStep::Stop);
    assert_eq!(pids(&r), vec![Some(1), Some(2), Some(3)]);
}

#[test]
fn strangers_are_ignored() {
    let mut r = receive_focus_samples(Some(1000));
    assert_eq!(
        hear(&mut r, Some(0), &message(1)).as_deref(),
        Some("WARNING: Ignoring focus sample from uid 0, expected uid 1000")
    );
    assert_eq!(
        hear(&mut r, None, &message(2)).as_deref(),
        Some("WARNING: Could not verify peer uid for focus sample; ignoring connection")
    );
    assert!(r.samples.is_empty());
    assert_eq!(hear(&mut r, Some(1000), &message(3)), None);
    assert_eq!(pids(&r), vec![Some(3)]);
}

#[test]
fn unreadable_payloads_bring_nothing() {
    let mut r = receive_focus_samples(None);
    r.advance(ReceiveEvent::Connected(None));
    assert_eq!(r.advance(ReceiveEvent::Payload(None)), None);
    assert_eq!(r.step, ReceiveStep::Accept);
    r.advance(ReceiveEvent::Payload(Some(message(4))));
    assert!(r.samples.is_empty());
}

#[test]
fn a_failed_accept_ends_the_taking() {
    let mut r = receive_focus_samples(None);
    hear(&mut r, None, &message(1));
    assert_eq!(
        r.advance(ReceiveEvent::Failed("gone".to_string())).as_deref(),
        Some("WARNING: Focus socket receive failed: gone")
    );
    assert_eq!(r.step, ReceiveStep::Stop);
    assert_eq!(r.advance(ReceiveEvent::Connected(None)), None);
    assert_eq!(r.step, ReceiveStep::Stop);
    assert_eq!(pids(&r), vec![Some(1)]);
}

#[test]
fn trusted_connections_are_heard_among_others() {
    let mut r = receive_focus_samples(Some(7));
    for (peer, pid) in [(Some(7), 1), (Some(8), 2), (None, 3), (Some(7), 4), (Some(0), 5)] {
        hear(&mut r, peer, &message(pid));
    }
    r.advance(ReceiveEvent::Connected(Some(7)));
    r.advance(ReceiveEvent::Payload(None));
    hear(&mut r, Some(7), &message(6));
    assert_eq!(pids(&r), vec![Some(1), Some(4), Some(6)]);
    assert_eq!(r.step, ReceiveStep::Accept);
}
