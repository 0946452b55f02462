use dmemcg_booster::args::Args;
use dmemcg_booster::hyprland::{
    parse_active_window, parse_json_string_field, parse_json_u32_field, wants_hyprland,
    FocusProvider, HyprlandFocusProvider, SocketRead,
};

fn provider() -> HyprlandFocusProvider {
    HyprlandFocusProvider::new(Some("sig"), Some("/run/user/1000"), 2000).unwrap()
}

fn args(words: &[&str]) -> Args {
    let words: Vec<String> = words.iter().map(|w| w.to_string()).collect();
    Args::parse(&words).0
}

fn data(bytes: &[u8]) -> SocketRead {
    SocketRead::Data(bytes.to_vec())
}

#[test]
fn numbers_are_found_in_json() {
    for (json, number) in [
        ("{\"pid\": 42}", Some(42)),
        ("{\"pid\":42,", Some(42)),
        ("\"pid\": \t\n 7 8", Some(7)),
        ("{\"pid\": -1}", None),
        ("{\"pid\": \"5\"}", None),
        ("{\"pid\":}", None),
        ("{\"pid\" : 4}", None),
        ("{\"pid\": 4294967295}", Some(u32::MAX)),
        ("{\"pid\": 4294967296}", None),
        ("{\"other\": 3}", None),
        ("{\"pid\": x, \"pid\": 3}", None),
        ("{\"pid\": 0012}", Some(12)),
        ("{\"pid\": \u{a0}1}", None),
    ] {
        assert_eq!(parse_json_u32_field(json, "pid"), number, "{json}");
    }
}

#[test]
fn strings_are_found_in_json() {
    for (json, value) in [
        ("{\"class\": \"steam\"}", Some("steam")),
        ("{\"class\":\"a\\\"b\\\\c\\n\\t\\r\\x\"}", Some("a\"b\\c\n\t\rx")),
        ("{\"class\": \"\", \"x\": \"y\"}", None),
        ("{\"class\": null, \"title\": \"t\"}", Some("title")),
        ("{\"class\": \"unended", Some("unended")),
        ("{\"class\": \"a\\", Some("a")),
        ("{\"class\": 1}", None),
        ("{\"title\": \"t\"}", None),
    ] {
        assert_eq!(parse_json_string_field(json, "class").as_deref(), value, "{json}");
    }
}

#[test]
fn the_active_window_is_read() {
    let seen = parse_active_window(
        "{\n\"class\": \"firefox\",\n\"title\": \"A \\\"b\\\"\",\n\"initialClass\": \"ff\",\n\"pid\": 9\n}",
    );
    assert_eq!(seen.pid, Some(9));
    assert_eq!(seen.class.as_deref(), Some("firefox"));
    assert_eq!(seen.title.as_deref(), Some("A \"b\""));
    assert_eq!(seen.app.as_deref(), Some("ff"));
    let nothing = parse_active_window("{}");
    assert_eq!(nothing.pid, None);
    assert!(nothing.class.is_none() && nothing.title.is_none() && nothing.app.is_none());
}

#[test]
fn sockets_lie_in_the_runtime_directory() {
    let p = provider();
    assert_eq!(p.control_socket_path, "/run/user/1000/hypr/sig/.socket.sock");
    assert_eq!(p.event_socket_path, "/run/user/1000/hypr/sig/.socket2.sock");
    let p = HyprlandFocusProvider::new(Some("sig"), None, 1).unwrap();
    assert_eq!(p.control_socket_path, "/tmp/hypr/sig/.socket.sock");
    let p = HyprlandFocusProvider::new(Some("/abs"), Some("/r/"), 1).unwrap();
    assert_eq!(p.control_socket_path, "/abs/.socket.sock");
    let p = HyprlandFocusProvider::new(Some(""), Some(""), 1).unwrap();
    assert_eq!(p.control_socket_path, "hypr/.socket.sock");
    assert!(HyprlandFocusProvider::new(None, Some("/r"), 1).is_none());
}

#[test]
fn joining_is_that_of_paths() {
    for (dir, sig) in [("/r", "s"), ("/r/", "s"), ("", "s"), ("r", "/s"), ("/", "s/"), ("/r", "")] {
        let p = HyprlandFocusProvider::new(Some(sig), Some(dir), 1).unwrap();
        let root = std::path::PathBuf::from(dir).join("hypr").join(sig);
        assert_eq!(p.control_socket_path, root.join(".socket.sock").to_str().unwrap());
        assert_eq!(p.event_socket_path, root.join(".socket2.sock").to_str().unwrap());
    }
}

#[test]
fn the_first_poll_asks() {
    let mut p = provider();
    assert!(p.poll(0));
    assert!(!p.poll(0));
    assert!(!p.poll(1999));
    assert!(p.poll(2000));
    p.connection_made();
    assert!(p.connected);
    assert!(p.poll(0));
    assert!(!p.poll(0));
}

#[test]
fn focus_events_make_the_poll_ask() {
    for (line, asks) in [
        ("activewindow>>a,b\n", true),
        ("activewindowv2>>1\n", true),
        ("closewindow>>1\n", true),
        ("  closewindow>>1\r\n", true),
        ("openwindow>>1\n", false),
        ("xactivewindow>>\n", false),
        ("activewindow>\n", false),
        ("activewindow>>a", false),
    ] {
        let mut p = provider();
        p.poll(0);
        assert!(p.consume_events(&data(line.as_bytes())));
        assert_eq!(p.poll(0), asks, "{line:?}");
        assert!(!p.poll(0));
    }
}

#[test]
fn events_may_come_in_pieces() {
    let stream = "openwindow>>x\nactivewindow>>a,b\nclose";
    for cut in 0..=stream.len() {
        let mut p = provider();
        p.poll(0);
        p.consume_events(&data(&stream.as_bytes()[..cut]));
        p.consume_events(&data(&stream.as_bytes()[cut..]));
        assert_eq!(p.event_buffer, "close");
        assert!(p.poll(0));
    }
}

#[test]
fn broken_text_is_replaced() {
    let mut p = provider();
    p.consume_events(&data(b"a\n\xff\xe2\x82"));
    assert_eq!(p.event_buffer, "\u{fffd}\u{fffd}");
    let mut p = provider();
    p.consume_events(&data("ü€".as_bytes()));
    assert_eq!(p.event_buffer, "ü€");
}

#[test]
fn a_lost_connection_is_noted() {
    let mut p = provider();
    p.connection_made();
    assert!(!p.consume_events(&SocketRead::WouldBlock));
    assert!(p.connected);
    assert!(!p.consume_events(&SocketRead::Closed));
    assert!(!p.connected);
    p.connection_made();
    assert!(!p.consume_events(&SocketRead::Failed));
    assert!(!p.connected);
}

#[test]
fn the_provider_is_the_one_asked_for() {
    let none = args(&["--focus-provider=none"]);
    let hyprland = args(&["--focus-provider=hyprland"]);
    let auto = args(&[]);
    assert!(!wants_hyprland(&none));
    assert!(wants_hyprland(&hyprland) && wants_hyprland(&auto));
    let (p, warning) = FocusProvider::from_args(&none, Some(provider()));
    assert!(matches!(p, FocusProvider::Disabled) && warning.is_none());
    let (p, warning) = FocusProvider::from_args(&hyprland, None);
    assert!(matches!(p, FocusProvider::Disabled));
    assert_eq!(
        warning.as_deref(),
        Some("WARNING: Focus provider 'hyprland' requested, but Hyprland IPC is unavailable")
    );
    let (p, warning) = FocusProvider::from_args(&auto, None);
    assert!(matches!(p, FocusProvider::Disabled) && warning.is_none());
    for wanted in [&hyprland, &auto] {
        let (p, warning) = FocusProvider::from_args(wanted, Some(provider()));
        assert!(matches!(p, FocusProvider::Hyprland(_)) && warning.is_none());
    }
}

#[test]
fn a_line_ending_alone_leaves_nothing() {
    let mut p = provider();
    p.poll(0);
    assert!(p.consume_events(&data(b"\n")));
    assert_eq!(p.event_buffer, "");
    assert!(!p.poll(0));
}
