use dmemcg_booster::sample::{
    deserialize_focus_sample, escape_field, focus_message, read_focus_samples,
    serialize_focus_sample, unescape_field, FocusSample,
};

fn sample(pid: Option<u32>, class: &str, title: &str, app: &str) -> FocusSample {
    let text = |s: &str| if s.is_empty() { None } else { Some(s.to_string()) };
    FocusSample { pid, class: text(class), title: text(title), app: text(app) }
}

fn parts(s: &FocusSample) -> (Option<u32>, Option<&str>, Option<&str>, Option<&str>) {
    (s.pid, s.class.as_deref(), s.title.as_deref(), s.app.as_deref())
}

#[test]
fn fields_are_escaped() {
    assert_eq!(escape_field("a\tb\nc\\d"), "a\\tb\\nc\\\\d");
    assert_eq!(escape_field(""), "");
    assert_eq!(escape_field("\\t"), "\\\\t");
    assert_eq!(escape_field("é\r"), "é\r");
}

#[test]
fn fields_are_unescaped() {
    assert_eq!(unescape_field("a\\tb\\nc\\\\d"), "a\tb\nc\\d");
    assert_eq!(unescape_field("\\x\\"), "\\x\\");
    assert_eq!(unescape_field("\\"), "\\");
    assert_eq!(unescape_field("\\\\\\"), "\\\\");
    assert_eq!(unescape_field("plain"), "plain");
}

#[test]
fn unescaping_undoes_escaping() {
    for raw in ["", "a", "\\", "\\\\", "\\n", "\t\n\\t\\n", "tab\there\nline\\", "\r"] {
        assert_eq!(unescape_field(&escape_field(raw)), raw);
        assert!(!escape_field(raw).contains('\t'));
        assert!(!escape_field(raw).contains('\n'));
    }
}

#[test]
fn a_sample_is_one_line() {
    let s = sample(Some(42), "cl\tass", "ti\ntle", "app");
    assert_eq!(serialize_focus_sample(&s), "FOCUS\t42\tcl\\tass\tti\\ntle\tapp");
    assert_eq!(focus_message(&s), "FOCUS\t42\tcl\\tass\tti\\ntle\tapp\n");
    assert_eq!(serialize_focus_sample(&sample(None, "", "", "")), "FOCUS\t0\t\t\t");
}

#[test]
fn a_line_carries_a_sample() {
    let s = deserialize_focus_sample("FOCUS\t42\tcl\\tass\tti\\ntle\tapp").unwrap();
    assert_eq!(parts(&s), (Some(42), Some("cl\tass"), Some("ti\ntle"), Some("app")));
    let s = deserialize_focus_sample("  FOCUS\t 7 \ta\t\tb  ").unwrap();
    assert_eq!(parts(&s), (Some(7), Some("a"), None, Some("b")));
    let s = deserialize_focus_sample("FOCUS\t0\t\t\t").unwrap();
    assert_eq!(parts(&s), (None, None, None, None));
    let s = deserialize_focus_sample("FOCUS\t9").unwrap();
    assert_eq!(parts(&s), (Some(9), None, None, None));
    let s = deserialize_focus_sample("FOCUS\tx\tc").unwrap();
    assert_eq!(parts(&s), (None, Some("c"), None, None));
    let s = deserialize_focus_sample("FOCUS").unwrap();
    assert_eq!(parts(&s), (None, None, None, None));
    assert!(deserialize_focus_sample("").is_none());
    assert!(deserialize_focus_sample("focus\t1").is_none());
    assert!(deserialize_focus_sample("FOCUS 1").is_none());
    assert!(deserialize_focus_sample(" \t\n").is_none());
}

#[test]
fn what_is_sent_is_received() {
    for s in [
        sample(Some(1), "steam_app_1", "A\tGame\n\\", "steam"),
        sample(Some(u32::MAX), "c", "", ""),
        sample(None, "", "title only", ""),
        sample(Some(5), " spaced", "x", " y\t"),
    ] {
        let back = deserialize_focus_sample(&serialize_focus_sample(&s)).unwrap();
        assert_eq!(parts(&back), parts(&s));
    }
}

#[test]
fn margins_of_a_line_are_lost() {
    let back = deserialize_focus_sample(&serialize_focus_sample(&sample(Some(5), "c", "t ", "")));
    assert_eq!(parts(&back.unwrap()), (Some(5), Some("c"), Some("t"), None));
}

#[test]
fn messages_come_in_order() {
    let a = sample(Some(1), "a", "b", "c");
    let b = sample(Some(2), "d", "e", "f");
    let payload = focus_message(&a) + "\n" + &focus_message(&b) + "   \nother\nFOCUS\t3\tx";
    let got = read_focus_samples(&payload);
    assert_eq!(got.len(), 3);
    assert_eq!(parts(&got[0]), parts(&a));
    assert_eq!(parts(&got[1]), parts(&b));
    assert_eq!(parts(&got[2]), (Some(3), Some("x"), None, None));
    assert!(read_focus_samples("").is_empty());
}

#[test]
fn a_sample_is_copied_whole() {
    let a = sample(Some(1), "a", "b", "");
    assert_eq!(parts(&a.clone()), parts(&a));
}

#[test]
fn fields_can_be_escaped_in_parts() {
    for (a, b) in [("", "\t"), ("a\\", "\\n"), ("x\n", "y\t\\")] {
        assert_eq!(escape_field(&format!("{a}{b}")), escape_field(a) + &escape_field(b));
    }
}
