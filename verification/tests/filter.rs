use dmemcg_booster::args::Args;
use dmemcg_booster::filter::{
    apply_filter_file, matches_any, normalize_rules, normalize_value, select_pid_for_policy,
    GameFilter, ProcessInfo,
};
use dmemcg_booster::sample::FocusSample;

fn strings(words: &[&str]) -> Vec<String> {
    words.iter().map(|w| w.to_string()).collect()
}

fn window(class: &str, title: &str, app: &str) -> FocusSample {
    FocusSample {
        pid: Some(77),
        class: Some(class.to_string()),
        title: Some(title.to_string()),
        app: Some(app.to_string()),
    }
}

fn process(exe: &str) -> ProcessInfo {
    ProcessInfo { exe: exe.to_string() }
}

fn filter(words: &[&str], config: Option<&str>) -> GameFilter {
    GameFilter::from_args(&Args::parse(&strings(words)).0, config)
}

#[test]
fn values_are_normalized() {
    assert_eq!(normalize_value("  Steam_App \n"), "steam_app");
    assert_eq!(normalize_value("ÉCLAIR"), "Éclair");
    assert_eq!(normalize_value(" \t"), "");
    assert_eq!(normalize_rules(&strings(&[" A", "", "  ", "b "])), vec!["a", "b"]);
    for value in ["", " X y ", "\u{3000}Z"] {
        assert_eq!(normalize_value(&normalize_value(value)), normalize_value(value));
    }
}

#[test]
fn rules_match_parts() {
    let rules = strings(&["app", "game"]);
    assert!(matches_any(&rules, "my game"));
    assert!(matches_any(&rules, "application"));
    assert!(!matches_any(&rules, "gam"));
    assert!(!matches_any(&[], "x"));
    assert!(matches_any(&strings(&[""]), ""));
}

#[test]
fn nothing_is_boosted_without_rules() {
    let f = GameFilter::default();
    assert!(!f.matches(&window("a", "b", "c"), &process("/bin/d")));
    assert!(!filter(&["--deny-class=x"], None).matches(&window("a", "b", "c"), &process("/d")));
}

#[test]
fn allow_rules_boost() {
    for (word, expected) in [
        ("--allow-class=STEAM", true),
        ("--allow-title=my game", true),
        ("--allow-app=launch", true),
        ("--allow-exe=/games/", true),
        ("--allow-class=launch", false),
        ("--allow-exe= ", false),
        ("--allow-all-focused", true),
    ] {
        let f = filter(&[word], None);
        let seen = window(" Steam_app ", "My Game", "Launcher");
        assert_eq!(f.matches(&seen, &process("/opt/Games/run")), expected, "{word}");
    }
}

#[test]
fn deny_rules_win() {
    let seen = window("steam", "title", "app");
    for word in ["--deny-class=steam", "--deny-title=tit", "--deny-app=app", "--deny-exe=run"] {
        let f = filter(&["--allow-all-focused", "--allow-class=steam", word], None);
        assert!(!f.matches(&seen, &process("/x/RUN")), "{word}");
    }
}

#[test]
fn unknown_parts_count_as_empty() {
    let seen = FocusSample { pid: Some(1), class: None, title: None, app: None };
    assert!(filter(&["--allow-exe=x"], None).matches(&seen, &process("x")));
    assert!(!filter(&["--allow-class=x"], None).matches(&seen, &process("x")));
}

#[test]
fn a_filter_file_adds_rules() {
    let mut f = GameFilter::default();
    apply_filter_file(
        "# comment\n\n allow_class = Steam , ,Lutris\nallow_exe=/Games\nallow_title=T\nallow_app=A\n\
         deny_class=c\ndeny_exe=e\r\ndeny_title=t=u\ndeny_app=a\nallow_class=\nallow_app= , \n\
         nonsense\nother=x\nallow_all_focused = TRUE\n#allow_class=no\n",
        &mut f,
    );
    assert_eq!(f.allow_classes, vec!["steam", "lutris"]);
    assert_eq!(f.allow_execs, vec!["/games"]);
    assert_eq!(f.allow_titles, vec!["t"]);
    assert_eq!(f.allow_apps, vec!["a"]);
    assert_eq!(f.deny_classes, vec!["c"]);
    assert_eq!(f.deny_execs, vec!["e"]);
    assert_eq!(f.deny_titles, vec!["t=u"]);
    assert_eq!(f.deny_apps, vec!["a"]);
    assert!(f.allow_all_focused);
}

#[test]
fn a_filter_file_switches_the_focus_rule() {
    for (value, expected) in [("true", true), ("True", true), ("1", true), ("yes", false), ("0", false)] {
        let f = filter(&[], Some(&format!("allow_all_focused={value}")));
        assert_eq!(f.allow_all_focused, expected);
    }
    assert!(filter(&["--allow-all-focused"], Some("allow_all_focused=,")).allow_all_focused);
    assert!(!filter(&["--allow-all-focused"], Some("allow_all_focused=no")).allow_all_focused);
}

#[test]
fn a_filter_takes_arguments_and_then_the_file() {
    let f = filter(&["--allow-class= A "], Some("allow_class=B\nallow_class=c"));
    assert_eq!(f.allow_classes, vec!["a", "b", "c"]);
}

#[test]
fn filter_files_can_be_put_together() {
    let mut whole = GameFilter::default();
    apply_filter_file("allow_class=a\ndeny_app=b\nallow_class=c", &mut whole);
    let mut pieces = GameFilter::default();
    apply_filter_file("allow_class=a", &mut pieces);
    apply_filter_file("deny_app=b\nallow_class=c", &mut pieces);
    assert_eq!(whole.allow_classes, pieces.allow_classes);
    assert_eq!(whole.deny_apps, pieces.deny_apps);
}

#[test]
fn only_the_processes_of_the_expected_user_are_selected() {
    let f = filter(&["--allow-all-focused"], None);
    let seen = window("a", "b", "c");
    let info = process("/x");
    let select = |expected, owner, info| select_pid_for_policy(&seen, &f, expected, owner, info);
    assert_eq!(select(None, None, Some(&info)), Some(77));
    assert_eq!(select(Some(1000), Some(1000), Some(&info)), Some(77));
    assert_eq!(select(Some(1000), Some(0), Some(&info)), None);
    assert_eq!(select(Some(1000), None, Some(&info)), None);
    assert_eq!(select(None, Some(5), None), None);
    let unknown = FocusSample { pid: None, ..seen.clone() };
    assert_eq!(select_pid_for_policy(&unknown, &f, None, None, Some(&info)), None);
    let strict = GameFilter::default();
    assert_eq!(select_pid_for_policy(&seen, &strict, None, None, Some(&info)), None);
}

#[test]
fn more_permission_boosts_no_fewer_windows() {
    let seen = window("steam", "title", "app");
    let strict = filter(&["--allow-class=steam", "--deny-exe=bad"], None);
    let lenient = filter(&["--allow-class=x", "--allow-class=steam", "--allow-app=y"], None);
    assert!(strict.matches(&seen, &process("/good")));
    assert!(lenient.matches(&seen, &process("/good")));
    assert!(!strict.matches(&seen, &process("/bad")));
    assert!(lenient.matches(&seen, &process("/bad")));
}
