use dmemcg_booster::args::{
    parse_focus_provider, parse_mode, parse_socket_mode, Args, FocusProviderSelection,
    ModeSelection, Warning, DEFAULT_AGENT_HEARTBEAT_MS, DEFAULT_DEDICATED_CGROUP_NAME,
    DEFAULT_FOCUS_REFRESH_MS, DEFAULT_FOCUS_STALE_TIMEOUT_MS, DEFAULT_POLL_INTERVAL_MS,
    DEFAULT_SOCKET_MODE, DEFAULT_SOCKET_PATH,
};

fn parse(words: &[&str]) -> (Args, Vec<String>) {
    let argv: Vec<String> = words.iter().map(|w| w.to_string()).collect();
    let (args, warnings) = Args::parse(&argv);
    let texts = warnings.iter().map(|w: &Warning<String>| w.message()).collect();
    (args, texts)
}

fn quiet(words: &[&str]) -> Args {
    let (args, warnings) = parse(words);
    assert_eq!(warnings, Vec::<String>::new());
    args
}

#[test]
fn defaults_hold_without_arguments() {
    let args = quiet(&[]);
    assert_eq!(args.mode, ModeSelection::Daemon);
    assert!(!args.use_system_bus);
    assert!(!args.poll_only);
    assert_eq!(args.poll_interval_ms, DEFAULT_POLL_INTERVAL_MS);
    assert_eq!(args.poll_interval_ms, 1000);
    assert_eq!(args.focus_provider, FocusProviderSelection::Auto);
    assert_eq!(args.focus_refresh_ms, DEFAULT_FOCUS_REFRESH_MS);
    assert_eq!(args.focus_refresh_ms, 2000);
    assert_eq!(args.focus_stale_timeout_ms, DEFAULT_FOCUS_STALE_TIMEOUT_MS);
    assert_eq!(args.focus_stale_timeout_ms, 5000);
    assert_eq!(args.agent_heartbeat_ms, DEFAULT_AGENT_HEARTBEAT_MS);
    assert_eq!(args.agent_heartbeat_ms, 1500);
    assert_eq!(args.dedicated_cgroup_name, DEFAULT_DEDICATED_CGROUP_NAME);
    assert_eq!(args.dedicated_cgroup_name, "dmemcg-booster.focused");
    assert_eq!(args.socket_path, DEFAULT_SOCKET_PATH);
    assert_eq!(args.socket_path, "/run/dmemcg-booster/focus.sock");
    assert_eq!(args.socket_mode, DEFAULT_SOCKET_MODE);
    assert_eq!(args.socket_mode, 0o660);
    assert_eq!(args.socket_owner_uid, None);
    assert_eq!(args.filter_config, None);
    assert!(!args.allow_all_focused);
    assert!(args.allow_classes.is_empty() && args.deny_apps.is_empty());
}

#[test]
fn modes_and_providers_have_names() {
    for (name, mode) in [
        ("daemon", ModeSelection::Daemon),
        ("agent", ModeSelection::Agent),
        ("standalone", ModeSelection::Standalone),
    ] {
        let mut warnings = Vec::new();
        assert_eq!(parse_mode(name, ModeSelection::Agent, &mut warnings), mode);
        assert!(warnings.is_empty());
        assert_eq!(quiet(&["--mode", name]).mode, mode);
        assert_eq!(quiet(&[&format!("--mode={name}")]).mode, mode);
    }
    for (name, provider) in [
        ("auto", FocusProviderSelection::Auto),
        ("hyprland", FocusProviderSelection::Hyprland),
        ("none", FocusProviderSelection::Disabled),
    ] {
        let mut warnings = Vec::new();
        let default = FocusProviderSelection::Hyprland;
        assert_eq!(parse_focus_provider(name, default, &mut warnings), provider);
        assert!(warnings.is_empty());
        assert_eq!(quiet(&["--focus-provider", name]).focus_provider, provider);
        assert_eq!(quiet(&[&format!("--focus-provider={name}")]).focus_provider, provider);
    }
    let (args, warnings) = parse(&["--mode=agent", "--mode=Daemon", "--focus-provider", "sway"]);
    assert_eq!(args.mode, ModeSelection::Agent);
    assert_eq!(args.focus_provider, FocusProviderSelection::Auto);
    assert_eq!(
        warnings,
        vec![
            "WARNING: Unknown mode 'Daemon', keeping previous value",
            "WARNING: Unknown focus provider 'sway', keeping previous value",
        ]
    );
}

#[test]
fn socket_modes_are_octal_and_closed_to_others() {
    for (text, mode) in [
        ("660", Some(0o660)),
        ("0660", Some(0o660)),
        ("0o660", Some(0o660)),
        ("0o0o600", Some(0o600)),
        ("000", Some(0)),
        ("0o", Some(0)),
        ("", Some(0)),
        ("770", Some(0o770)),
        ("+600", Some(0o600)),
        ("661", None),
        ("664", None),
        ("667", None),
        ("1000", None),
        ("1660", None),
        ("680", None),
        ("rw", None),
        ("-600", None),
        (" 660", None),
    ] {
        assert_eq!(parse_socket_mode(text), mode, "{text:?}");
    }
}

#[test]
fn intervals_are_at_least_a_tenth_of_a_second() {
    let args = quiet(&[
        "--poll-interval-ms=1",
        "--focus-refresh-ms",
        "99",
        "--focus-stale-timeout-ms=100",
        "--agent-heartbeat-ms",
        "18446744073709551615",
    ]);
    assert_eq!(args.poll_interval_ms, 100);
    assert_eq!(args.focus_refresh_ms, 100);
    assert_eq!(args.focus_stale_timeout_ms, 100);
    assert_eq!(args.agent_heartbeat_ms, u64::MAX);
}

#[test]
fn unreadable_intervals_are_warned_about() {
    let (args, warnings) = parse(&[
        "--poll-interval-ms=x",
        "--poll-interval-ms",
        "y",
        "--focus-refresh-ms=",
        "--focus-refresh-ms",
        "-1",
        "--focus-stale-timeout-ms=1.5",
        "--focus-stale-timeout-ms",
        "5s",
        "--agent-heartbeat-ms=18446744073709551616",
        "--agent-heartbeat-ms",
        "--mode",
    ]);
    assert_eq!(args.poll_interval_ms, 1000);
    assert_eq!(args.mode, ModeSelection::Daemon);
    assert_eq!(
        warnings,
        vec![
            "WARNING: Could not parse poll interval from '--poll-interval-ms=x', using default",
            "WARNING: Could not parse poll interval value 'y', using default",
            "WARNING: Could not parse focus refresh interval from '--focus-refresh-ms=', using default",
            "WARNING: Could not parse focus refresh interval value '-1', using default",
            "WARNING: Could not parse focus stale timeout from '--focus-stale-timeout-ms=1.5', using default",
            "WARNING: Could not parse focus stale timeout value '5s', using default",
            "WARNING: Could not parse agent heartbeat from '--agent-heartbeat-ms=18446744073709551616', using default",
            "WARNING: Could not parse agent heartbeat value '--mode', using default",
        ]
    );
}

#[test]
fn other_values_are_checked() {
    let (args, warnings) = parse(&[
        "--dedicated-cgroup=games",
        "--dedicated-cgroup= ",
        "--dedicated-cgroup",
        "a/b",
        "--socket-path=/tmp/s",
        "--socket-path",
        "\t",
        "--socket-mode-octal=600",
        "--socket-mode-octal",
        "666",
        "--socket-owner-uid=1000",
        "--socket-owner-uid",
        "me",
        "--filter-config=/etc/f",
        "--filter-config=  ",
        "what",
        "--mode-x",
    ]);
    assert_eq!(args.dedicated_cgroup_name, "games");
    assert_eq!(args.socket_path, "/tmp/s");
    assert_eq!(args.socket_mode, 0o600);
    assert_eq!(args.socket_owner_uid, Some(1000));
    assert_eq!(args.filter_config.as_deref(), Some("/etc/f"));
    assert_eq!(
        warnings,
        vec![
            "WARNING: Invalid dedicated cgroup name ' ', keeping previous value",
            "WARNING: Invalid dedicated cgroup name 'a/b', keeping previous value",
            "WARNING: Invalid socket path '\t', keeping previous value",
            "WARNING: Invalid socket mode '666', keeping previous value",
            "WARNING: Invalid socket owner uid 'me', keeping previous value",
            "WARNING: Unknown argument 'what', ignoring",
            "WARNING: Unknown argument '--mode-x', ignoring",
        ]
    );
}

#[test]
fn missing_values_are_warned_about() {
    for (name, end) in [
        ("--mode", ", using default"),
        ("--poll-interval-ms", ", using default"),
        ("--focus-provider", ", using default"),
        ("--focus-refresh-ms", ", using default"),
        ("--focus-stale-timeout-ms", ", using default"),
        ("--agent-heartbeat-ms", ", using default"),
        ("--dedicated-cgroup", ", using default"),
        ("--socket-path", ", using default"),
        ("--socket-mode-octal", ", using default"),
        ("--socket-owner-uid", ""),
        ("--filter-config", ""),
    ] {
        let (_, warnings) = parse(&[name]);
        assert_eq!(warnings, vec![format!("WARNING: Missing value for {name}{end}")]);
    }
    for name in ["--allow-class", "--allow-exe", "--allow-title", "--allow-app", "--deny-class",
        "--deny-exe", "--deny-title", "--deny-app"] {
        quiet(&[name]);
    }
}

#[test]
fn rules_and_flags_are_collected() {
    let args = quiet(&[
        "--allow-class=a", "--allow-class", "b", "--allow-exe=c", "--allow-title", "d",
        "--allow-app=e", "--deny-class", "f", "--deny-exe=", "--deny-title=h=i", "--deny-app",
        "--deny-app", "--use-system-bus", "--poll-only", "--allow-all-focused",
    ]);
    assert_eq!(args.allow_classes, vec!["a", "b"]);
    assert_eq!(args.allow_execs, vec!["c"]);
    assert_eq!(args.allow_titles, vec!["d"]);
    assert_eq!(args.allow_apps, vec!["e"]);
    assert_eq!(args.deny_classes, vec!["f"]);
    assert_eq!(args.deny_execs, vec![""]);
    assert_eq!(args.deny_titles, vec!["h=i"]);
    assert_eq!(args.deny_apps, vec!["--deny-app"]);
    assert!(args.use_system_bus && args.poll_only && args.allow_all_focused);
}

#[test]
fn the_last_accepted_value_counts() {
    let (args, _) = parse(&["--socket-owner-uid=1", "--socket-owner-uid=2", "--socket-owner-uid=x"]);
    assert_eq!(args.socket_owner_uid, Some(2));
    let (args, _) = parse(&["--socket-owner-uid=x"]);
    assert_eq!(args.socket_owner_uid, None);
}

#[test]
fn a_value_may_be_assigned_or_follow() {
    for value in ["daemon", "agent", "x", ""] {
        let (a, _) = parse(&["--mode", value]);
        let (b, _) = parse(&[&format!("--mode={value}")]);
        assert_eq!(a.mode, b.mode);
    }
}

#[test]
fn command_lines_can_be_put_together() {
    let first = ["--allow-class=a", "--mode=agent"];
    let second = ["--allow-class=b", "--mode=x", "--poll-only"];
    let mut both: Vec<&str> = first.to_vec();
    both.extend(second);
    let (args, warnings) = parse(&both);
    assert_eq!(args.allow_classes, vec!["a", "b"]);
    assert_eq!(args.mode, ModeSelection::Agent);
    assert!(args.poll_only);
    assert_eq!(warnings, parse(&second).1);
}

#[test]
fn unknown_arguments_change_no_setting() {
    let (with, warnings) = parse(&["--allow-class=a", "--nope", "--mode=agent"]);
    let without = quiet(&["--allow-class=a", "--mode=agent"]);
    assert_eq!(with.mode, without.mode);
    assert_eq!(with.allow_classes, without.allow_classes);
    assert_eq!(warnings, vec!["WARNING: Unknown argument '--nope', ignoring"]);
}
