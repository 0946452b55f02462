//! The command line: which arguments there are, what each accepts, and what
//! is warned about.

use crate::text;
use vstd::prelude::*;
use vstd::slice::slice_subrange;

verus! {

/// The least interval or timeout that the command line can set, in
/// milliseconds.
pub const SHORTEST_INTERVAL_MS: u64 = 100;

pub const DEFAULT_POLL_INTERVAL_MS: u64 = 1000;

pub const DEFAULT_FOCUS_REFRESH_MS: u64 = 2000;

pub const DEFAULT_FOCUS_STALE_TIMEOUT_MS: u64 = 5000;

pub const DEFAULT_AGENT_HEARTBEAT_MS: u64 = 1500;

pub const DEFAULT_DEDICATED_CGROUP_NAME: &'static str = "dmemcg-booster.focused";

pub const DEFAULT_SOCKET_PATH: &'static str = "/run/dmemcg-booster/focus.sock";

pub const DEFAULT_SOCKET_MODE: u32 = 0o660;

/// The role in which the program runs.
#[derive(Clone, Copy, PartialEq, Eq, Structural, Debug)]
pub enum ModeSelection {
    Daemon,
    Agent,
    Standalone,
}

/// The source of focus samples that was asked for.
#[derive(Clone, Copy, PartialEq, Eq, Structural, Debug)]
pub enum FocusProviderSelection {
    Auto,
    Hyprland,
    Disabled,
}

/// An interval or timeout that the command line can set.
#[derive(Clone, Copy, PartialEq, Eq, Structural, Debug)]
pub enum Interval {
    Poll,
    FocusRefresh,
    FocusStale,
    AgentHeartbeat,
}

/// A list of filter rules.
#[derive(Clone, Copy, PartialEq, Eq, Structural, Debug)]
pub enum RuleList {
    AllowClass,
    AllowExe,
    AllowTitle,
    AllowApp,
    DenyClass,
    DenyExe,
    DenyTitle,
    DenyApp,
}

/// An argument that takes a value, after `=` or as the argument that follows.
#[derive(Clone, Copy, PartialEq, Eq, Structural, Debug)]
pub enum ValueOption {
    Mode,
    Interval(Interval),
    FocusProvider,
    DedicatedCgroup,
    SocketPath,
    SocketModeOctal,
    SocketOwnerUid,
    FilterConfig,
    Rule(RuleList),
}

/// An argument that takes no value.
#[derive(Clone, Copy, PartialEq, Eq, Structural, Debug)]
pub enum Flag {
    UseSystemBus,
    PollOnly,
    AllowAllFocused,
}

/// What the command line is warned about. `T` is how a text is held.
#[derive(Debug)]
pub enum Warning<T> {
    /// The mode has another name.
    UnknownMode(T),
    /// The focus provider has another name.
    UnknownFocusProvider(T),
    /// An interval is no number. The text is the whole argument where the
    /// value was assigned with `=`, and the value where it followed.
    BadInterval { interval: Interval, assigned: bool, text: T },
    /// The cgroup name is blank or holds a slash.
    InvalidCgroupName(T),
    /// The socket path is blank.
    InvalidSocketPath(T),
    /// The socket mode is no octal number, too large, or open to others.
    InvalidSocketMode(T),
    /// The owner uid is no number.
    InvalidOwnerUid(T),
    /// The command line ends where a value was due.
    MissingValue(ValueOption),
    /// There is no such argument.
    UnknownArgument(T),
}

/// The settings that the program runs with.
#[derive(Debug)]
pub struct Args {
    pub mode: ModeSelection,
    pub use_system_bus: bool,
    pub poll_only: bool,
    pub poll_interval_ms: u64,
    pub focus_provider: FocusProviderSelection,
    pub focus_refresh_ms: u64,
    pub focus_stale_timeout_ms: u64,
    pub agent_heartbeat_ms: u64,
    pub dedicated_cgroup_name: String,
    pub socket_path: String,
    pub socket_mode: u32,
    pub socket_owner_uid: Option<u32>,
    pub filter_config: Option<String>,
    pub allow_all_focused: bool,
    pub allow_classes: Vec<String>,
    pub allow_execs: Vec<String>,
    pub allow_titles: Vec<String>,
    pub allow_apps: Vec<String>,
    pub deny_classes: Vec<String>,
    pub deny_execs: Vec<String>,
    pub deny_titles: Vec<String>,
    pub deny_apps: Vec<String>,
}

// ---------------------------------------------------------------------------
// Models
// ---------------------------------------------------------------------------

/// What [`Args`] holds, with texts as character sequences.
#[verifier::ext_equal]
pub struct ArgsView {
    pub mode: ModeSelection,
    pub use_system_bus: bool,
    pub poll_only: bool,
    pub poll_interval_ms: u64,
    pub focus_provider: FocusProviderSelection,
    pub focus_refresh_ms: u64,
    pub focus_stale_timeout_ms: u64,
    pub agent_heartbeat_ms: u64,
    pub dedicated_cgroup_name: Seq<char>,
    pub socket_path: Seq<char>,
    pub socket_mode: u32,
    pub socket_owner_uid: Option<u32>,
    pub filter_config: Option<Seq<char>>,
    pub allow_all_focused: bool,
    pub allow_classes: Seq<Seq<char>>,
    pub allow_execs: Seq<Seq<char>>,
    pub allow_titles: Seq<Seq<char>>,
    pub allow_apps: Seq<Seq<char>>,
    pub deny_classes: Seq<Seq<char>>,
    pub deny_execs: Seq<Seq<char>>,
    pub deny_titles: Seq<Seq<char>>,
    pub deny_apps: Seq<Seq<char>>,
}

impl View for Args {
    type V = ArgsView;

    open spec fn view(&self) -> ArgsView {
        ArgsView {
            mode: self.mode,
            use_system_bus: self.use_system_bus,
            poll_only: self.poll_only,
            poll_interval_ms: self.poll_interval_ms,
            focus_provider: self.focus_provider,
            focus_refresh_ms: self.focus_refresh_ms,
            focus_stale_timeout_ms: self.focus_stale_timeout_ms,
            agent_heartbeat_ms: self.agent_heartbeat_ms,
            dedicated_cgroup_name: self.dedicated_cgroup_name@,
            socket_path: self.socket_path@,
            socket_mode: self.socket_mode,
            socket_owner_uid: self.socket_owner_uid,
            filter_config: match self.filter_config {
                Some(path) => Some(path@),
                None => None,
            },
            allow_all_focused: self.allow_all_focused,
            allow_classes: text::texts(self.allow_classes@),
            allow_execs: text::texts(self.allow_execs@),
            allow_titles: text::texts(self.allow_titles@),
            allow_apps: text::texts(self.allow_apps@),
            deny_classes: text::texts(self.deny_classes@),
            deny_execs: text::texts(self.deny_execs@),
            deny_titles: text::texts(self.deny_titles@),
            deny_apps: text::texts(self.deny_apps@),
        }
    }
}

impl View for Warning<String> {
    type V = Warning<Seq<char>>;

    open spec fn view(&self) -> Warning<Seq<char>> {
        match *self {
            Warning::UnknownMode(t) => Warning::UnknownMode(t@),
            Warning::UnknownFocusProvider(t) => Warning::UnknownFocusProvider(t@),
            Warning::BadInterval { interval, assigned, text } => Warning::BadInterval {
                interval,
                assigned,
                text: text@,
            },
            Warning::InvalidCgroupName(t) => Warning::InvalidCgroupName(t@),
            Warning::InvalidSocketPath(t) => Warning::InvalidSocketPath(t@),
            Warning::InvalidSocketMode(t) => Warning::InvalidSocketMode(t@),
            Warning::InvalidOwnerUid(t) => Warning::InvalidOwnerUid(t@),
            Warning::MissingValue(option) => Warning::MissingValue(option),
            Warning::UnknownArgument(t) => Warning::UnknownArgument(t@),
        }
    }
}

/// What a sequence of warnings holds, with texts as character sequences.
pub open spec fn warning_views(warnings: Seq<Warning<String>>) -> Seq<Warning<Seq<char>>> {
    warnings.map_values(|w: Warning<String>| w@)
}

/// What has been made of a command line so far.
#[verifier::ext_equal]
pub struct Parsed {
    pub args: ArgsView,
    pub warnings: Seq<Warning<Seq<char>>>,
}

/// The settings where the command line is empty.
pub open spec fn default_args() -> ArgsView {
    ArgsView {
        mode: ModeSelection::Daemon,
        use_system_bus: false,
        poll_only: false,
        poll_interval_ms: DEFAULT_POLL_INTERVAL_MS,
        focus_provider: FocusProviderSelection::Auto,
        focus_refresh_ms: DEFAULT_FOCUS_REFRESH_MS,
        focus_stale_timeout_ms: DEFAULT_FOCUS_STALE_TIMEOUT_MS,
        agent_heartbeat_ms: DEFAULT_AGENT_HEARTBEAT_MS,
        dedicated_cgroup_name: DEFAULT_DEDICATED_CGROUP_NAME@,
        socket_path: DEFAULT_SOCKET_PATH@,
        socket_mode: DEFAULT_SOCKET_MODE,
        socket_owner_uid: None,
        filter_config: None,
        allow_all_focused: false,
        allow_classes: seq![],
        allow_execs: seq![],
        allow_titles: seq![],
        allow_apps: seq![],
        deny_classes: seq![],
        deny_execs: seq![],
        deny_titles: seq![],
        deny_apps: seq![],
    }
}

// ---------------------------------------------------------------------------
// Values
// ---------------------------------------------------------------------------

/// The mode of that name.
pub open spec fn mode_named(name: Seq<char>) -> Option<ModeSelection> {
    if name == "daemon"@ {
        Some(ModeSelection::Daemon)
    } else if name == "agent"@ {
        Some(ModeSelection::Agent)
    } else if name == "standalone"@ {
        Some(ModeSelection::Standalone)
    } else {
        None
    }
}

/// The focus provider of that name.
pub open spec fn provider_named(name: Seq<char>) -> Option<FocusProviderSelection> {
    if name == "auto"@ {
        Some(FocusProviderSelection::Auto)
    } else if name == "hyprland"@ {
        Some(FocusProviderSelection::Hyprland)
    } else if name == "none"@ {
        Some(FocusProviderSelection::Disabled)
    } else {
        None
    }
}

/// `s` holds nothing but white space.
pub open spec fn blank(s: Seq<char>) -> bool {
    text::trimmed(s).len() == 0
}

/// `s` without the prefixes `0o` that it begins with.
pub open spec fn without_octal_prefix(s: Seq<char>) -> Seq<char>
    decreases s.len(),
{
    if s.len() >= 2 && s[0] == '0' && s[1] == 'o' {
        without_octal_prefix(s.skip(2))
    } else {
        s
    }
}

/// `s` without the zeros that it begins with.
pub open spec fn without_zeros(s: Seq<char>) -> Seq<char>
    decreases s.len(),
{
    if s.len() >= 1 && s[0] == '0' {
        without_zeros(s.skip(1))
    } else {
        s
    }
}

/// `mode` is a set of permission bits that gives others none.
pub open spec fn closed_to_others(mode: u32) -> bool {
    mode <= 0o777 && mode % 8 == 0
}

/// The socket permissions that a text stands for: an octal number, with or
/// without the prefix `0o`, that gives others no permission.
pub open spec fn socket_mode_value(value: Seq<char>) -> Option<u32> {
    let digits = without_zeros(without_octal_prefix(value));
    if digits.len() == 0 {
        Some(0)
    } else {
        match text::octal_value(digits) {
            Some(mode) if closed_to_others(mode) => Some(mode),
            _ => None,
        }
    }
}

/// The permissions for the daemon's socket that `value` stands for, in octal.
/// A mode that gives others any permission is refused.
pub fn parse_socket_mode(value: &str) -> (mode: Option<u32>)
    ensures
        mode == socket_mode_value(value@),
{
    let chars = text::to_chars(value);
    let all: &[char] = &chars;
    let mut i: usize = 0;
    assert(all@.skip(0) == value@);
    while all.len() - i >= 2 && all[i] == '0' && all[i + 1] == 'o'
        invariant
            i <= all.len(),
            without_octal_prefix(all@.skip(i as int)) == without_octal_prefix(value@),
        decreases all.len() - i,
    {
        assert(all@.skip(i as int).skip(2) == all@.skip(i + 2));
        i += 2;
    }
    let ghost digits = without_octal_prefix(value@);
    assert(all@.skip(i as int) == digits);
    while i < all.len() && all[i] == '0'
        invariant
            i <= all.len(),
            without_zeros(all@.skip(i as int)) == without_zeros(digits),
        decreases all.len() - i,
    {
        assert(all@.skip(i as int).skip(1) == all@.skip(i + 1));
        i += 1;
    }
    if i == all.len() {
        return Some(0);
    }
    let rest = slice_subrange(all, i, all.len());
    assert(rest@ == all@.skip(i as int));
    match text::parse_octal(rest) {
        Some(mode) => {
            assert(mode & 0o007 == mode % 8) by (bit_vector);
            if mode <= 0o777 && (mode & 0o007) == 0 {
                Some(mode)
            } else {
                None
            }
        },
        None => None,
    }
}

fn named(s: &[char], name: &str) -> (yes: bool)
    ensures
        yes == (s@ == name@),
{
    let chars = text::to_chars(name);
    text::same_chars(s, &chars)
}

/// The mode named `value`. Where there is none, `default` stays and a warning
/// is added.
pub fn parse_mode(
    value: &str,
    default: ModeSelection,
    warnings: &mut Vec<Warning<String>>,
) -> (mode: ModeSelection)
    ensures
        mode == (match mode_named(value@) {
            Some(m) => m,
            None => default,
        }),
        warning_views(final(warnings)@) == (match mode_named(value@) {
            Some(_) => warning_views(old(warnings)@),
            None => warning_views(old(warnings)@).push(Warning::UnknownMode(value@)),
        }),
{
    let name = text::to_chars(value);
    if named(&name, "daemon") {
        ModeSelection::Daemon
    } else if named(&name, "agent") {
        ModeSelection::Agent
    } else if named(&name, "standalone") {
        ModeSelection::Standalone
    } else {
        warnings.push(Warning::UnknownMode(text::to_text(&name)));
        default
    }
}

/// The focus provider named `value`. Where there is none, `default` stays and
/// a warning is added.
pub fn parse_focus_provider(
    value: &str,
    default: FocusProviderSelection,
    warnings: &mut Vec<Warning<String>>,
) -> (provider: FocusProviderSelection)
    ensures
        provider == (match provider_named(value@) {
            Some(p) => p,
            None => default,
        }),
        warning_views(final(warnings)@) == (match provider_named(value@) {
            Some(_) => warning_views(old(warnings)@),
            None => warning_views(old(warnings)@).push(Warning::UnknownFocusProvider(value@)),
        }),
{
    let name = text::to_chars(value);
    if named(&name, "auto") {
        FocusProviderSelection::Auto
    } else if named(&name, "hyprland") {
        FocusProviderSelection::Hyprland
    } else if named(&name, "none") {
        FocusProviderSelection::Disabled
    } else {
        warnings.push(Warning::UnknownFocusProvider(text::to_text(&name)));
        default
    }
}

// ---------------------------------------------------------------------------
// Words of the command line
// ---------------------------------------------------------------------------

/// The option of that name.
pub open spec fn option_named(name: Seq<char>) -> Option<ValueOption> {
    if name == "--mode"@ {
        Some(ValueOption::Mode)
    } else if name == "--poll-interval-ms"@ {
        Some(ValueOption::Interval(Interval::Poll))
    } else if name == "--focus-provider"@ {
        Some(ValueOption::FocusProvider)
    } else if name == "--focus-refresh-ms"@ {
        Some(ValueOption::Interval(Interval::FocusRefresh))
    } else if name == "--focus-stale-timeout-ms"@ {
        Some(ValueOption::Interval(Interval::FocusStale))
    } else if name == "--agent-heartbeat-ms"@ {
        Some(ValueOption::Interval(Interval::AgentHeartbeat))
    } else if name == "--dedicated-cgroup"@ {
        Some(ValueOption::DedicatedCgroup)
    } else if name == "--socket-path"@ {
        Some(ValueOption::SocketPath)
    } else if name == "--socket-mode-octal"@ {
        Some(ValueOption::SocketModeOctal)
    } else if name == "--socket-owner-uid"@ {
        Some(ValueOption::SocketOwnerUid)
    } else if name == "--filter-config"@ {
        Some(ValueOption::FilterConfig)
    } else if name == "--allow-class"@ {
        Some(ValueOption::Rule(RuleList::AllowClass))
    } else if name == "--allow-exe"@ {
        Some(ValueOption::Rule(RuleList::AllowExe))
    } else if name == "--allow-title"@ {
        Some(ValueOption::Rule(RuleList::AllowTitle))
    } else if name == "--allow-app"@ {
        Some(ValueOption::Rule(RuleList::AllowApp))
    } else if name == "--deny-class"@ {
        Some(ValueOption::Rule(RuleList::DenyClass))
    } else if name == "--deny-exe"@ {
        Some(ValueOption::Rule(RuleList::DenyExe))
    } else if name == "--deny-title"@ {
        Some(ValueOption::Rule(RuleList::DenyTitle))
    } else if name == "--deny-app"@ {
        Some(ValueOption::Rule(RuleList::DenyApp))
    } else {
        None
    }
}

/// The flag of that name.
pub open spec fn flag_named(name: Seq<char>) -> Option<Flag> {
    if name == "--use-system-bus"@ {
        Some(Flag::UseSystemBus)
    } else if name == "--poll-only"@ {
        Some(Flag::PollOnly)
    } else if name == "--allow-all-focused"@ {
        Some(Flag::AllowAllFocused)
    } else {
        None
    }
}

/// What one argument is.
pub enum Word {
    Flag(Flag),
    /// An option, `=` and the value.
    Assigned(ValueOption, Seq<char>),
    /// An option whose value is the argument that follows.
    Awaiting(ValueOption),
    Unknown,
}

/// What the argument `arg` is.
pub open spec fn word(arg: Seq<char>) -> Word {
    match assignment(arg) {
        Some((option, value)) => Word::Assigned(option, value),
        None => match option_named(arg) {
            Some(option) => Word::Awaiting(option),
            None => match flag_named(arg) {
                Some(flag) => Word::Flag(flag),
                None => Word::Unknown,
            },
        },
    }
}

/// The option and the value around the first `=` in `arg`, if an option has
/// that name.
pub open spec fn assignment(arg: Seq<char>) -> Option<(ValueOption, Seq<char>)> {
    match text::position(arg, '=') {
        Some(i) => match option_named(arg.take(i)) {
            Some(option) => Some((option, arg.skip(i + 1))),
            None => None,
        },
        None => None,
    }
}

/// One thing that the command line says.
pub enum Setting {
    Raise(Flag),
    /// A value for an option, and the whole argument where it was assigned
    /// with `=`.
    Give { option: ValueOption, value: Seq<char>, assigned: Option<Seq<char>> },
    /// An option at the end of the command line, with no value.
    Lack(ValueOption),
    Unknown(Seq<char>),
}

/// The things that the command line `argv` says, in order.
pub open spec fn settings(argv: Seq<Seq<char>>) -> Seq<Setting>
    decreases argv.len(),
{
    if argv.len() == 0 {
        seq![]
    } else {
        match word(argv[0]) {
            Word::Flag(flag) => seq![Setting::Raise(flag)] + settings(argv.skip(1)),
            Word::Assigned(option, value) => seq![
                Setting::Give { option, value, assigned: Some(argv[0]) },
            ] + settings(argv.skip(1)),
            Word::Awaiting(option) => if argv.len() >= 2 {
                seq![Setting::Give { option, value: argv[1], assigned: None }] + settings(
                    argv.skip(2),
                )
            } else {
                seq![Setting::Lack(option)]
            },
            Word::Unknown => seq![Setting::Unknown(argv[0])] + settings(argv.skip(1)),
        }
    }
}

/// A value that an option accepts.
pub enum Value {
    Mode(ModeSelection),
    Provider(FocusProviderSelection),
    Millis(u64),
    Text(Seq<char>),
    Number(u32),
}

/// What `option` makes of `value`, if it accepts it.
pub open spec fn accepted(option: ValueOption, value: Seq<char>) -> Option<Value> {
    match option {
        ValueOption::Mode => match mode_named(value) {
            Some(mode) => Some(Value::Mode(mode)),
            None => None,
        },
        ValueOption::FocusProvider => match provider_named(value) {
            Some(provider) => Some(Value::Provider(provider)),
            None => None,
        },
        ValueOption::Interval(_) => match text::u64_value(value) {
            Some(ms) => Some(
                Value::Millis(
                    if ms < SHORTEST_INTERVAL_MS {
                        SHORTEST_INTERVAL_MS
                    } else {
                        ms
                    },
                ),
            ),
            None => None,
        },
        ValueOption::DedicatedCgroup => if blank(value) || value.contains('/') {
            None
        } else {
            Some(Value::Text(value))
        },
        ValueOption::SocketPath => if blank(value) {
            None
        } else {
            Some(Value::Text(value))
        },
        ValueOption::FilterConfig => if blank(value) {
            None
        } else {
            Some(Value::Text(value))
        },
        ValueOption::SocketModeOctal => match socket_mode_value(value) {
            Some(mode) => Some(Value::Number(mode)),
            None => None,
        },
        ValueOption::SocketOwnerUid => match text::u32_value(value) {
            Some(uid) => Some(Value::Number(uid)),
            None => None,
        },
        ValueOption::Rule(_) => Some(Value::Text(value)),
    }
}

/// What is warned about where `option` does not accept `value`.
pub open spec fn refusal(
    option: ValueOption,
    value: Seq<char>,
    assigned: Option<Seq<char>>,
) -> Option<Warning<Seq<char>>> {
    match option {
        ValueOption::Mode => Some(Warning::UnknownMode(value)),
        ValueOption::FocusProvider => Some(Warning::UnknownFocusProvider(value)),
        ValueOption::Interval(interval) => Some(
            Warning::BadInterval {
                interval,
                assigned: assigned is Some,
                text: match assigned {
                    Some(arg) => arg,
                    None => value,
                },
            },
        ),
        ValueOption::DedicatedCgroup => Some(Warning::InvalidCgroupName(value)),
        ValueOption::SocketPath => Some(Warning::InvalidSocketPath(value)),
        ValueOption::SocketModeOctal => Some(Warning::InvalidSocketMode(value)),
        ValueOption::SocketOwnerUid => Some(Warning::InvalidOwnerUid(value)),
        ValueOption::FilterConfig => None,
        ValueOption::Rule(_) => None,
    }
}

/// The settings `args` with the flag raised.
pub open spec fn raised(args: ArgsView, flag: Flag) -> ArgsView {
    match flag {
        Flag::UseSystemBus => ArgsView { use_system_bus: true, ..args },
        Flag::PollOnly => ArgsView { poll_only: true, ..args },
        Flag::AllowAllFocused => ArgsView { allow_all_focused: true, ..args },
    }
}

/// The rules in a list.
pub open spec fn rules(args: ArgsView, list: RuleList) -> Seq<Seq<char>> {
    match list {
        RuleList::AllowClass => args.allow_classes,
        RuleList::AllowExe => args.allow_execs,
        RuleList::AllowTitle => args.allow_titles,
        RuleList::AllowApp => args.allow_apps,
        RuleList::DenyClass => args.deny_classes,
        RuleList::DenyExe => args.deny_execs,
        RuleList::DenyTitle => args.deny_titles,
        RuleList::DenyApp => args.deny_apps,
    }
}

/// The settings `args` with one more rule at the end of a list.
pub open spec fn with_rule(args: ArgsView, list: RuleList, rule: Seq<char>) -> ArgsView {
    let more = rules(args, list).push(rule);
    match list {
        RuleList::AllowClass => ArgsView { allow_classes: more, ..args },
        RuleList::AllowExe => ArgsView { allow_execs: more, ..args },
        RuleList::AllowTitle => ArgsView { allow_titles: more, ..args },
        RuleList::AllowApp => ArgsView { allow_apps: more, ..args },
        RuleList::DenyClass => ArgsView { deny_classes: more, ..args },
        RuleList::DenyExe => ArgsView { deny_execs: more, ..args },
        RuleList::DenyTitle => ArgsView { deny_titles: more, ..args },
        RuleList::DenyApp => ArgsView { deny_apps: more, ..args },
    }
}

/// The settings `args` with an accepted value in place of what the option
/// held, or added to the rules.
pub open spec fn with_value(args: ArgsView, option: ValueOption, value: Value) -> ArgsView {
    match (option, value) {
        (ValueOption::Mode, Value::Mode(mode)) => ArgsView { mode, ..args },
        (ValueOption::FocusProvider, Value::Provider(provider)) => ArgsView {
            focus_provider: provider,
            ..args
        },
        (ValueOption::Interval(Interval::Poll), Value::Millis(ms)) => ArgsView {
            poll_interval_ms: ms,
            ..args
        },
        (ValueOption::Interval(Interval::FocusRefresh), Value::Millis(ms)) => ArgsView {
            focus_refresh_ms: ms,
            ..args
        },
        (ValueOption::Interval(Interval::FocusStale), Value::Millis(ms)) => ArgsView {
            focus_stale_timeout_ms: ms,
            ..args
        },
        (ValueOption::Interval(Interval::AgentHeartbeat), Value::Millis(ms)) => ArgsView {
            agent_heartbeat_ms: ms,
            ..args
        },
        (ValueOption::DedicatedCgroup, Value::Text(name)) => ArgsView {
            dedicated_cgroup_name: name,
            ..args
        },
        (ValueOption::SocketPath, Value::Text(path)) => ArgsView { socket_path: path, ..args },
        (ValueOption::FilterConfig, Value::Text(path)) => ArgsView {
            filter_config: Some(path),
            ..args
        },
        (ValueOption::SocketModeOctal, Value::Number(mode)) => ArgsView {
            socket_mode: mode,
            ..args
        },
        (ValueOption::SocketOwnerUid, Value::Number(uid)) => ArgsView {
            socket_owner_uid: Some(uid),
            ..args
        },
        (ValueOption::Rule(list), Value::Text(rule)) => with_rule(args, list, rule),
        _ => args,
    }
}

/// `parsed` with one more warning.
pub open spec fn warned(parsed: Parsed, warning: Warning<Seq<char>>) -> Parsed {
    Parsed { args: parsed.args, warnings: parsed.warnings.push(warning) }
}

/// What `parsed` becomes by one thing that the command line says.
pub open spec fn applied(parsed: Parsed, setting: Setting) -> Parsed {
    match setting {
        Setting::Raise(flag) => Parsed { args: raised(parsed.args, flag), ..parsed },
        Setting::Give { option, value, assigned } => match accepted(option, value) {
            Some(v) => Parsed { args: with_value(parsed.args, option, v), ..parsed },
            None => match refusal(option, value, assigned) {
                Some(warning) => warned(parsed, warning),
                None => parsed,
            },
        },
        Setting::Lack(option) => if option is Rule {
            parsed
        } else {
            warned(parsed, Warning::MissingValue(option))
        },
        Setting::Unknown(arg) => warned(parsed, Warning::UnknownArgument(arg)),
    }
}

/// What `parsed` becomes by the things said in `said`, one after the other.
pub open spec fn all_applied(parsed: Parsed, said: Seq<Setting>) -> Parsed
    decreases said.len(),
{
    if said.len() == 0 {
        parsed
    } else {
        all_applied(applied(parsed, said[0]), said.skip(1))
    }
}

/// What the command line `argv` comes to.
pub open spec fn parsed(argv: Seq<Seq<char>>) -> Parsed {
    all_applied(Parsed { args: default_args(), warnings: seq![] }, settings(argv))
}

// ---------------------------------------------------------------------------
// Parsing
// ---------------------------------------------------------------------------

fn find_option(name: &[char]) -> (option: Option<ValueOption>)
    ensures
        option == option_named(name@),
{
    if named(name, "--mode") {
        Some(ValueOption::Mode)
    } else if named(name, "--poll-interval-ms") {
        Some(ValueOption::Interval(Interval::Poll))
    } else if named(name, "--focus-provider") {
        Some(ValueOption::FocusProvider)
    } else if named(name, "--focus-refresh-ms") {
        Some(ValueOption::Interval(Interval::FocusRefresh))
    } else if named(name, "--focus-stale-timeout-ms") {
        Some(ValueOption::Interval(Interval::FocusStale))
    } else if named(name, "--agent-heartbeat-ms") {
        Some(ValueOption::Interval(Interval::AgentHeartbeat))
    } else if named(name, "--dedicated-cgroup") {
        Some(ValueOption::DedicatedCgroup)
    } else if named(name, "--socket-path") {
        Some(ValueOption::SocketPath)
    } else if named(name, "--socket-mode-octal") {
        Some(ValueOption::SocketModeOctal)
    } else if named(name, "--socket-owner-uid") {
        Some(ValueOption::SocketOwnerUid)
    } else if named(name, "--filter-config") {
        Some(ValueOption::FilterConfig)
    } else if named(name, "--allow-class") {
        Some(ValueOption::Rule(RuleList::AllowClass))
    } else if named(name, "--allow-exe") {
        Some(ValueOption::Rule(RuleList::AllowExe))
    } else if named(name, "--allow-title") {
        Some(ValueOption::Rule(RuleList::AllowTitle))
    } else if named(name, "--allow-app") {
        Some(ValueOption::Rule(RuleList::AllowApp))
    } else if named(name, "--deny-class") {
        Some(ValueOption::Rule(RuleList::DenyClass))
    } else if named(name, "--deny-exe") {
        Some(ValueOption::Rule(RuleList::DenyExe))
    } else if named(name, "--deny-title") {
        Some(ValueOption::Rule(RuleList::DenyTitle))
    } else if named(name, "--deny-app") {
        Some(ValueOption::Rule(RuleList::DenyApp))
    } else {
        None
    }
}

fn find_flag(name: &[char]) -> (flag: Option<Flag>)
    ensures
        flag == flag_named(name@),
{
    if named(name, "--use-system-bus") {
        Some(Flag::UseSystemBus)
    } else if named(name, "--poll-only") {
        Some(Flag::PollOnly)
    } else if named(name, "--allow-all-focused") {
        Some(Flag::AllowAllFocused)
    } else {
        None
    }
}

fn is_blank(s: &[char]) -> (yes: bool)
    ensures
        yes == blank(s@),
{
    text::trim(s).len() == 0
}

fn push_text(list: &mut Vec<String>, s: &[char])
    ensures
        text::texts(final(list)@) == text::texts(old(list)@).push(s@),
{
    list.push(text::to_text(s));
    assert(text::texts(list@) == text::texts(old(list)@).push(s@));
}

fn warn(warnings: &mut Vec<Warning<String>>, warning: Warning<String>)
    ensures
        warning_views(final(warnings)@) == warning_views(old(warnings)@).push(warning@),
{
    warnings.push(warning);
    assert(warning_views(warnings@) == warning_views(old(warnings)@).push(warning@));
}

/// What has been made of a command line so far.
struct Parser {
    args: Args,
    warnings: Vec<Warning<String>>,
}

impl View for Parser {
    type V = Parsed;

    closed spec fn view(&self) -> Parsed {
        Parsed { args: self.args@, warnings: warning_views(self.warnings@) }
    }
}

impl Parser {
    fn new() -> (p: Parser)
        ensures
            p@ == (Parsed { args: default_args(), warnings: seq![] }),
    {
        let p = Parser {
            args: Args {
                mode: ModeSelection::Daemon,
                use_system_bus: false,
                poll_only: false,
                poll_interval_ms: DEFAULT_POLL_INTERVAL_MS,
                focus_provider: FocusProviderSelection::Auto,
                focus_refresh_ms: DEFAULT_FOCUS_REFRESH_MS,
                focus_stale_timeout_ms: DEFAULT_FOCUS_STALE_TIMEOUT_MS,
                agent_heartbeat_ms: DEFAULT_AGENT_HEARTBEAT_MS,
                dedicated_cgroup_name: DEFAULT_DEDICATED_CGROUP_NAME.to_owned(),
                socket_path: DEFAULT_SOCKET_PATH.to_owned(),
                socket_mode: DEFAULT_SOCKET_MODE,
                socket_owner_uid: None,
                filter_config: None,
                allow_all_focused: false,
                allow_classes: Vec::new(),
                allow_execs: Vec::new(),
                allow_titles: Vec::new(),
                allow_apps: Vec::new(),
                deny_classes: Vec::new(),
                deny_execs: Vec::new(),
                deny_titles: Vec::new(),
                deny_apps: Vec::new(),
            },
            warnings: Vec::new(),
        };
        assert(p@ =~= (Parsed { args: default_args(), warnings: seq![] }));
        p
    }

    fn raise(&mut self, flag: Flag)
        ensures
            final(self)@ == applied(old(self)@, Setting::Raise(flag)),
    {
        match flag {
            Flag::UseSystemBus => {
                self.args.use_system_bus = true;
            },
            Flag::PollOnly => {
                self.args.poll_only = true;
            },
            Flag::AllowAllFocused => {
                self.args.allow_all_focused = true;
            },
        }
    }

    fn add_rule(&mut self, list: RuleList, rule: &[char])
        ensures
            final(self)@ == (Parsed { args: with_rule(old(self)@.args, list, rule@), ..old(self)@ }),
    {
        match list {
            RuleList::AllowClass => push_text(&mut self.args.allow_classes, rule),
            RuleList::AllowExe => push_text(&mut self.args.allow_execs, rule),
            RuleList::AllowTitle => push_text(&mut self.args.allow_titles, rule),
            RuleList::AllowApp => push_text(&mut self.args.allow_apps, rule),
            RuleList::DenyClass => push_text(&mut self.args.deny_classes, rule),
            RuleList::DenyExe => push_text(&mut self.args.deny_execs, rule),
            RuleList::DenyTitle => push_text(&mut self.args.deny_titles, rule),
            RuleList::DenyApp => push_text(&mut self.args.deny_apps, rule),
        }
    }

    fn set_interval(&mut self, interval: Interval, value: &[char], assigned: Option<&[char]>)
        ensures
            final(self)@ == applied(
                old(self)@,
                Setting::Give {
                    option: ValueOption::Interval(interval),
                    value: value@,
                    assigned: match assigned {
                        Some(arg) => Some(arg@),
                        None => None,
                    },
                },
            ),
    {
        match text::parse_u64(value) {
            Some(given) => {
                let ms: u64 = if given < SHORTEST_INTERVAL_MS {
                    SHORTEST_INTERVAL_MS
                } else {
                    given
                };
                match interval {
                    Interval::Poll => {
                        self.args.poll_interval_ms = ms;
                    },
                    Interval::FocusRefresh => {
                        self.args.focus_refresh_ms = ms;
                    },
                    Interval::FocusStale => {
                        self.args.focus_stale_timeout_ms = ms;
                    },
                    Interval::AgentHeartbeat => {
                        self.args.agent_heartbeat_ms = ms;
                    },
                }
            },
            None => {
                let bad = match assigned {
                    Some(arg) => text::to_text(arg),
                    None => text::to_text(value),
                };
                warn(
                    &mut self.warnings,
                    Warning::BadInterval { interval, assigned: assigned.is_some(), text: bad },
                );
            },
        }
    }

    fn give(&mut self, option: ValueOption, value: &[char], assigned: Option<&[char]>)
        ensures
            final(self)@ == applied(
                old(self)@,
                Setting::Give {
                    option,
                    value: value@,
                    assigned: match assigned {
                        Some(arg) => Some(arg@),
                        None => None,
                    },
                },
            ),
    {
        match option {
            ValueOption::Mode => {
                let name = text::to_text(value);
                self.args.mode = parse_mode(name.as_str(), self.args.mode, &mut self.warnings);
            },
            ValueOption::FocusProvider => {
                let name = text::to_text(value);
                self.args.focus_provider = parse_focus_provider(
                    name.as_str(),
                    self.args.focus_provider,
                    &mut self.warnings,
                );
            },
            ValueOption::Interval(interval) => {
                self.set_interval(interval, value, assigned);
            },
            ValueOption::DedicatedCgroup => {
                if is_blank(value) || text::find_char(value, '/').is_some() {
                    warn(&mut self.warnings, Warning::InvalidCgroupName(text::to_text(value)));
                } else {
                    self.args.dedicated_cgroup_name = text::to_text(value);
                }
            },
            ValueOption::SocketPath => {
                if is_blank(value) {
                    warn(&mut self.warnings, Warning::InvalidSocketPath(text::to_text(value)));
                } else {
                    self.args.socket_path = text::to_text(value);
                }
            },
            ValueOption::SocketModeOctal => {
                let mode = text::to_text(value);
                match parse_socket_mode(mode.as_str()) {
                    Some(bits) => {
                        self.args.socket_mode = bits;
                    },
                    None => {
                        warn(&mut self.warnings, Warning::InvalidSocketMode(mode));
                    },
                }
            },
            ValueOption::SocketOwnerUid => {
                match text::parse_u32(value) {
                    Some(uid) => {
                        self.args.socket_owner_uid = Some(uid);
                    },
                    None => {
                        warn(&mut self.warnings, Warning::InvalidOwnerUid(text::to_text(value)));
                    },
                }
            },
            ValueOption::FilterConfig => {
                if !is_blank(value) {
                    self.args.filter_config = Some(text::to_text(value));
                }
            },
            ValueOption::Rule(list) => {
                self.add_rule(list, value);
            },
        }
    }

    fn lack(&mut self, option: ValueOption)
        ensures
            final(self)@ == applied(old(self)@, Setting::Lack(option)),
    {
        match option {
            ValueOption::Rule(_) => {},
            _ => {
                warn(&mut self.warnings, Warning::MissingValue(option));
            },
        }
    }

    fn unknown(&mut self, arg: &[char])
        ensures
            final(self)@ == applied(old(self)@, Setting::Unknown(arg@)),
    {
        warn(&mut self.warnings, Warning::UnknownArgument(text::to_text(arg)));
    }
}

fn find_assignment(arg: &[char]) -> (r: Option<(ValueOption, &[char])>)
    ensures
        match r {
            Some((option, value)) => assignment(arg@) == Some((option, value@)),
            None => assignment(arg@) is None,
        },
{
    match text::find_char(arg, '=') {
        Some(i) => {
            assert(i < arg.len());
            let name = slice_subrange(arg, 0, i);
            let value = slice_subrange(arg, i + 1, arg.len());
            assert(name@ == arg@.take(i as int));
            assert(value@ == arg@.skip(i + 1));
            match find_option(name) {
                Some(option) => Some((option, value)),
                None => None,
            }
        },
        None => None,
    }
}

impl Args {
    /// Reads the arguments that follow the program's name. An argument that
    /// is unknown, or whose value is not accepted, changes nothing; most such
    /// are warned about, and the warnings come in the order of the arguments.
    pub fn parse(argv: &Vec<String>) -> (r: (Args, Vec<Warning<String>>))
        ensures
            r.0@ == parsed(text::texts(argv@)).args,
            warning_views(r.1@) == parsed(text::texts(argv@)).warnings,
    {
        let mut p = Parser::new();
        let ghost all = text::texts(argv@);
        let mut i: usize = 0;
        assert(all.skip(0) == all);
        while i < argv.len()
            invariant
                i <= argv.len(),
                all == text::texts(argv@),
                all_applied(p@, settings(all.skip(i as int))) == parsed(all),
            decreases argv.len() - i,
        {
            let ghost rest = all.skip(i as int);
            let arg = text::to_chars(argv[i].as_str());
            assert(rest[0] == arg@);
            assert(rest.skip(1) == all.skip(i + 1));
            match find_assignment(&arg) {
                Some((option, value)) => {
                    p.give(option, value, Some(&arg));
                    assert(settings(rest).skip(1) == settings(rest.skip(1)));
                    i += 1;
                },
                None => match find_option(&arg) {
                    Some(option) => {
                        i += 1;
                        if i < argv.len() {
                            let value = text::to_chars(argv[i].as_str());
                            assert(rest[1] == value@);
                            p.give(option, &value, None);
                            assert(settings(rest).skip(1) == settings(rest.skip(2)));
                            assert(rest.skip(2) == all.skip(i + 1));
                            i += 1;
                        } else {
                            p.lack(option);
                            assert(settings(rest).skip(1) == settings(all.skip(i as int)));
                        }
                    },
                    None => {
                        match find_flag(&arg) {
                            Some(flag) => p.raise(flag),
                            None => p.unknown(&arg),
                        }
                        assert(settings(rest).skip(1) == settings(rest.skip(1)));
                        i += 1;
                    },
                },
            }
        }
        (p.args, p.warnings)
    }
}

// ---------------------------------------------------------------------------
// Warnings
// ---------------------------------------------------------------------------

/// The name of an option, as it stands on the command line.
pub open spec fn option_name(option: ValueOption) -> Seq<char> {
    match option {
        ValueOption::Mode => "--mode"@,
        ValueOption::Interval(Interval::Poll) => "--poll-interval-ms"@,
        ValueOption::Interval(Interval::FocusRefresh) => "--focus-refresh-ms"@,
        ValueOption::Interval(Interval::FocusStale) => "--focus-stale-timeout-ms"@,
        ValueOption::Interval(Interval::AgentHeartbeat) => "--agent-heartbeat-ms"@,
        ValueOption::FocusProvider => "--focus-provider"@,
        ValueOption::DedicatedCgroup => "--dedicated-cgroup"@,
        ValueOption::SocketPath => "--socket-path"@,
        ValueOption::SocketModeOctal => "--socket-mode-octal"@,
        ValueOption::SocketOwnerUid => "--socket-owner-uid"@,
        ValueOption::FilterConfig => "--filter-config"@,
        ValueOption::Rule(RuleList::AllowClass) => "--allow-class"@,
        ValueOption::Rule(RuleList::AllowExe) => "--allow-exe"@,
        ValueOption::Rule(RuleList::AllowTitle) => "--allow-title"@,
        ValueOption::Rule(RuleList::AllowApp) => "--allow-app"@,
        ValueOption::Rule(RuleList::DenyClass) => "--deny-class"@,
        ValueOption::Rule(RuleList::DenyExe) => "--deny-exe"@,
        ValueOption::Rule(RuleList::DenyTitle) => "--deny-title"@,
        ValueOption::Rule(RuleList::DenyApp) => "--deny-app"@,
    }
}

/// What an interval is called in a warning.
pub open spec fn interval_title(interval: Interval) -> Seq<char> {
    match interval {
        Interval::Poll => "poll interval"@,
        Interval::FocusRefresh => "focus refresh interval"@,
        Interval::FocusStale => "focus stale timeout"@,
        Interval::AgentHeartbeat => "agent heartbeat"@,
    }
}

/// The wording of a warning.
pub open spec fn warning_text(warning: Warning<Seq<char>>) -> Seq<char> {
    match warning {
        Warning::UnknownMode(value) => "WARNING: Unknown mode '"@ + value
            + "', keeping previous value"@,
        Warning::UnknownFocusProvider(value) => "WARNING: Unknown focus provider '"@ + value
            + "', keeping previous value"@,
        Warning::BadInterval { interval, assigned, text } => "WARNING: Could not parse "@
            + interval_title(interval) + (if assigned {
            " from '"@
        } else {
            " value '"@
        }) + text + "', using default"@,
        Warning::InvalidCgroupName(name) => "WARNING: Invalid dedicated cgroup name '"@ + name
            + "', keeping previous value"@,
        Warning::InvalidSocketPath(path) => "WARNING: Invalid socket path '"@ + path
            + "', keeping previous value"@,
        Warning::InvalidSocketMode(mode) => "WARNING: Invalid socket mode '"@ + mode
            + "', keeping previous value"@,
        Warning::InvalidOwnerUid(uid) => "WARNING: Invalid socket owner uid '"@ + uid
            + "', keeping previous value"@,
        Warning::MissingValue(option) => "WARNING: Missing value for "@ + option_name(option) + (
        if option is SocketOwnerUid || option is FilterConfig {
            ""@
        } else {
            ", using default"@
        }),
        Warning::UnknownArgument(arg) => "WARNING: Unknown argument '"@ + arg + "', ignoring"@,
    }
}

fn name_of(option: ValueOption) -> (name: &'static str)
    ensures
        name@ == option_name(option),
{
    match option {
        ValueOption::Mode => "--mode",
        ValueOption::Interval(Interval::Poll) => "--poll-interval-ms",
        ValueOption::Interval(Interval::FocusRefresh) => "--focus-refresh-ms",
        ValueOption::Interval(Interval::FocusStale) => "--focus-stale-timeout-ms",
        ValueOption::Interval(Interval::AgentHeartbeat) => "--agent-heartbeat-ms",
        ValueOption::FocusProvider => "--focus-provider",
        ValueOption::DedicatedCgroup => "--dedicated-cgroup",
        ValueOption::SocketPath => "--socket-path",
        ValueOption::SocketModeOctal => "--socket-mode-octal",
        ValueOption::SocketOwnerUid => "--socket-owner-uid",
        ValueOption::FilterConfig => "--filter-config",
        ValueOption::Rule(RuleList::AllowClass) => "--allow-class",
        ValueOption::Rule(RuleList::AllowExe) => "--allow-exe",
        ValueOption::Rule(RuleList::AllowTitle) => "--allow-title",
        ValueOption::Rule(RuleList::AllowApp) => "--allow-app",
        ValueOption::Rule(RuleList::DenyClass) => "--deny-class",
        ValueOption::Rule(RuleList::DenyExe) => "--deny-exe",
        ValueOption::Rule(RuleList::DenyTitle) => "--deny-title",
        ValueOption::Rule(RuleList::DenyApp) => "--deny-app",
    }
}

fn title_of(interval: Interval) -> (title: &'static str)
    ensures
        title@ == interval_title(interval),
{
    match interval {
        Interval::Poll => "poll interval",
        Interval::FocusRefresh => "focus refresh interval",
        Interval::FocusStale => "focus stale timeout",
        Interval::AgentHeartbeat => "agent heartbeat",
    }
}

fn quoted(before: &str, value: &String, after: &str) -> (r: String)
    ensures
        r@ == before@ + value@ + after@,
{
    before.to_owned().concat(value.as_str()).concat(after)
}

impl Warning<String> {
    /// The wording of the warning.
    pub fn message(&self) -> (message: String)
        ensures
            message@ == warning_text(self@),
    {
        match self {
            Warning::UnknownMode(value) => quoted(
                "WARNING: Unknown mode '",
                value,
                "', keeping previous value",
            ),
            Warning::UnknownFocusProvider(value) => quoted(
                "WARNING: Unknown focus provider '",
                value,
                "', keeping previous value",
            ),
            Warning::BadInterval { interval, assigned, text } => {
                let start = "WARNING: Could not parse ".to_owned().concat(title_of(*interval));
                let middle = if *assigned {
                    " from '"
                } else {
                    " value '"
                };
                quoted(start.concat(middle).as_str(), text, "', using default")
            },
            Warning::InvalidCgroupName(name) => quoted(
                "WARNING: Invalid dedicated cgroup name '",
                name,
                "', keeping previous value",
            ),
            Warning::InvalidSocketPath(path) => quoted(
                "WARNING: Invalid socket path '",
                path,
                "', keeping previous value",
            ),
            Warning::InvalidSocketMode(mode) => quoted(
                "WARNING: Invalid socket mode '",
                mode,
                "', keeping previous value",
            ),
            Warning::InvalidOwnerUid(uid) => quoted(
                "WARNING: Invalid socket owner uid '",
                uid,
                "', keeping previous value",
            ),
            Warning::MissingValue(option) => {
                let start = "WARNING: Missing value for ".to_owned().concat(name_of(*option));
                let end = match option {
                    ValueOption::SocketOwnerUid => "",
                    ValueOption::FilterConfig => "",
                    _ => ", using default",
                };
                start.concat(end)
            },
            Warning::UnknownArgument(arg) => quoted(
                "WARNING: Unknown argument '",
                arg,
                "', ignoring",
            ),
        }
    }
}

// ---------------------------------------------------------------------------
// Laws
// ---------------------------------------------------------------------------

/// What can be relied on of settings, whatever the command line was.
pub open spec fn valid_args(args: ArgsView) -> bool {
    &&& args.poll_interval_ms >= SHORTEST_INTERVAL_MS
    &&& args.focus_refresh_ms >= SHORTEST_INTERVAL_MS
    &&& args.focus_stale_timeout_ms >= SHORTEST_INTERVAL_MS
    &&& args.agent_heartbeat_ms >= SHORTEST_INTERVAL_MS
    &&& !blank(args.dedicated_cgroup_name)
    &&& !args.dedicated_cgroup_name.contains('/')
    &&& !blank(args.socket_path)
    &&& closed_to_others(args.socket_mode)
    &&& args.filter_config matches Some(path) ==> !blank(path)
}

/// A text that begins and ends with other characters than white space is not
/// blank.
proof fn lemma_not_blank(s: Seq<char>)
    requires
        s.len() > 0,
        !text::white_space(s[0]),
        !text::white_space(s.last()),
    ensures
        !blank(s),
{
}

proof fn lemma_default_args_valid()
    ensures
        valid_args(default_args()),
{
    reveal_strlit("dmemcg-booster.focused");
    reveal_strlit("/run/dmemcg-booster/focus.sock");
    let name = DEFAULT_DEDICATED_CGROUP_NAME@;
    assert forall|i: int| 0 <= i < name.len() implies name[i] != '/' by {}
    lemma_not_blank(name);
    lemma_not_blank(DEFAULT_SOCKET_PATH@);
}

proof fn lemma_applied_valid(parsed: Parsed, setting: Setting)
    requires
        valid_args(parsed.args),
    ensures
        valid_args(applied(parsed, setting).args),
{
}

proof fn lemma_all_applied_valid(parsed: Parsed, said: Seq<Setting>)
    requires
        valid_args(parsed.args),
    ensures
        valid_args(all_applied(parsed, said).args),
    decreases said.len(),
{
    if said.len() > 0 {
        lemma_applied_valid(parsed, said[0]);
        lemma_all_applied_valid(applied(parsed, said[0]), said.skip(1));
    }
}

/// Whatever the command line says, every interval is at least the shortest,
/// the cgroup name is one path component, the paths are not blank, and the
/// socket mode gives others no permission.
pub proof fn settings_are_valid(argv: Seq<Seq<char>>)
    ensures
        valid_args(parsed(argv).args),
{
    lemma_default_args_valid();
    lemma_all_applied_valid(Parsed { args: default_args(), warnings: seq![] }, settings(argv));
}

proof fn lemma_all_applied_concat(parsed: Parsed, a: Seq<Setting>, b: Seq<Setting>)
    ensures
        all_applied(parsed, a + b) == all_applied(all_applied(parsed, a), b),
    decreases a.len(),
{
    if a.len() == 0 {
        assert(a + b == b);
    } else {
        assert((a + b).skip(1) == a.skip(1) + b);
        lemma_all_applied_concat(applied(parsed, a[0]), a.skip(1), b);
    }
}

/// No option of the command line waits for a value at its end.
pub open spec fn complete(argv: Seq<Seq<char>>) -> bool {
    forall|i: int| 0 <= i < settings(argv).len() ==> !((#[trigger] settings(argv)[i]) is Lack)
}

proof fn lemma_settings_concat(a: Seq<Seq<char>>, b: Seq<Seq<char>>)
    requires
        complete(a),
    ensures
        settings(a + b) == settings(a) + settings(b),
    decreases a.len(),
{
    if a.len() == 0 {
        assert(a + b == b);
        assert(settings(a) + settings(b) == settings(b));
    } else {
        let ab = a + b;
        assert(ab[0] == a[0]);
        let n: int = if word(a[0]) is Awaiting {
            2
        } else {
            1
        };
        if a.len() < n {
            assert(settings(a)[0] is Lack);
        }
        let rest = a.skip(n);
        assert(ab.skip(n) == rest + b);
        assert(settings(a) == seq![settings(a)[0]] + settings(rest));
        assert forall|i: int| 0 <= i < settings(rest).len() implies !((
        #[trigger] settings(rest)[i]) is Lack) by {
            assert(settings(a)[i + 1] == settings(rest)[i]);
        }
        lemma_settings_concat(rest, b);
        if n == 2 {
            assert(ab[1] == a[1]);
        }
        assert(settings(ab) == seq![settings(a)[0]] + (settings(rest) + settings(b)));
        assert(settings(ab) == settings(a) + settings(b));
    }
}

/// A command line can be read in parts: what a second part says comes on top
/// of what the first, if it is complete, came to.
pub proof fn command_lines_compose(a: Seq<Seq<char>>, b: Seq<Seq<char>>)
    requires
        complete(a),
    ensures
        parsed(a + b) == all_applied(parsed(a), settings(b)),
{
    lemma_settings_concat(a, b);
    lemma_all_applied_concat(
        Parsed { args: default_args(), warnings: seq![] },
        settings(a),
        settings(b),
    );
}

/// What an option holds in `args`; nothing where it was never given a value.
pub open spec fn held(args: ArgsView, option: ValueOption) -> Option<Value> {
    match option {
        ValueOption::Mode => Some(Value::Mode(args.mode)),
        ValueOption::FocusProvider => Some(Value::Provider(args.focus_provider)),
        ValueOption::Interval(Interval::Poll) => Some(Value::Millis(args.poll_interval_ms)),
        ValueOption::Interval(Interval::FocusRefresh) => Some(Value::Millis(args.focus_refresh_ms)),
        ValueOption::Interval(Interval::FocusStale) => Some(
            Value::Millis(args.focus_stale_timeout_ms),
        ),
        ValueOption::Interval(Interval::AgentHeartbeat) => Some(
            Value::Millis(args.agent_heartbeat_ms),
        ),
        ValueOption::DedicatedCgroup => Some(Value::Text(args.dedicated_cgroup_name)),
        ValueOption::SocketPath => Some(Value::Text(args.socket_path)),
        ValueOption::SocketModeOctal => Some(Value::Number(args.socket_mode)),
        ValueOption::SocketOwnerUid => match args.socket_owner_uid {
            Some(uid) => Some(Value::Number(uid)),
            None => None,
        },
        ValueOption::FilterConfig => match args.filter_config {
            Some(path) => Some(Value::Text(path)),
            None => None,
        },
        ValueOption::Rule(list) => if rules(args, list).len() == 0 {
            None
        } else {
            Some(Value::Text(rules(args, list).last()))
        },
    }
}

/// The setting gives `option` a value that it accepts.
pub open spec fn sets(setting: Setting, option: ValueOption) -> bool {
    setting matches Setting::Give { option: o, value, .. } && o == option && accepted(
        option,
        value,
    ) is Some
}

proof fn lemma_untouched(parsed: Parsed, said: Seq<Setting>, option: ValueOption)
    requires
        forall|i: int| 0 <= i < said.len() ==> !sets(#[trigger] said[i], option),
    ensures
        held(all_applied(parsed, said).args, option) == held(parsed.args, option),
    decreases said.len(),
{
    if said.len() > 0 {
        assert(!sets(said[0], option));
        let next = applied(parsed, said[0]);
        assert forall|i: int| 0 <= i < said.skip(1).len() implies !sets(
            #[trigger] said.skip(1)[i],
            option,
        ) by {
            assert(said.skip(1)[i] == said[i + 1]);
        }
        lemma_untouched(next, said.skip(1), option);
        lemma_applied_elsewhere(parsed, said[0], option);
    }
}

proof fn lemma_applied_elsewhere(parsed: Parsed, setting: Setting, option: ValueOption)
    requires
        !sets(setting, option),
    ensures
        held(applied(parsed, setting).args, option) == held(parsed.args, option),
{
}

/// The last accepted value for an option is the one that holds, whatever
/// refused values and other arguments come after it.
pub proof fn last_accepted_value_holds(argv: Seq<Seq<char>>, option: ValueOption, k: int)
    requires
        0 <= k < settings(argv).len(),
        sets(settings(argv)[k], option),
        forall|i: int|
            k < i < settings(argv).len() ==> !sets(#[trigger] settings(argv)[i], option),
    ensures
        held(parsed(argv).args, option) == accepted(option, settings(argv)[k]->value),
{
    let said = settings(argv);
    let start = Parsed { args: default_args(), warnings: seq![] };
    let before = said.take(k);
    let after = said.skip(k + 1);
    assert(said == before + (seq![said[k]] + after));
    lemma_all_applied_concat(start, before, seq![said[k]] + after);
    let p = all_applied(start, before);
    assert((seq![said[k]] + after).skip(1) == after);
    let q = applied(p, said[k]);
    assert forall|i: int| 0 <= i < after.len() implies !sets(#[trigger] after[i], option) by {
        assert(after[i] == said[i + k + 1]);
    }
    lemma_untouched(q, after, option);
}

/// An option keeps its default where the command line gives it no value that
/// it accepts.
pub proof fn default_holds(argv: Seq<Seq<char>>, option: ValueOption)
    requires
        forall|i: int|
            0 <= i < settings(argv).len() ==> !sets(#[trigger] settings(argv)[i], option),
    ensures
        held(parsed(argv).args, option) == held(default_args(), option),
{
    lemma_untouched(
        Parsed { args: default_args(), warnings: seq![] },
        settings(argv),
        option,
    );
}

/// The rules that a command line gives for a list.
pub open spec fn given_rules(said: Seq<Setting>, list: RuleList) -> Seq<Seq<char>>
    decreases said.len(),
{
    if said.len() == 0 {
        seq![]
    } else {
        match said[0] {
            Setting::Give { option, value, .. } if option == ValueOption::Rule(list) => seq![value]
                + given_rules(said.skip(1), list),
            _ => given_rules(said.skip(1), list),
        }
    }
}

proof fn lemma_rules_added(parsed: Parsed, said: Seq<Setting>, list: RuleList)
    ensures
        rules(all_applied(parsed, said).args, list) == rules(parsed.args, list) + given_rules(
            said,
            list,
        ),
    decreases said.len(),
{
    if said.len() > 0 {
        let next = applied(parsed, said[0]);
        lemma_rules_added(next, said.skip(1), list);
        match said[0] {
            Setting::Give { option, value, .. } if option == ValueOption::Rule(list) => {
                assert(rules(next.args, list) == rules(parsed.args, list).push(value));
                assert(rules(parsed.args, list).push(value) + given_rules(said.skip(1), list)
                    == rules(parsed.args, list) + given_rules(said, list));
            },
            _ => {
                assert(rules(next.args, list) == rules(parsed.args, list));
            },
        }
    } else {
        assert(rules(parsed.args, list) + given_rules(said, list) == rules(parsed.args, list));
    }
}

/// A rule list holds every rule that the command line gives for it, in order.
pub proof fn rules_accumulate(argv: Seq<Seq<char>>, list: RuleList)
    ensures
        rules(parsed(argv).args, list) == given_rules(settings(argv), list),
{
    let start = Parsed { args: default_args(), warnings: seq![] };
    lemma_rules_added(start, settings(argv), list);
    assert(rules(start.args, list) + given_rules(settings(argv), list) == given_rules(
        settings(argv),
        list,
    ));
}

/// The flag is up in `args`.
pub open spec fn is_raised(args: ArgsView, flag: Flag) -> bool {
    match flag {
        Flag::UseSystemBus => args.use_system_bus,
        Flag::PollOnly => args.poll_only,
        Flag::AllowAllFocused => args.allow_all_focused,
    }
}

proof fn lemma_flag_raised(parsed: Parsed, said: Seq<Setting>, flag: Flag)
    ensures
        is_raised(all_applied(parsed, said).args, flag) == (is_raised(parsed.args, flag)
            || said.contains(Setting::Raise(flag))),
    decreases said.len(),
{
    if said.len() > 0 {
        lemma_flag_raised(applied(parsed, said[0]), said.skip(1), flag);
        assert(said.contains(Setting::Raise(flag)) == (said[0] == Setting::Raise(flag)
            || said.skip(1).contains(Setting::Raise(flag)))) by {
            if said.contains(Setting::Raise(flag)) {
                let i = choose|i: int| 0 <= i < said.len() && said[i] == Setting::Raise(flag);
                if i > 0 {
                    assert(said.skip(1)[i - 1] == said[i]);
                }
            }
            if said.skip(1).contains(Setting::Raise(flag)) {
                let i = choose|i: int|
                    0 <= i < said.skip(1).len() && said.skip(1)[i] == Setting::Raise(flag);
                assert(said[i + 1] == said.skip(1)[i]);
            }
        }
    }
}

/// A flag is up exactly where the command line raises it.
pub proof fn flags_are_raised(argv: Seq<Seq<char>>, flag: Flag)
    ensures
        is_raised(parsed(argv).args, flag) == settings(argv).contains(Setting::Raise(flag)),
{
    lemma_flag_raised(Parsed { args: default_args(), warnings: seq![] }, settings(argv), flag);
}

proof fn lemma_option_name(option: ValueOption)
    ensures
        option_named(option_name(option)) == Some(option),
        !option_name(option).contains('='),
{
    reveal_strlit("--mode");
    reveal_strlit("--poll-interval-ms");
    reveal_strlit("--focus-provider");
    reveal_strlit("--focus-refresh-ms");
    reveal_strlit("--focus-stale-timeout-ms");
    reveal_strlit("--agent-heartbeat-ms");
    reveal_strlit("--dedicated-cgroup");
    reveal_strlit("--socket-path");
    reveal_strlit("--socket-mode-octal");
    reveal_strlit("--socket-owner-uid");
    reveal_strlit("--filter-config");
    reveal_strlit("--allow-class");
    reveal_strlit("--allow-exe");
    reveal_strlit("--allow-title");
    reveal_strlit("--allow-app");
    reveal_strlit("--deny-class");
    reveal_strlit("--deny-exe");
    reveal_strlit("--deny-title");
    reveal_strlit("--deny-app");
    assert("--mode"@.len() == 6);
    assert("--poll-interval-ms"@.len() == 18);
    assert("--focus-provider"@.len() == 16);
    assert("--focus-refresh-ms"@.len() == 18);
    assert("--focus-stale-timeout-ms"@.len() == 24);
    assert("--agent-heartbeat-ms"@.len() == 20);
    assert("--dedicated-cgroup"@.len() == 18);
    assert("--socket-path"@.len() == 13);
    assert("--socket-mode-octal"@.len() == 19);
    assert("--socket-owner-uid"@.len() == 18);
    assert("--filter-config"@.len() == 15);
    assert("--allow-class"@.len() == 13);
    assert("--allow-exe"@.len() == 11);
    assert("--allow-title"@.len() == 13);
    assert("--allow-app"@.len() == 11);
    assert("--deny-class"@.len() == 12);
    assert("--deny-exe"@.len() == 10);
    assert("--deny-title"@.len() == 12);
    assert("--deny-app"@.len() == 10);
    // Names of the same length differ in a character.
    assert("--poll-interval-ms"@[2] != "--focus-refresh-ms"@[2]);
    assert("--poll-interval-ms"@[2] != "--dedicated-cgroup"@[2]);
    assert("--poll-interval-ms"@[2] != "--socket-owner-uid"@[2]);
    assert("--focus-refresh-ms"@[2] != "--dedicated-cgroup"@[2]);
    assert("--focus-refresh-ms"@[2] != "--socket-owner-uid"@[2]);
    assert("--dedicated-cgroup"@[2] != "--socket-owner-uid"@[2]);
    assert("--socket-path"@[2] != "--allow-class"@[2]);
    assert("--socket-path"@[2] != "--allow-title"@[2]);
    assert("--allow-class"@[8] != "--allow-title"@[8]);
    assert("--allow-exe"@[8] != "--allow-app"@[8]);
    assert("--deny-class"@[7] != "--deny-title"@[7]);
    assert("--deny-exe"@[7] != "--deny-app"@[7]);
}

proof fn lemma_word_of_name(option: ValueOption)
    ensures
        word(option_name(option)) == Word::Awaiting(option),
{
    lemma_option_name(option);
    assert(text::position(option_name(option), '=') is None);
}

proof fn lemma_word_of_assignment(option: ValueOption, value: Seq<char>)
    ensures
        word(option_name(option) + seq!['='] + value) == Word::Assigned(option, value),
{
    lemma_option_name(option);
    let name = option_name(option);
    let arg = name + seq!['='] + value;
    let n = name.len() as int;
    assert forall|j: int| 0 <= j < n implies arg[j] != '=' by {
        assert(arg[j] == name[j]);
        assert(name.contains(name[j]));
    }
    assert(arg[n] == '=');
    assert(text::first_index(arg, '=', n));
    assert forall|k: int| text::first_index(arg, '=', k) implies k == n by {}
    assert(text::position(arg, '=') == Some(n));
    assert(arg.take(n) == name);
    assert(arg.skip(n + 1) == value);
}

/// What is warned about has no influence on the settings.
proof fn lemma_args_apart(p: Parsed, q: Parsed, said: Seq<Setting>)
    requires
        p.args == q.args,
    ensures
        all_applied(p, said).args == all_applied(q, said).args,
    decreases said.len(),
{
    if said.len() > 0 {
        lemma_args_apart(applied(p, said[0]), applied(q, said[0]), said.skip(1));
    }
}

/// `--option=value` and `--option value` come to the same settings.
pub proof fn assigning_is_following(
    a: Seq<Seq<char>>,
    option: ValueOption,
    value: Seq<char>,
    b: Seq<Seq<char>>,
)
    requires
        complete(a),
    ensures
        parsed(a + (seq![option_name(option) + seq!['='] + value] + b)).args == parsed(
            a + (seq![option_name(option), value] + b),
        ).args,
{
    lemma_word_of_name(option);
    lemma_word_of_assignment(option, value);
    let whole = option_name(option) + seq!['='] + value;
    let one = seq![whole] + b;
    let two = seq![option_name(option), value] + b;
    command_lines_compose(a, one);
    command_lines_compose(a, two);
    assert(one.skip(1) == b);
    assert(two.skip(2) == b);
    let assigned = Setting::Give { option, value, assigned: Some(whole) };
    let followed = Setting::Give { option, value, assigned: None };
    assert(settings(one) == seq![assigned] + settings(b));
    assert(settings(two) == seq![followed] + settings(b));
    let p = parsed(a);
    assert(settings(one).skip(1) == settings(b));
    assert(settings(two).skip(1) == settings(b));
    lemma_args_apart(applied(p, assigned), applied(p, followed), settings(b));
}

/// An argument that there is not makes no difference to the settings, and is
/// warned about.
pub proof fn unknown_arguments_are_ignored(
    a: Seq<Seq<char>>,
    arg: Seq<char>,
    b: Seq<Seq<char>>,
)
    requires
        complete(a),
        word(arg) is Unknown,
    ensures
        parsed(a + (seq![arg] + b)).args == parsed(a + b).args,
        parsed(a + seq![arg]) == warned(parsed(a), Warning::UnknownArgument(arg)),
{
    let more = seq![arg] + b;
    let one = seq![arg];
    command_lines_compose(a, more);
    command_lines_compose(a, one);
    command_lines_compose(a, b);
    let said = Setting::Unknown(arg);
    assert(more.skip(1) == b);
    assert(settings(more) == seq![said] + settings(b));
    assert(settings(more).skip(1) == settings(b));
    lemma_args_apart(applied(parsed(a), said), parsed(a), settings(b));
    assert(one.skip(1) == Seq::<Seq<char>>::empty());
    assert(settings(one.skip(1)) == Seq::<Setting>::empty());
    assert(settings(one) == seq![said]);
    assert(settings(one).skip(1) == Seq::<Setting>::empty());
    reveal_with_fuel(all_applied, 2);
}

/// The argument that assigns the value to the option of that name.
pub open spec fn assigning(name: Seq<char>, value: Seq<char>) -> Seq<char> {
    name + seq!['='] + value
}

/// After `argv`, the option of that name and the value, in one argument or in
/// two, make the settings `args` and add no warning.
pub open spec fn makes(
    argv: Seq<Seq<char>>,
    name: Seq<char>,
    value: Seq<char>,
    args: ArgsView,
) -> bool {
    &&& parsed(argv + seq![assigning(name, value)]) == (Parsed { args, ..parsed(argv) })
    &&& parsed(argv + seq![name, value]) == (Parsed { args, ..parsed(argv) })
}

/// After `argv`, the option of that name and the value, in one argument or in
/// two, leave the settings as they are and add the warning.
pub open spec fn is_refused(
    argv: Seq<Seq<char>>,
    name: Seq<char>,
    value: Seq<char>,
    warning: Warning<Seq<char>>,
) -> bool {
    let before = parsed(argv);
    let after = Parsed { args: before.args, warnings: before.warnings.push(warning) };
    &&& parsed(argv + seq![assigning(name, value)]) == after
    &&& parsed(argv + seq![name, value]) == after
}

/// After `argv`, the option of that name and the value leave the settings as they
/// are and add a warning about the interval. It quotes the whole argument where
/// the value was assigned in it.
pub open spec fn interval_refused(
    argv: Seq<Seq<char>>,
    name: Seq<char>,
    value: Seq<char>,
    interval: Interval,
) -> bool {
    let before = parsed(argv);
    let whole = assigning(name, value);
    &&& parsed(argv + seq![whole]) == (Parsed {
        args: before.args,
        warnings: before.warnings.push(
            Warning::BadInterval { interval, assigned: true, text: whole },
        ),
    })
    &&& parsed(argv + seq![name, value]) == (Parsed {
        args: before.args,
        warnings: before.warnings.push(
            Warning::BadInterval { interval, assigned: false, text: value },
        ),
    })
}

/// What a last option comes to, with its value or without.
proof fn lemma_last_option(argv: Seq<Seq<char>>, option: ValueOption, value: Seq<char>)
    requires
        complete(argv),
    ensures
        ({
            let whole = assigning(option_name(option), value);
            &&& parsed(argv + seq![whole]) == applied(
                parsed(argv),
                Setting::Give { option, value, assigned: Some(whole) },
            )
            &&& parsed(argv + seq![option_name(option), value]) == applied(
                parsed(argv),
                Setting::Give { option, value, assigned: None },
            )
            &&& parsed(argv + seq![option_name(option)]) == applied(
                parsed(argv),
                Setting::Lack(option),
            )
        }),
{
    let name = option_name(option);
    let whole = assigning(name, value);
    lemma_word_of_name(option);
    lemma_word_of_assignment(option, value);
    let one = seq![whole];
    let two = seq![name, value];
    let alone = seq![name];
    command_lines_compose(argv, one);
    command_lines_compose(argv, two);
    command_lines_compose(argv, alone);
    let none = Seq::<Seq<char>>::empty();
    let assigned = Setting::Give { option, value, assigned: Some(whole) };
    let followed = Setting::Give { option, value, assigned: None };
    assert(one.skip(1) == none);
    assert(two.skip(2) == none);
    assert(settings(none) == Seq::<Setting>::empty());
    assert(settings(one) == seq![assigned]);
    assert(settings(two) == seq![followed]);
    assert(settings(alone) == seq![Setting::Lack(option)]);
    assert(seq![assigned].skip(1) == Seq::<Setting>::empty());
    assert(seq![followed].skip(1) == Seq::<Setting>::empty());
    assert(seq![Setting::Lack(option)].skip(1) == Seq::<Setting>::empty());
    reveal_with_fuel(all_applied, 2);
}

/// An accepted value takes its place.
proof fn lemma_makes(argv: Seq<Seq<char>>, option: ValueOption, value: Seq<char>, v: Value)
    requires
        complete(argv),
        accepted(option, value) == Some(v),
    ensures
        makes(argv, option_name(option), value, with_value(parsed(argv).args, option, v)),
{
    lemma_last_option(argv, option, value);
}

/// A value that is refused is warned about.
proof fn lemma_refused(
    argv: Seq<Seq<char>>,
    option: ValueOption,
    value: Seq<char>,
    warning: Warning<Seq<char>>,
)
    requires
        complete(argv),
        accepted(option, value) is None,
        !(option is Interval),
        refusal(option, value, None) == Some(warning),
    ensures
        is_refused(argv, option_name(option), value, warning),
{
    lemma_last_option(argv, option, value);
}

/// What is no number is refused as an interval.
proof fn lemma_interval_refused(argv: Seq<Seq<char>>, interval: Interval, value: Seq<char>)
    requires
        complete(argv),
        text::u64_value(value) is None,
    ensures
        interval_refused(argv, option_name(ValueOption::Interval(interval)), value, interval),
{
    lemma_last_option(argv, ValueOption::Interval(interval), value);
}

/// A text is blank exactly if it is white space throughout.
pub proof fn blank_is_white_space_throughout(s: Seq<char>)
    ensures
        blank(s) <==> text::is_blank(s),
{
    let nothing = Seq::<char>::empty();
    if text::is_blank(s) {
        assert(s + nothing + nothing == s);
        text::trimming_takes_margins_away(s, nothing, nothing);
    } else {
        text::lemma_trimmed_start(s);
        text::lemma_trimmed_end(text::trimmed_start(s));
    }
}

/// Each interval takes its number of milliseconds, or the shortest where that is
/// less, and nothing else changes. What is no number is refused.
pub proof fn intervals_take_milliseconds(argv: Seq<Seq<char>>, value: Seq<char>, ms: u64)
    requires
        complete(argv),
    ensures
        text::u64_value(value) == Some(ms) ==> {
            let set = if ms < 100 {
                100u64
            } else {
                ms
            };
            &&& makes(
                argv,
                "--poll-interval-ms"@,
                value,
                ArgsView { poll_interval_ms: set, ..parsed(argv).args },
            )
            &&& makes(
                argv,
                "--focus-refresh-ms"@,
                value,
                ArgsView { focus_refresh_ms: set, ..parsed(argv).args },
            )
            &&& makes(
                argv,
                "--focus-stale-timeout-ms"@,
                value,
                ArgsView { focus_stale_timeout_ms: set, ..parsed(argv).args },
            )
            &&& makes(
                argv,
                "--agent-heartbeat-ms"@,
                value,
                ArgsView { agent_heartbeat_ms: set, ..parsed(argv).args },
            )
        },
        text::u64_value(value) is None ==> {
            &&& interval_refused(argv, "--poll-interval-ms"@, value, Interval::Poll)
            &&& interval_refused(argv, "--focus-refresh-ms"@, value, Interval::FocusRefresh)
            &&& interval_refused(argv, "--focus-stale-timeout-ms"@, value, Interval::FocusStale)
            &&& interval_refused(argv, "--agent-heartbeat-ms"@, value, Interval::AgentHeartbeat)
        },
{
    if text::u64_value(value) == Some(ms) {
        let v = Value::Millis(
            if ms < SHORTEST_INTERVAL_MS {
                SHORTEST_INTERVAL_MS
            } else {
                ms
            },
        );
        lemma_makes(argv, ValueOption::Interval(Interval::Poll), value, v);
        lemma_makes(argv, ValueOption::Interval(Interval::FocusRefresh), value, v);
        lemma_makes(argv, ValueOption::Interval(Interval::FocusStale), value, v);
        lemma_makes(argv, ValueOption::Interval(Interval::AgentHeartbeat), value, v);
    }
    if text::u64_value(value) is None {
        lemma_interval_refused(argv, Interval::Poll, value);
        lemma_interval_refused(argv, Interval::FocusRefresh, value);
        lemma_interval_refused(argv, Interval::FocusStale, value);
        lemma_interval_refused(argv, Interval::AgentHeartbeat, value);
    }
}

/// The mode and the focus provider take their names, and nothing else changes.
/// Other names are refused.
pub proof fn modes_and_providers_take_names(argv: Seq<Seq<char>>, value: Seq<char>)
    requires
        complete(argv),
    ensures
        makes(
            argv,
            "--mode"@,
            "daemon"@,
            ArgsView { mode: ModeSelection::Daemon, ..parsed(argv).args },
        ),
        makes(
            argv,
            "--mode"@,
            "agent"@,
            ArgsView { mode: ModeSelection::Agent, ..parsed(argv).args },
        ),
        makes(
            argv,
            "--mode"@,
            "standalone"@,
            ArgsView { mode: ModeSelection::Standalone, ..parsed(argv).args },
        ),
        value != "daemon"@ && value != "agent"@ && value != "standalone"@ ==> is_refused(
            argv,
            "--mode"@,
            value,
            Warning::UnknownMode(value),
        ),
        makes(
            argv,
            "--focus-provider"@,
            "auto"@,
            ArgsView { focus_provider: FocusProviderSelection::Auto, ..parsed(argv).args },
        ),
        makes(
            argv,
            "--focus-provider"@,
            "hyprland"@,
            ArgsView { focus_provider: FocusProviderSelection::Hyprland, ..parsed(argv).args },
        ),
        makes(
            argv,
            "--focus-provider"@,
            "none"@,
            ArgsView { focus_provider: FocusProviderSelection::Disabled, ..parsed(argv).args },
        ),
        value != "auto"@ && value != "hyprland"@ && value != "none"@ ==> is_refused(
            argv,
            "--focus-provider"@,
            value,
            Warning::UnknownFocusProvider(value),
        ),
{
    reveal_strlit("daemon");
    reveal_strlit("agent");
    reveal_strlit("standalone");
    reveal_strlit("auto");
    reveal_strlit("hyprland");
    reveal_strlit("none");
    assert("daemon"@.len() == 6 && "agent"@.len() == 5 && "standalone"@.len() == 10);
    assert("auto"@[0] == 'a' && "hyprland"@[0] == 'h' && "none"@[0] == 'n');
    lemma_makes(argv, ValueOption::Mode, "daemon"@, Value::Mode(ModeSelection::Daemon));
    lemma_makes(argv, ValueOption::Mode, "agent"@, Value::Mode(ModeSelection::Agent));
    lemma_makes(argv, ValueOption::Mode, "standalone"@, Value::Mode(ModeSelection::Standalone));
    if mode_named(value) is None {
        lemma_refused(argv, ValueOption::Mode, value, Warning::UnknownMode(value));
    }
    lemma_makes(argv, ValueOption::FocusProvider, "auto"@, Value::Provider(FocusProviderSelection::Auto));
    lemma_makes(argv, ValueOption::FocusProvider, "hyprland"@, Value::Provider(FocusProviderSelection::Hyprland));
    lemma_makes(argv, ValueOption::FocusProvider, "none"@, Value::Provider(FocusProviderSelection::Disabled));
    if provider_named(value) is None {
        lemma_refused(argv, ValueOption::FocusProvider, value, Warning::UnknownFocusProvider(value));
    }
}

/// The name of the control group, the path of the socket and the path of the
/// filter are taken as they are, unless they are blank or, for the name, hold a
/// slash, and nothing else changes. Only the last is passed over in silence.
pub proof fn names_and_paths_are_taken_as_they_are(argv: Seq<Seq<char>>, value: Seq<char>)
    requires
        complete(argv),
    ensures
        if text::is_blank(value) || value.contains('/') {
            is_refused(argv, "--dedicated-cgroup"@, value, Warning::InvalidCgroupName(value))
        } else {
            makes(
                argv,
                "--dedicated-cgroup"@,
                value,
                ArgsView { dedicated_cgroup_name: value, ..parsed(argv).args },
            )
        },
        if text::is_blank(value) {
            &&& is_refused(argv, "--socket-path"@, value, Warning::InvalidSocketPath(value))
            &&& makes(argv, "--filter-config"@, value, parsed(argv).args)
        } else {
            &&& makes(
                argv,
                "--socket-path"@,
                value,
                ArgsView { socket_path: value, ..parsed(argv).args },
            )
            &&& makes(
                argv,
                "--filter-config"@,
                value,
                ArgsView { filter_config: Some(value), ..parsed(argv).args },
            )
        },
{
    blank_is_white_space_throughout(value);
    let v = Value::Text(value);
    if blank(value) || value.contains('/') {
        let warning = Warning::InvalidCgroupName(value);
        lemma_refused(argv, ValueOption::DedicatedCgroup, value, warning);
    } else {
        lemma_makes(argv, ValueOption::DedicatedCgroup, value, v);
    }
    if blank(value) {
        lemma_refused(argv, ValueOption::SocketPath, value, Warning::InvalidSocketPath(value));
        lemma_last_option(argv, ValueOption::FilterConfig, value);
    } else {
        lemma_makes(argv, ValueOption::SocketPath, value, v);
        lemma_makes(argv, ValueOption::FilterConfig, value, v);
    }
}

/// The owner of the socket takes a number, and its mode the permissions that the
/// value stands for, and nothing else changes. Other values are refused.
pub proof fn owners_and_modes_take_numbers(argv: Seq<Seq<char>>, value: Seq<char>)
    requires
        complete(argv),
    ensures
        match text::u32_value(value) {
            Some(uid) => makes(
                argv,
                "--socket-owner-uid"@,
                value,
                ArgsView { socket_owner_uid: Some(uid), ..parsed(argv).args },
            ),
            None => is_refused(
                argv,
                "--socket-owner-uid"@,
                value,
                Warning::InvalidOwnerUid(value),
            ),
        },
        match socket_mode_value(value) {
            Some(mode) => makes(
                argv,
                "--socket-mode-octal"@,
                value,
                ArgsView { socket_mode: mode, ..parsed(argv).args },
            ),
            None => is_refused(
                argv,
                "--socket-mode-octal"@,
                value,
                Warning::InvalidSocketMode(value),
            ),
        },
{
    match text::u32_value(value) {
        Some(uid) => {
            lemma_makes(argv, ValueOption::SocketOwnerUid, value, Value::Number(uid));
        },
        None => {
            let warning = Warning::InvalidOwnerUid(value);
            lemma_refused(argv, ValueOption::SocketOwnerUid, value, warning);
        },
    }
    match socket_mode_value(value) {
        Some(mode) => {
            lemma_makes(argv, ValueOption::SocketModeOctal, value, Value::Number(mode));
        },
        None => {
            let warning = Warning::InvalidSocketMode(value);
            lemma_refused(argv, ValueOption::SocketModeOctal, value, warning);
        },
    }
}

/// Permissions are read as an octal number that gives others none and has no bit
/// beyond the nine. The prefix makes no difference, nor do zeros in front.
pub proof fn permissions_are_octal(s: Seq<char>)
    ensures
        socket_mode_value(seq!['0', 'o'] + s) == socket_mode_value(s),
        !seq!['o'].is_prefix_of(s) && !seq!['0', 'o'].is_prefix_of(s) ==> socket_mode_value(
            seq!['0'] + s,
        ) == socket_mode_value(s),
        socket_mode_value(Seq::empty()) == Some(0u32),
        s.len() > 0 && s[0] != '0' ==> match text::octal_value(s) {
            Some(mode) => if mode <= 511 && mode & 7 == 0 {
                socket_mode_value(s) == Some(mode)
            } else {
                socket_mode_value(s) is None
            },
            None => socket_mode_value(s) is None,
        },
        socket_mode_value(s) matches Some(mode) ==> mode <= 511 && mode & 7 == 0,
{
    assert((seq!['0', 'o'] + s).skip(2) == s);
    assert(forall|mode: u32| #[trigger] (mode & 7) == mode % 8) by (bit_vector);
    if !seq!['o'].is_prefix_of(s) && !seq!['0', 'o'].is_prefix_of(s) {
        let more = seq!['0'] + s;
        assert(more.skip(1) == s);
        if s.len() > 0 && s[0] == 'o' {
            assert(s.subrange(0, 1) == seq!['o']);
        }
        if s.len() > 1 && s[0] == '0' && s[1] == 'o' {
            assert(s.subrange(0, 2) == seq!['0', 'o']);
        }
        assert(without_octal_prefix(more) == more);
        assert(without_octal_prefix(s) == s);
        assert(without_zeros(more) == without_zeros(s));
    }
}

/// A rule that stands behind its option is added to the list of the option.
proof fn lemma_last_rule(argv: Seq<Seq<char>>, list: RuleList, value: Seq<char>)
    requires
        complete(argv),
    ensures
        makes(
            argv,
            option_name(ValueOption::Rule(list)),
            value,
            with_rule(parsed(argv).args, list, value),
        ),
{
    lemma_last_option(argv, ValueOption::Rule(list), value);
}

/// Each rule that allows is added to its list as it is, after the ones before, and
/// nothing else changes.
pub proof fn allow_rules_are_added_as_they_are(argv: Seq<Seq<char>>, value: Seq<char>)
    requires
        complete(argv),
    ensures
        ({
            let args = parsed(argv).args;
            &&& makes(
                argv,
                "--allow-class"@,
                value,
                ArgsView { allow_classes: args.allow_classes.push(value), ..args },
            )
            &&& makes(
                argv,
                "--allow-exe"@,
                value,
                ArgsView { allow_execs: args.allow_execs.push(value), ..args },
            )
            &&& makes(
                argv,
                "--allow-title"@,
                value,
                ArgsView { allow_titles: args.allow_titles.push(value), ..args },
            )
            &&& makes(
                argv,
                "--allow-app"@,
                value,
                ArgsView { allow_apps: args.allow_apps.push(value), ..args },
            )
        }),
{
    lemma_last_rule(argv, RuleList::AllowClass, value);
    lemma_last_rule(argv, RuleList::AllowExe, value);
    lemma_last_rule(argv, RuleList::AllowTitle, value);
    lemma_last_rule(argv, RuleList::AllowApp, value);
}

/// Each rule that denies is added to its list as it is, after the ones before, and
/// nothing else changes.
pub proof fn deny_rules_are_added_as_they_are(argv: Seq<Seq<char>>, value: Seq<char>)
    requires
        complete(argv),
    ensures
        ({
            let args = parsed(argv).args;
            &&& makes(
                argv,
                "--deny-class"@,
                value,
                ArgsView { deny_classes: args.deny_classes.push(value), ..args },
            )
            &&& makes(
                argv,
                "--deny-exe"@,
                value,
                ArgsView { deny_execs: args.deny_execs.push(value), ..args },
            )
            &&& makes(
                argv,
                "--deny-title"@,
                value,
                ArgsView { deny_titles: args.deny_titles.push(value), ..args },
            )
            &&& makes(
                argv,
                "--deny-app"@,
                value,
                ArgsView { deny_apps: args.deny_apps.push(value), ..args },
            )
        }),
{
    lemma_last_rule(argv, RuleList::DenyClass, value);
    lemma_last_rule(argv, RuleList::DenyExe, value);
    lemma_last_rule(argv, RuleList::DenyTitle, value);
    lemma_last_rule(argv, RuleList::DenyApp, value);
}

proof fn lemma_last_flag(argv: Seq<Seq<char>>, name: Seq<char>, flag: Flag)
    requires
        complete(argv),
        word(name) == Word::Flag(flag),
    ensures
        parsed(argv + seq![name]) == applied(parsed(argv), Setting::Raise(flag)),
{
    let one = seq![name];
    command_lines_compose(argv, one);
    assert(one.skip(1) == Seq::<Seq<char>>::empty());
    assert(settings(one.skip(1)) == Seq::<Setting>::empty());
    assert(settings(one) == seq![Setting::Raise(flag)]);
    assert(seq![Setting::Raise(flag)].skip(1) == Seq::<Setting>::empty());
    reveal_with_fuel(all_applied, 2);
}

/// No flag has the name of an option, and no name holds an equals sign.
proof fn lemma_flag_names()
    ensures
        word("--use-system-bus"@) == Word::Flag(Flag::UseSystemBus),
        word("--poll-only"@) == Word::Flag(Flag::PollOnly),
        word("--allow-all-focused"@) == Word::Flag(Flag::AllowAllFocused),
        !"--use-system-bus"@.contains('='),
        !"--poll-only"@.contains('='),
        !"--allow-all-focused"@.contains('='),
{
    reveal_strlit("--use-system-bus");
    reveal_strlit("--poll-only");
    reveal_strlit("--allow-all-focused");
    assert("--use-system-bus"@.len() == 16);
    assert("--poll-only"@.len() == 11);
    assert("--allow-all-focused"@.len() == 19);
    reveal_strlit("--focus-provider");
    reveal_strlit("--allow-exe");
    reveal_strlit("--allow-app");
    reveal_strlit("--socket-mode-octal");
    assert("--focus-provider"@[2] == 'f' && "--use-system-bus"@[2] == 'u');
    assert("--allow-exe"@[2] == 'a' && "--allow-app"@[2] == 'a' && "--poll-only"@[2] == 'p');
    assert("--socket-mode-octal"@[2] == 's' && "--allow-all-focused"@[2] == 'a');
    reveal_strlit("--poll-interval-ms");
    reveal_strlit("--focus-refresh-ms");
    reveal_strlit("--focus-stale-timeout-ms");
    reveal_strlit("--agent-heartbeat-ms");
    reveal_strlit("--mode");
    reveal_strlit("--dedicated-cgroup");
    reveal_strlit("--socket-path");
    reveal_strlit("--socket-owner-uid");
    reveal_strlit("--filter-config");
    reveal_strlit("--allow-class");
    reveal_strlit("--allow-title");
    reveal_strlit("--deny-class");
    reveal_strlit("--deny-exe");
    reveal_strlit("--deny-title");
    reveal_strlit("--deny-app");
    assert("--mode"@.len() == 6);
    assert("--poll-interval-ms"@.len() == 18);
    assert("--focus-refresh-ms"@.len() == 18);
    assert("--focus-stale-timeout-ms"@.len() == 24);
    assert("--agent-heartbeat-ms"@.len() == 20);
    assert("--dedicated-cgroup"@.len() == 18);
    assert("--socket-path"@.len() == 13);
    assert("--socket-owner-uid"@.len() == 18);
    assert("--filter-config"@.len() == 15);
    assert("--allow-class"@.len() == 13);
    assert("--allow-title"@.len() == 13);
    assert("--deny-class"@.len() == 12);
    assert("--deny-exe"@.len() == 10);
    assert("--deny-title"@.len() == 12);
    assert("--deny-app"@.len() == 10);
    assert(text::position("--use-system-bus"@, '=') is None);
    assert(text::position("--poll-only"@, '=') is None);
    assert(text::position("--allow-all-focused"@, '=') is None);
}

/// Each flag sets what it is named after, and nothing else changes.
pub proof fn flags_set_what_they_are_named_after(argv: Seq<Seq<char>>)
    requires
        complete(argv),
    ensures
        parsed(argv + seq!["--use-system-bus"@]) == (Parsed {
            args: ArgsView { use_system_bus: true, ..parsed(argv).args },
            ..parsed(argv)
        }),
        parsed(argv + seq!["--poll-only"@]) == (Parsed {
            args: ArgsView { poll_only: true, ..parsed(argv).args },
            ..parsed(argv)
        }),
        parsed(argv + seq!["--allow-all-focused"@]) == (Parsed {
            args: ArgsView { allow_all_focused: true, ..parsed(argv).args },
            ..parsed(argv)
        }),
{
    lemma_flag_names();
    lemma_last_flag(argv, "--use-system-bus"@, Flag::UseSystemBus);
    lemma_last_flag(argv, "--poll-only"@, Flag::PollOnly);
    lemma_last_flag(argv, "--allow-all-focused"@, Flag::AllowAllFocused);
}

/// An option at the end of the command line changes nothing. It is warned about,
/// unless it is one for a rule.
pub proof fn options_without_values_change_nothing(argv: Seq<Seq<char>>, option: ValueOption)
    requires
        complete(argv),
    ensures
        parsed(argv + seq![option_name(option)]).args == parsed(argv).args,
        option is Rule ==> parsed(argv + seq![option_name(option)]).warnings == parsed(
            argv,
        ).warnings,
        !(option is Rule) ==> parsed(argv + seq![option_name(option)]).warnings == parsed(
            argv,
        ).warnings + seq![Warning::MissingValue(option)],
{
    lemma_last_option(argv, option, seq![]);
    assert(parsed(argv).warnings.push(Warning::MissingValue(option)) == parsed(argv).warnings
        + seq![Warning::MissingValue(option)]);
}

/// An argument that is no option and no flag changes nothing and is warned
/// about, and so does one with an equals sign that stands behind no option.
pub proof fn other_arguments_change_nothing(
    argv: Seq<Seq<char>>,
    name: Seq<char>,
    value: Seq<char>,
)
    requires
        complete(argv),
        !name.contains('='),
        forall|option: ValueOption| name != #[trigger] option_name(option),
    ensures
        ({
            let arg = name + seq!['='] + value;
            parsed(argv + seq![arg]) == (Parsed {
                args: parsed(argv).args,
                warnings: parsed(argv).warnings + seq![Warning::UnknownArgument(arg)],
            })
        }),
        name != "--use-system-bus"@ && name != "--poll-only"@ && name != "--allow-all-focused"@
            ==> parsed(argv + seq![name]) == (Parsed {
            args: parsed(argv).args,
            warnings: parsed(argv).warnings + seq![Warning::UnknownArgument(name)],
        }),
{
    let arg = name + seq!['='] + value;
    let none = Seq::<Seq<char>>::empty();
    lemma_flag_names();
    lemma_unnamed(name);
    text::the_first_of_a_character_is_found(name, '=', value);
    assert(arg[name.len() as int] == '=');
    assert(arg.contains('='));
    assert(arg.take(name.len() as int) == name);
    lemma_unnamed_with_equals(arg);
    unknown_arguments_are_ignored(argv, arg, none);
    if name != "--use-system-bus"@ && name != "--poll-only"@ && name != "--allow-all-focused"@ {
        unknown_arguments_are_ignored(argv, name, none);
    }
}

/// A name that is not that of any option names none.
proof fn lemma_unnamed(name: Seq<char>)
    requires
        forall|option: ValueOption| name != #[trigger] option_name(option),
    ensures
        option_named(name) is None,
{
    if let Some(option) = option_named(name) {
        assert(name == option_name(option));
    }
}

proof fn lemma_unnamed_with_equals(arg: Seq<char>)
    requires
        arg.contains('='),
    ensures
        option_named(arg) is None,
{
    if let Some(option) = option_named(arg) {
        lemma_option_name(option);
        assert(arg == option_name(option));
    }
}

/// What the settings are where the command line is empty. Nothing is warned
/// about.
pub proof fn an_empty_command_line_leaves_the_defaults()
    ensures
        parsed(Seq::empty()).warnings.len() == 0,
        ({
            let args = parsed(Seq::empty()).args;
            &&& args.mode is Daemon
            &&& args.focus_provider is Auto
            &&& !args.use_system_bus && !args.poll_only && !args.allow_all_focused
            &&& args.poll_interval_ms == 1000
            &&& args.focus_refresh_ms == 2000
            &&& args.focus_stale_timeout_ms == 5000
            &&& args.agent_heartbeat_ms == 1500
            &&& args.dedicated_cgroup_name == "dmemcg-booster.focused"@
            &&& args.socket_path == "/run/dmemcg-booster/focus.sock"@
            &&& args.socket_mode == 0o660
            &&& args.socket_owner_uid is None
            &&& args.filter_config is None
            &&& args.allow_classes.len() == 0 && args.allow_execs.len() == 0
            &&& args.allow_titles.len() == 0 && args.allow_apps.len() == 0
            &&& args.deny_classes.len() == 0 && args.deny_execs.len() == 0
            &&& args.deny_titles.len() == 0 && args.deny_apps.len() == 0
        }),
{
    assert(settings(Seq::<Seq<char>>::empty()) == Seq::<Setting>::empty());
}

/// A warning quotes in full what it is about.
pub proof fn warnings_quote_what_they_are_about(value: Seq<char>, option: ValueOption)
    ensures
        warning_text(Warning::UnknownMode(value)) == "WARNING: Unknown mode '"@ + value
            + "', keeping previous value"@,
        warning_text(Warning::UnknownFocusProvider(value)) == "WARNING: Unknown focus provider '"@
            + value + "', keeping previous value"@,
        warning_text(Warning::InvalidCgroupName(value))
            == "WARNING: Invalid dedicated cgroup name '"@ + value + "', keeping previous value"@,
        warning_text(Warning::InvalidSocketPath(value)) == "WARNING: Invalid socket path '"@ + value
            + "', keeping previous value"@,
        warning_text(Warning::InvalidSocketMode(value)) == "WARNING: Invalid socket mode '"@ + value
            + "', keeping previous value"@,
        warning_text(Warning::InvalidOwnerUid(value)) == "WARNING: Invalid socket owner uid '"@
            + value + "', keeping previous value"@,
        warning_text(Warning::UnknownArgument(value)) == "WARNING: Unknown argument '"@ + value
            + "', ignoring"@,
        (option is SocketOwnerUid || option is FilterConfig) ==> warning_text(
            Warning::MissingValue(option),
        ) == "WARNING: Missing value for "@ + option_name(option),
        !(option is SocketOwnerUid || option is FilterConfig) ==> warning_text(
            Warning::MissingValue(option),
        ) == "WARNING: Missing value for "@ + option_name(option) + ", using default"@,
{
    reveal_strlit("");
    assert(""@ == Seq::<char>::empty());
    let start = "WARNING: Missing value for "@ + option_name(option);
    assert(start + Seq::<char>::empty() == start);
}

/// A warning about an interval names the interval and quotes the value, or the
/// whole argument where the value was assigned in it.
pub proof fn interval_warnings_quote_the_value(text: Seq<char>)
    ensures
        ({
            let quoted = |interval: Interval, assigned: bool|
                warning_text(Warning::BadInterval { interval, assigned, text });
            let end = text + "', using default"@;
            let start = "WARNING: Could not parse "@;
            &&& quoted(Interval::Poll, true) == start + "poll interval"@ + " from '"@ + end
            &&& quoted(Interval::Poll, false) == start + "poll interval"@ + " value '"@ + end
            &&& quoted(Interval::FocusRefresh, true) == start + "focus refresh interval"@
                + " from '"@ + end
            &&& quoted(Interval::FocusRefresh, false) == start + "focus refresh interval"@
                + " value '"@ + end
            &&& quoted(Interval::FocusStale, true) == start + "focus stale timeout"@ + " from '"@
                + end
            &&& quoted(Interval::FocusStale, false) == start + "focus stale timeout"@
                + " value '"@ + end
            &&& quoted(Interval::AgentHeartbeat, true) == start + "agent heartbeat"@ + " from '"@
                + end
            &&& quoted(Interval::AgentHeartbeat, false) == start + "agent heartbeat"@
                + " value '"@ + end
        }),
{
}

/// Warnings are taken one for one, in order.
pub proof fn warnings_keep_everything(warnings: Seq<Warning<String>>, i: int)
    requires
        0 <= i < warnings.len(),
    ensures
        warning_views(warnings).len() == warnings.len(),
        warning_views(warnings)[i] == warnings[i]@,
{
}

} // verus!
