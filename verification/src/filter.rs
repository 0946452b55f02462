//! Which focused windows are boosted: the rules, the filter file, and the
//! choice of the process.

use crate::args;
use crate::args::{Args, RuleList};
use crate::sample;
use crate::sample::FocusSample;
use crate::text;
use vstd::prelude::*;
use vstd::slice::slice_subrange;

verus! {

/// What is known of a process besides its number.
#[derive(Debug)]
pub struct ProcessInfo {
    pub exe: String,
}

/// The rules by which a focused window is boosted or not.
#[derive(Debug)]
pub struct GameFilter {
    pub allow_all_focused: bool,
    pub allow_classes: Vec<String>,
    pub allow_execs: Vec<String>,
    pub allow_titles: Vec<String>,
    pub allow_apps: Vec<String>,
    pub deny_classes: Vec<String>,
    pub deny_execs: Vec<String>,
    pub deny_titles: Vec<String>,
    pub deny_apps: Vec<String>,
}

/// What [`GameFilter`] holds, with texts as character sequences.
#[verifier::ext_equal]
pub struct FilterView {
    pub allow_all_focused: bool,
    pub allow_classes: Seq<Seq<char>>,
    pub allow_execs: Seq<Seq<char>>,
    pub allow_titles: Seq<Seq<char>>,
    pub allow_apps: Seq<Seq<char>>,
    pub deny_classes: Seq<Seq<char>>,
    pub deny_execs: Seq<Seq<char>>,
    pub deny_titles: Seq<Seq<char>>,
    pub deny_apps: Seq<Seq<char>>,
}

impl View for GameFilter {
    type V = FilterView;

    open spec fn view(&self) -> FilterView {
        FilterView {
            allow_all_focused: self.allow_all_focused,
            allow_classes: text::texts(self.allow_classes@),
            allow_execs: text::texts(self.allow_execs@),
            allow_titles: text::texts(self.allow_titles@),
            allow_apps: text::texts(self.allow_apps@),
            deny_classes: text::texts(self.deny_classes@),
            deny_execs: text::texts(self.deny_execs@),
            deny_titles: text::texts(self.deny_titles@),
            deny_apps: text::texts(self.deny_apps@),
        }
    }
}

/// The rules of one list.
pub open spec fn rules_of(filter: FilterView, list: RuleList) -> Seq<Seq<char>> {
    match list {
        RuleList::AllowClass => filter.allow_classes,
        RuleList::AllowExe => filter.allow_execs,
        RuleList::AllowTitle => filter.allow_titles,
        RuleList::AllowApp => filter.allow_apps,
        RuleList::DenyClass => filter.deny_classes,
        RuleList::DenyExe => filter.deny_execs,
        RuleList::DenyTitle => filter.deny_titles,
        RuleList::DenyApp => filter.deny_apps,
    }
}

/// The filter with `more` at the end of one list.
pub open spec fn with_rules(
    filter: FilterView,
    list: RuleList,
    more: Seq<Seq<char>>,
) -> FilterView {
    let all = rules_of(filter, list) + more;
    match list {
        RuleList::AllowClass => FilterView { allow_classes: all, ..filter },
        RuleList::AllowExe => FilterView { allow_execs: all, ..filter },
        RuleList::AllowTitle => FilterView { allow_titles: all, ..filter },
        RuleList::AllowApp => FilterView { allow_apps: all, ..filter },
        RuleList::DenyClass => FilterView { deny_classes: all, ..filter },
        RuleList::DenyExe => FilterView { deny_execs: all, ..filter },
        RuleList::DenyTitle => FilterView { deny_titles: all, ..filter },
        RuleList::DenyApp => FilterView { deny_apps: all, ..filter },
    }
}

// ---------------------------------------------------------------------------
// Rules
// ---------------------------------------------------------------------------

/// The form in which rules and values are compared: without white space
/// around, and in ASCII lower case.
pub open spec fn normalized(value: Seq<char>) -> Seq<char> {
    text::lowered(text::trimmed(value))
}

/// The rules in the form in which they are compared, without blank ones.
pub open spec fn normalized_rules(rules: Seq<Seq<char>>) -> Seq<Seq<char>>
    decreases rules.len(),
{
    if rules.len() == 0 {
        seq![]
    } else {
        let before = normalized_rules(rules.drop_last());
        let rule = normalized(rules.last());
        if rule.len() == 0 {
            before
        } else {
            before.push(rule)
        }
    }
}

/// One of the rules stands somewhere in the value.
pub open spec fn any_matches(rules: Seq<Seq<char>>, value: Seq<char>) -> bool {
    exists|i: int| 0 <= i < rules.len() && text::occurs(value, #[trigger] rules[i])
}

/// The rules are not blank, and in the form in which they are compared.
pub open spec fn tidy(rules: Seq<Seq<char>>) -> bool {
    forall|i: int|
        0 <= i < rules.len() ==> (#[trigger] rules[i]).len() > 0 && normalized(rules[i])
            == rules[i]
}

/// Every list holds tidy rules.
pub open spec fn well_formed(filter: FilterView) -> bool {
    &&& tidy(filter.allow_classes)
    &&& tidy(filter.allow_execs)
    &&& tidy(filter.allow_titles)
    &&& tidy(filter.allow_apps)
    &&& tidy(filter.deny_classes)
    &&& tidy(filter.deny_execs)
    &&& tidy(filter.deny_titles)
    &&& tidy(filter.deny_apps)
}

fn normalize_chars(value: &[char]) -> (r: Vec<char>)
    ensures
        r@ == normalized(value@),
{
    text::to_lowered(text::trim(value))
}

/// `value` in the form in which rules and values are compared.
pub fn normalize_value(value: &str) -> (r: String)
    ensures
        r@ == normalized(value@),
{
    let chars = text::to_chars(value);
    let n = normalize_chars(&chars);
    text::to_text(&n)
}

fn push_normalized(rules: &mut Vec<String>, rule: &[char])
    ensures
        text::texts(final(rules)@) == (if normalized(rule@).len() == 0 {
            text::texts(old(rules)@)
        } else {
            text::texts(old(rules)@).push(normalized(rule@))
        }),
{
    let n = normalize_chars(rule);
    if n.len() > 0 {
        rules.push(text::to_text(&n));
        assert(text::texts(rules@) == text::texts(old(rules)@).push(normalized(rule@)));
    }
}

/// The rules in the form in which they are compared, without blank ones.
pub fn normalize_rules(rules: &[String]) -> (r: Vec<String>)
    ensures
        text::texts(r@) == normalized_rules(text::texts(rules@)),
        tidy(text::texts(r@)),
{
    let ghost all = text::texts(rules@);
    let mut r: Vec<String> = Vec::new();
    let mut i: usize = 0;
    assert(text::texts(r@) == normalized_rules(all.take(0)));
    while i < rules.len()
        invariant
            i <= rules.len(),
            all == text::texts(rules@),
            text::texts(r@) == normalized_rules(all.take(i as int)),
        decreases rules.len() - i,
    {
        let rule = text::to_chars(rules[i].as_str());
        assert(all.take(i + 1).drop_last() == all.take(i as int));
        assert(all.take(i + 1).last() == rule@);
        push_normalized(&mut r, &rule);
        i += 1;
    }
    assert(all.take(i as int) == all);
    proof {
        lemma_normalized_rules_tidy(all);
    }
    r
}

/// Whether one of the rules stands somewhere in `value`.
pub fn matches_any(rules: &[String], value: &str) -> (yes: bool)
    ensures
        yes == any_matches(text::texts(rules@), value@),
{
    let chars = text::to_chars(value);
    let ghost all = text::texts(rules@);
    let mut i: usize = 0;
    while i < rules.len()
        invariant
            i <= rules.len(),
            all == text::texts(rules@),
            chars@ == value@,
            forall|j: int| 0 <= j < i ==> !text::occurs(value@, #[trigger] all[j]),
        decreases rules.len() - i,
    {
        let rule = text::to_chars(rules[i].as_str());
        assert(all[i as int] == rule@);
        if text::contains_chars(&chars, &rule) {
            return true;
        }
        i += 1;
    }
    false
}

/// The process runs as one of the rules of the lists says, or its window is
/// as one of them says.
pub open spec fn any_list_matches(
    classes: Seq<Seq<char>>,
    titles: Seq<Seq<char>>,
    apps: Seq<Seq<char>>,
    execs: Seq<Seq<char>>,
    seen: sample::SampleView,
    exe: Seq<char>,
) -> bool {
    ||| any_matches(classes, normalized(sample::text_or_empty(seen.class)))
    ||| any_matches(titles, normalized(sample::text_or_empty(seen.title)))
    ||| any_matches(apps, normalized(sample::text_or_empty(seen.app)))
    ||| any_matches(execs, normalized(exe))
}

/// A deny rule matches.
pub open spec fn denied(filter: FilterView, seen: sample::SampleView, exe: Seq<char>) -> bool {
    any_list_matches(
        filter.deny_classes,
        filter.deny_titles,
        filter.deny_apps,
        filter.deny_execs,
        seen,
        exe,
    )
}

/// An allow rule matches.
pub open spec fn allowed(filter: FilterView, seen: sample::SampleView, exe: Seq<char>) -> bool {
    any_list_matches(
        filter.allow_classes,
        filter.allow_titles,
        filter.allow_apps,
        filter.allow_execs,
        seen,
        exe,
    )
}

/// The window is to be boosted: no deny rule matches, and an allow rule does
/// or all focused windows are allowed.
pub open spec fn boosted(filter: FilterView, seen: sample::SampleView, exe: Seq<char>) -> bool {
    !denied(filter, seen, exe) && (filter.allow_all_focused || allowed(filter, seen, exe))
}

fn normalize_optional(value: &Option<String>) -> (r: String)
    ensures
        r@ == normalized(sample::text_or_empty(sample::optional_text(*value))),
{
    match value {
        Some(v) => normalize_value(v.as_str()),
        None => {
            assert(normalized(seq![]) == Seq::<char>::empty());
            String::new()
        },
    }
}

impl Default for GameFilter {
    fn default() -> (filter: GameFilter)
        ensures
            filter@ == (FilterView {
                allow_all_focused: false,
                allow_classes: seq![],
                allow_execs: seq![],
                allow_titles: seq![],
                allow_apps: seq![],
                deny_classes: seq![],
                deny_execs: seq![],
                deny_titles: seq![],
                deny_apps: seq![],
            }),
            well_formed(filter@),
    {
        GameFilter {
            allow_all_focused: false,
            allow_classes: Vec::new(),
            allow_execs: Vec::new(),
            allow_titles: Vec::new(),
            allow_apps: Vec::new(),
            deny_classes: Vec::new(),
            deny_execs: Vec::new(),
            deny_titles: Vec::new(),
            deny_apps: Vec::new(),
        }
    }
}

// ---------------------------------------------------------------------------
// The filter file
// ---------------------------------------------------------------------------

/// The key and the value that a line of a filter file assigns, without white
/// space around. Blank lines and comments assign nothing, and neither does a
/// line without a value.
pub open spec fn entry(line: Seq<char>) -> Option<(Seq<char>, Seq<char>)> {
    let t = text::trimmed(line);
    if t.len() == 0 || t[0] == '#' {
        None
    } else {
        match text::position(t, '=') {
            Some(i) => {
                let value = text::trimmed(t.skip(i + 1));
                if normalized_rules(text::split(value, ',')).len() == 0 {
                    None
                } else {
                    Some((text::trimmed(t.take(i)), value))
                }
            },
            None => None,
        }
    }
}

/// The list that a key of a filter file adds to.
pub open spec fn list_keyed(key: Seq<char>) -> Option<RuleList> {
    if key == "allow_class"@ {
        Some(RuleList::AllowClass)
    } else if key == "allow_exe"@ {
        Some(RuleList::AllowExe)
    } else if key == "allow_title"@ {
        Some(RuleList::AllowTitle)
    } else if key == "allow_app"@ {
        Some(RuleList::AllowApp)
    } else if key == "deny_class"@ {
        Some(RuleList::DenyClass)
    } else if key == "deny_exe"@ {
        Some(RuleList::DenyExe)
    } else if key == "deny_title"@ {
        Some(RuleList::DenyTitle)
    } else if key == "deny_app"@ {
        Some(RuleList::DenyApp)
    } else {
        None
    }
}

/// What a filter becomes by one line of a filter file.
pub open spec fn line_applied(filter: FilterView, line: Seq<char>) -> FilterView {
    match entry(line) {
        Some((key, value)) => if key == "allow_all_focused"@ {
            FilterView {
                allow_all_focused: text::lowered(value) == "true"@ || value == "1"@,
                ..filter
            }
        } else {
            match list_keyed(key) {
                Some(list) => with_rules(
                    filter,
                    list,
                    normalized_rules(text::split(value, ',')),
                ),
                None => filter,
            }
        },
        None => filter,
    }
}

/// What a filter becomes by lines of a filter file, one after the other.
pub open spec fn lines_applied(filter: FilterView, lines: Seq<Seq<char>>) -> FilterView
    decreases lines.len(),
{
    if lines.len() == 0 {
        filter
    } else {
        lines_applied(line_applied(filter, lines[0]), lines.skip(1))
    }
}

/// What a filter becomes by a filter file.
pub open spec fn file_applied(filter: FilterView, contents: Seq<char>) -> FilterView {
    lines_applied(filter, text::lines(contents))
}

fn find_list(key: &[char]) -> (list: Option<RuleList>)
    ensures
        list == list_keyed(key@),
{
    if is_key(key, "allow_class") {
        Some(RuleList::AllowClass)
    } else if is_key(key, "allow_exe") {
        Some(RuleList::AllowExe)
    } else if is_key(key, "allow_title") {
        Some(RuleList::AllowTitle)
    } else if is_key(key, "allow_app") {
        Some(RuleList::AllowApp)
    } else if is_key(key, "deny_class") {
        Some(RuleList::DenyClass)
    } else if is_key(key, "deny_exe") {
        Some(RuleList::DenyExe)
    } else if is_key(key, "deny_title") {
        Some(RuleList::DenyTitle)
    } else if is_key(key, "deny_app") {
        Some(RuleList::DenyApp)
    } else {
        None
    }
}

fn is_key(key: &[char], name: &str) -> (yes: bool)
    ensures
        yes == (key@ == name@),
{
    let chars = text::to_chars(name);
    text::same_chars(key, &chars)
}

fn append_texts(list: &mut Vec<String>, more: Vec<String>)
    ensures
        text::texts(final(list)@) == text::texts(old(list)@) + text::texts(more@),
{
    let ghost added = more@;
    let mut more = more;
    list.append(&mut more);
    assert(text::texts(list@) == text::texts(old(list)@) + text::texts(added));
}

fn rules_in(value: &[char]) -> (r: Vec<String>)
    ensures
        text::texts(r@) == normalized_rules(text::split(value@, ',')),
{
    let parts = text::split_chars(value, ',');
    let ghost all = text::split(value@, ',');
    let mut r: Vec<String> = Vec::new();
    let mut i: usize = 0;
    assert(text::texts(r@) == normalized_rules(all.take(0)));
    while i < parts.len()
        invariant
            i <= parts.len(),
            all == text::pieces(parts@),
            text::texts(r@) == normalized_rules(all.take(i as int)),
        decreases parts.len() - i,
    {
        assert(all.take(i + 1).drop_last() == all.take(i as int));
        assert(all.take(i + 1).last() == parts@[i as int]@);
        push_normalized(&mut r, parts[i]);
        i += 1;
    }
    assert(all.take(i as int) == all);
    r
}

fn apply_line(line: &[char], filter: &mut GameFilter)
    ensures
        final(filter)@ == line_applied(old(filter)@, line@),
{
    let t = text::trim(line);
    if t.len() == 0 || t[0] == '#' {
        return;
    }
    match text::find_char(t, '=') {
        None => {},
        Some(i) => {
            assert(i < t.len());
            let key = text::trim(slice_subrange(t, 0, i));
            let value = text::trim(slice_subrange(t, i + 1, t.len()));
            assert(t@.subrange(0, i as int) == t@.take(i as int));
            assert(t@.subrange(i + 1, t.len() as int) == t@.skip(i + 1));
            let values = rules_in(value);
            assert(values.len() == text::texts(values@).len());
            if values.len() == 0 {
                return;
            }
            if is_key(key, "allow_all_focused") {
                let lower = text::to_lowered(value);
                filter.allow_all_focused = is_key(&lower, "true") || is_key(value, "1");
                return;
            }
            match find_list(key) {
                Some(RuleList::AllowClass) => append_texts(&mut filter.allow_classes, values),
                Some(RuleList::AllowExe) => append_texts(&mut filter.allow_execs, values),
                Some(RuleList::AllowTitle) => append_texts(&mut filter.allow_titles, values),
                Some(RuleList::AllowApp) => append_texts(&mut filter.allow_apps, values),
                Some(RuleList::DenyClass) => append_texts(&mut filter.deny_classes, values),
                Some(RuleList::DenyExe) => append_texts(&mut filter.deny_execs, values),
                Some(RuleList::DenyTitle) => append_texts(&mut filter.deny_titles, values),
                Some(RuleList::DenyApp) => append_texts(&mut filter.deny_apps, values),
                None => {},
            }
        },
    }
}

/// Adds to `filter` what the filter file with these contents says.
pub fn apply_filter_file(contents: &str, filter: &mut GameFilter)
    ensures
        final(filter)@ == file_applied(old(filter)@, contents@),
        well_formed(old(filter)@) ==> well_formed(final(filter)@),
{
    let chars = text::to_chars(contents);
    let lines = text::split_lines(&chars);
    let ghost all = text::lines(contents@);
    let mut i: usize = 0;
    assert(all.skip(0) == all);
    while i < lines.len()
        invariant
            i <= lines.len(),
            all == text::pieces(lines@),
            lines_applied(filter@, all.skip(i as int)) == lines_applied(old(filter)@, all),
        decreases lines.len() - i,
    {
        let ghost rest = all.skip(i as int);
        assert(rest[0] == lines@[i as int]@);
        assert(rest.skip(1) == all.skip(i + 1));
        apply_line(lines[i], filter);
        i += 1;
    }
    proof {
        if well_formed(old(filter)@) {
            lemma_lines_applied_well_formed(old(filter)@, all);
        }
    }
}

/// The filter that the command line asks for.
pub open spec fn filter_of_args(given: args::ArgsView) -> FilterView {
    FilterView {
        allow_all_focused: given.allow_all_focused,
        allow_classes: normalized_rules(given.allow_classes),
        allow_execs: normalized_rules(given.allow_execs),
        allow_titles: normalized_rules(given.allow_titles),
        allow_apps: normalized_rules(given.allow_apps),
        deny_classes: normalized_rules(given.deny_classes),
        deny_execs: normalized_rules(given.deny_execs),
        deny_titles: normalized_rules(given.deny_titles),
        deny_apps: normalized_rules(given.deny_apps),
    }
}

impl GameFilter {
    /// The filter that the command line and then the filter file ask for.
    /// `config` holds the contents of the file at `args.filter_config`;
    /// nothing where none is named, or where it could not be read.
    pub fn from_args(args: &Args, config: Option<&str>) -> (filter: GameFilter)
        ensures
            filter@ == (match config {
                Some(contents) => file_applied(filter_of_args(args@), contents@),
                None => filter_of_args(args@),
            }),
            well_formed(filter@),
    {
        let mut filter = GameFilter {
            allow_all_focused: args.allow_all_focused,
            allow_classes: normalize_rules(&args.allow_classes),
            allow_execs: normalize_rules(&args.allow_execs),
            allow_titles: normalize_rules(&args.allow_titles),
            allow_apps: normalize_rules(&args.allow_apps),
            deny_classes: normalize_rules(&args.deny_classes),
            deny_execs: normalize_rules(&args.deny_execs),
            deny_titles: normalize_rules(&args.deny_titles),
            deny_apps: normalize_rules(&args.deny_apps),
        };
        if let Some(contents) = config {
            apply_filter_file(contents, &mut filter);
        }
        filter
    }

    /// Whether the window of `sample`, which belongs to `process`, is to be
    /// boosted.
    pub fn matches(&self, sample: &FocusSample, process: &ProcessInfo) -> (yes: bool)
        ensures
            yes == boosted(self@, sample@, process.exe@),
    {
        let class = normalize_optional(&sample.class);
        let title = normalize_optional(&sample.title);
        let app = normalize_optional(&sample.app);
        let exe = normalize_value(process.exe.as_str());
        if matches_any(&self.deny_classes, class.as_str()) || matches_any(
            &self.deny_titles,
            title.as_str(),
        ) || matches_any(&self.deny_apps, app.as_str()) || matches_any(
            &self.deny_execs,
            exe.as_str(),
        ) {
            return false;
        }
        if self.allow_all_focused {
            return true;
        }
        matches_any(&self.allow_classes, class.as_str()) || matches_any(
            &self.allow_titles,
            title.as_str(),
        ) || matches_any(&self.allow_apps, app.as_str()) || matches_any(
            &self.allow_execs,
            exe.as_str(),
        )
    }
}

/// The process that is to be boosted: that of the sample, if it runs as the
/// uid that is expected, if any, its executable is known, and the filter says
/// so.
pub open spec fn selected(
    filter: FilterView,
    seen: sample::SampleView,
    expected_uid: Option<u32>,
    owner: Option<u32>,
    exe: Option<Seq<char>>,
) -> Option<u32> {
    if (expected_uid is None || owner == expected_uid) && exe is Some && boosted(
        filter,
        seen,
        exe->0,
    ) {
        seen.pid
    } else {
        None
    }
}

/// The process that is to be boosted for `sample`. `owner` is the uid that
/// the process runs as and `process` what is known of it, each as far as it
/// could be found out. The owner matters only where a uid is expected.
pub fn select_pid_for_policy(
    sample: &FocusSample,
    filter: &GameFilter,
    expected_uid: Option<u32>,
    owner: Option<u32>,
    process: Option<&ProcessInfo>,
) -> (pid: Option<u32>)
    ensures
        pid == selected(
            filter@,
            sample@,
            expected_uid,
            owner,
            match process {
                Some(info) => Some(info.exe@),
                None => None,
            },
        ),
{
    let pid = match sample.pid {
        Some(pid) => pid,
        None => {
            return None;
        },
    };
    if let Some(uid) = expected_uid {
        match owner {
            Some(actual) => {
                if actual != uid {
                    return None;
                }
            },
            None => {
                return None;
            },
        }
    }
    match process {
        Some(info) => {
            if filter.matches(sample, info) {
                Some(pid)
            } else {
                None
            }
        },
        None => None,
    }
}

// ---------------------------------------------------------------------------
// Laws
// ---------------------------------------------------------------------------

proof fn lemma_lower_keeps_space(c: char)
    ensures
        text::white_space(text::lower(c)) == text::white_space(c),
        text::lower(text::lower(c)) == text::lower(c),
{
}

/// Normalizing a second time changes nothing.
pub proof fn normalizing_is_idempotent(value: Seq<char>)
    ensures
        normalized(normalized(value)) == normalized(value),
{
    let t = text::trimmed(value);
    let n = normalized(value);
    text::lemma_trimmed(value);
    if t.len() > 0 {
        lemma_lower_keeps_space(t[0]);
        lemma_lower_keeps_space(t.last());
        assert(n[0] == text::lower(t[0]));
        assert(n.last() == text::lower(t.last()));
    }
    text::lemma_trimmed_kept(n);
    assert forall|i: int| 0 <= i < n.len() implies text::lowered(n)[i] == n[i] by {
        lemma_lower_keeps_space(t[i]);
    }
    assert(text::lowered(n) == n);
}

proof fn lemma_normalized_rules_tidy(rules: Seq<Seq<char>>)
    ensures
        tidy(normalized_rules(rules)),
    decreases rules.len(),
{
    if rules.len() > 0 {
        lemma_normalized_rules_tidy(rules.drop_last());
        normalizing_is_idempotent(rules.last());
    }
}

proof fn lemma_line_applied_well_formed(filter: FilterView, line: Seq<char>)
    requires
        well_formed(filter),
    ensures
        well_formed(line_applied(filter, line)),
{
    match entry(line) {
        Some((key, value)) => {
            lemma_normalized_rules_tidy(text::split(value, ','));
        },
        None => {},
    }
}

proof fn lemma_lines_applied_well_formed(filter: FilterView, lines: Seq<Seq<char>>)
    requires
        well_formed(filter),
    ensures
        well_formed(lines_applied(filter, lines)),
    decreases lines.len(),
{
    if lines.len() > 0 {
        lemma_line_applied_well_formed(filter, lines[0]);
        lemma_lines_applied_well_formed(line_applied(filter, lines[0]), lines.skip(1));
    }
}

/// A deny rule that matches outweighs every allow rule, and the permission
/// for all focused windows.
pub proof fn deny_outweighs_allow(filter: FilterView, seen: sample::SampleView, exe: Seq<char>)
    requires
        denied(filter, seen, exe),
    ensures
        !boosted(filter, seen, exe),
{
}

/// A filter that allows nothing boosts nothing.
pub proof fn nothing_is_boosted_unasked(
    filter: FilterView,
    seen: sample::SampleView,
    exe: Seq<char>,
)
    requires
        !filter.allow_all_focused,
        filter.allow_classes.len() == 0,
        filter.allow_execs.len() == 0,
        filter.allow_titles.len() == 0,
        filter.allow_apps.len() == 0,
    ensures
        !boosted(filter, seen, exe),
{
}

/// The case of ASCII letters, and white space around a text, make no
/// difference to what is boosted.
pub proof fn case_and_margins_do_not_matter(
    filter: FilterView,
    seen: sample::SampleView,
    exe: Seq<char>,
)
    ensures
        boosted(
            filter,
            sample::SampleView {
                pid: seen.pid,
                class: Some(normalized(sample::text_or_empty(seen.class))),
                title: Some(normalized(sample::text_or_empty(seen.title))),
                app: Some(normalized(sample::text_or_empty(seen.app))),
            },
            normalized(exe),
        ) == boosted(filter, seen, exe),
{
    normalizing_is_idempotent(sample::text_or_empty(seen.class));
    normalizing_is_idempotent(sample::text_or_empty(seen.title));
    normalizing_is_idempotent(sample::text_or_empty(seen.app));
    normalizing_is_idempotent(exe);
}

proof fn lemma_lines_applied_concat(filter: FilterView, a: Seq<Seq<char>>, b: Seq<Seq<char>>)
    ensures
        lines_applied(filter, a + b) == lines_applied(lines_applied(filter, a), b),
    decreases a.len(),
{
    if a.len() == 0 {
        assert(a + b == b);
    } else {
        assert((a + b).skip(1) == a.skip(1) + b);
        lemma_lines_applied_concat(line_applied(filter, a[0]), a.skip(1), b);
    }
}

/// Filter files can be written one after the other into one file, from a new
/// line on, and say the same.
pub proof fn filter_files_compose(filter: FilterView, a: Seq<char>, b: Seq<char>)
    ensures
        file_applied(filter, a + seq!['\n'] + b) == file_applied(file_applied(filter, a), b),
{
    text::lemma_split_concat(a, '\n', b);
    text::lemma_split_not_empty(a, '\n');
    text::lemma_split_not_empty(b, '\n');
    let parts_a = text::split(a, '\n');
    let parts_b = text::split(b, '\n');
    let parts = text::split(a + seq!['\n'] + b, '\n');
    let f = |l: Seq<char>| text::without_cr(l);
    let last = parts_a.last();
    let ended = parts_a.drop_last().map_values(f);
    assert(parts.last() == parts_b.last());
    assert(parts.drop_last() == parts_a + parts_b.drop_last());
    assert(parts.drop_last().map_values(f) == ended.push(text::without_cr(last))
        + parts_b.drop_last().map_values(f));
    assert(text::lines(a + seq!['\n'] + b) == ended.push(text::without_cr(last)) + text::lines(b));
    lemma_lines_applied_concat(filter, ended.push(text::without_cr(last)), text::lines(b));
    assert(ended.push(text::without_cr(last)) == ended + seq![text::without_cr(last)]);
    lemma_lines_applied_concat(filter, ended, seq![text::without_cr(last)]);
    let before = lines_applied(filter, ended);
    text::lemma_trimmed_without_cr(last);
    assert(line_applied(before, text::without_cr(last)) == line_applied(before, last));
    reveal_with_fuel(lines_applied, 2);
    assert(lines_applied(before, seq![text::without_cr(last)]) == line_applied(before, last));
    if last.len() == 0 {
        assert(text::trimmed(last).len() == 0);
    } else {
        assert(ended.push(last) == ended + seq![last]);
        lemma_lines_applied_concat(filter, ended, seq![last]);
        assert(lines_applied(before, seq![last]) == line_applied(before, last));
    }
}

/// Where a uid is expected, only a process that is known to run as that uid
/// is ever chosen, and it is the process of the sample.
pub proof fn only_owned_processes_are_selected(
    filter: FilterView,
    seen: sample::SampleView,
    uid: u32,
    owner: Option<u32>,
    exe: Option<Seq<char>>,
)
    requires
        selected(filter, seen, Some(uid), owner, exe) is Some,
    ensures
        owner == Some(uid),
        selected(filter, seen, Some(uid), owner, exe) == seen.pid,
{
}

/// Each rule of one list is a rule of the other.
pub open spec fn rules_within(fewer: Seq<Seq<char>>, more: Seq<Seq<char>>) -> bool {
    forall|i: int| 0 <= i < fewer.len() ==> more.contains(#[trigger] fewer[i])
}

/// Each allow rule of one filter is one of the other, and so is the permission
/// for all focused windows.
pub open spec fn allows_within(fewer: FilterView, more: FilterView) -> bool {
    &&& fewer.allow_all_focused ==> more.allow_all_focused
    &&& rules_within(fewer.allow_classes, more.allow_classes)
    &&& rules_within(fewer.allow_titles, more.allow_titles)
    &&& rules_within(fewer.allow_apps, more.allow_apps)
    &&& rules_within(fewer.allow_execs, more.allow_execs)
}

/// Each deny rule of one filter is one of the other.
pub open spec fn denies_within(fewer: FilterView, more: FilterView) -> bool {
    &&& rules_within(fewer.deny_classes, more.deny_classes)
    &&& rules_within(fewer.deny_titles, more.deny_titles)
    &&& rules_within(fewer.deny_apps, more.deny_apps)
    &&& rules_within(fewer.deny_execs, more.deny_execs)
}

proof fn lemma_any_matches_more(fewer: Seq<Seq<char>>, more: Seq<Seq<char>>, value: Seq<char>)
    requires
        rules_within(fewer, more),
        any_matches(fewer, value),
    ensures
        any_matches(more, value),
{
    let i = choose|i: int| 0 <= i < fewer.len() && text::occurs(value, #[trigger] fewer[i]);
    let j = choose|j: int| 0 <= j < more.len() && more[j] == fewer[i];
    assert(text::occurs(value, more[j]));
}

/// A filter with more allow rules, or with fewer deny rules, boosts at least
/// the same windows.
pub proof fn more_permission_boosts_more(
    strict: FilterView,
    lenient: FilterView,
    seen: sample::SampleView,
    exe: Seq<char>,
)
    requires
        allows_within(strict, lenient),
        denies_within(lenient, strict),
        boosted(strict, seen, exe),
    ensures
        boosted(lenient, seen, exe),
{
    let class = normalized(sample::text_or_empty(seen.class));
    let title = normalized(sample::text_or_empty(seen.title));
    let app = normalized(sample::text_or_empty(seen.app));
    let run = normalized(exe);
    if any_matches(strict.allow_classes, class) {
        lemma_any_matches_more(strict.allow_classes, lenient.allow_classes, class);
    }
    if any_matches(strict.allow_titles, title) {
        lemma_any_matches_more(strict.allow_titles, lenient.allow_titles, title);
    }
    if any_matches(strict.allow_apps, app) {
        lemma_any_matches_more(strict.allow_apps, lenient.allow_apps, app);
    }
    if any_matches(strict.allow_execs, run) {
        lemma_any_matches_more(strict.allow_execs, lenient.allow_execs, run);
    }
    if any_matches(lenient.deny_classes, class) {
        lemma_any_matches_more(lenient.deny_classes, strict.deny_classes, class);
    }
    if any_matches(lenient.deny_titles, title) {
        lemma_any_matches_more(lenient.deny_titles, strict.deny_titles, title);
    }
    if any_matches(lenient.deny_apps, app) {
        lemma_any_matches_more(lenient.deny_apps, strict.deny_apps, app);
    }
    if any_matches(lenient.deny_execs, run) {
        lemma_any_matches_more(lenient.deny_execs, strict.deny_execs, run);
    }
}

/// A text is compared without the white space around it and with the capital
/// letters of ASCII as small ones; every other character counts as it is.
pub proof fn normalizing_trims_and_lowers(a: Seq<char>, s: Seq<char>, b: Seq<char>)
    requires
        text::is_blank(a),
        text::is_blank(b),
        s.len() > 0 ==> !text::white_space(s[0]) && !text::white_space(s.last()),
    ensures
        normalized(a + s + b).len() == s.len(),
        forall|i: int|
            0 <= i < s.len() ==> #[trigger] normalized(a + s + b)[i] as int == (if 65 <= s[i] as int
                <= 90 {
                s[i] as int + 32
            } else {
                s[i] as int
            }),
{
    text::trimming_takes_margins_away(a, s, b);
    assert forall|i: int| 0 <= i < s.len() implies #[trigger] normalized(a + s + b)[i] as int == (
    if 65 <= s[i] as int <= 90 {
        s[i] as int + 32
    } else {
        s[i] as int
    }) by {
        text::only_ascii_capitals_change(s, i);
    }
}

/// Rules are normalized one by one, in order, and only blank ones are dropped.
pub proof fn rules_are_normalized_one_by_one(
    a: Seq<Seq<char>>,
    b: Seq<Seq<char>>,
    rule: Seq<char>,
)
    ensures
        normalized_rules(a + b) == normalized_rules(a) + normalized_rules(b),
        text::is_blank(rule) ==> normalized_rules(seq![rule]) == Seq::<Seq<char>>::empty(),
        !text::is_blank(rule) ==> normalized_rules(seq![rule]) == seq![normalized(rule)],
        normalized_rules(Seq::empty()) == Seq::<Seq<char>>::empty(),
    decreases b.len(),
{
    assert(seq![rule].drop_last() == Seq::<Seq<char>>::empty());
    reveal_with_fuel(normalized_rules, 2);
    assert(Seq::<Seq<char>>::empty().push(normalized(rule)) == seq![normalized(rule)]);
    let nothing = Seq::<char>::empty();
    if text::is_blank(rule) {
        assert(rule + nothing + nothing == rule);
        text::trimming_takes_margins_away(rule, nothing, nothing);
    } else if normalized(rule).len() == 0 {
        text::lemma_trimmed_start(rule);
        text::lemma_trimmed_end(text::trimmed_start(rule));
        let i = choose|i: int| 0 <= i < rule.len() && !text::white_space(#[trigger] rule[i]);
        let t = text::trimmed_start(rule);
        let n = rule.len() - t.len();
        if i >= n {
            assert(t[i - n] == rule[i]);
        }
    }
    if b.len() == 0 {
        assert(a + b == a);
        assert(normalized_rules(a) + normalized_rules(b) == normalized_rules(a));
    } else {
        assert((a + b).drop_last() == a + b.drop_last());
        rules_are_normalized_one_by_one(a, b.drop_last(), rule);
        assert(normalized_rules(a + b) == normalized_rules(a) + normalized_rules(b));
    }
}

/// Each rule that is not blank is kept, in the form in which it is compared.
pub proof fn no_rule_is_lost(rules: Seq<Seq<char>>, i: int)
    requires
        0 <= i < rules.len(),
        !text::is_blank(rules[i]),
    ensures
        normalized_rules(rules).contains(normalized(rules[i])),
{
    let a = rules.take(i);
    let b = rules.skip(i + 1);
    let one = seq![rules[i]];
    assert(rules == a + (one + b));
    rules_are_normalized_one_by_one(a, one + b, rules[i]);
    rules_are_normalized_one_by_one(one, b, rules[i]);
    assert(normalized_rules(rules)[normalized_rules(a).len() as int] == normalized(rules[i]));
}

/// One of the rules is a part of the value.
pub open spec fn one_is_part(rules: Seq<Seq<char>>, value: Seq<char>) -> bool {
    exists|i: int, a: Seq<char>, b: Seq<char>|
        0 <= i < rules.len() && value == #[trigger] (a + rules[i] + b)
}

proof fn lemma_one_is_part(rules: Seq<Seq<char>>, value: Seq<char>)
    ensures
        any_matches(rules, value) == one_is_part(rules, value),
{
    if any_matches(rules, value) {
        let i = choose|i: int| 0 <= i < rules.len() && text::occurs(value, #[trigger] rules[i]);
        text::what_occurs_is_a_part(value, rules[i]);
        let (a, b) = choose|a: Seq<char>, b: Seq<char>| value == #[trigger] (a + rules[i] + b);
        assert(value == a + rules[i] + b);
    }
    if one_is_part(rules, value) {
        let (i, a, b) = choose|i: int, a: Seq<char>, b: Seq<char>|
            0 <= i < rules.len() && value == #[trigger] (a + rules[i] + b);
        text::what_occurs_is_a_part(value, rules[i]);
        assert(text::occurs(value, rules[i]));
    }
}

/// A window is boosted exactly if no rule of a deny list is a part of what the
/// list is about, and either all focused windows are allowed or a rule of an
/// allow list is a part of what that list is about. What is not known of the
/// window counts as empty.
pub proof fn what_is_boosted(filter: FilterView, seen: sample::SampleView, exe: Seq<char>)
    ensures
        ({
            let class = match seen.class {
                Some(t) => normalized(t),
                None => seq![],
            };
            let title = match seen.title {
                Some(t) => normalized(t),
                None => seq![],
            };
            let app = match seen.app {
                Some(t) => normalized(t),
                None => seq![],
            };
            let run = normalized(exe);
            boosted(filter, seen, exe) <==> {
                &&& !one_is_part(filter.deny_classes, class)
                &&& !one_is_part(filter.deny_titles, title)
                &&& !one_is_part(filter.deny_apps, app)
                &&& !one_is_part(filter.deny_execs, run)
                &&& {
                    ||| filter.allow_all_focused
                    ||| one_is_part(filter.allow_classes, class)
                    ||| one_is_part(filter.allow_titles, title)
                    ||| one_is_part(filter.allow_apps, app)
                    ||| one_is_part(filter.allow_execs, run)
                }
            }
        }),
{
    let class = normalized(sample::text_or_empty(seen.class));
    let title = normalized(sample::text_or_empty(seen.title));
    let app = normalized(sample::text_or_empty(seen.app));
    let run = normalized(exe);
    assert(normalized(seq![]) == Seq::<char>::empty());
    lemma_one_is_part(filter.deny_classes, class);
    lemma_one_is_part(filter.deny_titles, title);
    lemma_one_is_part(filter.deny_apps, app);
    lemma_one_is_part(filter.deny_execs, run);
    lemma_one_is_part(filter.allow_classes, class);
    lemma_one_is_part(filter.allow_titles, title);
    lemma_one_is_part(filter.allow_apps, app);
    lemma_one_is_part(filter.allow_execs, run);
}

proof fn lemma_keys_differ()
    ensures
        "allow_all_focused"@ != "allow_class"@,
        "allow_all_focused"@ != "allow_exe"@,
        "allow_all_focused"@ != "allow_title"@,
        "allow_all_focused"@ != "allow_app"@,
        "allow_all_focused"@ != "deny_class"@,
        "allow_all_focused"@ != "deny_exe"@,
        "allow_all_focused"@ != "deny_title"@,
        "allow_all_focused"@ != "deny_app"@,
        "allow_class"@ != "allow_exe"@,
        "allow_class"@ != "allow_title"@,
        "allow_class"@ != "allow_app"@,
        "allow_class"@ != "deny_class"@,
        "allow_class"@ != "deny_exe"@,
        "allow_class"@ != "deny_title"@,
        "allow_class"@ != "deny_app"@,
        "allow_exe"@ != "allow_title"@,
        "allow_exe"@ != "allow_app"@,
        "allow_exe"@ != "deny_class"@,
        "allow_exe"@ != "deny_exe"@,
        "allow_exe"@ != "deny_title"@,
        "allow_exe"@ != "deny_app"@,
        "allow_title"@ != "allow_app"@,
        "allow_title"@ != "deny_class"@,
        "allow_title"@ != "deny_exe"@,
        "allow_title"@ != "deny_title"@,
        "allow_title"@ != "deny_app"@,
        "allow_app"@ != "deny_class"@,
        "allow_app"@ != "deny_exe"@,
        "allow_app"@ != "deny_title"@,
        "allow_app"@ != "deny_app"@,
        "deny_class"@ != "deny_exe"@,
        "deny_class"@ != "deny_title"@,
        "deny_class"@ != "deny_app"@,
        "deny_exe"@ != "deny_title"@,
        "deny_exe"@ != "deny_app"@,
        "deny_title"@ != "deny_app"@,
{
    reveal_strlit("allow_all_focused");
    reveal_strlit("allow_class");
    reveal_strlit("allow_exe");
    reveal_strlit("allow_title");
    reveal_strlit("allow_app");
    reveal_strlit("deny_class");
    reveal_strlit("deny_exe");
    reveal_strlit("deny_title");
    reveal_strlit("deny_app");
    assert("allow_all_focused"@.len() == 17);
    assert("allow_class"@.len() == 11);
    assert("allow_exe"@.len() == 9);
    assert("allow_title"@.len() == 11);
    assert("allow_app"@.len() == 9);
    assert("deny_class"@.len() == 10);
    assert("deny_exe"@.len() == 8);
    assert("deny_title"@.len() == 10);
    assert("deny_app"@.len() == 8);
    assert("allow_class"@[6] == 'c' && "allow_title"@[6] == 't');
    assert("allow_exe"@[6] == 'e' && "allow_app"@[6] == 'a');
    assert("deny_class"@[5] == 'c' && "deny_title"@[5] == 't');
    assert("deny_exe"@[5] == 'e' && "deny_app"@[5] == 'a');
}

/// No line takes a rule away: what a list held stays, in front.
pub proof fn lines_take_no_rule_away(filter: FilterView, line: Seq<char>)
    ensures
        filter.allow_classes.is_prefix_of(line_applied(filter, line).allow_classes),
        filter.allow_execs.is_prefix_of(line_applied(filter, line).allow_execs),
        filter.allow_titles.is_prefix_of(line_applied(filter, line).allow_titles),
        filter.allow_apps.is_prefix_of(line_applied(filter, line).allow_apps),
        filter.deny_classes.is_prefix_of(line_applied(filter, line).deny_classes),
        filter.deny_execs.is_prefix_of(line_applied(filter, line).deny_execs),
        filter.deny_titles.is_prefix_of(line_applied(filter, line).deny_titles),
        filter.deny_apps.is_prefix_of(line_applied(filter, line).deny_apps),
{
    let after = line_applied(filter, line);
    lemma_is_own_prefix(filter);
    if let Some((key, value)) = entry(line) {
        let values = normalized_rules(text::split(value, ','));
        if let Some(list) = list_keyed(key) {
            let held = rules_of(filter, list);
            assert((held + values).take(held.len() as int) == held);
        }
    }
}

proof fn lemma_is_own_prefix(filter: FilterView)
    ensures
        filter.allow_classes.is_prefix_of(filter.allow_classes),
        filter.allow_execs.is_prefix_of(filter.allow_execs),
        filter.allow_titles.is_prefix_of(filter.allow_titles),
        filter.allow_apps.is_prefix_of(filter.allow_apps),
        filter.deny_classes.is_prefix_of(filter.deny_classes),
        filter.deny_execs.is_prefix_of(filter.deny_execs),
        filter.deny_titles.is_prefix_of(filter.deny_titles),
        filter.deny_apps.is_prefix_of(filter.deny_apps),
{
    assert(filter.allow_classes.take(filter.allow_classes.len() as int) == filter.allow_classes);
    assert(filter.allow_execs.take(filter.allow_execs.len() as int) == filter.allow_execs);
    assert(filter.allow_titles.take(filter.allow_titles.len() as int) == filter.allow_titles);
    assert(filter.allow_apps.take(filter.allow_apps.len() as int) == filter.allow_apps);
    assert(filter.deny_classes.take(filter.deny_classes.len() as int) == filter.deny_classes);
    assert(filter.deny_execs.take(filter.deny_execs.len() as int) == filter.deny_execs);
    assert(filter.deny_titles.take(filter.deny_titles.len() as int) == filter.deny_titles);
    assert(filter.deny_apps.take(filter.deny_apps.len() as int) == filter.deny_apps);
}

proof fn lemma_lines_take_no_rule_away(filter: FilterView, lines: Seq<Seq<char>>)
    ensures
        filter.allow_classes.is_prefix_of(lines_applied(filter, lines).allow_classes),
        filter.allow_execs.is_prefix_of(lines_applied(filter, lines).allow_execs),
        filter.allow_titles.is_prefix_of(lines_applied(filter, lines).allow_titles),
        filter.allow_apps.is_prefix_of(lines_applied(filter, lines).allow_apps),
        filter.deny_classes.is_prefix_of(lines_applied(filter, lines).deny_classes),
        filter.deny_execs.is_prefix_of(lines_applied(filter, lines).deny_execs),
        filter.deny_titles.is_prefix_of(lines_applied(filter, lines).deny_titles),
        filter.deny_apps.is_prefix_of(lines_applied(filter, lines).deny_apps),
    decreases lines.len(),
{
    lemma_is_own_prefix(filter);
    if lines.len() > 0 {
        let next = line_applied(filter, lines[0]);
        let after = lines_applied(filter, lines);
        lines_take_no_rule_away(filter, lines[0]);
        lemma_lines_take_no_rule_away(next, lines.skip(1));
        lemma_prefix_on(filter.allow_classes, next.allow_classes, after.allow_classes);
        lemma_prefix_on(filter.allow_execs, next.allow_execs, after.allow_execs);
        lemma_prefix_on(filter.allow_titles, next.allow_titles, after.allow_titles);
        lemma_prefix_on(filter.allow_apps, next.allow_apps, after.allow_apps);
        lemma_prefix_on(filter.deny_classes, next.deny_classes, after.deny_classes);
        lemma_prefix_on(filter.deny_execs, next.deny_execs, after.deny_execs);
        lemma_prefix_on(filter.deny_titles, next.deny_titles, after.deny_titles);
        lemma_prefix_on(filter.deny_apps, next.deny_apps, after.deny_apps);
    }
}

proof fn lemma_prefix_on(a: Seq<Seq<char>>, b: Seq<Seq<char>>, c: Seq<Seq<char>>)
    requires
        a.is_prefix_of(b),
        b.is_prefix_of(c),
    ensures
        a.is_prefix_of(c),
{
    assert(c.take(a.len() as int) == c.take(b.len() as int).take(a.len() as int));
}

/// No filter file takes a rule away: what a list held stays, in front. The
/// rules of the command line are in force beside those of the file.
pub proof fn files_take_no_rule_away(filter: FilterView, contents: Seq<char>)
    ensures
        filter.allow_classes.is_prefix_of(file_applied(filter, contents).allow_classes),
        filter.allow_execs.is_prefix_of(file_applied(filter, contents).allow_execs),
        filter.allow_titles.is_prefix_of(file_applied(filter, contents).allow_titles),
        filter.allow_apps.is_prefix_of(file_applied(filter, contents).allow_apps),
        filter.deny_classes.is_prefix_of(file_applied(filter, contents).deny_classes),
        filter.deny_execs.is_prefix_of(file_applied(filter, contents).deny_execs),
        filter.deny_titles.is_prefix_of(file_applied(filter, contents).deny_titles),
        filter.deny_apps.is_prefix_of(file_applied(filter, contents).deny_apps),
{
    lemma_lines_take_no_rule_away(filter, text::lines(contents));
}

/// The line `key = value`, with white space around the key and the value.
pub open spec fn keyed_line(
    a: Seq<char>,
    key: Seq<char>,
    b: Seq<char>,
    c: Seq<char>,
    value: Seq<char>,
    d: Seq<char>,
) -> Seq<char> {
    a + key + b + seq!['='] + c + value + d
}

proof fn lemma_keyed_line(
    a: Seq<char>,
    key: Seq<char>,
    b: Seq<char>,
    c: Seq<char>,
    value: Seq<char>,
    d: Seq<char>,
)
    requires
        text::is_blank(a) && text::is_blank(b) && text::is_blank(c) && text::is_blank(d),
        key.len() > 0 && !text::white_space(key[0]) && !text::white_space(key.last()),
        !key.contains('=') && key[0] != '#',
        value.len() > 0 && !text::white_space(value[0]) && !text::white_space(value.last()),
    ensures
        entry(keyed_line(a, key, b, c, value, d)) == (if normalized_rules(
            text::split(value, ','),
        ).len() == 0 {
            None
        } else {
            Some((key, value))
        }),
{
    let line = keyed_line(a, key, b, c, value, d);
    let left = key + b;
    let right = c + value;
    let core = left + seq!['='] + right;
    assert(line == a + core + d);
    assert(core[0] == key[0]);
    assert(core.last() == value.last());
    text::trimming_takes_margins_away(a, core, d);
    assert(!left.contains('=')) by {
        if left.contains('=') {
            let k = choose|k: int| 0 <= k < left.len() && left[k] == '=';
            if k < key.len() {
                assert(key[k] == '=');
                assert(key.contains('='));
            } else {
                assert(text::white_space(b[k - key.len()]));
            }
        }
    }
    text::the_first_of_a_character_is_found(left, '=', right);
    assert(core.take(left.len() as int) == left);
    assert(core.skip(left.len() as int + 1) == right);
    let nothing = Seq::<char>::empty();
    assert(nothing + key + b == left);
    assert(c + value + nothing == right);
    text::trimming_takes_margins_away(nothing, key, b);
    text::trimming_takes_margins_away(c, value, nothing);
}

/// What a line `key = value` does, whatever white space stands around the key
/// and the value: the values between the commas are added to the list of that
/// name, behind what it holds, and nothing else changes. One key switches
/// whether all focused windows are allowed. A key of another name changes
/// nothing, and neither does a value that is blank between all commas.
pub proof fn a_line_adds_its_values(
    filter: FilterView,
    a: Seq<char>,
    key: Seq<char>,
    b: Seq<char>,
    c: Seq<char>,
    value: Seq<char>,
    d: Seq<char>,
)
    requires
        text::is_blank(a) && text::is_blank(b) && text::is_blank(c) && text::is_blank(d),
        key.len() > 0 && !text::white_space(key[0]) && !text::white_space(key.last()),
        !key.contains('=') && key[0] != '#',
        value.len() > 0 && !text::white_space(value[0]) && !text::white_space(value.last()),
    ensures
        key == "allow_class"@ && normalized_rules(text::split(value, ',')).len() > 0 ==> line_applied(
            filter,
            keyed_line(a, key, b, c, value, d),
        ) == (FilterView {
            allow_classes: filter.allow_classes + normalized_rules(text::split(value, ',')),
            ..filter
        }),
        key == "allow_exe"@ && normalized_rules(text::split(value, ',')).len() > 0 ==> line_applied(
            filter,
            keyed_line(a, key, b, c, value, d),
        ) == (FilterView {
            allow_execs: filter.allow_execs + normalized_rules(text::split(value, ',')),
            ..filter
        }),
        key == "allow_title"@ && normalized_rules(text::split(value, ',')).len() > 0 ==> line_applied(
            filter,
            keyed_line(a, key, b, c, value, d),
        ) == (FilterView {
            allow_titles: filter.allow_titles + normalized_rules(text::split(value, ',')),
            ..filter
        }),
        key == "allow_app"@ && normalized_rules(text::split(value, ',')).len() > 0 ==> line_applied(
            filter,
            keyed_line(a, key, b, c, value, d),
        ) == (FilterView {
            allow_apps: filter.allow_apps + normalized_rules(text::split(value, ',')),
            ..filter
        }),
        key == "deny_class"@ && normalized_rules(text::split(value, ',')).len() > 0 ==> line_applied(
            filter,
            keyed_line(a, key, b, c, value, d),
        ) == (FilterView {
            deny_classes: filter.deny_classes + normalized_rules(text::split(value, ',')),
            ..filter
        }),
        key == "deny_exe"@ && normalized_rules(text::split(value, ',')).len() > 0 ==> line_applied(
            filter,
            keyed_line(a, key, b, c, value, d),
        ) == (FilterView {
            deny_execs: filter.deny_execs + normalized_rules(text::split(value, ',')),
            ..filter
        }),
        key == "deny_title"@ && normalized_rules(text::split(value, ',')).len() > 0 ==> line_applied(
            filter,
            keyed_line(a, key, b, c, value, d),
        ) == (FilterView {
            deny_titles: filter.deny_titles + normalized_rules(text::split(value, ',')),
            ..filter
        }),
        key == "deny_app"@ && normalized_rules(text::split(value, ',')).len() > 0 ==> line_applied(
            filter,
            keyed_line(a, key, b, c, value, d),
        ) == (FilterView {
            deny_apps: filter.deny_apps + normalized_rules(text::split(value, ',')),
            ..filter
        }),
        key == "allow_all_focused"@ && normalized_rules(text::split(value, ',')).len() > 0
            ==> line_applied(filter, keyed_line(a, key, b, c, value, d)) == (FilterView {
            allow_all_focused: text::lowered(value) == "true"@ || value == "1"@,
            ..filter
        }),
        key != "allow_all_focused"@
            && key != "allow_class"@
            && key != "allow_exe"@
            && key != "allow_title"@
            && key != "allow_app"@
            && key != "deny_class"@
            && key != "deny_exe"@
            && key != "deny_title"@
            && key != "deny_app"@
            ==> line_applied(filter, keyed_line(a, key, b, c, value, d)) == filter,
        normalized_rules(text::split(value, ',')).len() == 0 ==> line_applied(
            filter,
            keyed_line(a, key, b, c, value, d),
        ) == filter,
{
    lemma_keys_differ();
    lemma_keyed_line(a, key, b, c, value, d);
}

/// A comment, a blank line, a line without an equals sign and one without a
/// value change nothing.
pub proof fn other_lines_change_nothing(filter: FilterView, a: Seq<char>, s: Seq<char>)
    requires
        text::is_blank(a),
    ensures
        line_applied(filter, a) == filter,
        line_applied(filter, a + seq!['#'] + s) == filter,
        !s.contains('=') ==> line_applied(filter, s) == filter,
        !s.contains('=') ==> line_applied(filter, s + seq!['='] + a) == filter,
{
    let nothing = Seq::<char>::empty();
    assert(a + nothing + nothing == a);
    text::trimming_takes_margins_away(a, nothing, nothing);
    let hash = seq!['#'] + s;
    assert(a + seq!['#'] + s == a + hash);
    assert(hash[0] == '#');
    text::lemma_trimmed_start_margin(a, hash);
    text::lemma_trimmed_end(hash);
    let kept = text::trimmed_end(hash);
    if kept.len() > 0 {
        assert(kept[0] == hash[0]);
    }
    if !s.contains('=') {
        lemma_trimmed_part(s);
        text::the_first_of_a_character_is_found(text::trimmed(s), '=', nothing);
        lemma_no_value(s, a);
    }
}

/// Trimming adds no character.
proof fn lemma_trimmed_part(s: Seq<char>)
    ensures
        forall|c: char| #[trigger] text::trimmed(s).contains(c) ==> s.contains(c),
{
    text::lemma_trimmed_start(s);
    let t = text::trimmed_start(s);
    text::lemma_trimmed_end(t);
    assert forall|c: char| #[trigger] text::trimmed(s).contains(c) implies s.contains(c) by {
        let k = choose|k: int| 0 <= k < text::trimmed(s).len() && text::trimmed(s)[k] == c;
        assert(t[k] == c);
        assert(s[k + (s.len() - t.len())] == c);
    }
}

proof fn lemma_no_value(s: Seq<char>, a: Seq<char>)
    requires
        text::is_blank(a),
        !s.contains('='),
    ensures
        entry(s + seq!['='] + a) is None,
{
    let line = s + seq!['='] + a;
    let nothing = Seq::<char>::empty();
    text::lemma_trimmed_start(s);
    let t = text::trimmed_start(s);
    let n = s.len() - t.len();
    let margin = s.take(n);
    let core = t + seq!['='];
    assert(margin + core + a == line);
    assert forall|i: int| 0 <= i < margin.len() implies text::white_space(#[trigger] margin[i]) by {
        assert(margin[i] == s[i]);
    }
    assert(core.last() == '=');
    assert(core[0] == if t.len() > 0 { t[0] } else { '=' });
    text::trimming_takes_margins_away(margin, core, a);
    assert(!t.contains('=')) by {
        if t.contains('=') {
            let k = choose|k: int| 0 <= k < t.len() && t[k] == '=';
            assert(s[k + n] == '=');
        }
    }
    text::the_first_of_a_character_is_found(t, '=', nothing);
    assert(t + seq!['='] + nothing == core);
    assert(core.skip(t.len() as int + 1) == nothing);
    text::lemma_split_one(nothing, ',');
    assert(nothing + nothing + nothing == nothing);
    text::trimming_takes_margins_away(nothing, nothing, nothing);
    rules_are_normalized_one_by_one(Seq::empty(), Seq::empty(), nothing);
}

/// A filter file is applied line by line, from the first on, however its lines
/// end.
pub proof fn files_are_applied_line_by_line(filter: FilterView, line: Seq<char>, rest: Seq<char>)
    requires
        !line.contains('\n'),
    ensures
        file_applied(filter, line + seq!['\n'] + rest) == file_applied(
            line_applied(filter, line),
            rest,
        ),
        file_applied(filter, line) == line_applied(filter, line),
        file_applied(filter, Seq::empty()) == filter,
{
    let nothing = Seq::<char>::empty();
    text::lines_end_at_line_feeds(line, rest);
    text::lemma_lines_first(line, rest);
    text::lemma_trimmed_without_cr(line);
    let first = text::without_cr(line);
    assert(line_applied(filter, first) == line_applied(filter, line));
    let all = seq![first] + text::lines(rest);
    assert(all.skip(1) == text::lines(rest));
    assert(all[0] == first);
    assert(seq![line].skip(1) == Seq::<Seq<char>>::empty());
    reveal_with_fuel(lines_applied, 2);
    if line.len() == 0 {
        assert(line == nothing);
        other_lines_change_nothing(filter, nothing, nothing);
    }
}

/// The command line gives the filter each list under its own name, and says
/// whether all focused windows are allowed.
pub proof fn the_command_line_fills_each_list(given: args::ArgsView)
    ensures
        filter_of_args(given).allow_all_focused == given.allow_all_focused,
        filter_of_args(given).allow_classes == normalized_rules(given.allow_classes),
        filter_of_args(given).allow_execs == normalized_rules(given.allow_execs),
        filter_of_args(given).allow_titles == normalized_rules(given.allow_titles),
        filter_of_args(given).allow_apps == normalized_rules(given.allow_apps),
        filter_of_args(given).deny_classes == normalized_rules(given.deny_classes),
        filter_of_args(given).deny_execs == normalized_rules(given.deny_execs),
        filter_of_args(given).deny_titles == normalized_rules(given.deny_titles),
        filter_of_args(given).deny_apps == normalized_rules(given.deny_apps),
{
}

/// A process is chosen exactly if the sample names it, its owner is the one
/// that is expected, if one is, its executable is known, and the filter boosts
/// the window.
pub proof fn what_is_selected(
    filter: FilterView,
    seen: sample::SampleView,
    expected_uid: Option<u32>,
    owner: Option<u32>,
    exe: Option<Seq<char>>,
    pid: u32,
)
    ensures
        selected(filter, seen, expected_uid, owner, exe) == Some(pid) <==> {
            &&& seen.pid == Some(pid)
            &&& expected_uid matches Some(uid) ==> owner == Some(uid)
            &&& exe matches Some(path) && boosted(filter, seen, path)
        },
{
}

} // verus!
