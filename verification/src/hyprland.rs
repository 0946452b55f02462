//! Hyprland as the source of focus samples: where its sockets are, what its
//! events say, and what it answers when asked for the active window.

use crate::args::{Args, FocusProviderSelection};
use crate::sample;
use crate::sample::FocusSample;
use crate::text;
use vstd::prelude::*;
use vstd::slice::slice_subrange;

verus! {

// ---------------------------------------------------------------------------
// The active window
// ---------------------------------------------------------------------------

/// How a field is introduced in an answer: its name in quotes, and a colon.
pub open spec fn field_mark(name: Seq<char>) -> Seq<char> {
    seq!['"'] + name + seq!['"', ':']
}

/// What stands behind the first field of that name.
pub open spec fn field_rest(json: Seq<char>, name: Seq<char>) -> Option<Seq<char>> {
    match text::find(json, field_mark(name)) {
        Some(i) => Some(json.skip(i + field_mark(name).len())),
        None => None,
    }
}

/// ASCII white space.
pub open spec fn ascii_space(c: char) -> bool {
    c == ' ' || c == '\t' || c == '\n' || c == '\u{c}' || c == '\r'
}

/// `s` without the ASCII white space that it begins with.
pub open spec fn after_ascii_space(s: Seq<char>) -> Seq<char>
    decreases s.len(),
{
    if s.len() > 0 && ascii_space(s[0]) {
        after_ascii_space(s.skip(1))
    } else {
        s
    }
}

/// The digits that `s` begins with.
pub open spec fn leading_digits(s: Seq<char>) -> Seq<char>
    decreases s.len(),
{
    if s.len() > 0 && text::is_digit(s[0], 10) {
        seq![s[0]] + leading_digits(s.skip(1))
    } else {
        seq![]
    }
}

/// The number in the first field of that name.
pub open spec fn number_field(json: Seq<char>, name: Seq<char>) -> Option<u32> {
    match field_rest(json, name) {
        Some(rest) => text::u32_value(leading_digits(after_ascii_space(rest))),
        None => None,
    }
}

/// What a backslash and the character `c` stand for in a string.
pub open spec fn string_escape(c: char) -> char {
    if c == 'n' {
        '\n'
    } else if c == 't' {
        '\t'
    } else if c == 'r' {
        '\r'
    } else {
        c
    }
}

/// The string that `s` holds up to the closing quote, or up to its end where
/// no quote closes it.
pub open spec fn string_value(s: Seq<char>) -> Seq<char>
    decreases s.len(),
{
    if s.len() == 0 || s[0] == '"' {
        seq![]
    } else if s[0] != '\\' {
        seq![s[0]] + string_value(s.skip(1))
    } else if s.len() == 1 {
        seq![]
    } else {
        seq![string_escape(s[1])] + string_value(s.skip(2))
    }
}

/// The string in the first field of that name, if it is not empty.
pub open spec fn string_field(json: Seq<char>, name: Seq<char>) -> Option<Seq<char>> {
    match field_rest(json, name) {
        Some(rest) => match text::position(rest, '"') {
            Some(i) => sample::unless_empty(string_value(rest.skip(i + 1))),
            None => None,
        },
        None => None,
    }
}

fn find_field<'a>(json: &'a [char], name: &str) -> (rest: Option<&'a [char]>)
    ensures
        match rest {
            Some(r) => field_rest(json@, name@) == Some(r@),
            None => field_rest(json@, name@) is None,
        },
{
    let mut mark: Vec<char> = Vec::new();
    mark.push('"');
    let mut chars = text::to_chars(name);
    mark.append(&mut chars);
    mark.push('"');
    mark.push(':');
    assert(mark@ == field_mark(name@));
    match text::find_chars(json, &mark) {
        Some(i) => {
            assert(i + mark.len() <= json.len());
            let start: usize = i + mark.len();
            assert(json@.subrange(start as int, json.len() as int) == json@.skip(start as int));
            Some(slice_subrange(json, start, json.len()))
        },
        None => None,
    }
}

/// The number in the first field named `field_name`. There is none where the
/// field is missing, holds no digits, or holds a number that is too large.
pub fn parse_json_u32_field(json: &str, field_name: &str) -> (number: Option<u32>)
    ensures
        number == number_field(json@, field_name@),
{
    let chars = text::to_chars(json);
    let rest = match find_field(&chars, field_name) {
        Some(rest) => rest,
        None => {
            return None;
        },
    };
    let mut i: usize = 0;
    assert(rest@.skip(0) == rest@);
    while i < rest.len() && (rest[i] == ' ' || rest[i] == '\t' || rest[i] == '\n' || rest[i]
        == '\u{c}' || rest[i] == '\r')
        invariant
            i <= rest.len(),
            after_ascii_space(rest@.skip(i as int)) == after_ascii_space(rest@),
        decreases rest.len() - i,
    {
        assert(rest@.skip(i as int).skip(1) == rest@.skip(i + 1));
        i += 1;
    }
    let ghost after = after_ascii_space(rest@);
    assert(rest@.skip(i as int) == after);
    let mut digits: Vec<char> = Vec::new();
    assert(digits@ + leading_digits(after) == leading_digits(after));
    while i < rest.len() && '0' <= rest[i] && rest[i] <= '9'
        invariant
            i <= rest.len(),
            digits@ + leading_digits(rest@.skip(i as int)) == leading_digits(after),
        decreases rest.len() - i,
    {
        let ghost before = digits@;
        let ghost now = rest@.skip(i as int);
        digits.push(rest[i]);
        assert(now.skip(1) == rest@.skip(i + 1));
        assert(before + (seq![now[0]] + leading_digits(now.skip(1))) == digits@ + leading_digits(
            now.skip(1),
        ));
        i += 1;
    }
    assert(leading_digits(rest@.skip(i as int)) == Seq::<char>::empty());
    assert(digits@ == leading_digits(after));
    text::parse_u32(&digits)
}

/// The string in the first field named `field_name`. There is none where the
/// field is missing, no quote follows it, or the string is empty.
pub fn parse_json_string_field(json: &str, field_name: &str) -> (value: Option<String>)
    ensures
        sample::optional_text(value) == string_field(json@, field_name@),
{
    let chars = text::to_chars(json);
    let rest = match find_field(&chars, field_name) {
        Some(rest) => rest,
        None => {
            return None;
        },
    };
    let quote: usize = match text::find_char(rest, '"') {
        Some(i) => i,
        None => {
            return None;
        },
    };
    assert(quote < rest.len());
    let body = slice_subrange(rest, quote + 1, rest.len());
    assert(body@ == rest@.skip(quote + 1));
    let mut out = String::new();
    let mut i: usize = 0;
    assert(body@.skip(0) == body@);
    assert(out@ + string_value(body@) == string_value(body@));
    while i < body.len() && body[i] != '"'
        invariant
            i <= body.len(),
            out@ + string_value(body@.skip(i as int)) == string_value(body@),
        decreases body.len() - i,
    {
        let ghost before = out@;
        let ghost now = body@.skip(i as int);
        let c = body[i];
        i += 1;
        if c != '\\' {
            out.push(c);
            assert(now.skip(1) == body@.skip(i as int));
            assert(before + (seq![c] + string_value(now.skip(1))) == out@ + string_value(
                now.skip(1),
            ));
        } else if i < body.len() {
            let d = body[i];
            i += 1;
            let meant = if d == 'n' {
                '\n'
            } else if d == 't' {
                '\t'
            } else if d == 'r' {
                '\r'
            } else {
                d
            };
            out.push(meant);
            assert(now[1] == d);
            assert(now.skip(2) == body@.skip(i as int));
            assert(before + (seq![meant] + string_value(now.skip(2))) == out@ + string_value(
                now.skip(2),
            ));
        } else {
            assert(string_value(now) == Seq::<char>::empty());
            assert(string_value(body@.skip(i as int)) == Seq::<char>::empty());
        }
    }
    assert(string_value(body@.skip(i as int)) == Seq::<char>::empty());
    assert(out@ == string_value(body@));
    if out.as_str().is_empty() {
        None
    } else {
        Some(out)
    }
}

/// The sample that an answer about the active window comes to.
pub open spec fn answered(response: Seq<char>) -> sample::SampleView {
    sample::SampleView {
        pid: number_field(response, "pid"@),
        class: string_field(response, "class"@),
        title: string_field(response, "title"@),
        app: string_field(response, "initialClass"@),
    }
}

/// The sample that the answer `response` about the active window comes to.
pub fn parse_active_window(response: &str) -> (seen: FocusSample)
    ensures
        seen@ == answered(response@),
{
    FocusSample {
        pid: parse_json_u32_field(response, "pid"),
        class: parse_json_string_field(response, "class"),
        title: parse_json_string_field(response, "title"),
        app: parse_json_string_field(response, "initialClass"),
    }
}

// ---------------------------------------------------------------------------
// Events
// ---------------------------------------------------------------------------

/// The text that bytes stand for, with replacement characters where they are
/// not UTF-8.
pub uninterp spec fn utf8_lossy(bytes: Seq<u8>) -> Seq<char>;

/// `String::from_utf8_lossy` decodes UTF-8, and replaces what is not UTF-8.
/// How much of an invalid run one replacement character stands for is left to
/// the name; bytes that are UTF-8 are decoded as they are.
#[verifier::external_body]
fn decode_lossy(bytes: &[u8]) -> (s: String)
    ensures
        s@ == utf8_lossy(bytes@),
        vstd::utf8::valid_utf8(bytes@) ==> s@ == vstd::utf8::decode_utf8(bytes@),
{
    String::from_utf8_lossy(bytes).into_owned()
}

/// The line announces that the focus may have moved.
pub open spec fn is_focus_event(line: Seq<char>) -> bool {
    let t = text::trimmed(line);
    ||| "activewindow>>"@.is_prefix_of(t)
    ||| "activewindowv2>>"@.is_prefix_of(t)
    ||| "closewindow>>"@.is_prefix_of(t)
}

/// The lines of `s` that a line feed ends.
pub open spec fn ended_lines(s: Seq<char>) -> Seq<Seq<char>> {
    text::split(s, '\n').drop_last()
}

/// What stands behind the last line feed in `s`.
pub open spec fn unended(s: Seq<char>) -> Seq<char> {
    text::split(s, '\n').last()
}

/// One of the lines announces that the focus may have moved.
pub open spec fn any_focus_event(lines: Seq<Seq<char>>) -> bool {
    exists|i: int| 0 <= i < lines.len() && is_focus_event(#[trigger] lines[i])
}

fn announces_focus(line: &[char]) -> (yes: bool)
    ensures
        yes == is_focus_event(line@),
{
    let t = text::trim(line);
    let a = text::to_chars("activewindow>>");
    let b = text::to_chars("activewindowv2>>");
    let c = text::to_chars("closewindow>>");
    text::starts_with(t, &a) || text::starts_with(t, &b) || text::starts_with(t, &c)
}

/// What came of a read from the event socket.
#[derive(Debug)]
pub enum SocketRead {
    /// The other side has closed the connection.
    Closed,
    /// Bytes came in.
    Data(Vec<u8>),
    /// There is nothing to read now.
    WouldBlock,
    /// The read failed.
    Failed,
}

/// What is remembered of Hyprland between polls.
#[derive(Debug)]
pub struct HyprlandFocusProvider {
    pub control_socket_path: String,
    pub event_socket_path: String,
    /// The event socket is connected.
    pub connected: bool,
    /// What was read of a line that has not ended yet.
    pub event_buffer: String,
    pub refresh_interval_ms: u64,
    /// The next poll asks for the active window in any case.
    pub force_refresh: bool,
    /// An event since the last poll announced that the focus may have moved.
    pub focus_changed: bool,
}

/// The path `part`, taken from the directory `base`.
pub open spec fn joined(base: Seq<char>, part: Seq<char>) -> Seq<char> {
    if part.len() > 0 && part[0] == '/' {
        part
    } else if base.len() == 0 || base.last() == '/' {
        base + part
    } else {
        base + seq!['/'] + part
    }
}

/// The directory of the sockets of a Hyprland instance.
pub open spec fn socket_root(runtime_dir: Seq<char>, signature: Seq<char>) -> Seq<char> {
    joined(joined(runtime_dir, "hypr"@), signature)
}

fn join(base: &str, part: &str) -> (path: String)
    ensures
        path@ == joined(base@, part@),
{
    let b = text::to_chars(base);
    let p = text::to_chars(part);
    let mut path = String::new();
    if p.len() > 0 && p[0] == '/' {
        text::push_chars(&mut path, &p);
    } else {
        text::push_chars(&mut path, &b);
        if b.len() > 0 && b[b.len() - 1] != '/' {
            path.push('/');
        }
        text::push_chars(&mut path, &p);
    }
    assert(path@ == joined(base@, part@));
    path
}

impl HyprlandFocusProvider {
    /// The state before the first poll. `instance_signature` and
    /// `runtime_dir` are what the environment holds under
    /// `HYPRLAND_INSTANCE_SIGNATURE` and `XDG_RUNTIME_DIR`. Without a
    /// signature there is no Hyprland.
    pub fn new(
        instance_signature: Option<&str>,
        runtime_dir: Option<&str>,
        refresh_interval_ms: u64,
    ) -> (provider: Option<HyprlandFocusProvider>)
        ensures
            provider is Some == instance_signature is Some,
            provider matches Some(p) ==> {
                let root = socket_root(
                    match runtime_dir {
                        Some(dir) => dir@,
                        None => "/tmp"@,
                    },
                    instance_signature->0@,
                );
                &&& p.control_socket_path@ == joined(root, ".socket.sock"@)
                &&& p.event_socket_path@ == joined(root, ".socket2.sock"@)
                &&& !p.connected
                &&& p.event_buffer@ == Seq::<char>::empty()
                &&& p.refresh_interval_ms == refresh_interval_ms
                &&& p.force_refresh
                &&& !p.focus_changed
            },
    {
        let signature = match instance_signature {
            Some(signature) => signature,
            None => {
                return None;
            },
        };
        let dir = match runtime_dir {
            Some(dir) => dir,
            None => "/tmp",
        };
        let base = join(dir, "hypr");
        let root = join(base.as_str(), signature);
        Some(
            HyprlandFocusProvider {
                control_socket_path: join(root.as_str(), ".socket.sock"),
                event_socket_path: join(root.as_str(), ".socket2.sock"),
                connected: false,
                event_buffer: String::new(),
                refresh_interval_ms,
                force_refresh: true,
                focus_changed: false,
            },
        )
    }

    /// Notes that the event socket was connected: events may have been
    /// missed, so the next poll asks in any case.
    pub fn connection_made(&mut self)
        ensures
            *final(self) == (HyprlandFocusProvider {
                connected: true,
                force_refresh: true,
                ..*old(self)
            }),
    {
        self.connected = true;
        self.force_refresh = true;
    }

    /// Takes in text from the event socket.
    pub fn consume_text(&mut self, incoming: &str)
        ensures
            final(self).event_buffer@ == unended(old(self).event_buffer@ + incoming@),
            final(self).focus_changed == (old(self).focus_changed || any_focus_event(
                ended_lines(old(self).event_buffer@ + incoming@),
            )),
            *final(self) == (HyprlandFocusProvider {
                event_buffer: final(self).event_buffer,
                focus_changed: final(self).focus_changed,
                ..*old(self)
            }),
    {
        let mut all = text::to_chars(self.event_buffer.as_str());
        let mut more = text::to_chars(incoming);
        all.append(&mut more);
        let ghost whole = old(self).event_buffer@ + incoming@;
        assert(all@ == whole);
        let parts = text::split_chars(&all, '\n');
        let ghost pieces = text::split(whole, '\n');
        proof {
            text::lemma_split_not_empty(whole, '\n');
        }
        assert(parts.len() == pieces.len());
        let n: usize = parts.len() - 1;
        let mut seen = false;
        let mut i: usize = 0;
        while i < n
            invariant
                i <= n,
                n + 1 == parts.len(),
                text::pieces(parts@) == pieces,
                seen == (exists|j: int| 0 <= j < i && is_focus_event(#[trigger] pieces[j])),
            decreases n - i,
        {
            assert(pieces[i as int] == parts@[i as int]@);
            if announces_focus(parts[i]) {
                seen = true;
            }
            i += 1;
        }
        assert(pieces.last() == parts@[n as int]@);
        let rest = text::to_text(parts[n]);
        assert(seen == any_focus_event(ended_lines(whole))) by {
            let lines = ended_lines(whole);
            if seen {
                let j = choose|j: int| 0 <= j < n && is_focus_event(#[trigger] pieces[j]);
                assert(lines[j] == pieces[j]);
            }
            if any_focus_event(lines) {
                let j = choose|j: int| 0 <= j < lines.len() && is_focus_event(#[trigger] lines[j]);
                assert(lines[j] == pieces[j]);
            }
        }
        self.event_buffer = rest;
        if seen {
            self.focus_changed = true;
        }
    }

    /// Takes in what came of a read from the event socket, and says whether
    /// to read on. A connection that was closed, or that failed, is lost.
    pub fn consume_events(&mut self, read: &SocketRead) -> (read_on: bool)
        ensures
            read_on == (read is Data),
            match *read {
                SocketRead::Data(bytes) => {
                    let incoming = utf8_lossy(bytes@);
                    &&& vstd::utf8::valid_utf8(bytes@) ==> incoming == vstd::utf8::decode_utf8(
                        bytes@,
                    )
                    &&& final(self).event_buffer@ == unended(old(self).event_buffer@ + incoming)
                    &&& final(self).focus_changed == (old(self).focus_changed || any_focus_event(
                        ended_lines(old(self).event_buffer@ + incoming),
                    ))
                    &&& *final(self) == (HyprlandFocusProvider {
                        event_buffer: final(self).event_buffer,
                        focus_changed: final(self).focus_changed,
                        ..*old(self)
                    })
                },
                SocketRead::WouldBlock => *final(self) == *old(self),
                _ => *final(self) == (HyprlandFocusProvider { connected: false, ..*old(self) }),
            },
    {
        match read {
            SocketRead::Data(bytes) => {
                let incoming = decode_lossy(bytes);
                self.consume_text(incoming.as_str());
                true
            },
            SocketRead::WouldBlock => false,
            _ => {
                self.connected = false;
                false
            },
        }
    }

    /// Whether to ask for the active window now, once the events that came in
    /// have been taken in: where a refresh is forced, an event announced that
    /// the focus may have moved, or the last question was asked long enough
    /// ago.
    pub fn poll(&mut self, since_refresh_ms: u128) -> (ask: bool)
        ensures
            ask == (old(self).force_refresh || old(self).focus_changed || since_refresh_ms
                >= old(self).refresh_interval_ms),
            *final(self) == (HyprlandFocusProvider {
                force_refresh: old(self).force_refresh && !ask,
                focus_changed: false,
                ..*old(self)
            }),
    {
        let ask = self.force_refresh || self.focus_changed || since_refresh_ms
            >= self.refresh_interval_ms as u128;
        self.focus_changed = false;
        if ask {
            self.force_refresh = false;
        }
        ask
    }
}

// ---------------------------------------------------------------------------
// The choice of the source
// ---------------------------------------------------------------------------

/// The source of focus samples.
#[derive(Debug)]
pub enum FocusProvider {
    Disabled,
    Hyprland(HyprlandFocusProvider),
}

/// Whether Hyprland is looked for at all.
pub fn wants_hyprland(args: &Args) -> (yes: bool)
    ensures
        yes == (args.focus_provider != FocusProviderSelection::Disabled),
{
    args.focus_provider != FocusProviderSelection::Disabled
}

impl FocusProvider {
    /// The source of focus samples that the command line asks for, and a
    /// warning where it asks for one that is not there. `found` is Hyprland,
    /// where it was looked for and found.
    pub fn from_args(args: &Args, found: Option<HyprlandFocusProvider>) -> (r: (
        FocusProvider,
        Option<String>,
    ))
        ensures
            r.0 == (match found {
                Some(provider) if args.focus_provider != FocusProviderSelection::Disabled =>
                    FocusProvider::Hyprland(provider),
                _ => FocusProvider::Disabled,
            }),
            sample::optional_text(r.1) == (if args.focus_provider
                == FocusProviderSelection::Hyprland && found is None {
                Some(
                    "WARNING: Focus provider 'hyprland' requested, but Hyprland IPC is unavailable"@,
                )
            } else {
                None
            }),
    {
        if args.focus_provider == FocusProviderSelection::Disabled {
            return (FocusProvider::Disabled, None);
        }
        match found {
            Some(provider) => (FocusProvider::Hyprland(provider), None),
            None => {
                if args.focus_provider == FocusProviderSelection::Hyprland {
                    let warning =
                        "WARNING: Focus provider 'hyprland' requested, but Hyprland IPC is unavailable";
                    (FocusProvider::Disabled, Some(warning.to_owned()))
                } else {
                    (FocusProvider::Disabled, None)
                }
            },
        }
    }
}

// ---------------------------------------------------------------------------
// Laws
// ---------------------------------------------------------------------------

proof fn lemma_split_extended(a: Seq<char>, c: char, b: Seq<char>)
    ensures
        text::split(a + b, c) == text::split(a, c).drop_last() + text::split(
            text::split(a, c).last() + b,
            c,
        ),
    decreases a.len(),
{
    text::lemma_split_not_empty(a, c);
    match text::position(a, c) {
        Some(i) => {
            assert(text::first_index(a, c, i));
            let s = a + b;
            assert forall|j: int| 0 <= j < i implies s[j] != c by {
                assert(s[j] == a[j]);
            }
            assert(s[i] == a[i]);
            text::lemma_position(s, c, i);
            let rest = a.skip(i + 1);
            lemma_split_extended(rest, c, b);
            text::lemma_split_not_empty(rest, c);
            assert(s.take(i) == a.take(i));
            assert(s.skip(i + 1) == rest + b);
            assert(text::split(a, c) == seq![a.take(i)] + text::split(rest, c));
            assert(text::split(a, c).last() == text::split(rest, c).last());
            assert(text::split(a, c).drop_last() == seq![a.take(i)] + text::split(
                rest,
                c,
            ).drop_last());
            assert(text::split(s, c) == text::split(a, c).drop_last() + text::split(
                text::split(a, c).last() + b,
                c,
            ));
        },
        None => {
            assert(text::split(a, c) == seq![a]);
            assert(text::split(a, c).drop_last() == Seq::<Seq<char>>::empty());
            assert(Seq::<Seq<char>>::empty() + text::split(a + b, c) == text::split(a + b, c));
        },
    }
}

proof fn lemma_any_focus_event_concat(a: Seq<Seq<char>>, b: Seq<Seq<char>>)
    ensures
        any_focus_event(a + b) == (any_focus_event(a) || any_focus_event(b)),
{
    if any_focus_event(a) {
        let i = choose|i: int| 0 <= i < a.len() && is_focus_event(#[trigger] a[i]);
        assert((a + b)[i] == a[i]);
    }
    if any_focus_event(b) {
        let i = choose|i: int| 0 <= i < b.len() && is_focus_event(#[trigger] b[i]);
        assert((a + b)[i + a.len()] == b[i]);
    }
    if any_focus_event(a + b) {
        let i = choose|i: int| 0 <= i < (a + b).len() && is_focus_event(#[trigger] (a + b)[i]);
        if i < a.len() {
            assert((a + b)[i] == a[i]);
        } else {
            assert((a + b)[i] == b[i - a.len()]);
        }
    }
}

/// How the text from the event socket is cut into reads makes no difference:
/// what is kept of an unended line, and whether the focus may have moved, is
/// the same for two reads as for one read of both.
pub proof fn reads_can_be_cut_anywhere(buffer: Seq<char>, a: Seq<char>, b: Seq<char>)
    ensures
        unended(unended(buffer + a) + b) == unended(buffer + (a + b)),
        (any_focus_event(ended_lines(buffer + a)) || any_focus_event(
            ended_lines(unended(buffer + a) + b),
        )) == any_focus_event(ended_lines(buffer + (a + b))),
{
    let s = buffer + a;
    assert(buffer + (a + b) == s + b);
    lemma_split_extended(s, '\n', b);
    let tail = text::split(unended(s) + b, '\n');
    text::lemma_split_not_empty(unended(s) + b, '\n');
    assert((ended_lines(s) + tail).last() == tail.last());
    assert((ended_lines(s) + tail).drop_last() == ended_lines(s) + tail.drop_last());
    lemma_any_focus_event_concat(ended_lines(s), tail.drop_last());
}

/// What is kept of the events holds no line feed: only unended lines are kept.
pub proof fn only_unended_text_is_kept(s: Seq<char>)
    ensures
        !unended(s).contains('\n'),
    decreases s.len(),
{
    match text::position(s, '\n') {
        Some(i) => {
            assert(text::first_index(s, '\n', i));
            only_unended_text_is_kept(s.skip(i + 1));
            text::lemma_split_not_empty(s.skip(i + 1), '\n');
        },
        None => {
            if s.contains('\n') {
                let j = choose|j: int| 0 <= j < s.len() && s[j] == '\n';
                text::lemma_has_first(s, '\n', j);
            }
        },
    }
}

/// The place of the first field of that name.
proof fn lemma_field_rest(before: Seq<char>, name: Seq<char>, rest: Seq<char>)
    requires
        ({
            let mark = seq!['"'] + name + seq!['"', ':'];
            let json = before + mark + rest;
            forall|j: int| 0 <= j < before.len() ==> !mark.is_prefix_of(#[trigger] json.skip(j))
        }),
    ensures
        field_rest(before + (seq!['"'] + name + seq!['"', ':']) + rest, name) == Some(rest),
{
    let mark = seq!['"'] + name + seq!['"', ':'];
    let json = before + mark + rest;
    assert(json.skip(before.len() as int) == mark + rest);
    assert((mark + rest).subrange(0, mark.len() as int) == mark);
    text::the_first_place_is_found(json, mark, before.len() as int);
    assert(json.skip((before.len() + mark.len()) as int) == rest);
}

proof fn lemma_after_ascii_space(space: Seq<char>, rest: Seq<char>)
    requires
        forall|i: int| 0 <= i < space.len() ==> ascii_space(#[trigger] space[i]),
        rest.len() > 0 ==> !ascii_space(rest[0]),
    ensures
        after_ascii_space(space + rest) == rest,
    decreases space.len(),
{
    if space.len() == 0 {
        assert(space + rest == rest);
    } else {
        assert(ascii_space(space[0]));
        assert((space + rest).skip(1) == space.skip(1) + rest);
        assert forall|i: int| 0 <= i < space.skip(1).len() implies ascii_space(
            #[trigger] space.skip(1)[i],
        ) by {
            assert(space.skip(1)[i] == space[i + 1]);
        }
        lemma_after_ascii_space(space.skip(1), rest);
    }
}

proof fn lemma_leading_digits(digits: Seq<char>, rest: Seq<char>)
    requires
        forall|i: int| 0 <= i < digits.len() ==> text::is_digit(#[trigger] digits[i], 10),
        rest.len() > 0 ==> !text::is_digit(rest[0], 10),
    ensures
        leading_digits(digits + rest) == digits,
    decreases digits.len(),
{
    if digits.len() == 0 {
        assert(digits + rest == rest);
        assert(digits == Seq::<char>::empty());
    } else {
        assert(text::is_digit(digits[0], 10));
        assert((digits + rest).skip(1) == digits.skip(1) + rest);
        assert forall|i: int| 0 <= i < digits.skip(1).len() implies text::is_digit(
            #[trigger] digits.skip(1)[i],
            10,
        ) by {
            assert(digits.skip(1)[i] == digits[i + 1]);
        }
        lemma_leading_digits(digits.skip(1), rest);
        assert(seq![digits[0]] + digits.skip(1) == digits);
    }
}

/// A number is read from the digits behind the first place at which its name
/// stands in quotes before a colon, with white space between or none. Where
/// there are no digits, where they come to too much and where the name does not
/// stand, there is no number.
pub proof fn numbers_stand_behind_their_names(
    before: Seq<char>,
    name: Seq<char>,
    space: Seq<char>,
    digits: Seq<char>,
    rest: Seq<char>,
)
    requires
        ({
            let mark = seq!['"'] + name + seq!['"', ':'];
            let json = before + mark + (space + digits + rest);
            forall|j: int| 0 <= j < before.len() ==> !mark.is_prefix_of(#[trigger] json.skip(j))
        }),
        forall|i: int|
            0 <= i < space.len() ==> (#[trigger] space[i] == ' ' || space[i] == '\t' || space[i]
                == '\n' || space[i] == '\r' || space[i] == '\u{c}'),
        forall|i: int| 0 <= i < digits.len() ==> '0' <= #[trigger] digits[i] <= '9',
        rest.len() > 0 ==> !('0' <= rest[0] <= '9'),
        digits.len() == 0 && rest.len() > 0 ==> rest[0] != ' ' && rest[0] != '\t' && rest[0]
            != '\n' && rest[0] != '\r' && rest[0] != '\u{c}',
    ensures
        number_field(
            before + (seq!['"'] + name + seq!['"', ':']) + (space + digits + rest),
            name,
        ) == text::u32_value(digits),
{
    lemma_field_rest(before, name, space + digits + rest);
    assert(space + digits + rest == space + (digits + rest));
    if digits.len() > 0 {
        assert((digits + rest)[0] == digits[0]);
    } else {
        assert(digits + rest == rest);
    }
    assert forall|i: int| 0 <= i < digits.len() implies text::is_digit(#[trigger] digits[i], 10) by {
        text::digits_are_ascii(digits[i], 10);
    }
    if rest.len() > 0 {
        text::digits_are_ascii(rest[0], 10);
    }
    lemma_after_ascii_space(space, digits + rest);
    lemma_leading_digits(digits, rest);
}

/// A text is read from behind the first quote that follows the first place at
/// which its name stands in quotes before a colon. An empty one counts as none.
/// Where no quote follows there is none.
pub proof fn texts_stand_behind_their_names(
    before: Seq<char>,
    name: Seq<char>,
    gap: Seq<char>,
    rest: Seq<char>,
)
    requires
        ({
            let mark = seq!['"'] + name + seq!['"', ':'];
            let json = before + mark + (gap + seq!['"'] + rest);
            forall|j: int| 0 <= j < before.len() ==> !mark.is_prefix_of(#[trigger] json.skip(j))
        }),
        ({
            let mark = seq!['"'] + name + seq!['"', ':'];
            let json = before + mark + gap;
            forall|j: int| 0 <= j < before.len() ==> !mark.is_prefix_of(#[trigger] json.skip(j))
        }),
        !gap.contains('"'),
    ensures
        ({
            let json = before + (seq!['"'] + name + seq!['"', ':']) + (gap + seq!['"'] + rest);
            if string_value(rest).len() > 0 {
                string_field(json, name) == Some(string_value(rest))
            } else {
                string_field(json, name) is None
            }
        }),
        string_field(before + (seq!['"'] + name + seq!['"', ':']) + gap, name) is None,
{
    lemma_field_rest(before, name, gap + seq!['"'] + rest);
    lemma_field_rest(before, name, gap);
    text::the_first_of_a_character_is_found(gap, '"', rest);
    assert((gap + seq!['"'] + rest).skip(gap.len() as int + 1) == rest);
}

/// Nothing is read where the name does not stand in quotes before a colon.
pub proof fn nothing_is_read_without_the_name(json: Seq<char>, name: Seq<char>)
    requires
        forall|j: int|
            0 <= j <= json.len() ==> !(seq!['"'] + name + seq!['"', ':']).is_prefix_of(
                #[trigger] json.skip(j),
            ),
    ensures
        number_field(json, name) is None,
        string_field(json, name) is None,
{
    text::what_is_not_there_is_not_found(json, seq!['"'] + name + seq!['"', ':']);
}

/// A text is read from the left up to the quote that ends it. A backslash and
/// one of three letters stand for a line feed, a tab and a carriage return, and
/// a backslash and any other character stand for that character.
pub proof fn texts_are_read_from_the_left(c: char, rest: Seq<char>)
    ensures
        string_value(seq!['"'] + rest) == Seq::<char>::empty(),
        string_value(Seq::empty()) == Seq::<char>::empty(),
        string_value(seq!['\\']) == Seq::<char>::empty(),
        string_value(seq!['\\', 'n'] + rest) == seq!['\n'] + string_value(rest),
        string_value(seq!['\\', 't'] + rest) == seq!['\t'] + string_value(rest),
        string_value(seq!['\\', 'r'] + rest) == seq!['\r'] + string_value(rest),
        c != 'n' && c != 't' && c != 'r' ==> string_value(seq!['\\', c] + rest) == seq![c]
            + string_value(rest),
        c != '"' && c != '\\' ==> string_value(seq![c] + rest) == seq![c] + string_value(rest),
{
    assert((seq!['\\', 'n'] + rest).skip(2) == rest);
    assert((seq!['\\', 't'] + rest).skip(2) == rest);
    assert((seq!['\\', 'r'] + rest).skip(2) == rest);
    assert((seq!['\\', c] + rest).skip(2) == rest);
    assert((seq![c] + rest).skip(1) == rest);
}

/// An answer about the active window holds the process, the class, the title
/// and the class that the window began with under these names.
pub proof fn an_answer_is_read_by_its_names(response: Seq<char>)
    ensures
        answered(response).pid == number_field(response, "pid"@),
        answered(response).class == string_field(response, "class"@),
        answered(response).title == string_field(response, "title"@),
        answered(response).app == string_field(response, "initialClass"@),
{
}

proof fn lemma_prefix_of_trimmed(prefix: Seq<char>, s: Seq<char>)
    requires
        prefix.len() > 0,
        !text::white_space(prefix.last()),
    ensures
        prefix.is_prefix_of(text::trimmed_end(s)) == prefix.is_prefix_of(s),
{
    let t = text::trimmed_end(s);
    text::lemma_trimmed_end(s);
    if prefix.is_prefix_of(t) {
        assert(s.subrange(0, prefix.len() as int) == t.subrange(0, prefix.len() as int));
    }
    if prefix.is_prefix_of(s) {
        assert(s[prefix.len() - 1] == prefix.last());
        assert(s.subrange(0, prefix.len() as int) == t.subrange(0, prefix.len() as int));
    }
}

/// A line announces that the focus may have moved exactly if, after white space,
/// it begins with the name of one of three events, whatever follows.
pub proof fn three_events_announce_the_focus(space: Seq<char>, s: Seq<char>)
    requires
        text::is_blank(space),
        s.len() > 0,
        !text::white_space(s[0]),
    ensures
        is_focus_event(space + s) <==> "activewindow>>"@.is_prefix_of(s)
            || "activewindowv2>>"@.is_prefix_of(s) || "closewindow>>"@.is_prefix_of(s),
        !is_focus_event(space),
{
    reveal_strlit("activewindow>>");
    reveal_strlit("activewindowv2>>");
    reveal_strlit("closewindow>>");
    assert("activewindow>>"@.len() == 14 && "activewindow>>"@[13] == '>');
    assert("activewindowv2>>"@.len() == 16 && "activewindowv2>>"@[15] == '>');
    assert("closewindow>>"@.len() == 13 && "closewindow>>"@[12] == '>');
    text::lemma_trimmed_start_margin(space, s);
    lemma_prefix_of_trimmed("activewindow>>"@, s);
    lemma_prefix_of_trimmed("activewindowv2>>"@, s);
    lemma_prefix_of_trimmed("closewindow>>"@, s);
    let nothing = Seq::<char>::empty();
    assert(nothing + nothing + space == space);
    text::trimming_takes_margins_away(nothing, nothing, space);
}

/// A line that a line feed ends is among the ended lines, in order, and what
/// follows the last line feed is kept.
pub proof fn lines_are_ended_by_line_feeds(line: Seq<char>, rest: Seq<char>)
    requires
        !line.contains('\n'),
    ensures
        ended_lines(line + seq!['\n'] + rest) == seq![line] + ended_lines(rest),
        unended(line + seq!['\n'] + rest) == unended(rest),
        ended_lines(line) == Seq::<Seq<char>>::empty(),
        unended(line) == line,
{
    text::lemma_split_concat(line, '\n', rest);
    text::lemma_split_one(line, '\n');
    text::lemma_split_not_empty(rest, '\n');
    let parts = text::split(rest, '\n');
    assert((seq![line] + parts).drop_last() == seq![line] + parts.drop_last());
    assert((seq![line] + parts).last() == parts.last());
    assert(seq![line].drop_last() == Seq::<Seq<char>>::empty());
}

/// One line that announces the focus is enough, wherever it stands.
pub proof fn one_announcement_is_enough(
    before: Seq<Seq<char>>,
    line: Seq<char>,
    after: Seq<Seq<char>>,
)
    ensures
        any_focus_event(before + seq![line] + after) == (any_focus_event(before)
            || is_focus_event(line) || any_focus_event(after)),
        !any_focus_event(Seq::empty()),
{
    lemma_any_focus_event_concat(before, seq![line]);
    lemma_any_focus_event_concat(before + seq![line], after);
    assert(seq![line][0] == line);
}

/// A part is put behind a base with one slash between them, unless the base ends
/// with a slash already or is empty. A part that begins with a slash stands for
/// itself.
pub proof fn paths_are_joined_by_one_slash(base: Seq<char>, part: Seq<char>)
    ensures
        joined(base, seq!['/'] + part) == seq!['/'] + part,
        part.len() == 0 || part[0] != '/' ==> {
            &&& joined(base + seq!['/'], part) == base + seq!['/'] + part
            &&& base.len() > 0 && base.last() != '/' ==> joined(base, part) == base + seq!['/']
                + part
            &&& joined(Seq::empty(), part) == part
            &&& base.len() > 0 && base.last() != '/' ==> socket_root(base, part) == base + seq!['/']
                + "hypr"@ + seq!['/'] + part
        },
{
    reveal_strlit("hypr");
    assert("hypr"@.len() == 4 && "hypr"@[0] == 'h' && "hypr"@[3] == 'r');
    assert((base + seq!['/']).last() == '/');
    assert(Seq::<char>::empty() + part == part);
}

} // verus!
