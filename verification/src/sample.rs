//! What is known of the focused window, and the line of text that carries it
//! from the agent to the daemon.

use crate::text;
use vstd::prelude::*;

verus! {

/// What was seen of the focused window.
#[derive(Debug)]
pub struct FocusSample {
    pub pid: Option<u32>,
    pub class: Option<String>,
    pub title: Option<String>,
    pub app: Option<String>,
}

impl Clone for FocusSample {
    fn clone(&self) -> (r: Self)
        ensures
            r == *self,
    {
        FocusSample {
            pid: self.pid,
            class: self.class.clone(),
            title: self.title.clone(),
            app: self.app.clone(),
        }
    }
}

/// What [`FocusSample`] holds, with texts as character sequences.
#[verifier::ext_equal]
pub struct SampleView {
    pub pid: Option<u32>,
    pub class: Option<Seq<char>>,
    pub title: Option<Seq<char>>,
    pub app: Option<Seq<char>>,
}

/// The text that an optional string holds.
pub open spec fn optional_text(s: Option<String>) -> Option<Seq<char>> {
    match s {
        Some(t) => Some(t@),
        None => None,
    }
}

/// The text, or the empty text where there is none.
pub open spec fn text_or_empty(s: Option<Seq<char>>) -> Seq<char> {
    match s {
        Some(t) => t,
        None => seq![],
    }
}

/// The text, or nothing where it is empty.
pub open spec fn unless_empty(s: Seq<char>) -> Option<Seq<char>> {
    if s.len() == 0 {
        None
    } else {
        Some(s)
    }
}

impl View for FocusSample {
    type V = SampleView;

    open spec fn view(&self) -> SampleView {
        SampleView {
            pid: self.pid,
            class: optional_text(self.class),
            title: optional_text(self.title),
            app: optional_text(self.app),
        }
    }
}

/// What a sequence of samples holds.
pub open spec fn sample_views(samples: Seq<FocusSample>) -> Seq<SampleView> {
    samples.map_values(|s: FocusSample| s@)
}

// ---------------------------------------------------------------------------
// Fields
// ---------------------------------------------------------------------------

/// How a character of a field is written.
pub open spec fn escaped_char(c: char) -> Seq<char> {
    if c == '\\' {
        seq!['\\', '\\']
    } else if c == '\t' {
        seq!['\\', 't']
    } else if c == '\n' {
        seq!['\\', 'n']
    } else {
        seq![c]
    }
}

/// How a field is written.
pub open spec fn escaped(raw: Seq<char>) -> Seq<char>
    decreases raw.len(),
{
    if raw.len() == 0 {
        seq![]
    } else {
        escaped_char(raw[0]) + escaped(raw.skip(1))
    }
}

/// What a backslash and the character `c` stand for in a written field.
pub open spec fn unescaped_pair(c: char) -> Seq<char> {
    if c == 't' {
        seq!['\t']
    } else if c == 'n' {
        seq!['\n']
    } else if c == '\\' {
        seq!['\\']
    } else {
        seq!['\\', c]
    }
}

/// The field that a written field stands for.
pub open spec fn unescaped(raw: Seq<char>) -> Seq<char>
    decreases raw.len(),
{
    if raw.len() == 0 {
        seq![]
    } else if raw[0] != '\\' {
        seq![raw[0]] + unescaped(raw.skip(1))
    } else if raw.len() == 1 {
        seq!['\\']
    } else {
        unescaped_pair(raw[1]) + unescaped(raw.skip(2))
    }
}

fn push_escaped(out: &mut String, raw: &str)
    ensures
        final(out)@ == old(out)@ + escaped(raw@),
{
    let chars = text::to_chars(raw);
    let mut i: usize = 0;
    assert(chars@.skip(0) == raw@);
    assert(old(out)@ + escaped(raw@) == out@ + escaped(raw@));
    while i < chars.len()
        invariant
            i <= chars.len(),
            out@ + escaped(chars@.skip(i as int)) == old(out)@ + escaped(raw@),
        decreases chars.len() - i,
    {
        let c = chars[i];
        let ghost before = out@;
        let ghost rest = chars@.skip(i as int);
        if c == '\\' {
            out.push('\\');
            out.push('\\');
        } else if c == '\t' {
            out.push('\\');
            out.push('t');
        } else if c == '\n' {
            out.push('\\');
            out.push('n');
        } else {
            out.push(c);
        }
        assert(out@ == before + escaped_char(c));
        assert(rest.skip(1) == chars@.skip(i + 1));
        assert(before + (escaped_char(c) + escaped(rest.skip(1))) == out@ + escaped(rest.skip(1)));
        i += 1;
    }
    assert(chars@.skip(i as int).len() == 0);
    assert(out@ + escaped(chars@.skip(i as int)) == out@);
}

/// Writes a field so that it holds no tab and no line feed.
pub fn escape_field(raw: &str) -> (out: String)
    ensures
        out@ == escaped(raw@),
{
    let mut out = String::new();
    push_escaped(&mut out, raw);
    assert(Seq::<char>::empty() + escaped(raw@) == escaped(raw@));
    out
}

fn unescape_chars(chars: &[char]) -> (out: String)
    ensures
        out@ == unescaped(chars@),
{
    let mut out = String::new();
    let mut i: usize = 0;
    assert(chars@.skip(0) == chars@);
    assert(out@ + unescaped(chars@) == unescaped(chars@));
    while i < chars.len()
        invariant
            i <= chars.len(),
            out@ + unescaped(chars@.skip(i as int)) == unescaped(chars@),
        decreases chars.len() - i,
    {
        let c = chars[i];
        let ghost before = out@;
        let ghost rest = chars@.skip(i as int);
        i += 1;
        if c != '\\' {
            out.push(c);
            assert(out@ == before + seq![c]);
            assert(rest.skip(1) == chars@.skip(i as int));
            assert(before + (seq![c] + unescaped(rest.skip(1))) == out@ + unescaped(rest.skip(1)));
        } else if i < chars.len() {
            let d = chars[i];
            i += 1;
            if d == 't' {
                out.push('\t');
            } else if d == 'n' {
                out.push('\n');
            } else if d == '\\' {
                out.push('\\');
            } else {
                out.push('\\');
                out.push(d);
            }
            assert(rest[1] == d);
            assert(out@ == before + unescaped_pair(d));
            assert(rest.skip(2) == chars@.skip(i as int));
            assert(before + (unescaped_pair(d) + unescaped(rest.skip(2))) == out@ + unescaped(
                rest.skip(2),
            ));
        } else {
            out.push('\\');
            assert(out@ == before + seq!['\\']);
            assert(unescaped(chars@.skip(i as int)) == Seq::<char>::empty());
            assert(out@ + unescaped(chars@.skip(i as int)) == out@);
        }
    }
    assert(chars@.skip(i as int).len() == 0);
    assert(out@ + unescaped(chars@.skip(i as int)) == out@);
    out
}

/// Reads a written field. A backslash that stands before no `t`, `n` or
/// backslash stands for itself.
pub fn unescape_field(raw: &str) -> (out: String)
    ensures
        out@ == unescaped(raw@),
{
    let chars = text::to_chars(raw);
    unescape_chars(&chars)
}

/// Reading a written field gives the field back.
pub proof fn unescape_reverses_escape(raw: Seq<char>)
    ensures
        unescaped(escaped(raw)) == raw,
    decreases raw.len(),
{
    if raw.len() > 0 {
        let c = raw[0];
        let rest = escaped(raw.skip(1));
        let s = escaped(raw);
        unescape_reverses_escape(raw.skip(1));
        assert(s == escaped_char(c) + rest);
        if escaped_char(c).len() == 2 {
            assert(s.skip(2) == rest);
            assert(unescaped_pair(s[1]) == seq![c]);
        } else {
            assert(s.skip(1) == rest);
        }
        assert(seq![c] + raw.skip(1) == raw);
    }
}

/// A written field holds no tab and no line feed, so that these can stand
/// between fields and between lines.
pub proof fn escaped_has_no_separators(raw: Seq<char>)
    ensures
        !escaped(raw).contains('\t'),
        !escaped(raw).contains('\n'),
    decreases raw.len(),
{
    if raw.len() > 0 {
        escaped_has_no_separators(raw.skip(1));
        let a = escaped_char(raw[0]);
        let b = escaped(raw.skip(1));
        assert forall|i: int| 0 <= i < (a + b).len() implies (a + b)[i] != '\t' && (a + b)[i]
            != '\n' by {
            if i >= a.len() {
                assert(b.contains(b[i - a.len()]));
            }
        }
    }
}

// ---------------------------------------------------------------------------
// Lines
// ---------------------------------------------------------------------------

/// The line that carries a sample.
pub open spec fn serialized(sample: SampleView) -> Seq<char> {
    "FOCUS"@ + seq!['\t'] + (text::decimal(
        match sample.pid {
            Some(pid) => pid as nat,
            None => 0,
        },
    ) + seq!['\t'] + (escaped(text_or_empty(sample.class)) + seq!['\t'] + (escaped(
        text_or_empty(sample.title),
    ) + seq!['\t'] + escaped(text_or_empty(sample.app)))))
}

/// The part at `i`, or `default` where there are fewer parts.
pub open spec fn part_or(parts: Seq<Seq<char>>, i: int, default: Seq<char>) -> Seq<char> {
    if i < parts.len() {
        parts[i]
    } else {
        default
    }
}

/// The process that a pid field names. There is none where the field is no
/// number, and none with the number zero.
pub open spec fn named_pid(raw: Seq<char>) -> Option<u32> {
    match text::u32_value(text::trimmed(raw)) {
        Some(pid) if pid != 0 => Some(pid),
        _ => None,
    }
}

/// The sample that a line carries, if it is such a line.
pub open spec fn deserialized(payload: Seq<char>) -> Option<SampleView> {
    let parts = text::split(text::trimmed(payload), '\t');
    if parts[0] != "FOCUS"@ {
        None
    } else {
        Some(
            SampleView {
                pid: named_pid(part_or(parts, 1, "0"@)),
                class: unless_empty(unescaped(part_or(parts, 2, seq![]))),
                title: unless_empty(unescaped(part_or(parts, 3, seq![]))),
                app: unless_empty(unescaped(part_or(parts, 4, seq![]))),
            },
        )
    }
}

fn push_optional(out: &mut String, field: &Option<String>)
    ensures
        final(out)@ == old(out)@ + escaped(text_or_empty(optional_text(*field))),
{
    match field {
        Some(raw) => push_escaped(out, raw.as_str()),
        None => {
            assert(out@ + escaped(seq![]) == out@);
        },
    }
}

/// The line that carries `sample`, without a line ending.
pub fn serialize_focus_sample(sample: &FocusSample) -> (line: String)
    ensures
        line@ == serialized(sample@),
{
    let pid: u32 = match sample.pid {
        Some(pid) => pid,
        None => 0,
    };
    let mut line = "FOCUS".to_owned();
    line.push('\t');
    text::push_decimal(&mut line, pid as u64);
    line.push('\t');
    push_optional(&mut line, &sample.class);
    line.push('\t');
    push_optional(&mut line, &sample.title);
    line.push('\t');
    push_optional(&mut line, &sample.app);
    assert(line@ == serialized(sample@));
    line
}

fn read_part(parts: &Vec<&[char]>, i: usize) -> (r: Option<String>)
    ensures
        optional_text(r) == unless_empty(
            unescaped(part_or(text::pieces(parts@), i as int, seq![])),
        ),
{
    if i < parts.len() {
        assert(text::pieces(parts@)[i as int] == parts@[i as int]@);
        let field = unescape_chars(parts[i]);
        if field.as_str().is_empty() {
            None
        } else {
            Some(field)
        }
    } else {
        None
    }
}

/// The sample that the line `payload` carries, if it is such a line.
pub fn deserialize_focus_sample(payload: &str) -> (sample: Option<FocusSample>)
    ensures
        match sample {
            Some(s) => deserialized(payload@) == Some(s@),
            None => deserialized(payload@) is None,
        },
{
    let chars = text::to_chars(payload);
    read_line(&chars)
}

fn read_line(payload: &[char]) -> (sample: Option<FocusSample>)
    ensures
        match sample {
            Some(s) => deserialized(payload@) == Some(s@),
            None => deserialized(payload@) is None,
        },
{
    let parts = text::split_chars(text::trim(payload), '\t');
    let ghost all = text::split(text::trimmed(payload@), '\t');
    proof {
        text::lemma_split_not_empty(text::trimmed(payload@), '\t');
        assert(text::pieces(parts@)[0] == parts@[0]@);
    }
    assert(parts.len() == all.len());
    let tag = text::to_chars("FOCUS");
    if !text::same_chars(parts[0], &tag) {
        return None;
    }
    let number = if parts.len() > 1 {
        assert(text::pieces(parts@)[1] == parts@[1]@);
        text::parse_u32(text::trim(parts[1]))
    } else {
        let zero = text::to_chars("0");
        text::parse_u32(text::trim(&zero))
    };
    let pid = match number {
        Some(v) => if v == 0 {
            None
        } else {
            Some(v)
        },
        None => None,
    };
    let class = read_part(&parts, 2);
    let title = read_part(&parts, 3);
    let app = read_part(&parts, 4);
    Some(FocusSample { pid, class, title, app })
}

/// The message that carries a sample: its line and a line ending.
pub open spec fn message(sample: SampleView) -> Seq<char> {
    serialized(sample).push('\n')
}

/// The message that carries `sample`: its line and a line ending.
pub fn focus_message(sample: &FocusSample) -> (r: String)
    ensures
        r@ == message(sample@),
{
    let mut r = serialize_focus_sample(sample);
    r.push('\n');
    r
}

/// The samples that lines carry, in order; other lines carry none.
pub open spec fn carried(lines: Seq<Seq<char>>) -> Seq<SampleView>
    decreases lines.len(),
{
    if lines.len() == 0 {
        seq![]
    } else {
        match deserialized(lines[0]) {
            Some(sample) => seq![sample] + carried(lines.skip(1)),
            None => carried(lines.skip(1)),
        }
    }
}

/// The samples that the payload of a connection carries.
pub open spec fn received(payload: Seq<char>) -> Seq<SampleView> {
    carried(text::lines(payload))
}

/// The samples that the payload of a connection carries, in order. Lines that
/// carry none are passed over.
pub fn read_focus_samples(payload: &str) -> (samples: Vec<FocusSample>)
    ensures
        sample_views(samples@) == received(payload@),
{
    let chars = text::to_chars(payload);
    let lines = text::split_lines(&chars);
    let ghost all = text::lines(payload@);
    let mut samples: Vec<FocusSample> = Vec::new();
    let mut i: usize = 0;
    assert(all.skip(0) == all);
    assert(sample_views(samples@) + carried(all) == carried(all));
    while i < lines.len()
        invariant
            i <= lines.len(),
            text::pieces(lines@) == all,
            sample_views(samples@) + carried(all.skip(i as int)) == carried(all),
        decreases lines.len() - i,
    {
        let ghost before = samples@;
        let ghost rest = all.skip(i as int);
        assert(text::pieces(lines@)[i as int] == lines@[i as int]@);
        assert(rest.skip(1) == all.skip(i + 1));
        match read_line(lines[i]) {
            Some(sample) => {
                samples.push(sample);
                assert(sample_views(samples@) == sample_views(before).push(sample@));
                assert(sample_views(before) + (seq![sample@] + carried(rest.skip(1)))
                    == sample_views(samples@) + carried(rest.skip(1)));
            },
            None => {},
        }
        i += 1;
    }
    assert(all.skip(i as int).len() == 0);
    assert(sample_views(samples@) + carried(all.skip(i as int)) == sample_views(samples@));
    samples
}

// ---------------------------------------------------------------------------
// Laws
// ---------------------------------------------------------------------------

/// The last of the texts of a sample that is not empty.
pub open spec fn last_text(sample: SampleView) -> Seq<char> {
    if text_or_empty(sample.app).len() > 0 {
        text_or_empty(sample.app)
    } else if text_or_empty(sample.title).len() > 0 {
        text_or_empty(sample.title)
    } else {
        text_or_empty(sample.class)
    }
}

/// The samples that a line carries unchanged: they name no process with the
/// number zero and hold no empty text, and their last text does not end with
/// white space other than a tab or a line feed, which are written otherwise.
pub open spec fn transmissible(sample: SampleView) -> bool {
    &&& sample.pid != Some(0u32)
    &&& sample.class != Some(Seq::<char>::empty())
    &&& sample.title != Some(Seq::<char>::empty())
    &&& sample.app != Some(Seq::<char>::empty())
    &&& last_text(sample).len() > 0 ==> {
        let c = last_text(sample).last();
        text::white_space(c) ==> c == '\t' || c == '\n'
    }
}

proof fn lemma_escaped_last(raw: Seq<char>)
    requires
        raw.len() > 0,
    ensures
        escaped(raw).len() > 0,
        escaped(raw).last() == escaped_char(raw.last()).last(),
    decreases raw.len(),
{
    if raw.len() > 1 {
        lemma_escaped_last(raw.skip(1));
        assert(raw.skip(1).last() == raw.last());
    } else {
        assert(raw.skip(1) == Seq::<char>::empty());
        assert(escaped(raw.skip(1)) == Seq::<char>::empty());
        assert(escaped_char(raw[0]) + Seq::<char>::empty() == escaped_char(raw[0]));
    }
}

proof fn lemma_join(a: Seq<char>, b: Seq<char>)
    requires
        !a.contains('\t'),
    ensures
        text::split(a + seq!['\t'] + b, '\t') == seq![a] + text::split(b, '\t'),
{
    text::lemma_split_concat(a, '\t', b);
    text::lemma_split_one(a, '\t');
}

proof fn lemma_digits_plain(n: nat)
    ensures
        !text::decimal(n).contains('\t'),
        !text::decimal(n).contains('\n'),
        text::trimmed(text::decimal(n)) == text::decimal(n),
        text::decimal(n).len() > 0,
        !text::white_space(text::decimal(n).last()),
{
    text::lemma_decimal(n);
    let d = text::decimal(n);
    assert forall|i: int| 0 <= i < d.len() implies d[i] != '\t' && d[i] != '\n'
        && !text::white_space(d[i]) by {
        assert(text::is_digit(d[i], 10));
    }
    text::lemma_trimmed_kept(d);
}

/// `s` loses its trailing white space, and keeps what comes before.
proof fn lemma_line_trimmed(kept: Seq<char>, line: Seq<char>)
    requires
        kept.len() > 0,
        !text::white_space(kept[0]),
        !text::white_space(kept.last()),
        line == kept || line == kept.push('\t') || line == kept.push('\t').push('\t') || line
            == kept.push('\t').push('\t').push('\t'),
    ensures
        text::trimmed(line) == kept,
{
    assert(line[0] == kept[0]);
    assert(text::trimmed_start(line) == line);
    text::lemma_trimmed_end_kept(kept);
    text::lemma_trimmed_end_cut(kept, '\t');
    text::lemma_trimmed_end_cut(kept.push('\t'), '\t');
    text::lemma_trimmed_end_cut(kept.push('\t').push('\t'), '\t');
}

/// The parts of a line, after trimming: the fields up to the last one that is
/// not empty.
proof fn lemma_line_parts(d: Seq<char>, class: Seq<char>, title: Seq<char>, app: Seq<char>)
    requires
        d.len() > 0,
        !d.contains('\t'),
        !text::white_space(d.last()),
        ({
            let last = if app.len() > 0 {
                app
            } else if title.len() > 0 {
                title
            } else {
                class
            };
            last.len() > 0 ==> {
                text::white_space(last.last()) ==> last.last() == '\t' || last.last() == '\n'
            }
        }),
    ensures
        ({
            let tab = seq!['\t'];
            let c = escaped(class);
            let t = escaped(title);
            let a = escaped(app);
            let line = "FOCUS"@ + tab + (d + tab + (c + tab + (t + tab + a)));
            text::split(text::trimmed(line), '\t') == (if app.len() > 0 {
                seq!["FOCUS"@, d, c, t, a]
            } else if title.len() > 0 {
                seq!["FOCUS"@, d, c, t]
            } else if class.len() > 0 {
                seq!["FOCUS"@, d, c]
            } else {
                seq!["FOCUS"@, d]
            })
        }),
{
    let f = "FOCUS"@;
    reveal_strlit("FOCUS");
    let tab = seq!['\t'];
    let c = escaped(class);
    let t = escaped(title);
    let a = escaped(app);
    let line = f + tab + (d + tab + (c + tab + (t + tab + a)));
    escaped_has_no_separators(class);
    escaped_has_no_separators(title);
    escaped_has_no_separators(app);
    assert(!f.contains('\t'));
    if app.len() > 0 {
        lemma_escaped_last(app);
        assert(line.last() == a.last());
        assert(line[0] == f[0]);
        lemma_line_trimmed(line, line);
        text::lemma_split_one(a, '\t');
        lemma_join(t, a);
        lemma_join(c, t + tab + a);
        lemma_join(d, c + tab + (t + tab + a));
        lemma_join(f, d + tab + (c + tab + (t + tab + a)));
        assert(seq![f] + (seq![d] + (seq![c] + (seq![t] + seq![a]))) == seq![f, d, c, t, a]);
    } else if title.len() > 0 {
        lemma_escaped_last(title);
        let kept = f + tab + (d + tab + (c + tab + t));
        assert(kept.last() == t.last());
        assert(kept[0] == f[0]);
        assert(line == kept.push('\t'));
        lemma_line_trimmed(kept, line);
        text::lemma_split_one(t, '\t');
        lemma_join(c, t);
        lemma_join(d, c + tab + t);
        lemma_join(f, d + tab + (c + tab + t));
        assert(seq![f] + (seq![d] + (seq![c] + seq![t])) == seq![f, d, c, t]);
    } else if class.len() > 0 {
        lemma_escaped_last(class);
        let kept = f + tab + (d + tab + c);
        assert(kept.last() == c.last());
        assert(kept[0] == f[0]);
        assert(line == kept.push('\t').push('\t'));
        lemma_line_trimmed(kept, line);
        text::lemma_split_one(c, '\t');
        lemma_join(d, c);
        lemma_join(f, d + tab + c);
        assert(seq![f] + (seq![d] + seq![c]) == seq![f, d, c]);
    } else {
        let kept = f + tab + d;
        assert(kept.last() == d.last());
        assert(kept[0] == f[0]);
        assert(line == kept.push('\t').push('\t').push('\t'));
        lemma_line_trimmed(kept, line);
        text::lemma_split_one(d, '\t');
        lemma_join(f, d);
        assert(seq![f] + seq![d] == seq![f, d]);
    }
}

/// The daemon reads the sample that the agent wrote.
pub proof fn line_carries_sample(sample: SampleView)
    requires
        transmissible(sample),
    ensures
        deserialized(serialized(sample)) == Some(sample),
{
    let n: nat = match sample.pid {
        Some(pid) => pid as nat,
        None => 0,
    };
    let class = text_or_empty(sample.class);
    let title = text_or_empty(sample.title);
    let app = text_or_empty(sample.app);
    lemma_digits_plain(n);
    text::decimal_reads_back(n as u32);
    assert(named_pid(text::decimal(n)) == sample.pid);
    unescape_reverses_escape(class);
    unescape_reverses_escape(title);
    unescape_reverses_escape(app);
    assert(unescaped(Seq::<char>::empty()) == Seq::<char>::empty());
    lemma_line_parts(text::decimal(n), class, title, app);
    let back = deserialized(serialized(sample))->0;
    assert(back =~= sample);
}

proof fn lemma_serialized_one_line(sample: SampleView)
    ensures
        !serialized(sample).contains('\n'),
{
    reveal_strlit("FOCUS");
    let n: nat = match sample.pid {
        Some(pid) => pid as nat,
        None => 0,
    };
    lemma_digits_plain(n);
    escaped_has_no_separators(text_or_empty(sample.class));
    escaped_has_no_separators(text_or_empty(sample.title));
    escaped_has_no_separators(text_or_empty(sample.app));
    let line = serialized(sample);
    let d = text::decimal(n);
    let c = escaped(text_or_empty(sample.class));
    let t = escaped(text_or_empty(sample.title));
    let a = escaped(text_or_empty(sample.app));
    let tab = seq!['\t'];
    assert forall|i: int| 0 <= i < line.len() implies line[i] != '\n' by {
        let tail3 = t + tab + a;
        let tail2 = c + tab + tail3;
        let tail1 = d + tab + tail2;
        assert(line == "FOCUS"@ + tab + tail1);
        if i >= 6 {
            let j = i - 6;
            assert(line[i] == tail1[j]);
            if j < d.len() {
                assert(d.contains(d[j]));
            } else if j > d.len() {
                let k = j - d.len() - 1;
                assert(tail1[j] == tail2[k]);
                if k < c.len() {
                    assert(c.contains(c[k]));
                } else if k > c.len() {
                    let l = k - c.len() - 1;
                    assert(tail2[k] == tail3[l]);
                    if l < t.len() {
                        assert(t.contains(t[l]));
                    } else if l > t.len() {
                        assert(a.contains(a[l - t.len() - 1]));
                    }
                }
            }
        }
    }
}

/// A message carries its sample, and what follows it on the connection is
/// read as if it stood alone.
pub proof fn messages_are_received_in_order(sample: SampleView, rest: Seq<char>)
    requires
        transmissible(sample),
    ensures
        received(message(sample) + rest) == seq![sample] + received(rest),
{
    let line = serialized(sample);
    lemma_serialized_one_line(sample);
    assert(message(sample) + rest == line + seq!['\n'] + rest);
    text::lemma_lines_first(line, rest);
    line_carries_sample(sample);
    text::lemma_trimmed_without_cr(line);
    let lines = text::lines(message(sample) + rest);
    assert(lines.skip(1) == text::lines(rest));
}

/// Fields can be written in parts.
pub proof fn escaping_distributes(a: Seq<char>, b: Seq<char>)
    ensures
        escaped(a + b) == escaped(a) + escaped(b),
    decreases a.len(),
{
    if a.len() == 0 {
        assert(a + b == b);
        assert(escaped(a) + escaped(b) == escaped(b));
    } else {
        assert((a + b).skip(1) == a.skip(1) + b);
        escaping_distributes(a.skip(1), b);
        assert(escaped(a + b) == escaped(a) + escaped(b));
    }
}

/// In a written field two characters stand for a backslash, a tab and a line
/// feed each. Every other character stands for itself.
pub proof fn three_characters_are_written_otherwise(c: char)
    ensures
        escaped(seq!['\\']) == seq!['\\', '\\'],
        escaped(seq!['\t']) == seq!['\\', 't'],
        escaped(seq!['\n']) == seq!['\\', 'n'],
        c != '\\' && c != '\t' && c != '\n' ==> escaped(seq![c]) == seq![c],
        escaped(Seq::empty()) == Seq::<char>::empty(),
{
    reveal_with_fuel(escaped, 2);
    let nothing = Seq::<char>::empty();
    assert(seq!['\\'].skip(1) == nothing);
    assert(seq!['\t'].skip(1) == nothing);
    assert(seq!['\n'].skip(1) == nothing);
    assert(seq![c].skip(1) == nothing);
}

/// A written field is read from the left: the three pairs stand for what they
/// were written for, a backslash before anything else or at the end stands for
/// itself, and so does every other character.
pub proof fn written_fields_are_read_from_the_left(c: char, rest: Seq<char>)
    ensures
        unescaped(seq!['\\', 't'] + rest) == seq!['\t'] + unescaped(rest),
        unescaped(seq!['\\', 'n'] + rest) == seq!['\n'] + unescaped(rest),
        unescaped(seq!['\\', '\\'] + rest) == seq!['\\'] + unescaped(rest),
        c != 't' && c != 'n' && c != '\\' ==> unescaped(seq!['\\', c] + rest) == seq!['\\', c]
            + unescaped(rest),
        c != '\\' ==> unescaped(seq![c] + rest) == seq![c] + unescaped(rest),
        unescaped(seq!['\\']) == seq!['\\'],
        unescaped(Seq::empty()) == Seq::<char>::empty(),
{
    assert((seq!['\\', 't'] + rest).skip(2) == rest);
    assert((seq!['\\', 'n'] + rest).skip(2) == rest);
    assert((seq!['\\', '\\'] + rest).skip(2) == rest);
    assert((seq!['\\', c] + rest).skip(2) == rest);
    assert((seq![c] + rest).skip(1) == rest);
}

/// A line holds the tag, the number of the process and the three texts, as
/// written fields with tabs between them. What a sample does not hold is written
/// as zero or as an empty field. A message is its line and a line feed.
pub proof fn a_line_holds_five_fields(
    sample: SampleView,
    pid: u32,
    class: Seq<char>,
    title: Seq<char>,
    app: Seq<char>,
)
    ensures
        serialized(
            SampleView { pid: Some(pid), class: Some(class), title: Some(title), app: Some(app) },
        ) == "FOCUS"@ + seq!['\t'] + text::decimal(pid as nat) + seq!['\t'] + escaped(class)
            + seq!['\t'] + escaped(title) + seq!['\t'] + escaped(app),
        serialized(SampleView { pid: None, ..sample }) == serialized(
            SampleView { pid: Some(0), ..sample },
        ),
        serialized(SampleView { class: None, ..sample }) == serialized(
            SampleView { class: Some(seq![]), ..sample },
        ),
        serialized(SampleView { title: None, ..sample }) == serialized(
            SampleView { title: Some(seq![]), ..sample },
        ),
        serialized(SampleView { app: None, ..sample }) == serialized(
            SampleView { app: Some(seq![]), ..sample },
        ),
        message(sample) == serialized(sample) + seq!['\n'],
{
    assert(message(sample) == serialized(sample) + seq!['\n']);
}

/// The fields with tabs between them.
pub open spec fn tabbed(fields: Seq<Seq<char>>) -> Seq<char>
    decreases fields.len(),
{
    if fields.len() == 0 {
        seq![]
    } else if fields.len() == 1 {
        fields[0]
    } else {
        fields[0] + seq!['\t'] + tabbed(fields.skip(1))
    }
}

proof fn lemma_tabbed(fields: Seq<Seq<char>>)
    requires
        fields.len() > 0,
        forall|i: int| 0 <= i < fields.len() ==> !(#[trigger] fields[i]).contains('\t'),
    ensures
        text::split(tabbed(fields), '\t') == fields,
        fields[0].len() > 0 ==> tabbed(fields).len() > 0 && tabbed(fields)[0] == fields[0][0],
        fields.last().len() > 0 ==> tabbed(fields).len() > 0 && tabbed(fields).last()
            == fields.last().last(),
    decreases fields.len(),
{
    assert(!fields[0].contains('\t'));
    if fields.len() == 1 {
        text::lemma_split_one(fields[0], '\t');
        assert(fields == seq![fields[0]]);
    } else {
        let rest = fields.skip(1);
        assert forall|i: int| 0 <= i < rest.len() implies !(#[trigger] rest[i]).contains('\t') by {
            assert(rest[i] == fields[i + 1]);
        }
        lemma_tabbed(rest);
        lemma_join(fields[0], tabbed(rest));
        assert(rest.last() == fields.last());
        assert(seq![fields[0]] + rest == fields);
    }
}

/// A tagged line is read field by field, whatever white space stands around it:
/// first comes the number of the process, where zero and anything that is no
/// number stand for none, and then come the texts, where an empty one stands for
/// none. Fields that are missing count as empty, and more fields do not count.
pub proof fn a_line_is_read_field_by_field(a: Seq<char>, fields: Seq<Seq<char>>, b: Seq<char>)
    requires
        text::is_blank(a),
        text::is_blank(b),
        forall|i: int| 0 <= i < fields.len() ==> !(#[trigger] fields[i]).contains('\t'),
        fields.len() > 0 ==> fields.last().len() > 0 && !text::white_space(fields.last().last()),
    ensures
        ({
            let line = a + tabbed(seq!["FOCUS"@] + fields) + b;
            let sample = deserialized(line)->0;
            &&& deserialized(line) is Some
            &&& if fields.len() == 0 || text::u32_value(text::trimmed(fields[0])) == Some(0u32) {
                sample.pid is None
            } else {
                sample.pid == text::u32_value(text::trimmed(fields[0]))
            }
            &&& if fields.len() > 1 && unescaped(fields[1]).len() > 0 {
                sample.class == Some(unescaped(fields[1]))
            } else {
                sample.class is None
            }
            &&& if fields.len() > 2 && unescaped(fields[2]).len() > 0 {
                sample.title == Some(unescaped(fields[2]))
            } else {
                sample.title is None
            }
            &&& if fields.len() > 3 && unescaped(fields[3]).len() > 0 {
                sample.app == Some(unescaped(fields[3]))
            } else {
                sample.app is None
            }
        }),
{
    reveal_strlit("FOCUS");
    let tag = "FOCUS"@;
    assert(tag.len() == 5);
    let all = seq![tag] + fields;
    assert(!tag.contains('\t')) by {
        assert(tag[0] == 'F' && tag[1] == 'O' && tag[2] == 'C' && tag[3] == 'U' && tag[4] == 'S');
    }
    assert forall|i: int| 0 <= i < all.len() implies !(#[trigger] all[i]).contains('\t') by {
        if i > 0 {
            assert(all[i] == fields[i - 1]);
        }
    }
    lemma_tabbed(all);
    assert(all[0] == tag);
    if fields.len() > 0 {
        assert(all.last() == fields.last());
    } else {
        assert(all.last() == tag);
        reveal_strlit("0");
        text::lemma_trimmed_kept("0"@);
        assert("0"@ == seq!['0']);
        text::decimal_reads_back(0);
        assert(text::decimal(0) == seq!['0']);
    }
    text::trimming_takes_margins_away(a, tabbed(all), b);
    assert(fields.len() > 0 ==> all[1] == fields[0]);
    assert(fields.len() > 1 ==> all[2] == fields[1]);
    assert(fields.len() > 2 ==> all[3] == fields[2]);
    assert(fields.len() > 3 ==> all[4] == fields[3]);
    assert(unescaped(Seq::<char>::empty()) == Seq::<char>::empty());
}

/// A line with another tag carries no sample, whatever follows the tag.
pub proof fn other_tags_carry_nothing(tag: Seq<char>, rest: Seq<char>)
    requires
        tag != "FOCUS"@,
        tag.len() > 0,
        !text::white_space(tag[0]),
        !text::white_space(tag.last()),
        !tag.contains('\t'),
    ensures
        deserialized(tag) is None,
        deserialized(tag + seq!['\t'] + rest) is None,
        deserialized(Seq::empty()) is None,
{
    let nothing = Seq::<char>::empty();
    reveal_strlit("FOCUS");
    assert("FOCUS"@.len() == 5);
    text::lemma_split_one(tag, '\t');
    text::lemma_split_one(nothing, '\t');
    text::lemma_trimmed_kept(tag);
    text::lemma_trimmed_kept(nothing);
    text::lemma_trimmed_end(rest);
    let kept = text::trimmed_end(rest);
    let margin = rest.skip(kept.len() as int);
    assert(rest == kept + margin);
    assert forall|i: int| 0 <= i < margin.len() implies text::white_space(#[trigger] margin[i]) by {
        assert(margin[i] == rest[kept.len() + i]);
    }
    let line = tag + seq!['\t'] + rest;
    if kept.len() > 0 {
        let inner = tag + seq!['\t'] + kept;
        assert(inner[0] == tag[0] && inner.last() == kept.last());
        assert(nothing + inner + margin == line);
        text::trimming_takes_margins_away(nothing, inner, margin);
        lemma_join(tag, kept);
        assert(text::split(inner, '\t')[0] == tag);
    } else {
        let end = seq!['\t'] + margin;
        assert forall|i: int| 0 <= i < end.len() implies text::white_space(#[trigger] end[i]) by {
            if i > 0 {
                assert(end[i] == margin[i - 1]);
            }
        }
        assert(nothing + tag + end == line);
        text::trimming_takes_margins_away(nothing, tag, end);
    }
}

/// The lines of a connection are read one by one, in order: each that carries a
/// sample gives that sample, and the others give nothing.
pub proof fn lines_are_read_one_by_one(line: Seq<char>, rest: Seq<char>)
    requires
        !line.contains('\n'),
    ensures
        received(line + seq!['\n'] + rest) == match deserialized(line) {
            Some(sample) => seq![sample] + received(rest),
            None => received(rest),
        },
        received(Seq::empty()) == Seq::<SampleView>::empty(),
        line.len() > 0 ==> received(line) == match deserialized(line) {
            Some(sample) => seq![sample],
            None => seq![],
        },
{
    text::lemma_lines_first(line, rest);
    text::lemma_trimmed_without_cr(line);
    let first = seq![text::without_cr(line)];
    assert((first + text::lines(rest)).skip(1) == text::lines(rest));
    text::lines_end_at_line_feeds(line, rest);
    assert(seq![line].skip(1) == Seq::<Seq<char>>::empty());
    reveal_with_fuel(carried, 2);
}

/// A sample is taken as the number and the texts that it holds, an empty text
/// included, and samples are taken one for one, in order.
pub proof fn samples_keep_everything(
    pid: Option<u32>,
    class: String,
    title: String,
    app: String,
    samples: Seq<FocusSample>,
    i: int,
)
    requires
        0 <= i < samples.len(),
    ensures
        (FocusSample { pid, class: Some(class), title: Some(title), app: Some(app) })@ == (
        SampleView { pid, class: Some(class@), title: Some(title@), app: Some(app@) }),
        (FocusSample { pid, class: None, title: None, app: None })@ == (SampleView {
            pid,
            class: None,
            title: None,
            app: None,
        }),
        sample_views(samples).len() == samples.len(),
        sample_views(samples)[i] == samples[i]@,
{
}

} // verus!
