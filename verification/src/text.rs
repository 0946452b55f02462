//! Text as sequences of characters: the searching, splitting, trimming and
//! number reading that the rest of the library is built on.

use vstd::prelude::*;
use vstd::slice::slice_subrange;

verus! {

/// `String::push` adds one character at the end of the string.
pub assume_specification[ String::push ](s: &mut String, c: char)
    ensures
        final(s)@ == old(s)@.push(c),
;

/// The characters of `s`, in order.
pub fn to_chars(s: &str) -> (v: Vec<char>)
    ensures
        v@ == s@,
{
    let mut v: Vec<char> = Vec::new();
    for c in it: s.chars()
        invariant
            it.seq() == s@,
            v@ == s@.take(it.index() as int),
    {
        v.push(c);
    }
    v
}

/// The string that holds the characters of `s`, in order.
pub fn to_text(s: &[char]) -> (text: String)
    ensures
        text@ == s@,
{
    let mut text = String::new();
    push_chars(&mut text, s);
    text
}

/// Adds the characters of `s` at the end of `text`.
pub fn push_chars(text: &mut String, s: &[char])
    ensures
        final(text)@ == old(text)@ + s@,
{
    let mut i: usize = 0;
    while i < s.len()
        invariant
            i <= s.len(),
            text@ == old(text)@ + s@.take(i as int),
        decreases s.len() - i,
    {
        text.push(s[i]);
        i += 1;
    }
}

/// The texts that a sequence of strings holds.
pub open spec fn texts(strings: Seq<String>) -> Seq<Seq<char>> {
    strings.map_values(|s: String| s@)
}

/// The texts that a sequence of character slices holds.
pub open spec fn pieces(slices: Seq<&[char]>) -> Seq<Seq<char>> {
    slices.map_values(|s: &[char]| s@)
}

/// Whether two runs of characters are the same.
pub fn same_chars(a: &[char], b: &[char]) -> (same: bool)
    ensures
        same == (a@ == b@),
{
    if a.len() != b.len() {
        return false;
    }
    let mut i: usize = 0;
    while i < a.len()
        invariant
            i <= a.len(),
            a.len() == b.len(),
            a@.take(i as int) == b@.take(i as int),
        decreases a.len() - i,
    {
        if a[i] != b[i] {
            return false;
        }
        assert(a@.take(i + 1) == a@.take(i as int).push(a@[i as int]));
        assert(b@.take(i + 1) == b@.take(i as int).push(b@[i as int]));
        i += 1;
    }
    assert(a@.take(i as int) == a@);
    assert(b@.take(i as int) == b@);
    true
}

/// Whether `s` begins with `prefix`.
pub fn starts_with(s: &[char], prefix: &[char]) -> (yes: bool)
    ensures
        yes == prefix@.is_prefix_of(s@),
{
    if s.len() < prefix.len() {
        return false;
    }
    same_chars(slice_subrange(s, 0, prefix.len()), prefix)
}

/// Whether `s` ends with `suffix`.
pub fn ends_with(s: &[char], suffix: &[char]) -> (yes: bool)
    ensures
        yes == suffix@.is_suffix_of(s@),
{
    if s.len() < suffix.len() {
        return false;
    }
    same_chars(slice_subrange(s, s.len() - suffix.len(), s.len()), suffix)
}

// ---------------------------------------------------------------------------
// Characters
// ---------------------------------------------------------------------------

/// The characters with the Unicode property White_Space.
pub open spec fn white_space(c: char) -> bool {
    ||| '\u{9}' <= c <= '\u{d}'
    ||| c == '\u{20}'
    ||| c == '\u{85}'
    ||| c == '\u{a0}'
    ||| c == '\u{1680}'
    ||| '\u{2000}' <= c <= '\u{200a}'
    ||| c == '\u{2028}'
    ||| c == '\u{2029}'
    ||| c == '\u{202f}'
    ||| c == '\u{205f}'
    ||| c == '\u{3000}'
}

/// Whether `c` has the Unicode property White_Space.
pub fn is_white_space(c: char) -> (yes: bool)
    ensures
        yes == white_space(c),
{
    ('\u{9}' <= c && c <= '\u{d}') || c == '\u{20}' || c == '\u{85}' || c == '\u{a0}' || c
        == '\u{1680}' || ('\u{2000}' <= c && c <= '\u{200a}') || c == '\u{2028}' || c == '\u{2029}'
        || c == '\u{202f}' || c == '\u{205f}' || c == '\u{3000}'
}

/// The lower case of an ASCII letter; any other character is its own.
pub open spec fn lower(c: char) -> char {
    if 'A' <= c <= 'Z' {
        (c as u8 + 32) as char
    } else {
        c
    }
}

/// The ASCII lower case of a text.
pub open spec fn lowered(s: Seq<char>) -> Seq<char> {
    s.map_values(|c: char| lower(c))
}

/// The lower case of an ASCII letter; any other character is its own.
pub fn to_lower(c: char) -> (r: char)
    ensures
        r == lower(c),
{
    if 'A' <= c && c <= 'Z' {
        (c as u8 + 32) as char
    } else {
        c
    }
}

/// The ASCII lower case of `s`.
pub fn to_lowered(s: &[char]) -> (r: Vec<char>)
    ensures
        r@ == lowered(s@),
{
    let mut r: Vec<char> = Vec::new();
    let mut i: usize = 0;
    while i < s.len()
        invariant
            i <= s.len(),
            r@ == lowered(s@.take(i as int)),
        decreases s.len() - i,
    {
        r.push(to_lower(s[i]));
        i += 1;
    }
    assert(s@.take(s.len() as int) == s@);
    r
}

// ---------------------------------------------------------------------------
// Trimming
// ---------------------------------------------------------------------------

/// `s` without its leading white space.
pub open spec fn trimmed_start(s: Seq<char>) -> Seq<char>
    decreases s.len(),
{
    if s.len() > 0 && white_space(s[0]) {
        trimmed_start(s.skip(1))
    } else {
        s
    }
}

/// `s` without its trailing white space.
pub open spec fn trimmed_end(s: Seq<char>) -> Seq<char>
    decreases s.len(),
{
    if s.len() > 0 && white_space(s.last()) {
        trimmed_end(s.drop_last())
    } else {
        s
    }
}

/// `s` without its leading and trailing white space.
pub open spec fn trimmed(s: Seq<char>) -> Seq<char> {
    trimmed_end(trimmed_start(s))
}

/// `s` without its leading white space.
pub fn trim_start(s: &[char]) -> (r: &[char])
    ensures
        r@ == trimmed_start(s@),
{
    let mut i: usize = 0;
    assert(s@.skip(0) == s@);
    while i < s.len() && is_white_space(s[i])
        invariant
            i <= s.len(),
            trimmed_start(s@.skip(i as int)) == trimmed_start(s@),
        decreases s.len() - i,
    {
        assert(s@.skip(i as int).skip(1) == s@.skip(i + 1));
        i += 1;
    }
    slice_subrange(s, i, s.len())
}

/// `s` without its trailing white space.
pub fn trim_end(s: &[char]) -> (r: &[char])
    ensures
        r@ == trimmed_end(s@),
{
    let mut n: usize = s.len();
    assert(s@.take(n as int) == s@);
    while n > 0 && is_white_space(s[n - 1])
        invariant
            n <= s.len(),
            trimmed_end(s@.take(n as int)) == trimmed_end(s@),
        decreases n,
    {
        assert(s@.take(n as int).drop_last() == s@.take(n - 1));
        n -= 1;
    }
    slice_subrange(s, 0, n)
}

/// `s` without its leading and trailing white space.
pub fn trim(s: &[char]) -> (r: &[char])
    ensures
        r@ == trimmed(s@),
{
    trim_end(trim_start(s))
}

// ---------------------------------------------------------------------------
// Searching
// ---------------------------------------------------------------------------

/// `pattern` stands in `s` at `i`.
pub open spec fn occurs_at(s: Seq<char>, pattern: Seq<char>, i: int) -> bool {
    0 <= i && i + pattern.len() <= s.len() && s.subrange(i, i + pattern.len()) == pattern
}

/// `pattern` stands somewhere in `s`.
pub open spec fn occurs(s: Seq<char>, pattern: Seq<char>) -> bool {
    exists|i: int| occurs_at(s, pattern, i)
}

/// `i` is the first place at which `pattern` stands in `s`.
pub open spec fn first_at(s: Seq<char>, pattern: Seq<char>, i: int) -> bool {
    &&& occurs_at(s, pattern, i)
    &&& forall|j: int| occurs_at(s, pattern, j) ==> i <= j
}

/// `i` is the last place at which `pattern` stands in `s`.
pub open spec fn last_at(s: Seq<char>, pattern: Seq<char>, i: int) -> bool {
    &&& occurs_at(s, pattern, i)
    &&& forall|j: int| occurs_at(s, pattern, j) ==> j <= i
}

/// The first place at which `pattern` stands in `s`.
pub open spec fn find(s: Seq<char>, pattern: Seq<char>) -> Option<int> {
    if exists|i: int| first_at(s, pattern, i) {
        Some(choose|i: int| first_at(s, pattern, i))
    } else {
        None
    }
}

/// The last place at which `pattern` stands in `s`.
pub open spec fn rfind(s: Seq<char>, pattern: Seq<char>) -> Option<int> {
    if exists|i: int| last_at(s, pattern, i) {
        Some(choose|i: int| last_at(s, pattern, i))
    } else {
        None
    }
}

fn stands_at(s: &[char], pattern: &[char], i: usize) -> (yes: bool)
    requires
        i + pattern.len() <= s.len(),
    ensures
        yes == occurs_at(s@, pattern@, i as int),
{
    same_chars(slice_subrange(s, i, i + pattern.len()), pattern)
}

/// The first place at which `pattern` stands in `s`.
pub fn find_chars(s: &[char], pattern: &[char]) -> (place: Option<usize>)
    ensures
        place matches Some(i) ==> find(s@, pattern@) == Some(i as int) && occurs_at(
            s@,
            pattern@,
            i as int,
        ),
        place is None ==> find(s@, pattern@) is None && !occurs(s@, pattern@),
{
    if s.len() < pattern.len() {
        return None;
    }
    let mut i: usize = 0;
    while i <= s.len() - pattern.len()
        invariant
            pattern.len() <= s.len(),
            i <= s.len() - pattern.len() + 1,
            forall|j: int| occurs_at(s@, pattern@, j) ==> i <= j,
        decreases s.len() - pattern.len() + 1 - i,
    {
        if stands_at(s, pattern, i) {
            assert(first_at(s@, pattern@, i as int));
            return Some(i);
        }
        if i == s.len() - pattern.len() {
            return None;
        }
        i += 1;
    }
    None
}

/// The last place at which `pattern` stands in `s`.
pub fn rfind_chars(s: &[char], pattern: &[char]) -> (place: Option<usize>)
    ensures
        place matches Some(i) ==> rfind(s@, pattern@) == Some(i as int) && occurs_at(
            s@,
            pattern@,
            i as int,
        ),
        place is None ==> rfind(s@, pattern@) is None && !occurs(s@, pattern@),
{
    if s.len() < pattern.len() {
        return None;
    }
    let mut i: usize = s.len() - pattern.len();
    loop
        invariant
            pattern.len() <= s.len(),
            i <= s.len() - pattern.len(),
            forall|j: int| occurs_at(s@, pattern@, j) ==> j <= i,
        decreases i,
    {
        if stands_at(s, pattern, i) {
            assert(last_at(s@, pattern@, i as int));
            return Some(i);
        }
        if i == 0 {
            return None;
        }
        i -= 1;
    }
}

/// Whether `pattern` stands somewhere in `s`.
pub fn contains_chars(s: &[char], pattern: &[char]) -> (yes: bool)
    ensures
        yes == occurs(s@, pattern@),
{
    find_chars(s, pattern).is_some()
}

/// The place of the first `c` in `s`.
pub open spec fn position(s: Seq<char>, c: char) -> Option<int> {
    if exists|i: int| first_index(s, c, i) {
        Some(choose|i: int| first_index(s, c, i))
    } else {
        None
    }
}

/// `i` is the place of the first `c` in `s`.
pub open spec fn first_index(s: Seq<char>, c: char, i: int) -> bool {
    &&& 0 <= i < s.len()
    &&& s[i] == c
    &&& forall|j: int| 0 <= j < i ==> s[j] != c
}

/// The place of the first `c` in `s`.
pub fn find_char(s: &[char], c: char) -> (place: Option<usize>)
    ensures
        place matches Some(i) ==> position(s@, c) == Some(i as int) && first_index(
            s@,
            c,
            i as int,
        ),
        place is None ==> position(s@, c) is None && !s@.contains(c),
{
    let mut i: usize = 0;
    while i < s.len()
        invariant
            i <= s.len(),
            forall|j: int| 0 <= j < i ==> s@[j] != c,
        decreases s.len() - i,
    {
        if s[i] == c {
            assert(first_index(s@, c, i as int));
            assert(forall|k: int| first_index(s@, c, k) ==> k == i);
            return Some(i);
        }
        i += 1;
    }
    None
}

// ---------------------------------------------------------------------------
// Splitting
// ---------------------------------------------------------------------------

/// The runs of characters between the separators `c` in `s`: one more than
/// there are separators.
pub open spec fn split(s: Seq<char>, c: char) -> Seq<Seq<char>>
    decreases s.len(),
{
    match position(s, c) {
        Some(i) => if 0 <= i < s.len() {
            seq![s.take(i)] + split(s.skip(i + 1), c)
        } else {
            seq![s]
        },
        None => seq![s],
    }
}

/// The runs of characters between the separators `c` in `s`.
pub fn split_chars(s: &[char], c: char) -> (parts: Vec<&[char]>)
    ensures
        pieces(parts@) == split(s@, c),
{
    let mut parts: Vec<&[char]> = Vec::new();
    let mut rest = s;
    loop
        invariant
            pieces(parts@) + split(rest@, c) == split(s@, c),
        decreases rest.len(),
    {
        match find_char(rest, c) {
            None => {
                let ghost before = parts@;
                parts.push(rest);
                assert(pieces(parts@) == pieces(before).push(rest@));
                return parts;
            },
            Some(i) => {
                let ghost before = parts@;
                let ghost whole = rest@;
                parts.push(slice_subrange(rest, 0, i));
                rest = slice_subrange(rest, i + 1, rest.len());
                assert(pieces(parts@) == pieces(before).push(whole.take(i as int)));
                assert(whole.skip(i + 1) == rest@);
                assert(pieces(before) + (seq![whole.take(i as int)] + split(rest@, c))
                    == pieces(parts@) + split(rest@, c));
            },
        }
    }
}

/// A line without the carriage return that belongs to its line ending.
pub open spec fn without_cr(line: Seq<char>) -> Seq<char> {
    if line.len() > 0 && line.last() == '\r' {
        line.drop_last()
    } else {
        line
    }
}

/// The lines of `s`. A line ends at `\n` or `\r\n`, which is not part of it;
/// the last line may lack its ending.
pub open spec fn lines(s: Seq<char>) -> Seq<Seq<char>> {
    let parts = split(s, '\n');
    let ended = parts.drop_last().map_values(|line: Seq<char>| without_cr(line));
    if parts.last().len() == 0 {
        ended
    } else {
        ended.push(parts.last())
    }
}

fn cut_cr(line: &[char]) -> (r: &[char])
    ensures
        r@ == without_cr(line@),
{
    if line.len() > 0 && line[line.len() - 1] == '\r' {
        slice_subrange(line, 0, line.len() - 1)
    } else {
        line
    }
}

/// A text has at least one part, with or without separators.
pub proof fn lemma_split_not_empty(s: Seq<char>, c: char)
    ensures
        split(s, c).len() >= 1,
{
}

/// The lines of `s`.
pub fn split_lines(s: &[char]) -> (r: Vec<&[char]>)
    ensures
        pieces(r@) == lines(s@),
{
    let parts = split_chars(s, '\n');
    proof {
        lemma_split_not_empty(s@, '\n');
    }
    assert(parts.len() == pieces(parts@).len());
    let ghost all = split(s@, '\n');
    let n: usize = parts.len() - 1;
    let mut r: Vec<&[char]> = Vec::new();
    let mut i: usize = 0;
    while i < n
        invariant
            i <= n,
            n + 1 == parts.len(),
            pieces(parts@) == all,
            pieces(r@) == all.take(i as int).map_values(|line: Seq<char>| without_cr(line)),
        decreases n - i,
    {
        let ghost before = r@;
        r.push(cut_cr(parts[i]));
        assert(all[i as int] == parts@[i as int]@);
        assert(pieces(r@) == pieces(before).push(without_cr(all[i as int])));
        assert(all.take(i + 1) == all.take(i as int).push(all[i as int]));
        i += 1;
    }
    assert(all.take(n as int) == all.drop_last());
    assert(all.last() == parts@[n as int]@);
    if parts[n].len() > 0 {
        let ghost before = r@;
        r.push(parts[n]);
        assert(pieces(r@) == pieces(before).push(all.last()));
    }
    r
}

/// The number of characters before the first white space in `s`.
pub open spec fn word_len(s: Seq<char>) -> nat
    decreases s.len(),
{
    if s.len() == 0 || white_space(s[0]) {
        0
    } else {
        1 + word_len(s.skip(1))
    }
}

/// The words of `s`: its runs of characters between white space.
pub open spec fn words(s: Seq<char>) -> Seq<Seq<char>>
    decreases s.len(),
    when true
    via words_decreases
{
    let t = trimmed_start(s);
    if t.len() == 0 {
        seq![]
    } else {
        seq![t.take(word_len(t) as int)] + words(t.skip(word_len(t) as int))
    }
}

#[via_fn]
proof fn words_decreases(s: Seq<char>) {
    lemma_trimmed_start(s);
    lemma_word_len(trimmed_start(s));
}

/// Cutting leading white space leaves an end of the text that does not begin
/// with white space.
pub proof fn lemma_trimmed_start(s: Seq<char>)
    ensures
        trimmed_start(s).len() <= s.len(),
        trimmed_start(s) == s.skip(s.len() - trimmed_start(s).len()),
        trimmed_start(s).len() > 0 ==> !white_space(trimmed_start(s)[0]),
        forall|i: int| 0 <= i < s.len() - trimmed_start(s).len() ==> white_space(#[trigger] s[i]),
    decreases s.len(),
{
    if s.len() > 0 && white_space(s[0]) {
        lemma_trimmed_start(s.skip(1));
        let t = trimmed_start(s);
        assert(s.skip(1).skip(s.skip(1).len() - t.len()) == s.skip(s.len() - t.len()));
        assert forall|i: int| 0 <= i < s.len() - t.len() implies white_space(#[trigger] s[i]) by {
            if i > 0 {
                assert(s.skip(1)[i - 1] == s[i]);
            }
        }
    } else {
        assert(s.skip(0) == s);
    }
}

/// A word ends at the first white space or at the end of the text, and is not
/// empty where the text begins with another character.
pub proof fn lemma_word_len(s: Seq<char>)
    ensures
        word_len(s) <= s.len(),
        forall|i: int| 0 <= i < word_len(s) ==> !white_space(#[trigger] s[i]),
        word_len(s) < s.len() ==> white_space(s[word_len(s) as int]),
        s.len() > 0 && !white_space(s[0]) ==> word_len(s) > 0,
    decreases s.len(),
{
    if s.len() > 0 && !white_space(s[0]) {
        lemma_word_len(s.skip(1));
        assert forall|i: int| 0 <= i < word_len(s) implies !white_space(#[trigger] s[i]) by {
            if i > 0 {
                assert(s.skip(1)[i - 1] == s[i]);
            }
        }
    }
}

/// The words of `s`.
pub fn split_words(s: &[char]) -> (r: Vec<&[char]>)
    ensures
        pieces(r@) == words(s@),
{
    let mut r: Vec<&[char]> = Vec::new();
    let mut rest = s;
    loop
        invariant
            pieces(r@) + words(rest@) == words(s@),
        decreases rest.len(),
    {
        let t = trim_start(rest);
        proof {
            lemma_trimmed_start(rest@);
            lemma_word_len(t@);
        }
        if t.len() == 0 {
            return r;
        }
        let mut n: usize = 0;
        assert(t@.skip(0) == t@);
        while n < t.len() && !is_white_space(t[n])
            invariant
                n <= t.len(),
                word_len(t@) == n + word_len(t@.skip(n as int)),
            decreases t.len() - n,
        {
            assert(t@.skip(n as int).skip(1) == t@.skip(n + 1));
            n += 1;
        }
        let ghost before = r@;
        r.push(slice_subrange(t, 0, n));
        rest = slice_subrange(t, n, t.len());
        assert(pieces(r@) == pieces(before).push(t@.take(n as int)));
        assert(rest@ == t@.skip(n as int));
        assert(pieces(before) + (seq![t@.take(n as int)] + words(rest@)) == pieces(r@) + words(
            rest@,
        ));
    }
}

// ---------------------------------------------------------------------------
// Numbers
// ---------------------------------------------------------------------------

/// `c` is a digit of a number to the base `radix`, which is at most ten.
pub open spec fn is_digit(c: char, radix: nat) -> bool {
    '0' <= c <= '9' && (c as int) - ('0' as int) < (radix as int)
}

/// `s` holds digits only.
pub open spec fn all_digits(s: Seq<char>, radix: nat) -> bool {
    forall|i: int| 0 <= i < s.len() ==> is_digit(#[trigger] s[i], radix)
}

/// The number that a run of digits stands for.
pub open spec fn digits_value(s: Seq<char>, radix: nat) -> nat
    decreases s.len(),
{
    if s.len() == 0 {
        0
    } else {
        digits_value(s.drop_last(), radix) * radix + (s.last() as int - '0' as int) as nat
    }
}

/// The number that `s` stands for, if `s` is one or more digits, after a plus
/// sign or not, and the number is at most `max`.
pub open spec fn number(s: Seq<char>, radix: nat, max: nat) -> Option<nat> {
    let digits = if s.len() > 0 && s[0] == '+' {
        s.skip(1)
    } else {
        s
    };
    if digits.len() > 0 && all_digits(digits, radix) && digits_value(digits, radix) <= max {
        Some(digits_value(digits, radix))
    } else {
        None
    }
}

/// The `u32` that `s` stands for in decimal notation.
pub open spec fn u32_value(s: Seq<char>) -> Option<u32> {
    match number(s, 10, u32::MAX as nat) {
        Some(n) => Some(n as u32),
        None => None,
    }
}

/// The `u64` that `s` stands for in decimal notation.
pub open spec fn u64_value(s: Seq<char>) -> Option<u64> {
    match number(s, 10, u64::MAX as nat) {
        Some(n) => Some(n as u64),
        None => None,
    }
}

/// The `u32` that `s` stands for in octal notation.
pub open spec fn octal_value(s: Seq<char>) -> Option<u32> {
    match number(s, 8, u32::MAX as nat) {
        Some(n) => Some(n as u32),
        None => None,
    }
}

/// More digits do not make a number smaller.
proof fn lemma_digits_value_prefix(s: Seq<char>, radix: nat, n: int)
    requires
        0 <= n <= s.len(),
        radix >= 1,
    ensures
        digits_value(s.take(n), radix) <= digits_value(s, radix),
    decreases s.len(),
{
    if n == s.len() {
        assert(s.take(n) == s);
    } else {
        let p = digits_value(s.drop_last(), radix);
        lemma_digits_value_prefix(s.drop_last(), radix, n);
        assert(s.drop_last().take(n) == s.take(n));
        assert(p <= p * radix) by (nonlinear_arith)
            requires
                radix >= 1,
                p >= 0,
        ;
    }
}

/// The number that `s` stands for to the base `radix`.
fn parse_number(s: &[char], radix: u8, max: u64) -> (r: Option<u64>)
    requires
        2 <= radix <= 10,
    ensures
        r matches Some(v) ==> number(s@, radix as nat, max as nat) == Some(v as nat),
        r is None ==> number(s@, radix as nat, max as nat) is None,
{
    let digits = if s.len() > 0 && s[0] == '+' {
        slice_subrange(s, 1, s.len())
    } else {
        s
    };
    assert(s.len() > 0 ==> s@.subrange(1, s.len() as int) == s@.skip(1));
    if digits.len() == 0 {
        return None;
    }
    let mut value: u64 = 0;
    let mut i: usize = 0;
    while i < digits.len()
        invariant
            i <= digits.len(),
            2 <= radix <= 10,
            value <= max,
            value == digits_value(digits@.take(i as int), radix as nat),
            all_digits(digits@.take(i as int), radix as nat),
            digits@ == (if s@.len() > 0 && s@[0] == '+' {
                s@.skip(1)
            } else {
                s@
            }),
        decreases digits.len() - i,
    {
        let c = digits[i];
        let ghost upto = digits@.take(i + 1);
        assert(upto.drop_last() == digits@.take(i as int));
        assert(upto.last() == c);
        if !('0' <= c && c <= '9') || (c as u8 - '0' as u8) >= radix {
            assert(!is_digit(digits@[i as int], radix as nat));
            return None;
        }
        let digit: u8 = c as u8 - '0' as u8;
        assert(value * radix <= u64::MAX * 10) by (nonlinear_arith)
            requires
                0 <= value <= u64::MAX,
                2 <= radix <= 10,
        ;
        let next: u128 = value as u128 * radix as u128 + digit as u128;
        if next > max as u128 {
            proof {
                lemma_digits_value_prefix(digits@, radix as nat, i + 1);
            }
            return None;
        }
        value = next as u64;
        assert forall|j: int| 0 <= j < upto.len() implies is_digit(
            #[trigger] upto[j],
            radix as nat,
        ) by {
            if j < i {
                assert(digits@.take(i as int)[j] == upto[j]);
            }
        }
        i += 1;
    }
    assert(digits@.take(i as int) == digits@);
    Some(value)
}

/// The `u32` that `s` stands for in decimal notation.
pub fn parse_u32(s: &[char]) -> (r: Option<u32>)
    ensures
        r == u32_value(s@),
{
    match parse_number(s, 10, u32::MAX as u64) {
        Some(v) => Some(v as u32),
        None => None,
    }
}

/// The `u64` that `s` stands for in decimal notation.
pub fn parse_u64(s: &[char]) -> (r: Option<u64>)
    ensures
        r == u64_value(s@),
{
    parse_number(s, 10, u64::MAX)
}

/// The `u32` that `s` stands for in octal notation.
pub fn parse_octal(s: &[char]) -> (r: Option<u32>)
    ensures
        r == octal_value(s@),
{
    match parse_number(s, 8, u32::MAX as u64) {
        Some(v) => Some(v as u32),
        None => None,
    }
}

/// The decimal digit for `d`, which is less than ten.
pub open spec fn digit_char(d: nat) -> char {
    ('0' as int + d) as u8 as char
}

/// The decimal notation of `n`.
pub open spec fn decimal(n: nat) -> Seq<char>
    decreases n,
{
    if n < 10 {
        seq![digit_char(n)]
    } else {
        decimal(n / 10).push(digit_char(n % 10))
    }
}

/// Adds the decimal notation of `n` at the end of `text`.
pub fn push_decimal(text: &mut String, n: u64)
    ensures
        final(text)@ == old(text)@ + decimal(n as nat),
    decreases n,
{
    if n >= 10 {
        push_decimal(text, n / 10);
    }
    text.push(('0' as u8 + (n % 10) as u8) as char);
}

/// Reading the decimal notation of a number gives the number back.
pub proof fn decimal_reads_back(n: u32)
    ensures
        u32_value(decimal(n as nat)) == Some(n),
{
    lemma_decimal(n as nat);
    assert(decimal(n as nat)[0] != '+') by {
        assert(is_digit(decimal(n as nat)[0], 10));
    }
}

/// Decimal notation is one or more digits with the value of the number.
pub proof fn lemma_decimal(n: nat)
    ensures
        decimal(n).len() > 0,
        all_digits(decimal(n), 10),
        digits_value(decimal(n), 10) == n,
    decreases n,
{
    reveal_with_fuel(digits_value, 2);
    if n < 10 {
        assert(decimal(n).drop_last() == Seq::<char>::empty());
    } else {
        lemma_decimal(n / 10);
        let rest = decimal(n / 10);
        let s = decimal(n);
        assert(s.drop_last() == rest);
        assert forall|i: int| 0 <= i < s.len() implies is_digit(#[trigger] s[i], 10) by {
            if i < rest.len() {
                assert(s[i] == rest[i]);
            }
        }
    }
}

// ---------------------------------------------------------------------------
// Facts about splitting and trimming
// ---------------------------------------------------------------------------

/// The first of a character in a text that has it.
pub proof fn lemma_position(s: Seq<char>, c: char, i: int)
    requires
        first_index(s, c, i),
    ensures
        position(s, c) == Some(i),
{
    assert forall|k: int| first_index(s, c, k) implies k == i by {}
}

/// A text without the separator is one part.
pub proof fn lemma_split_one(s: Seq<char>, c: char)
    requires
        !s.contains(c),
    ensures
        split(s, c) == seq![s],
{
    assert(position(s, c) is None);
}

/// The parts of two texts around a separator are the parts of the one and
/// then those of the other.
pub proof fn lemma_split_concat(a: Seq<char>, c: char, b: Seq<char>)
    ensures
        split(a + seq![c] + b, c) == split(a, c) + split(b, c),
    decreases a.len(),
{
    let s = a + seq![c] + b;
    match position(a, c) {
        Some(i) => {
            assert(first_index(a, c, i));
            assert forall|j: int| 0 <= j < i implies s[j] != c by {
                assert(s[j] == a[j]);
            }
            assert(s[i] == a[i]);
            lemma_position(s, c, i);
            lemma_split_concat(a.skip(i + 1), c, b);
            assert(s.take(i) == a.take(i));
            assert(s.skip(i + 1) == a.skip(i + 1) + seq![c] + b);
            assert(split(a, c) == seq![a.take(i)] + split(a.skip(i + 1), c));
            assert(split(s, c) == seq![a.take(i)] + (split(a.skip(i + 1), c) + split(b, c)));
            assert(split(s, c) == split(a, c) + split(b, c));
        },
        None => {
            let n = a.len() as int;
            assert forall|j: int| 0 <= j < n implies s[j] != c by {
                assert(s[j] == a[j]);
                if a[j] == c {
                    lemma_has_first(a, c, j);
                }
            }
            assert(s[n] == c);
            assert(first_index(s, c, n));
            lemma_position(s, c, n);
            assert(s.take(n) == a);
            assert(s.skip(n + 1) == b);
        },
    }
}

/// A text that has a character has a first one of it.
pub proof fn lemma_has_first(s: Seq<char>, c: char, i: int)
    requires
        0 <= i < s.len(),
        s[i] == c,
    ensures
        exists|k: int| first_index(s, c, k),
        position(s, c) is Some,
    decreases i,
{
    if exists|j: int| 0 <= j < i && s[j] == c {
        let j = choose|j: int| 0 <= j < i && s[j] == c;
        lemma_has_first(s, c, j);
    } else {
        assert(first_index(s, c, i));
    }
}

/// A line before other text is its first line.
pub proof fn lemma_lines_first(line: Seq<char>, rest: Seq<char>)
    requires
        !line.contains('\n'),
    ensures
        lines(line + seq!['\n'] + rest) == seq![without_cr(line)] + lines(rest),
{
    lemma_split_concat(line, '\n', rest);
    lemma_split_one(line, '\n');
    lemma_split_not_empty(rest, '\n');
    let parts = split(rest, '\n');
    let all = split(line + seq!['\n'] + rest, '\n');
    assert(all == seq![line] + parts);
    assert(all.last() == parts.last());
    assert(all.drop_last() == seq![line] + parts.drop_last());
    let f = |l: Seq<char>| without_cr(l);
    assert(all.drop_last().map_values(f) == seq![without_cr(line)] + parts.drop_last().map_values(
        f,
    ));
    if parts.last().len() != 0 {
        assert((seq![without_cr(line)] + parts.drop_last().map_values(f)).push(parts.last())
            == seq![without_cr(line)] + parts.drop_last().map_values(f).push(parts.last()));
    }
}

/// Text that does not end with white space keeps its end.
pub proof fn lemma_trimmed_end_kept(s: Seq<char>)
    requires
        s.len() > 0 ==> !white_space(s.last()),
    ensures
        trimmed_end(s) == s,
{
}

/// White space at the end is cut.
pub proof fn lemma_trimmed_end_cut(s: Seq<char>, c: char)
    requires
        white_space(c),
    ensures
        trimmed_end(s.push(c)) == trimmed_end(s),
{
    assert(s.push(c).drop_last() == s);
}

/// Cutting trailing white space leaves a beginning of the text that does not
/// end with white space.
pub proof fn lemma_trimmed_end(s: Seq<char>)
    ensures
        trimmed_end(s).len() <= s.len(),
        trimmed_end(s) == s.take(trimmed_end(s).len() as int),
        trimmed_end(s).len() > 0 ==> !white_space(trimmed_end(s).last()),
        forall|i: int| trimmed_end(s).len() <= i < s.len() ==> white_space(#[trigger] s[i]),
    decreases s.len(),
{
    if s.len() > 0 && white_space(s.last()) {
        lemma_trimmed_end(s.drop_last());
        let t = trimmed_end(s);
        assert(s.drop_last().take(t.len() as int) == s.take(t.len() as int));
        assert forall|i: int| t.len() <= i < s.len() implies white_space(#[trigger] s[i]) by {
            if i < s.len() - 1 {
                assert(s.drop_last()[i] == s[i]);
            }
        }
    } else {
        assert(s.take(s.len() as int) == s);
    }
}

/// A trimmed text is empty or begins and ends with other characters than
/// white space.
pub proof fn lemma_trimmed(s: Seq<char>)
    ensures
        trimmed(s).len() > 0 ==> !white_space(trimmed(s)[0]) && !white_space(trimmed(s).last()),
{
    lemma_trimmed_start(s);
    lemma_trimmed_end(trimmed_start(s));
}

/// A text that begins and ends with other characters than white space is
/// trimmed already.
pub proof fn lemma_trimmed_kept(s: Seq<char>)
    requires
        s.len() > 0 ==> !white_space(s[0]) && !white_space(s.last()),
    ensures
        trimmed(s) == s,
{
}

/// The carriage return of a line ending is cut by trimming anyway.
pub proof fn lemma_trimmed_without_cr(line: Seq<char>)
    ensures
        trimmed(without_cr(line)) == trimmed(line),
{
    if line.len() > 0 && line.last() == '\r' {
        lemma_trimmed_start_push(line.drop_last(), '\r');
        assert(line == line.drop_last().push('\r'));
        let t = trimmed_start(line.drop_last());
        if t.len() > 0 {
            lemma_trimmed_end_cut(t, '\r');
        } else {
            assert(trimmed_start(line).len() == 0);
        }
    }
}

/// White space after a text is cut from the start where the text is blank,
/// and stays where it is not.
pub proof fn lemma_trimmed_start_push(s: Seq<char>, c: char)
    requires
        white_space(c),
    ensures
        trimmed_start(s.push(c)) == (if trimmed_start(s).len() == 0 {
            Seq::empty()
        } else {
            trimmed_start(s).push(c)
        }),
    decreases s.len(),
{
    if s.len() == 0 {
        assert(s.push(c).skip(1) == Seq::<char>::empty());
        reveal_with_fuel(trimmed_start, 2);
    } else if white_space(s[0]) {
        assert(s.push(c).skip(1) == s.skip(1).push(c));
        lemma_trimmed_start_push(s.skip(1), c);
    }
}

// ---------------------------------------------------------------------------
// Laws
// ---------------------------------------------------------------------------

/// Strings and slices are taken one for one, in order, as the characters that
/// they hold.
pub proof fn texts_keep_everything(strings: Seq<String>, slices: Seq<&[char]>)
    ensures
        texts(strings).len() == strings.len(),
        forall|i: int| 0 <= i < strings.len() ==> #[trigger] texts(strings)[i] == strings[i]@,
        pieces(slices).len() == slices.len(),
        forall|i: int| 0 <= i < slices.len() ==> #[trigger] pieces(slices)[i] == slices[i]@,
{
}

/// The capital letters of ASCII become the small ones; every other character
/// stays, and so does the length of a text.
pub proof fn only_ascii_capitals_change(s: Seq<char>, i: int)
    requires
        0 <= i < s.len(),
    ensures
        lowered(s).len() == s.len(),
        65 <= s[i] as int <= 90 ==> lowered(s)[i] as int == s[i] as int + 32,
        !(65 <= s[i] as int <= 90) ==> lowered(s)[i] == s[i],
{
}

/// A text stands in another exactly if the other is made of a text before it,
/// it, and a text after it.
pub proof fn what_occurs_is_a_part(s: Seq<char>, pattern: Seq<char>)
    ensures
        occurs(s, pattern) <==> exists|a: Seq<char>, b: Seq<char>| s == #[trigger] (a + pattern + b),
{
    if occurs(s, pattern) {
        let i = choose|i: int| occurs_at(s, pattern, i);
        let a = s.take(i);
        let b = s.skip(i + pattern.len());
        assert(s == a + pattern + b);
    }
    if exists|a: Seq<char>, b: Seq<char>| s == #[trigger] (a + pattern + b) {
        let (a, b) = choose|a: Seq<char>, b: Seq<char>| s == #[trigger] (a + pattern + b);
        assert(s.subrange(a.len() as int, (a.len() + pattern.len()) as int) == pattern);
        assert(occurs_at(s, pattern, a.len() as int));
    }
}

proof fn lemma_occurs_at_skip(s: Seq<char>, pattern: Seq<char>, i: int)
    requires
        0 <= i <= s.len(),
    ensures
        occurs_at(s, pattern, i) == pattern.is_prefix_of(s.skip(i)),
{
    if i + pattern.len() <= s.len() {
        assert(s.skip(i).subrange(0, pattern.len() as int) == s.subrange(i, i + pattern.len()));
    }
}

/// What is found is the first place at which the text goes on with the
/// pattern.
pub proof fn the_first_place_is_found(s: Seq<char>, pattern: Seq<char>, i: int)
    requires
        0 <= i <= s.len(),
        pattern.is_prefix_of(s.skip(i)),
        forall|j: int| 0 <= j < i ==> !pattern.is_prefix_of(#[trigger] s.skip(j)),
    ensures
        find(s, pattern) == Some(i),
{
    lemma_occurs_at_skip(s, pattern, i);
    assert forall|j: int| occurs_at(s, pattern, j) implies i <= j by {
        if j < i {
            lemma_occurs_at_skip(s, pattern, j);
            assert(!pattern.is_prefix_of(s.skip(j)));
        }
    }
    assert(first_at(s, pattern, i));
    let k = choose|k: int| first_at(s, pattern, k);
    assert(k == i);
}

/// What is found from the end is the last place at which the text goes on with
/// the pattern.
pub proof fn the_last_place_is_found(s: Seq<char>, pattern: Seq<char>, i: int)
    requires
        0 <= i <= s.len(),
        pattern.is_prefix_of(s.skip(i)),
        forall|j: int| i < j <= s.len() ==> !pattern.is_prefix_of(#[trigger] s.skip(j)),
    ensures
        rfind(s, pattern) == Some(i),
{
    lemma_occurs_at_skip(s, pattern, i);
    assert forall|j: int| occurs_at(s, pattern, j) implies j <= i by {
        if j > i {
            lemma_occurs_at_skip(s, pattern, j);
            assert(!pattern.is_prefix_of(s.skip(j)));
        }
    }
    assert(last_at(s, pattern, i));
    let k = choose|k: int| last_at(s, pattern, k);
    assert(k == i);
}

/// A pattern with which the text goes on nowhere is not found.
pub proof fn what_is_not_there_is_not_found(s: Seq<char>, pattern: Seq<char>)
    requires
        forall|j: int| 0 <= j <= s.len() ==> !pattern.is_prefix_of(#[trigger] s.skip(j)),
    ensures
        find(s, pattern) is None,
        rfind(s, pattern) is None,
        !occurs(s, pattern),
{
    assert forall|j: int| !occurs_at(s, pattern, j) by {
        if 0 <= j <= s.len() {
            lemma_occurs_at_skip(s, pattern, j);
            assert(!pattern.is_prefix_of(s.skip(j)));
        }
    }
}

/// The place of a character is the first; there is none where the text does
/// not hold the character.
pub proof fn the_first_of_a_character_is_found(a: Seq<char>, c: char, b: Seq<char>)
    requires
        !a.contains(c),
    ensures
        position(a + seq![c] + b, c) == Some(a.len() as int),
        position(a, c) is None,
{
    let s = a + seq![c] + b;
    assert forall|j: int| 0 <= j < a.len() implies s[j] != c by {
        assert(s[j] == a[j]);
        assert(a.contains(a[j]));
    }
    lemma_position(s, c, a.len() as int);
    assert forall|j: int| !first_index(a, c, j) by {
        if first_index(a, c, j) {
            assert(a.contains(a[j]));
        }
    }
}

/// The text is white space throughout.
pub open spec fn is_blank(s: Seq<char>) -> bool {
    forall|i: int| 0 <= i < s.len() ==> white_space(#[trigger] s[i])
}

/// The text holds no white space.
pub open spec fn is_word(s: Seq<char>) -> bool {
    s.len() > 0 && forall|i: int| 0 <= i < s.len() ==> !white_space(#[trigger] s[i])
}

/// White space at the start is cut, and nothing else.
pub proof fn lemma_trimmed_start_margin(a: Seq<char>, s: Seq<char>)
    requires
        is_blank(a),
        s.len() > 0 ==> !white_space(s[0]),
    ensures
        trimmed_start(a + s) == s,
    decreases a.len(),
{
    if a.len() == 0 {
        assert(a + s == s);
    } else {
        assert(white_space(a[0]));
        assert((a + s)[0] == a[0]);
        assert((a + s).skip(1) == a.skip(1) + s);
        assert forall|i: int| 0 <= i < a.skip(1).len() implies white_space(
            #[trigger] a.skip(1)[i],
        ) by {
            assert(a.skip(1)[i] == a[i + 1]);
        }
        lemma_trimmed_start_margin(a.skip(1), s);
    }
}

proof fn lemma_trimmed_end_margin(s: Seq<char>, b: Seq<char>)
    requires
        is_blank(b),
        s.len() > 0 ==> !white_space(s.last()),
    ensures
        trimmed_end(s + b) == s,
    decreases b.len(),
{
    if b.len() == 0 {
        assert(s + b == s);
    } else {
        assert(white_space(b[b.len() - 1]));
        assert((s + b).last() == b.last());
        assert((s + b).drop_last() == s + b.drop_last());
        assert forall|i: int| 0 <= i < b.drop_last().len() implies white_space(
            #[trigger] b.drop_last()[i],
        ) by {
            assert(b.drop_last()[i] == b[i]);
        }
        lemma_trimmed_end_margin(s, b.drop_last());
    }
}

/// Trimming takes away the white space on both sides of a text, whatever
/// stands between, and nothing else.
pub proof fn trimming_takes_margins_away(a: Seq<char>, s: Seq<char>, b: Seq<char>)
    requires
        is_blank(a),
        is_blank(b),
        s.len() > 0 ==> !white_space(s[0]) && !white_space(s.last()),
    ensures
        trimmed(a + s + b) == s,
{
    if s.len() > 0 {
        assert(a + s + b == a + (s + b));
        assert((s + b)[0] == s[0]);
        lemma_trimmed_start_margin(a, s + b);
        lemma_trimmed_end_margin(s, b);
    } else {
        let all = a + s + b;
        assert forall|i: int| 0 <= i < all.len() implies white_space(#[trigger] all[i]) by {
            if i < a.len() {
                assert(all[i] == a[i]);
            } else {
                assert(all[i] == b[i - a.len()]);
            }
        }
        assert(all + Seq::<char>::empty() == all);
        lemma_trimmed_start_margin(all, Seq::empty());
        assert(s == Seq::<char>::empty());
    }
}

/// A line ending is a line feed, with a carriage return before it or not. What
/// follows the last is a line too, unless it is empty.
pub proof fn lines_end_at_line_feeds(line: Seq<char>, rest: Seq<char>)
    requires
        !line.contains('\n'),
    ensures
        lines(line + seq!['\r', '\n'] + rest) == seq![line] + lines(rest),
        line.len() == 0 || line.last() != '\r' ==> lines(line + seq!['\n'] + rest) == seq![line]
            + lines(rest),
        line.len() > 0 ==> lines(line) == seq![line],
        lines(Seq::empty()) == Seq::<Seq<char>>::empty(),
{
    let ended = line.push('\r');
    assert forall|i: int| 0 <= i < ended.len() implies ended[i] != '\n' by {
        if i < line.len() {
            assert(line.contains(line[i]));
        }
    }
    assert(line + seq!['\r', '\n'] + rest == ended + seq!['\n'] + rest);
    lemma_lines_first(ended, rest);
    assert(ended.drop_last() == line);
    lemma_lines_first(line, rest);
    lemma_split_one(line, '\n');
    let f = |l: Seq<char>| without_cr(l);
    assert(seq![line].drop_last().map_values(f) == Seq::<Seq<char>>::empty());
    assert(Seq::<Seq<char>>::empty().push(line) == seq![line]);
    let nothing = Seq::<char>::empty();
    lemma_split_one(nothing, '\n');
    assert(seq![nothing].drop_last().map_values(f) == Seq::<Seq<char>>::empty());
}

/// The words of a text are its runs of other characters than white space, one
/// after the other.
pub proof fn words_are_runs(space: Seq<char>, w: Seq<char>, rest: Seq<char>)
    requires
        is_blank(space),
        is_word(w),
        rest.len() > 0 ==> white_space(rest[0]),
    ensures
        words(space + w + rest) == seq![w] + words(rest),
        words(space) == Seq::<Seq<char>>::empty(),
{
    let s = w + rest;
    assert(space + w + rest == space + s);
    assert(s[0] == w[0]);
    assert(!white_space(w[0]));
    lemma_trimmed_start_margin(space, s);
    lemma_word_len(s);
    let n = word_len(s);
    if n < w.len() {
        assert(s[n as int] == w[n as int]);
    }
    if n > w.len() {
        assert(s[w.len() as int] == rest[0]);
    }
    assert(s.take(n as int) == w);
    assert(s.skip(n as int) == rest);
    assert(space + Seq::<char>::empty() == space);
    lemma_trimmed_start_margin(space, Seq::empty());
}

/// Reading a number is reading its digits by their places: a plus sign and
/// zeros in front make no difference, and anything but digits is no number.
pub proof fn numbers_are_read_by_places(s: Seq<char>, d: char, radix: nat, max: nat)
    requires
        0 < radix <= 10,
    ensures
        digits_value(Seq::empty(), radix) == 0,
        digits_value(s.push(d), radix) == radix * digits_value(s, radix) + (d as int - '0' as int)
            as nat,
        number(Seq::empty(), radix, max) is None,
        number(seq!['+'], radix, max) is None,
        s.len() > 0 && all_digits(s, radix) ==> number(s, radix, max) == number(
            seq!['+'] + s,
            radix,
            max,
        ),
        s.len() > 0 && all_digits(s, radix) && digits_value(s, radix) <= max ==> number(
            s,
            radix,
            max,
        ) == Some(digits_value(s, radix)),
        digits_value(s, radix) > max && all_digits(s, radix) ==> number(s, radix, max) is None,
        s.len() > 0 && s[0] != '+' && !all_digits(s, radix) ==> number(s, radix, max) is None,
        !all_digits(s, radix) ==> number(seq!['+'] + s, radix, max) is None,
{
    assert(s.push(d).drop_last() == s);
    let v = digits_value(s, radix);
    assert(v * radix == radix * v) by (nonlinear_arith);
    assert((seq!['+'] + s).skip(1) == s);
    assert(seq!['+'].skip(1) == Seq::<char>::empty());
    if s.len() > 0 && all_digits(s, radix) {
        assert(is_digit(s[0], radix));
    }
}

/// Digits are those of ASCII, up to the radix.
pub proof fn digits_are_ascii(c: char, radix: nat)
    requires
        radix <= 10,
    ensures
        is_digit(c, radix) <==> 48 <= c as int && c as int - 48 < radix,
{
}

/// A number up to the largest is read whole, to the base ten or eight, and a
/// larger one is none.
pub proof fn whole_range_is_read(s: Seq<char>)
    requires
        s.len() > 0,
    ensures
        all_digits(s, 10) && digits_value(s, 10) <= 4294967295 ==> u32_value(s) == Some(
            digits_value(s, 10) as u32,
        ),
        all_digits(s, 10) && digits_value(s, 10) > 4294967295 ==> u32_value(s) is None,
        all_digits(s, 10) && digits_value(s, 10) <= 18446744073709551615 ==> u64_value(s) == Some(
            digits_value(s, 10) as u64,
        ),
        all_digits(s, 10) && digits_value(s, 10) > 18446744073709551615 ==> u64_value(s) is None,
        all_digits(s, 8) && digits_value(s, 8) <= 4294967295 ==> octal_value(s) == Some(
            digits_value(s, 8) as u32,
        ),
        all_digits(s, 8) && digits_value(s, 8) > 4294967295 ==> octal_value(s) is None,
        s[0] != '+' && !all_digits(s, 10) ==> u32_value(s) is None && u64_value(s) is None,
        s[0] != '+' && !all_digits(s, 8) ==> octal_value(s) is None,
        u32_value(seq!['+'] + s) == if s[0] == '+' {
            None
        } else {
            u32_value(s)
        },
        u64_value(seq!['+'] + s) == if s[0] == '+' {
            None
        } else {
            u64_value(s)
        },
        octal_value(seq!['+'] + s) == if s[0] == '+' {
            None
        } else {
            octal_value(s)
        },
{
    assert((seq!['+'] + s).skip(1) == s);
    if all_digits(s, 10) {
        assert(is_digit(s[0], 10));
    }
    if all_digits(s, 8) {
        assert(is_digit(s[0], 8));
    }
}

/// A number is written with no zero in front.
pub proof fn decimal_is_shortest(n: nat)
    ensures
        n >= 10 ==> decimal(n)[0] != '0',
        n < 10 ==> decimal(n).len() == 1,
        u64::MAX >= n ==> u64_value(decimal(n)) == Some(n as u64),
    decreases n,
{
    lemma_decimal(n);
    assert(is_digit(decimal(n)[0], 10));
    if n >= 10 {
        decimal_is_shortest(n / 10);
        lemma_decimal(n / 10);
        assert(decimal(n)[0] == decimal(n / 10)[0]);
    }
}

/// A text is digits throughout if each of its characters is a digit up to the
/// radix.
pub proof fn digits_throughout(s: Seq<char>, radix: nat)
    requires
        radix <= 10,
    ensures
        all_digits(s, radix) <==> forall|i: int|
            0 <= i < s.len() ==> 48 <= (#[trigger] s[i]) as int && s[i] as int - 48 < radix,
{
    if all_digits(s, radix) {
        assert forall|i: int| 0 <= i < s.len() implies 48 <= (#[trigger] s[i]) as int && s[i] as int
            - 48 < radix by {
            assert(is_digit(s[i], radix));
        }
    }
}

} // verus!
