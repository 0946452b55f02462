use dmemcg_booster::text::{
    contains_chars, find_char, find_chars, is_white_space, parse_octal, parse_u32, parse_u64,
    push_decimal, rfind_chars, split_chars, split_lines, split_words, to_chars, to_lower, to_text,
    trim,
};

fn chars(s: &str) -> Vec<char> {
    to_chars(s)
}

fn strings(parts: &[&[char]]) -> Vec<String> {
    parts.iter().map(|p| p.iter().collect()).collect()
}

const SAMPLES: [&str; 14] = [
    "",
    " ",
    "abc",
    "  a b  ",
    "\ta\u{a0}b\u{3000}",
    "a\nb\r\nc",
    "a\n\nb\n",
    "\n",
    "\r",
    "x\r\n",
    "\u{2028}z\u{85}",
    "one  two\tthree",
    "é ü\u{200b}",
    "\r\r\n\r",
];

#[test]
fn white_space_is_that_of_unicode() {
    for c in '\0'..=char::MAX {
        assert_eq!(is_white_space(c), c.is_whitespace(), "{:?}", c);
    }
}

#[test]
fn lower_case_is_that_of_ascii() {
    for c in '\0'..'\u{250}' {
        assert_eq!(to_lower(c), c.to_ascii_lowercase());
    }
}

#[test]
fn texts_are_cut_as_usual() {
    for s in SAMPLES {
        let c = chars(s);
        assert_eq!(to_text(&c), s);
        assert_eq!(to_text(trim(&c)), s.trim());
        let lines: Vec<String> = s.lines().map(String::from).collect();
        assert_eq!(strings(&split_lines(&c)), lines, "{:?}", s);
        let words: Vec<String> = s.split_whitespace().map(String::from).collect();
        assert_eq!(strings(&split_words(&c)), words, "{:?}", s);
        let parts: Vec<String> = s.split('b').map(String::from).collect();
        assert_eq!(strings(&split_chars(&c, 'b')), parts, "{:?}", s);
    }
}

#[test]
fn patterns_are_found() {
    let c = chars("a) b) c");
    assert_eq!(find_chars(&c, &chars(") ")), Some(1));
    assert_eq!(rfind_chars(&c, &chars(") ")), Some(4));
    assert_eq!(find_chars(&c, &chars("x")), None);
    assert_eq!(rfind_chars(&c, &chars("x")), None);
    assert_eq!(find_chars(&c, &chars("")), Some(0));
    assert_eq!(rfind_chars(&c, &chars("")), Some(7));
    assert_eq!(find_char(&c, 'b'), Some(3));
    assert_eq!(find_char(&c, 'x'), None);
    assert!(contains_chars(&c, &chars("b) c")));
    assert!(!contains_chars(&c, &chars("b)c")));
}

#[test]
fn numbers_are_read_as_usual() {
    for s in [
        "", "0", "7", "007", "+7", "+", "-1", "-0", "4294967295", "4294967296", "00004294967296",
        "18446744073709551615", "18446744073709551616", "1 ", " 1", "1_0", "a", "12a", "٣", "++1",
    ] {
        let c = chars(s);
        assert_eq!(parse_u32(&c), s.parse::<u32>().ok(), "{:?}", s);
        assert_eq!(parse_u64(&c), s.parse::<u64>().ok(), "{:?}", s);
        assert_eq!(parse_octal(&c), u32::from_str_radix(s, 8).ok(), "{:?}", s);
    }
    assert_eq!(parse_octal(&chars("660")), Some(0o660));
    assert_eq!(parse_octal(&chars("680")), None);
    assert_eq!(parse_octal(&chars("37777777777")), Some(u32::MAX));
    assert_eq!(parse_octal(&chars("40000000000")), None);
}

#[test]
fn numbers_are_written_and_read_back() {
    for n in [0, 9, 10, 100, 4096, 99_999, u32::MAX] {
        let mut s = String::from("n");
        push_decimal(&mut s, n as u64);
        assert_eq!(s, format!("n{n}"));
        assert_eq!(parse_u32(&chars(&s[1..])), Some(n));
    }
}
