//! The text helpers against what std does.

use flamegraph_viewer::text;

const SAMPLES: [&str; 12] = [
    "",
    " ",
    "a",
    "  a b\tc  ",
    "\u{a0}x\u{2003}",
    "line\nline\r\nlast\r",
    "\n\n",
    "a\n",
    "\r\n",
    "no newline",
    "\u{85}next\u{3000}",
    "tab\tand\u{b}vt",
];

fn chars(s: &str) -> Vec<char> {
    text::chars_of(s)
}

fn back(c: &[char]) -> String {
    text::string_of(c)
}

#[test]
fn characters_round_trip() {
    for s in SAMPLES {
        assert_eq!(back(&chars(s)), s);
        assert_eq!(chars(s), s.chars().collect::<Vec<char>>());
    }
}

#[test]
fn white_space_is_that_of_std() {
    for n in 0..0x3100u32 {
        if let Some(c) = char::from_u32(n) {
            assert_eq!(text::is_whitespace(c), c.is_whitespace(), "{n:x}");
        }
    }
}

#[test]
fn trimming_is_that_of_std() {
    for s in SAMPLES {
        assert_eq!(back(text::trim(&chars(s))), s.trim());
        assert_eq!(back(text::trim_start(&chars(s))), s.trim_start());
        assert_eq!(back(text::trim_end(&chars(s))), s.trim_end());
    }
}

#[test]
fn lines_and_words_are_those_of_std() {
    for s in SAMPLES {
        assert_eq!(text::lines(&chars(s)), s.lines().collect::<Vec<&str>>(), "{s:?}");
        assert_eq!(
            text::split_whitespace(&chars(s)),
            s.split_whitespace().collect::<Vec<&str>>()
        );
    }
}

#[test]
fn searching_is_that_of_std() {
    let s = "a+0xb+0xc";
    assert_eq!(text::rfind(&chars(s), &chars("+0x")), s.rfind("+0x"));
    assert_eq!(text::rfind(&chars(s), &chars("zz")), None);
    assert!(text::contains(&chars(s), &chars("xb")));
    assert!(!text::contains(&chars(s), &chars("xx")));
    assert!(text::contains(&chars(""), &chars("")));
    assert_eq!(text::find_char(&chars(s), '+'), 1);
    assert_eq!(text::find_char(&chars(s), '#'), s.len());
    assert_eq!(text::find_space(&chars("ab c")), 2);
}

#[test]
fn numbers_are_read_as_by_std() {
    for s in [
        "", "0", "7", "007", "+5", "-5", "+", "1x", " 1", "1 ", "18446744073709551615",
        "18446744073709551616", "99999999999999999999999", "+-1", "٣",
    ] {
        assert_eq!(text::parse_u64(&chars(s)), s.parse::<u64>().ok(), "{s}");
        assert_eq!(text::parse_usize(&chars(s)), s.parse::<usize>().ok(), "{s}");
    }
}

#[test]
fn floats_are_recognised_as_by_std() {
    for s in [
        "", ".", "0", "1.", ".5", "1.5", "-1.5", "+1.5", "1e5", "1E5", "1e+5", "1e-5", "1e", "e5",
        "1e5.0", "inf", "INF", "-infinity", "infinit", "nan", "-NaN", "1_0", "0x1", " 1", "1 ",
        "1..2", "--1", "26795.734316", "1.2.3", "+", "-", "+.e1", "5.e3", ".e3", "1e+", "infinitye",
    ] {
        assert_eq!(text::is_float(&chars(s)), s.parse::<f64>().is_ok(), "{s}");
    }
}

#[test]
fn numbers_are_written_as_by_std() {
    for n in [0u64, 1, 9, 10, 15, 16, 255, 1000, 12345678901234567890, u64::MAX] {
        let mut decimal = String::new();
        text::push_decimal(&mut decimal, n);
        assert_eq!(decimal, n.to_string());
        let mut hex = String::new();
        text::push_hex(&mut hex, n);
        assert_eq!(hex, format!("{n:x}"));
    }
}

#[test]
fn columns_are_those_of_std() {
    for (s, width) in [("", 3), ("ab", 5), ("abcdef", 3), ("é…", 4)] {
        let mut out = String::from("|");
        text::push_padded(&mut out, s, width);
        assert_eq!(out, format!("|{s:>width$}"));
    }
    let list = vec!["a".to_string(), "b".to_string(), "c".to_string()];
    assert_eq!(text::join(&list, 3, ", "), "a, b, c");
    assert_eq!(text::join(&list, 1, ", "), "a");
    assert_eq!(text::join(&list, 0, ", "), "");
}

#[test]
fn order_is_that_of_std() {
    for a in ["", "a", "ab", "b", "é", "Z", "z", "\u{10000}", "\u{ffff}"] {
        for b in ["", "a", "ab", "b", "é", "Z", "z", "\u{10000}", "\u{ffff}"] {
            assert_eq!(text::comes_before(a, b), a < b, "{a} {b}");
            assert_eq!(text::same_text(a, b), a == b);
        }
    }
}
