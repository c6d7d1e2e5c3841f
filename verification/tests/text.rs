use chrond::text::{
    chars_of, count_bytes, end_of_bytes, is_whitespace, join_path, last_of_chars, lines,
    parse_unsigned, push_decimal, push_left_aligned, push_right_aligned, push_signed, split,
    split_once, string_of, strip_prefix, text_precedes, to_lower, trim, trim_end, words,
};

fn c(s: &str) -> Vec<char> {
    chars_of(s)
}

fn all(v: Vec<&[char]>) -> Vec<String> {
    v.into_iter().map(|x| x.iter().collect()).collect()
}

#[test]
fn white_space_is_that_of_std() {
    for n in 0..=0x10ffffu32 {
        if let Some(ch) = char::from_u32(n) {
            assert_eq!(is_whitespace(ch), ch.is_whitespace(), "{n:x}");
        }
    }
}

#[test]
fn lines_words_and_pieces_are_those_of_std() {
    let samples = [
        "", "\n", "a", "a\n", "a\nb", "a\r\nb\r\n", "\r", "a\r", "\n\n", " a  b\t c ", "\u{3000}x\u{85}y",
        "a,b,,c", ",", "x=y=z", "=", "日本 語,\r\r\n",
    ];
    for s in samples {
        let v = c(s);
        assert_eq!(all(lines(&v)), s.lines().collect::<Vec<_>>(), "{s:?}");
        assert_eq!(all(words(&v)), s.split_whitespace().collect::<Vec<_>>(), "{s:?}");
        assert_eq!(all(split(&v, ',')), s.split(',').collect::<Vec<_>>(), "{s:?}");
        assert_eq!(string_of(trim(&v)), s.trim(), "{s:?}");
        assert_eq!(string_of(trim_end(&v)), s.trim_end(), "{s:?}");
        let once = split_once(&v, '=').map(|(a, b)| (string_of(a), string_of(b)));
        let std_once = s.split_once('=').map(|(a, b)| (a.to_string(), b.to_string()));
        assert_eq!(once, std_once, "{s:?}");
        assert_eq!(string_of(&to_lower(&v)), s.to_ascii_lowercase());
    }
    assert_eq!(string_of(&to_lower(&c("@HoUrLyÄ"))), "@HoUrLyÄ".to_ascii_lowercase());
}

#[test]
fn numbers_are_read_as_std_reads_them() {
    let samples = [
        "", "+", "0", "+0", "007", "42", "-1", "4294967295", "4294967296", "99999999999999999999", "1a",
        " 1", "١",
    ];
    for s in samples {
        let ours = parse_unsigned(&c(s), u32::MAX as u64).map(|n| n as u32);
        assert_eq!(ours, s.parse::<u32>().ok(), "{s:?}");
        assert_eq!(parse_unsigned(&c(s), u64::MAX), s.parse::<u64>().ok(), "{s:?}");
    }
}

#[test]
fn numbers_are_written_as_std_writes_them() {
    for n in [0u64, 9, 10, 11, 100, 1234567890, u64::MAX] {
        let mut out = String::new();
        push_decimal(&mut out, n);
        assert_eq!(out, n.to_string());
        assert_eq!(parse_unsigned(&c(&out), u64::MAX), Some(n));
    }
    for n in [0i64, -1, 1, i64::MIN, i64::MAX] {
        let mut out = String::new();
        push_signed(&mut out, n);
        assert_eq!(out, n.to_string());
    }
}

#[test]
fn order_is_that_of_std_strings() {
    let samples = ["", "a", "aa", "ab", "b", "Z", "é", "あ", "\u{ffff}", "\u{10000}", "a\u{10000}"];
    for a in samples {
        for b in samples {
            assert_eq!(text_precedes(a, b), a < b, "{a:?} {b:?}");
        }
    }
}

#[test]
fn bytes_and_widths() {
    for s in ["", "a", "é", "あ", "\u{10000}", "aé\u{10000}"] {
        assert_eq!(count_bytes(s), s.len());
    }
    assert_eq!(string_of(end_of_bytes(&c("aé\u{10000}"), 6)), "é\u{10000}");
    assert_eq!(string_of(end_of_bytes(&c("aé\u{10000}"), 5)), "\u{10000}");
    assert_eq!(string_of(last_of_chars(&c("abc"), 2)), "bc");
    let mut out = String::new();
    push_left_aligned(&mut out, "é", 3);
    push_right_aligned(&mut out, "xyz", 5);
    push_left_aligned(&mut out, "long", 2);
    assert_eq!(out, format!("{:<3}{:>5}{:<2}", "é", "xyz", "long"));
}

#[test]
fn paths_are_joined() {
    assert_eq!(join_path("/a", "b"), "/a/b");
    assert_eq!(join_path("/a/", "b"), "/a/b");
    assert_eq!(join_path("", "b"), "b");
    assert_eq!(join_path("/a", "/b"), "/b");
}

#[test]
fn prefixes_are_stripped() {
    assert_eq!(strip_prefix(&c("#[chrond] x"), "#[chrond]").map(string_of), Some(" x".into()));
    assert!(strip_prefix(&c("#[chron"), "#[chrond]").is_none());
    assert!(strip_prefix(&c("x"), "y").is_none());
}
