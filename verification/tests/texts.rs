//! Texts, numbers and orders, held against the standard library.

use unidpp_ops::decimal::{decimal_of, padded_of, parsed_number};
use unidpp_ops::order::{not_after_text, put, sort};
use unidpp_ops::path::join;
use unidpp_ops::text::{
    begins, cat5, chars_of, contains_text, cut, ends, entries_of, joined, lines_of, pieces,
    position, same_text, space, text_of, trimmed, words_of,
};

fn samples() -> Vec<&'static str> {
    vec![
        "",
        " ",
        "\n",
        "\r\n",
        "a",
        " a ",
        "a\nb",
        "a\r\nb\r\n",
        "a\r\r\nb",
        "a\rb",
        "\n\nx\n",
        "one two\tthree\u{3000}four",
        "a,b,,c,",
        "k=v=w",
        "=x",
        "Straße — 華動",
        "\u{2028}x\u{85}y\u{feff}",
    ]
}

#[test]
fn white_space_is_that_of_unicode() {
    for n in 0..=0x10ffffu32 {
        if let Some(c) = char::from_u32(n) {
            assert_eq!(space(c), c.is_whitespace(), "{:x}", n);
        }
    }
}

#[test]
fn lines_are_lines() {
    for s in samples() {
        let expected: Vec<String> = s.lines().map(str::to_string).collect();
        assert_eq!(lines_of(&chars_of(s)), expected, "{:?}", s);
    }
}

#[test]
fn words_are_words() {
    for s in samples() {
        let expected: Vec<String> = s.split_whitespace().map(str::to_string).collect();
        assert_eq!(words_of(&chars_of(s)), expected, "{:?}", s);
    }
}

#[test]
fn pieces_are_split_and_joined() {
    for s in samples() {
        for c in [',', '=', '\n', '/'] {
            let expected: Vec<String> = s.split(c).map(str::to_string).collect();
            let got = pieces(&chars_of(s), c);
            assert_eq!(got, expected, "{:?}", s);
            assert_eq!(joined(&got, &c.to_string()), s);
        }
    }
}

#[test]
fn trimming_is_trimming() {
    for s in samples() {
        assert_eq!(text_of(trimmed(&chars_of(s))), s.trim(), "{:?}", s);
    }
}

#[test]
fn entries_are_trimmed_lines() {
    assert_eq!(
        entries_of("  registry \n\n log\r\n   \n"),
        vec!["registry".to_string(), "log".to_string()]
    );
}

#[test]
fn searching_finds_the_first() {
    for s in samples() {
        for n in ["", "a", "\n", "b\r", "two", "x"] {
            let chars = chars_of(s);
            let needle = chars_of(n);
            let expected = s.find(n).map(|i| s[..i].chars().count());
            assert_eq!(position(&chars, &needle), expected, "{:?} {:?}", s, n);
            assert_eq!(contains_text(&chars, &needle), s.contains(n));
            assert_eq!(begins(&chars, &needle), s.starts_with(n));
            assert_eq!(ends(&chars, &needle), s.ends_with(n));
        }
    }
}

#[test]
fn cutting_is_at_the_first() {
    for s in samples() {
        let expected = s
            .split_once('=')
            .map(|(a, b)| (a.to_string(), b.to_string()));
        assert_eq!(cut(&chars_of(s), '='), expected);
    }
}

#[test]
fn texts_are_put_together() {
    assert_eq!(cat5("a", "", "é", "b", "c"), "aébc");
    assert!(same_text("é", "é"));
    assert!(!same_text("é", "e"));
}

#[test]
fn numbers_are_written() {
    assert_eq!(decimal_of(0), "0");
    assert_eq!(decimal_of(u64::MAX), "18446744073709551615");
    assert_eq!(padded_of(7, 2), "07");
    assert_eq!(padded_of(12345, 4), "12345");
}

#[test]
fn numbers_are_read_like_the_standard_ones() {
    for s in [
        "", "+", "-1", "0", "+0", "007", "65535", "65536", "+65535", "6 5", "99999999999999999999",
        "1_0", "０",
    ] {
        assert_eq!(
            parsed_number(&chars_of(s), u16::MAX as u64),
            s.parse::<u16>().ok().map(u64::from),
            "{:?}",
            s
        );
        assert_eq!(
            parsed_number(&chars_of(s), u64::MAX),
            s.parse::<u64>().ok(),
            "{:?}",
            s
        );
    }
}

#[test]
fn sorting_is_sorting() {
    let names: Vec<String> = ["b", "", "a", "ab", "é", "B", "a", "\u{10000}", "\u{ffff}"]
        .iter()
        .map(|s| s.to_string())
        .collect();
    let mut expected = names.clone();
    expected.sort();
    assert_eq!(sort(&names), expected);
    for a in &names {
        for b in &names {
            assert_eq!(not_after_text(a, b), a <= b);
        }
    }
}

#[test]
fn a_list_keeps_its_order_and_has_no_doubles() {
    let mut list: Vec<String> = Vec::new();
    for s in ["c", "a", "b", "a", "c"] {
        put(&mut list, s.to_string());
    }
    assert_eq!(list, vec!["a".to_string(), "b".to_string(), "c".to_string()]);
}

#[test]
fn paths_are_joined_like_the_standard_ones() {
    for (base, rel) in [
        ("/a", "b"),
        ("/a/", "b"),
        ("", "b"),
        ("/a", "/b"),
        ("a", "b/c"),
        ("/", "x"),
    ] {
        assert_eq!(
            join(base, rel),
            std::path::Path::new(base).join(rel).to_string_lossy()
        );
    }
}
