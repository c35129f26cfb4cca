use code_execution::text::{
    comes_before, contains, join, lines, same_text, split, split_once, starts_with, strip_prefix,
    to_chars, trim, trim_end_matches, trim_start_matches, CharClass,
};

const SAMPLES: [&str; 22] = [
    "", " ", "a", "a b", "  a b  ", "\n", "\r\n", "a\n", "a\r\n", "a\r", "a\n\nb", "a\r\nb\r\n",
    "\r", "\n\r", "a\r\r\nb", "/a//b/", "k=v=w", "=", "\u{a0}\u{3000}x\u{2003}\u{85}",
    "\u{200b}x\u{200b}", "caf\u{e9}\n\u{1f600} \u{1f600}\n", "__a__b__",
];

#[test]
fn white_space_is_that_of_unicode() {
    for n in 0..=0x10ffff_u32 {
        if let Some(c) = char::from_u32(n) {
            assert_eq!(CharClass::WhiteSpace.contains(c), c.is_whitespace(), "{:x}", n);
        }
    }
    assert!(CharClass::Only(';').contains(';'));
    assert!(!CharClass::Only(';').contains(':'));
}

#[test]
fn trimming_agrees_with_the_standard_library() {
    for s in SAMPLES {
        assert_eq!(trim(s), s.trim());
        assert_eq!(trim_start_matches(s, CharClass::Only('/')), s.trim_start_matches('/'));
        assert_eq!(trim_end_matches(s, CharClass::Only('/')), s.trim_end_matches('/'));
        assert_eq!(to_chars(s), s.chars().collect::<Vec<char>>());
    }
    assert_eq!(trim_end_matches("f();;", CharClass::Only(';')), "f()");
}

#[test]
fn lines_and_pieces_agree_with_the_standard_library() {
    for s in SAMPLES {
        assert_eq!(lines(s), s.lines().map(str::to_string).collect::<Vec<String>>(), "{:?}", s);
        for c in ['\n', '/', '=', ' '] {
            assert_eq!(split(s, c), s.split(c).map(str::to_string).collect::<Vec<String>>());
        }
    }
    assert_eq!(lines("a\r\r\nb\r"), vec!["a\r".to_string(), "b\r".to_string()]);
    assert_eq!(split("", '/'), vec!["".to_string()]);
}

#[test]
fn searching_agrees_with_the_standard_library() {
    for s in SAMPLES {
        for part in ["", "a", "__", "\r\n", "b\n", "\u{1f600}"] {
            assert_eq!(contains(s, part), s.contains(part));
            assert_eq!(starts_with(s, part), s.starts_with(part));
            assert_eq!(strip_prefix(s, part), s.strip_prefix(part).map(str::to_string));
            assert_eq!(
                split_once(s, part),
                s.split_once(part).map(|(a, b)| (a.to_string(), b.to_string()))
            );
        }
    }
    assert_eq!(split_once("a___b", "__"), Some(("a".to_string(), "_b".to_string())));
    assert_eq!(split_once("a_b", "__"), None);
}

#[test]
fn order_and_equality_agree_with_the_standard_library() {
    for a in SAMPLES {
        for b in SAMPLES {
            assert_eq!(comes_before(a, b), a < b, "{:?} {:?}", a, b);
            assert_eq!(same_text(a, b), a == b);
        }
    }
    assert!(comes_before("\u{ffff}", "\u{10000}"));
}

#[test]
fn joining_puts_the_separator_between() {
    let strings = |parts: &[&str]| parts.iter().map(|p| p.to_string()).collect::<Vec<String>>();
    assert_eq!(join(&strings(&[]), ", "), "");
    assert_eq!(join(&strings(&["a"]), ", "), "a");
    assert_eq!(join(&strings(&["a", "", "c"]), ", "), "a, , c");
}
