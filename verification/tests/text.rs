use pars::text::{
    append_chars, comes_before, copy_range, count_leading_spaces, count_trailing_spaces,
    ends_trimmed_with, find, has_prefix, has_substring, has_suffix, lines_of, matches_at,
    push_decimal, same_chars, stripped_repeated, to_chars, to_text, trimmed, trimmed_end,
    trimmed_start,
};

fn chars(s: &str) -> Vec<char> {
    s.chars().collect()
}

const SAMPLES: [&str; 14] = [
    "",
    "a",
    "  a b  ",
    "\t\n x \r\n",
    "   ",
    "\u{a0}wide\u{3000}",
    "\u{2003}em\u{2009}",
    "x\u{200b}",
    "\u{85}next\u{1680}",
    "no-space",
    " \u{feff}bom",
    "tab\t",
    "\u{b}\u{c}vt",
    "ünï cödé ",
];

#[test]
fn strings_and_characters_convert_both_ways() {
    for s in SAMPLES {
        assert_eq!(to_chars(s), chars(s));
        assert_eq!(to_text(&chars(s)), s);
    }
    assert_eq!(to_text(&vec!['a', 'é', '😀']), "aé😀");
}

#[test]
fn trimming_agrees_with_str() {
    for s in SAMPLES {
        assert_eq!(to_text(&trimmed_start(&chars(s))), s.trim_start(), "{:?}", s);
        assert_eq!(to_text(&trimmed_end(&chars(s))), s.trim_end(), "{:?}", s);
        assert_eq!(to_text(&trimmed(&chars(s))), s.trim(), "{:?}", s);
    }
    assert_eq!(count_leading_spaces(&chars("  \tx ")), 3);
    assert_eq!(count_trailing_spaces(&chars("  \tx ")), 1);
    assert_eq!(count_leading_spaces(&chars("   ")), 3);
    assert_eq!(count_trailing_spaces(&chars("   ")), 3);
}

#[test]
fn lines_agree_with_str() {
    let texts = [
        "", "\n", "a", "a\n", "a\r\n", "a\r", "a\n\nb", "\r\n", "a\r\r\n", "\n\r", "\r",
        "x\ny\r\nz\r", "one\ntwo\nthree", "\n\n\n", "tail\n\r\n", "ü\r\nö\n",
    ];
    for t in texts {
        let ours: Vec<String> = lines_of(&chars(t)).iter().map(|l| to_text(l)).collect();
        let theirs: Vec<String> = t.lines().map(|l| l.to_string()).collect();
        assert_eq!(ours, theirs, "{:?}", t);
    }
}

#[test]
fn search_agrees_with_str() {
    let cases = [
        ("hello world", "o w"), ("hello", "l"), ("hello", "lo"), ("hello", "hello"),
        ("hello", "hello!"), ("hello", ""), ("", ""), ("", "a"), ("aaa", "aa"), ("abcabc", "cab"),
        ("abc", "d"), ("ab", "abc"),
    ];
    for (s, p) in cases {
        assert_eq!(find(&chars(s), &chars(p)), s.find(p), "{:?} {:?}", s, p);
        assert_eq!(has_substring(&chars(s), &chars(p)), s.contains(p));
        assert_eq!(has_prefix(&chars(s), &chars(p)), s.starts_with(p));
        assert_eq!(has_suffix(&chars(s), &chars(p)), s.ends_with(p));
        assert_eq!(ends_trimmed_with(&chars(s), &chars(p)), s.trim_end().ends_with(p));
        assert_eq!(same_chars(&chars(s), &chars(p)), s == p);
    }
    assert_eq!(find(&chars("größe(x)"), &chars("(")), Some(5));
    assert!(matches_at(&chars("abcd"), &chars("cd"), 2));
    assert!(!matches_at(&chars("abcd"), &chars("cd"), 3));
    assert!(!matches_at(&chars("abcd"), &chars("cd"), 40));
    assert!(matches_at(&chars("abcd"), &chars(""), 4));
    assert!(ends_trimmed_with(&chars("def f():  \t"), &chars(":")));
    assert!(!ends_trimmed_with(&chars("def f(): #"), &chars(":")));
    assert!(!ends_trimmed_with(&chars("   "), &chars(":")));
}

#[test]
fn repeated_prefix_is_stripped_like_str() {
    let cases = [
        ("defdef foo", "def"), ("def foo", "def"), ("foo", "def"), ("", "def"), ("aaaa", "a"),
        ("aaab", "aa"), ("abc", ""), ("fnfn", "fn"), ("de", "def"),
    ];
    for (s, p) in cases {
        if p.is_empty() {
            assert_eq!(to_text(&stripped_repeated(&chars(s), &chars(p))), s);
        } else {
            assert_eq!(
                to_text(&stripped_repeated(&chars(s), &chars(p))),
                s.trim_start_matches(p),
                "{:?} {:?}",
                s,
                p
            );
        }
    }
}

#[test]
fn ranges_are_copied_and_appended() {
    assert_eq!(copy_range(&chars("abcdef"), 2, 4), chars("cd"));
    assert_eq!(copy_range(&chars("abcdef"), 6, 6), chars(""));
    assert_eq!(copy_range(&chars("abcdef"), 0, 6), chars("abcdef"));
    let mut s = chars("ab");
    append_chars(&mut s, &chars("cd"));
    append_chars(&mut s, &chars(""));
    assert_eq!(s, chars("abcd"));
}

#[test]
fn numerals_agree_with_display() {
    for n in [0usize, 1, 9, 10, 11, 99, 100, 101, 12345, 1000000, usize::MAX - 1, usize::MAX] {
        let mut out = chars("n=");
        push_decimal(&mut out, n);
        assert_eq!(to_text(&out), format!("n={}", n));
    }
}

#[test]
fn order_of_names_agrees_with_str() {
    let names = ["", "a", "A", "ab", "abc", "b", "B", "_a", "a_", "Z", "z", "é", "e", "zz", "10", "9", "😀", "\u{ffff}"];
    for x in names {
        for y in names {
            assert_eq!(comes_before(&chars(x), &chars(y)), x < y, "{:?} {:?}", x, y);
        }
    }
}

fn listed(c: char) -> bool {
    matches!(
        c,
        '\u{9}'..='\u{d}'
            | ' '
            | '\u{85}'
            | '\u{a0}'
            | '\u{1680}'
            | '\u{2000}'..='\u{200a}'
            | '\u{2028}'
            | '\u{2029}'
            | '\u{202f}'
            | '\u{205f}'
            | '\u{3000}'
    )
}

#[test]
fn white_space_is_the_listed_code_points() {
    let mut count = 0;
    for code in 0..=0x10ffffu32 {
        if let Some(c) = char::from_u32(code) {
            assert_eq!(c.is_whitespace(), listed(c), "{:?}", c);
            assert_eq!(count_leading_spaces(&vec![c, 'x']), if listed(c) { 1 } else { 0 });
            if listed(c) {
                count += 1;
            }
        }
    }
    assert_eq!(count, 25);
}
