//! Texts: case, characters, trimming and lines, held against the standard library.

use probedb::text::alphanumeric;
use probedb::text::chars_of;
use probedb::text::comes_before;
use probedb::text::lines_of;
use probedb::text::pieces;
use probedb::text::search;
use probedb::text::search_last;
use probedb::text::string_of;
use probedb::text::to_lower;
use probedb::text::to_upper;
use probedb::text::trimmed;
use probedb::text::trimmed_end;
use probedb::text::words_of;

const TEXTS: [&str; 18] = [
    "",
    "a",
    "Hello, World",
    "straße",
    "ÉCOLE école",
    "İstanbul",
    "ΑΣ ΣΑΣ",
    "你好 世界",
    "ﬁ ligature",
    " \t padded \n",
    "\u{3000}wide\u{a0}",
    "a\nb\r\nc\n\nd\r",
    "\n",
    "x|y\\z",
    "1,2,,3,",
    "ǅ ŉ",
    "🚀 rocket",
    "aXbXc",
];

#[test]
fn case_follows_the_standard_library() {
    for t in TEXTS {
        assert_eq!(string_of(&to_upper(&chars_of(t))), t.to_uppercase(), "{}", t);
        assert_eq!(string_of(&to_lower(&chars_of(t))), t.to_lowercase(), "{}", t);
    }
    assert_eq!(string_of(&to_upper(&chars_of("straße"))), "STRASSE");
    assert_eq!(string_of(&to_lower(&chars_of("ÉCOLE"))), "école");
}

#[test]
fn characters_follow_the_standard_library() {
    for t in TEXTS {
        for c in t.chars() {
            assert_eq!(alphanumeric(c), c.is_alphanumeric(), "{:?}", c);
        }
    }
    for n in 0..0x3000u32 {
        if let Some(c) = char::from_u32(n) {
            assert_eq!(alphanumeric(c), c.is_alphanumeric(), "{:?}", c);
            let s: String = [c, 'x', c].iter().collect();
            assert_eq!(string_of(&trimmed(&chars_of(&s))), s.trim(), "{:?}", c);
        }
    }
    assert!(alphanumeric('中'));
    assert!(!alphanumeric('，'));
}

#[test]
fn pieces_follow_the_standard_library() {
    for t in TEXTS {
        let s = chars_of(t);
        assert_eq!(string_of(&s), t);
        assert_eq!(string_of(&trimmed(&s)), t.trim());
        assert_eq!(string_of(&trimmed_end(&s)), t.trim_end());
        let lines: Vec<String> = lines_of(&s).iter().map(|l| string_of(l)).collect();
        assert_eq!(lines, t.lines().map(|l| l.to_string()).collect::<Vec<_>>(), "{:?}", t);
        let parts: Vec<String> = pieces(&s, ',').iter().map(|l| string_of(l)).collect();
        assert_eq!(parts, t.split(',').map(|l| l.to_string()).collect::<Vec<_>>(), "{:?}", t);
        let words: Vec<String> = words_of(&s).iter().map(|l| string_of(l)).collect();
        assert_eq!(words, t.split_whitespace().map(|l| l.to_string()).collect::<Vec<_>>(), "{:?}", t);
        for pat in ["X", "a", "xx", "世", ""] {
            let place = |b: Option<usize>| b.map(|n| t[..n].chars().count());
            assert_eq!(search(&s, pat), place(t.find(pat)), "{:?} in {:?}", pat, t);
            assert_eq!(search_last(&s, pat), place(t.rfind(pat)), "{:?} in {:?}", pat, t);
        }
        for u in TEXTS {
            assert_eq!(comes_before(&s, &chars_of(u)), t < u, "{:?} < {:?}", t, u);
        }
    }
}
