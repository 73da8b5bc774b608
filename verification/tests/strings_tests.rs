use search_engine::strings::{
    is_whitespace, lines, split_once, split_whitespace, starts_with, strip_return, trim,
};

const SAMPLES: [&str; 22] = [
    "",
    "\n",
    "\r",
    "\r\n",
    "\n\n",
    "a",
    "a\n",
    "a\r\n",
    "a\r",
    "a\nb",
    "a\r\nb\r\n",
    "a\n\nb",
    "\na",
    "\r\r\n",
    "a\rb\n",
    "é\nü\r\n€\n",
    "line one\nline two\r\nline three",
    "trailing return\r",
    "\n\r\n\n",
    "日本語\r\nテキスト\n",
    "a\u{85}b\u{2028}c\u{b}d\u{c}e",
    "x\r\r\ny",
];

#[test]
fn lines_are_those_of_std() {
    for s in SAMPLES {
        let expected: Vec<String> = s.lines().map(|l| l.to_string()).collect();
        assert_eq!(lines(s), expected, "{s:?}");
    }
}

#[test]
fn a_line_loses_one_return_at_its_end() {
    assert_eq!(strip_return("a\r"), "a");
    assert_eq!(strip_return("a\r\r"), "a\r");
    assert_eq!(strip_return("\r"), "");
    assert_eq!(strip_return("a"), "a");
    assert_eq!(strip_return(""), "");
    assert_eq!(strip_return("\ra"), "\ra");
    assert_eq!(strip_return("é\r"), "é");
}

#[test]
fn split_once_is_that_of_std() {
    let texts = [
        "", ":", "a:b", "a:b:c", "::", "key: value", "no colon", "é:ü", ":start", "end:",
        "a\u{3a}b", "日本:語", "x\u{ff1a}y",
    ];
    for s in texts {
        for d in [':', '\n', '#', 'a', ' '] {
            assert_eq!(split_once(s, d), s.split_once(d), "{s:?} at {d:?}");
        }
    }
    assert_eq!(split_once("a:b:c", ':'), Some(("a", "b:c")));
    assert_eq!(split_once("abc", ':'), None);
}

#[test]
fn starts_with_is_that_of_std() {
    let texts = ["", "a", "ab", "abc", "é", "éa", "e", "text/html; charset=utf-8", "/", "/a/b"];
    for s in texts {
        for p in texts {
            assert_eq!(starts_with(s, p), s.starts_with(p), "{s:?} {p:?}");
        }
    }
    // The first byte of "é" alone is no prefix that a text could be asked for,
    // but "e" followed by a combining accent is another text than "é".
    assert!(!starts_with("é", "e"));
    assert!(starts_with("e\u{301}", "e"));
}

#[test]
fn white_space_is_that_of_std() {
    for v in 0..=0x10FFFFu32 {
        if let Some(c) = char::from_u32(v) {
            assert_eq!(is_whitespace(c), c.is_whitespace(), "U+{v:04X}");
        }
    }
}

const SPACED: [&str; 18] = [
    "",
    " ",
    "a",
    " a",
    "a ",
    "  a  b  ",
    "\t\n a \r\n",
    "\u{a0}x\u{a0}",
    "\u{2003}wide\u{3000}spaces\u{2028}",
    "\u{85}\u{1680}\u{202f}\u{205f}",
    "no-space",
    "rust RUST learning",
    "the and",
    "  leading",
    "trailing  ",
    "é è\u{a0}ê",
    "\u{200b}zero width is no space\u{200b}",
    "a\u{b}b\u{c}c",
];

#[test]
fn trim_is_that_of_std() {
    for s in SPACED {
        assert_eq!(trim(s), s.trim(), "{s:?}");
    }
}

#[test]
fn split_whitespace_is_that_of_std() {
    for s in SPACED {
        let expected: Vec<String> = s.split_whitespace().map(|p| p.to_string()).collect();
        assert_eq!(split_whitespace(s), expected, "{s:?}");
    }
}
