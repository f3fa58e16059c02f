use ankimarkable::text::{
    chars_of, comes_before, contains_text, ends_with_text, env_or, esc, esc_lines,
    parse_numeral, push_dec, push_hex, push_signed, replace_text, same_text, split_fields,
    split_lines, trim,
};

#[test]
fn numerals() {
    let mut d = String::new();
    push_dec(&mut d, 0);
    push_dec(&mut d, 18_446_744_073_709_551_615);
    assert_eq!(d, "018446744073709551615");
    let mut s = String::from("x");
    push_signed(&mut s, -9_223_372_036_854_775_808);
    assert_eq!(s, "x-9223372036854775808");
    let mut h = String::new();
    push_hex(&mut h, 0xbeef, 6);
    assert_eq!(h, "00beef");
    let num = |t: &str| parse_numeral(&chars_of(t), 16, 0xffff);
    assert_eq!(num("FfFf"), Some(0xffff));
    assert_eq!(num("+0a"), Some(10));
    assert_eq!(num("10000"), None);
    assert_eq!(num("0000000000000000000001"), Some(1));
    assert_eq!(num("g"), None);
    assert_eq!(num(""), None);
    assert_eq!(num("++1"), None);
}

#[test]
fn escaping() {
    assert_eq!(esc("a<b>&c\n"), "a&lt;b&gt;&amp;c\n");
    assert_eq!(esc("&lt;"), "&amp;lt;");
    assert_eq!(esc_lines("a<\nb"), "a&lt;<br>b");
}

#[test]
fn searching_and_replacing() {
    assert!(contains_text("data:;base64", ";base64"));
    assert!(!contains_text("base6", "base64"));
    assert!(contains_text("x", ""));
    assert_eq!(replace_text("aaaa", "aa", "b"), "bb");
    assert_eq!(replace_text("abc", "x", "y"), "abc");
    assert!(same_text("äö", "äö"));
    assert!(!same_text("ä", "a"));
}

#[test]
fn splitting() {
    assert_eq!(split_fields(&chars_of("a\t\tb"), '\t'), vec!["a", "", "b"]);
    assert_eq!(split_fields(&chars_of(""), '\t'), vec![""]);
    for t in ["", "a", "a\n", "a\r\nb\n\nc", "\n", "x\r", "a\r\r\n"] {
        let want: Vec<String> = t.lines().map(str::to_string).collect();
        assert_eq!(split_lines(t), want, "{t:?}");
    }
}

#[test]
fn trimming() {
    for t in ["", "  a b\t\n", "\u{a0}x\u{2003}", "x", " \u{85}\u{1680}y\u{3000}", "\u{200b}z"] {
        assert_eq!(trim(t), t.trim(), "{t:?}");
    }
}

#[test]
fn endings_and_order() {
    assert!(ends_with_text("abc", "bc"));
    assert!(ends_with_text("abc", ""));
    assert!(!ends_with_text("c", "bc"));
    assert_eq!(env_or(Some("v"), "d"), "v");
    assert_eq!(env_or(None, "d"), "d");
    for (a, b) in [("", "a"), ("a", "b"), ("a", "aa"), ("z", "é"), ("\u{ffff}", "😀"), ("x", "x")] {
        assert_eq!(comes_before(&chars_of(a), &chars_of(b)), a < b, "{a} {b}");
        assert_eq!(comes_before(&chars_of(b), &chars_of(a)), b < a, "{b} {a}");
    }
}
