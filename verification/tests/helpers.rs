use std::collections::BTreeSet;
use guardstate::locals::{listed, same_set, union_into};
use guardstate::scan::{blank, clean, decimal_chars, join_range, split_lines, split_words, strip_trailing_colons};
use guardstate::sorting::{chars_of, str_lt};

fn chars(s: &str) -> Vec<char> {
    s.chars().collect()
}

#[test]
fn blanks_are_unicode_white_space() {
    for c in [' ', '\t', '\n', '\r', '\u{0B}', '\u{0C}', '\u{85}', '\u{A0}', '\u{2003}', '\u{3000}'] {
        assert!(blank(c));
        assert_eq!(blank(c), c.is_whitespace());
    }
    for c in ['a', '#', ':', '\u{200B}', '0'] {
        assert!(!blank(c));
        assert_eq!(blank(c), c.is_whitespace());
    }
}

#[test]
fn clean_drops_comment_and_trims() {
    assert_eq!(clean(&chars("  call foo -> bb1   # note")), chars("call foo -> bb1"));
    assert_eq!(clean(&chars("# only a comment")), chars(""));
    assert_eq!(clean(&chars("\u{A0}x\u{3000}")), chars("x"));
    assert_eq!(clean(&chars("   ")), chars(""));
}

#[test]
fn words_split_on_blank_runs() {
    let w = split_words(&chars("  a  bb\tccc "));
    assert_eq!(w, vec![chars("a"), chars("bb"), chars("ccc")]);
    assert!(split_words(&chars("")).is_empty());
    assert_eq!(join_range(&w, 0, 3), chars("a bb ccc"));
    assert_eq!(join_range(&w, 1, 1), chars(""));
}

#[test]
fn lines_split_on_newlines() {
    let l = split_lines(&chars("a\n\nb\n"));
    assert_eq!(l, vec![chars("a"), chars(""), chars("b"), chars("")]);
}

#[test]
fn trailing_colons_are_stripped() {
    assert_eq!(strip_trailing_colons(&chars("bb0::")), chars("bb0"));
    assert_eq!(strip_trailing_colons(&chars("a:b")), chars("a:b"));
}

#[test]
fn decimal_digits() {
    assert_eq!(decimal_chars(0), chars("0"));
    assert_eq!(decimal_chars(1203), chars("1203"));
}

#[test]
fn text_order_is_byte_order() {
    assert!(str_lt("a", "b"));
    assert!(str_lt("", "a"));
    assert!(str_lt("ab", "b"));
    assert!(str_lt("Z", "a"));
    assert!(!str_lt("a", "a"));
    assert!(!str_lt("b", "ab"));
    assert!(str_lt("z", "é"));
    assert_eq!(chars_of("héllo"), chars("héllo"));
}

#[test]
fn local_sets_keep_increasing_order() {
    let mut s: BTreeSet<u32> = BTreeSet::new();
    s.insert(5);
    s.insert(1);
    s.insert(3);
    s.insert(3);
    assert_eq!(listed(&s), vec![1, 3, 5]);
    s.remove(&3);
    s.remove(&7);
    assert_eq!(listed(&s), vec![1, 5]);
    let mut t: BTreeSet<u32> = BTreeSet::new();
    t.insert(9);
    t.insert(1);
    union_into(&mut s, &t);
    assert_eq!(listed(&s), vec![1, 5, 9]);
    assert_eq!(listed(&t), vec![1, 9]);
    let d = s.clone();
    assert!(same_set(&d, &s));
    assert!(!same_set(&d, &t));
    assert!(!same_set(&t, &BTreeSet::new()));
    assert!(same_set(&BTreeSet::new(), &BTreeSet::new()));
    assert!(listed(&BTreeSet::new()).is_empty());
}
