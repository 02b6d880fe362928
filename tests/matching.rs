use yurki::engine::map_texts;
use yurki::matching::{
    capture_regex_in_string, find_in_string, is_match_in_string, replace_regexp_in_string,
    split_by_regexp_string, Captures, FindMatch, IsMatch, Pattern, Replace, Split,
};
use yurki::text::text_from_utf8;

fn pattern(src: &str, case: bool) -> Pattern {
    match Pattern::compile(src, case) {
        Ok(p) => p,
        Err(e) => panic!("pattern did not compile: {}", e.message),
    }
}

#[test]
fn find_returns_first_match_or_nothing() {
    let p = pattern(r"\d+", false);
    assert_eq!(find_in_string(b"ab 123 cd 45", &p), b"123".to_vec());
    assert_eq!(find_in_string(b"none", &p), Vec::<u8>::new());
    let p = pattern("héllo", true);
    assert_eq!(find_in_string("say HÉLLO".as_bytes(), &p), "HÉLLO".as_bytes().to_vec());
}

#[test]
fn is_match_follows_case_flag() {
    assert!(is_match_in_string(b"Hello", &pattern("hello", true)));
    assert!(!is_match_in_string(b"Hello", &pattern("hello", false)));
}

#[test]
fn captures_give_group_texts() {
    let p = pattern(r"(\w+)@(\w+)?", false);
    let r = capture_regex_in_string(b"mail bob@ here", &p);
    assert_eq!(r.items, vec![b"bob@".to_vec(), b"bob".to_vec(), Vec::new()]);
    assert!(capture_regex_in_string(b"nothing", &p).items.is_empty());
}

#[test]
fn split_gives_pieces_between_matches() {
    let p = pattern(r",\s*", false);
    let r = split_by_regexp_string(b"a, b,c", &p);
    assert_eq!(r.items, vec![b"a".to_vec(), b"b".to_vec(), b"c".to_vec()]);
}

#[test]
fn replace_honours_count() {
    let p = pattern("o", false);
    assert_eq!(replace_regexp_in_string(b"foo boo", &p, b"0", 0), b"f00 b00".to_vec());
    assert_eq!(replace_regexp_in_string(b"foo boo", &p, b"0", 3), b"f00 b0o".to_vec());
    let p = pattern(r"(\w+) (\w+)", false);
    assert_eq!(replace_regexp_in_string(b"hello world", &p, b"$2 $1", 0), b"world hello".to_vec());
}

#[test]
fn invalid_pattern_is_an_error() {
    match Pattern::compile("(unclosed", false) {
        Ok(_) => panic!("expected an error"),
        Err(e) => assert!(!e.message.is_empty()),
    }
}

#[test]
fn transforms_run_through_the_engine() {
    let texts: Vec<_> = ["id 7", "none", "x 42 y 9", "漢字 3"]
        .iter()
        .map(|s| text_from_utf8(s.as_bytes()))
        .collect();
    let found = map_texts(&texts, 2, &FindMatch { pattern: pattern(r"\d+", false) });
    assert_eq!(found, vec![b"7".to_vec(), Vec::new(), b"42".to_vec(), b"3".to_vec()]);
    let matched = map_texts(&texts, 3, &IsMatch { pattern: pattern(r"\d", false) });
    assert_eq!(matched, vec![true, false, true, true]);
    let split = map_texts(&texts, 1, &Split { pattern: pattern(" ", false) });
    assert_eq!(split[2].items.len(), 4);
    let caps = map_texts(&texts, 4, &Captures { pattern: pattern(r"(\w) (\d)", false) });
    assert_eq!(caps[0].items, vec![b"d 7".to_vec(), b"d".to_vec(), b"7".to_vec()]);
    let replaced = map_texts(
        &texts,
        2,
        &Replace { pattern: pattern(r"\d", false), replacement: b"#".to_vec(), count: 0 },
    );
    assert_eq!(replaced[2], b"x ## y #".to_vec());
}
