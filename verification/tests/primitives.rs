//! Tests of the signature primitives: normalization, subtraction, trimming.

use anagrammer::make_key;
use anagrammer::subtract;
use anagrammer::trim_ascii;

#[test]
fn make_key_folds_filters_and_sorts() {
    assert_eq!(make_key("Hello!").unwrap(), b"ehllo".to_vec());
    assert_eq!(make_key("tea").unwrap(), b"aet".to_vec());
    assert_eq!(make_key("Tea Pot 7").unwrap(), b"7aeoptt".to_vec());
    assert_eq!(make_key("").unwrap(), Vec::<u8>::new());
    assert_eq!(make_key("--- !!").unwrap(), Vec::<u8>::new());
}

#[test]
fn make_key_rejects_non_ascii() {
    assert!(make_key("caf\u{e9}").is_none());
    assert!(make_key("\u{00A0}word").is_none());
}

#[test]
fn anagrams_share_a_signature() {
    let a = make_key("Dormitory").unwrap();
    let b = make_key("dirty room!").unwrap();
    assert_eq!(a, b);
    let c = make_key("dirty rooms").unwrap();
    assert_ne!(a, c);
}

#[test]
fn subtract_removes_a_submultiset() {
    let r = subtract(b"aet", b"aaett").unwrap();
    assert_eq!(r, b"at".to_vec());
    let r = subtract(b"", b"abc").unwrap();
    assert_eq!(r, b"abc".to_vec());
    let r = subtract(b"abc", b"abc").unwrap();
    assert_eq!(r, Vec::<u8>::new());
}

#[test]
fn subtract_length_is_the_difference() {
    let c = b"abt";
    let p = b"aabbtt";
    let r = subtract(c, p).unwrap();
    assert_eq!(r.len(), p.len() - c.len());
}

#[test]
fn subtract_refuses_missing_letters() {
    assert!(subtract(b"abt", b"aet").is_none());
    assert!(subtract(b"aa", b"a").is_none());
    assert!(subtract(b"z", b"").is_none());
}

#[test]
fn trim_strips_ascii_whitespace() {
    assert_eq!(trim_ascii("  tea \t\r\n"), "tea");
    assert_eq!(trim_ascii("tea"), "tea");
    assert_eq!(trim_ascii("   "), "");
    assert_eq!(trim_ascii(""), "");
}
