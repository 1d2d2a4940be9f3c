use agave_checkout_gen::strutil::{
    contains_char, contains_substring, first_segment, starts_with, str_eq, strip_prefix,
};

#[test]
fn test_str_eq() {
    assert!(str_eq("abc", "abc"));
    assert!(!str_eq("abc", "abd"));
    assert!(!str_eq("abc", "abcd"));
    assert!(str_eq("", ""));
}

#[test]
fn test_contains_char() {
    assert!(contains_char("c.local", '.'));
    assert!(!contains_char("clocal", '.'));
    assert!(!contains_char("", '.'));
}

#[test]
fn test_starts_with() {
    assert!(starts_with("curves/ed25519", "curves"));
    assert!(!starts_with("curve", "curves"));
    assert!(starts_with("anything", ""));
}

#[test]
fn test_contains_substring() {
    assert!(contains_substring("zk-curve-helper", "curve"));
    assert!(contains_substring("curve", "curve"));
    assert!(!contains_substring("curv", "curve"));
    assert!(contains_substring("abc", ""));
}

#[test]
fn test_first_segment() {
    assert!(str_eq(first_segment("sdk/program"), "sdk"));
    assert!(str_eq(first_segment("sdk"), "sdk"));
    assert!(str_eq(first_segment("/leading"), ""));
    assert!(str_eq(first_segment(""), ""));
}

#[test]
fn test_strip_prefix() {
    assert!(str_eq(strip_prefix("solana-svm", "solana-"), "svm"));
    assert!(str_eq(strip_prefix("svm", "solana-"), "svm"));
    assert!(str_eq(strip_prefix("solana-", "solana-"), ""));
}
