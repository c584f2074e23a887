use base64::Engine;
use sha2::Digest;

use token_vault::text::{join_words, split_words};
use token_vault::token::{generate_token, token_from_bytes};

#[test]
fn split_simple() {
    let words = split_words("My age is 43.");
    let expect = vec!["My", "age", "is", "43."];
    assert_eq!(words, expect);
}

#[test]
fn split_collapses_whitespace() {
    let words = split_words("  My \t age \n\n is   43.  ");
    let expect = vec!["My", "age", "is", "43."];
    assert_eq!(words, expect);
}

#[test]
fn split_empty_and_blank() {
    assert_eq!(split_words(""), Vec::<String>::new());
    assert_eq!(split_words(" \t \n "), Vec::<String>::new());
}

#[test]
fn split_unicode_whitespace() {
    let words = split_words("a\u{00A0}b\u{2003}c");
    let expect = vec!["a", "b", "c"];
    assert_eq!(words, expect);
}

#[test]
fn join_simple() {
    let words = vec!["a".to_string(), "b".to_string(), "c".to_string()];
    assert_eq!(join_words(&words), "a b c");
    assert_eq!(join_words(&Vec::new()), "");
    assert_eq!(join_words(&vec!["solo".to_string()]), "solo");
}

#[test]
fn split_join_round_trip() {
    let words = split_words("  one  two  three ");
    let joined = join_words(&words);
    assert_eq!(joined, "one two three");
    assert_eq!(split_words(&joined), words);
}

#[test]
fn generated_token_shape() {
    let t = generate_token().unwrap();
    assert_eq!(t.chars().count(), 16);
    for c in t.chars() {
        assert!(c.is_ascii_alphanumeric() || c == '-' || c == '_');
    }
}

#[test]
fn generated_tokens_differ() {
    let a = generate_token().unwrap();
    let b = generate_token().unwrap();
    assert_ne!(a, b);
}

#[test]
fn token_derivation_matches_direct_computation() {
    let bytes: Vec<u8> = (0u8..16).collect();
    let t = token_from_bytes(&bytes);
    let digest = sha2::Sha256::digest(&bytes);
    let encoded = base64::engine::general_purpose::URL_SAFE_NO_PAD.encode(&digest);
    assert_eq!(t, &encoded[0..16]);
    assert_eq!(t.len(), 16);
}
