use token_vault::errors::VaultError;
use token_vault::vault::{check_distinct, check_word_ok, check_words_ok, Vault};

fn sample_vault() -> Vault {
    let mut v = Vault::empty();
    v.insert("age".to_string(), "tokA".to_string());
    v.insert("is".to_string(), "tokB".to_string());
    v
}

#[test]
fn empty_vault_has_no_mappings() {
    let v = Vault::empty();
    assert_eq!(v.len(), 0);
    assert_eq!(v.lookup_token(&"age".to_string()), None);
    assert_eq!(v.lookup_word(&"tokA".to_string()), None);
    assert!(v.check_wf());
}

#[test]
fn insert_then_lookup_both_ways() {
    let v = sample_vault();
    assert_eq!(v.len(), 2);
    assert_eq!(v.lookup_token(&"age".to_string()), Some("tokA".to_string()));
    assert_eq!(v.lookup_token(&"is".to_string()), Some("tokB".to_string()));
    assert_eq!(v.lookup_word(&"tokA".to_string()), Some("age".to_string()));
    assert_eq!(v.lookup_word(&"tokB".to_string()), Some("is".to_string()));
    assert_eq!(v.lookup_token(&"absent".to_string()), None);
    assert!(v.check_wf());
}

#[test]
fn pick_fresh_token_prefers_first_free() {
    let v = sample_vault();
    let r = v.pick_fresh_token("fresh1".to_string(), "fresh2".to_string());
    assert_eq!(r, Ok("fresh1".to_string()));
}

#[test]
fn pick_fresh_token_falls_back_to_second() {
    let v = sample_vault();
    let r = v.pick_fresh_token("tokA".to_string(), "fresh2".to_string());
    assert_eq!(r, Ok("fresh2".to_string()));
}

#[test]
fn pick_fresh_token_exhausted_after_two_collisions() {
    let v = sample_vault();
    let r = v.pick_fresh_token("tokA".to_string(), "tokB".to_string());
    assert_eq!(r, Err(VaultError::TokenSpaceExhausted));
}

#[test]
fn scans_detect_violations() {
    assert!(check_word_ok(&"token".to_string()));
    assert!(!check_word_ok(&"".to_string()));
    assert!(!check_word_ok(&"to ken".to_string()));
    let distinct = vec!["a".to_string(), "b".to_string()];
    let dup = vec!["a".to_string(), "b".to_string(), "a".to_string()];
    assert!(check_distinct(&distinct));
    assert!(!check_distinct(&dup));
    assert!(check_words_ok(&distinct));
    assert!(!check_words_ok(&vec!["a".to_string(), "".to_string()]));
}

#[test]
fn check_wf_rejects_broken_columns() {
    let dup_words = Vault {
        words: vec!["a".to_string(), "a".to_string()],
        tokens: vec!["t1".to_string(), "t2".to_string()],
    };
    assert!(!dup_words.check_wf());
    let dup_tokens = Vault {
        words: vec!["a".to_string(), "b".to_string()],
        tokens: vec!["t1".to_string(), "t1".to_string()],
    };
    assert!(!dup_tokens.check_wf());
    let ragged = Vault { words: vec!["a".to_string()], tokens: Vec::new() };
    assert!(!ragged.check_wf());
}
