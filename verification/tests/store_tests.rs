use token_vault::codec::encode_vault;
use token_vault::errors::VaultError;
use token_vault::store::{load_from_record, PersistentTokenVault};
use token_vault::vault::{check_distinct, Vault};

fn fresh_path(name: &str) -> String {
    format!("/tmp/token_vault_test_{}_{}", name, rand::random::<u64>())
}

#[test]
fn tokenize_round_trip_scenario() {
    let mut vault = PersistentTokenVault::new(&fresh_path("round_trip")).unwrap();
    let sensitive = "My age is 43.";
    let tokenized = vault.tokenize(sensitive).unwrap();
    let tokens: Vec<&str> = tokenized.split_whitespace().collect();
    assert_eq!(tokens.len(), 4);
    for t in &tokens {
        assert_eq!(t.chars().count(), 16);
    }
    assert_eq!(vault.detokenize(&tokenized), sensitive);
    let again = vault.tokenize(sensitive).unwrap();
    assert_eq!(again, tokenized);
}

#[test]
fn same_word_same_token() {
    let mut vault = PersistentTokenVault::new(&fresh_path("idempotent")).unwrap();
    let first = vault.tokenize("secret").unwrap();
    let second = vault.tokenize("secret").unwrap();
    assert_eq!(first, second);
    let doubled = vault.tokenize("secret secret").unwrap();
    let parts: Vec<&str> = doubled.split_whitespace().collect();
    assert_eq!(parts.len(), 2);
    assert_eq!(parts[0], parts[1]);
    assert_eq!(parts[0], first);
}

#[test]
fn serialized_callers_observe_one_token() {
    // Two callers race to tokenize the same unseen word; the guard (here,
    // exclusive ownership) serializes them, so the call that runs second
    // finds the assignment of the first and both observe the same token.
    let mut vault = PersistentTokenVault::new(&fresh_path("serialized")).unwrap();
    let by_first_caller = vault.tokenize("unseen").unwrap();
    let by_second_caller = vault.tokenize("unseen").unwrap();
    assert_eq!(by_first_caller, by_second_caller);
    assert_eq!(
        vault.get_token(&"unseen".to_string()),
        Some(by_first_caller.clone())
    );
}

#[test]
fn tokens_stay_unique_after_many_calls() {
    let mut vault = PersistentTokenVault::new(&fresh_path("unique")).unwrap();
    vault.tokenize("one two three").unwrap();
    vault.tokenize("four five one").unwrap();
    vault.tokenize("six").unwrap();
    // Exhaustive scan over the live vault: no two words share a token.
    assert!(vault.vault.check_wf());
    assert!(check_distinct(&vault.vault.tokens));
    assert_eq!(vault.vault.len(), 6);
}

#[test]
fn reload_after_restart_keeps_mappings() {
    let path = fresh_path("durable");
    let mut vault = PersistentTokenVault::new(&path).unwrap();
    let tokenized = vault.tokenize("alpha beta").unwrap();
    let alpha_token = vault.get_token(&"alpha".to_string()).unwrap();
    let beta_token = vault.get_token(&"beta".to_string()).unwrap();
    drop(vault);
    let reloaded = PersistentTokenVault::new(&path).unwrap();
    assert_eq!(reloaded.get_token(&"alpha".to_string()), Some(alpha_token.clone()));
    assert_eq!(reloaded.get_token(&"beta".to_string()), Some(beta_token));
    assert_eq!(reloaded.get_word(&alpha_token), Some("alpha".to_string()));
    assert_eq!(reloaded.detokenize(&tokenized), "alpha beta");
}

#[test]
fn unknown_tokens_are_dropped() {
    let path = fresh_path("dropped");
    let mut vault = PersistentTokenVault::new(&path).unwrap();
    vault
        .set_token("word".to_string(), "knowntoken".to_string())
        .unwrap();
    assert_eq!(vault.detokenize("knowntoken neverseen"), "word");
    assert_eq!(vault.detokenize("neverseen"), "");
    assert_eq!(vault.detokenize("neverseen knowntoken neverseen"), "word");
}

#[test]
fn set_token_then_both_lookups() {
    let mut vault = PersistentTokenVault::new(&fresh_path("set_token")).unwrap();
    vault.set_token("w1".to_string(), "t1".to_string()).unwrap();
    assert_eq!(vault.get_token(&"w1".to_string()), Some("t1".to_string()));
    assert_eq!(vault.get_word(&"t1".to_string()), Some("w1".to_string()));
    assert_eq!(vault.get_word(&"w1".to_string()), None);
}

#[test]
fn load_from_record_restores_or_degrades() {
    let mut v = Vault::empty();
    v.insert("word".to_string(), "tok".to_string());
    let restored = load_from_record(Some(encode_vault(&v)));
    assert_eq!(restored.lookup_token(&"word".to_string()), Some("tok".to_string()));
    assert_eq!(restored.len(), 1);
    assert_eq!(load_from_record(None).len(), 0);
    assert_eq!(load_from_record(Some(vec![9, 9, 9])).len(), 0);
}

#[test]
fn corrupt_record_degrades_to_empty() {
    let path = fresh_path("corrupt");
    {
        let db = sled::open(&path).unwrap();
        db.insert("vault", b"not a vault record".to_vec()).unwrap();
        db.flush().unwrap();
    }
    let mut vault = PersistentTokenVault::new(&path).unwrap();
    assert_eq!(vault.get_token(&"anything".to_string()), None);
    // The degraded store still works and persists from scratch.
    let out = vault.tokenize("fresh start").unwrap();
    assert_eq!(vault.detokenize(&out), "fresh start");
}

#[test]
fn unopenable_store_is_a_startup_error() {
    let path = fresh_path("unopenable");
    {
        let _db = sled::open(&path).unwrap();
    }
    // A path component that is an existing file cannot be a database dir.
    let bad = format!("{}/conf/nested", path);
    match PersistentTokenVault::new(&bad) {
        Err(VaultError::StorageOpen) => {}
        other => panic!("expected StorageOpen, got {:?}", other.map(|_| "a vault")),
    }
}

#[test]
fn mint_token_avoids_live_tokens() {
    let mut vault = PersistentTokenVault::new(&fresh_path("mint")).unwrap();
    vault.set_token("w".to_string(), "t".to_string()).unwrap();
    let minted = vault.mint_token().unwrap();
    assert_eq!(minted.chars().count(), 16);
    assert_eq!(vault.get_word(&minted), None);
}
