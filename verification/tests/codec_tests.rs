use token_vault::codec::{decode_vault, encode_vault};
use token_vault::vault::Vault;

/// Builds a record in the persisted layout by hand: an entry count, then
/// for each entry the word and the token, each length-prefixed.
fn record(entries: &[(&str, &str)]) -> Vec<u8> {
    let mut out = (entries.len() as u64).to_le_bytes().to_vec();
    for (w, t) in entries {
        out.extend_from_slice(&(w.len() as u64).to_le_bytes());
        out.extend_from_slice(w.as_bytes());
        out.extend_from_slice(&(t.len() as u64).to_le_bytes());
        out.extend_from_slice(t.as_bytes());
    }
    out
}

#[test]
fn encode_decode_round_trip() {
    let mut v = Vault::empty();
    v.insert("My".to_string(), "tok_one_16chars_".to_string());
    v.insert("age".to_string(), "tok_two_16chars_".to_string());
    v.insert("43.".to_string(), "tok_three_chars_".to_string());
    let bytes = encode_vault(&v);
    let back = decode_vault(&bytes).expect("an encoded vault must decode");
    assert!(back.check_wf());
    assert_eq!(back.lookup_token(&"My".to_string()), Some("tok_one_16chars_".to_string()));
    assert_eq!(back.lookup_token(&"age".to_string()), Some("tok_two_16chars_".to_string()));
    assert_eq!(back.lookup_word(&"tok_three_chars_".to_string()), Some("43.".to_string()));
    assert_eq!(back.len(), 3);
}

#[test]
fn encode_decode_round_trip_empty() {
    let v = Vault::empty();
    let bytes = encode_vault(&v);
    let back = decode_vault(&bytes).expect("an empty record must decode");
    assert_eq!(back.len(), 0);
}

#[test]
fn encode_decode_unicode_words() {
    let mut v = Vault::empty();
    v.insert("\u{00e9}t\u{00e9}".to_string(), "tokA".to_string());
    v.insert("\u{6f22}\u{5b57}".to_string(), "tokB".to_string());
    let bytes = encode_vault(&v);
    let back = decode_vault(&bytes).expect("unicode words must decode");
    assert_eq!(
        back.lookup_token(&"\u{00e9}t\u{00e9}".to_string()),
        Some("tokA".to_string())
    );
    assert_eq!(back.lookup_word(&"tokB".to_string()), Some("\u{6f22}\u{5b57}".to_string()));
}

#[test]
fn garbage_does_not_decode() {
    assert!(decode_vault(&vec![]).is_none());
    assert!(decode_vault(&vec![1, 2, 3]).is_none());
    assert!(decode_vault(&vec![255; 40]).is_none());
    // A huge entry count with no entries behind it.
    assert!(decode_vault(&vec![255, 255, 255, 255, 255, 255, 255, 0]).is_none());
}

#[test]
fn truncated_record_does_not_decode() {
    let mut v = Vault::empty();
    v.insert("word".to_string(), "token".to_string());
    let bytes = encode_vault(&v);
    let mut cut = bytes.clone();
    cut.pop();
    assert!(decode_vault(&cut).is_none());
    let mut padded = bytes.clone();
    padded.push(0);
    assert!(decode_vault(&padded).is_none());
}

#[test]
fn well_formed_hand_built_record_decodes() {
    let bytes = record(&[("a", "t1"), ("b", "t2")]);
    let v = decode_vault(&bytes).expect("a well-formed record must decode");
    assert_eq!(v.lookup_token(&"a".to_string()), Some("t1".to_string()));
    assert_eq!(v.lookup_token(&"b".to_string()), Some("t2".to_string()));
}

#[test]
fn record_violating_invariants_does_not_decode() {
    assert!(decode_vault(&record(&[("a", "t1"), ("a", "t2")])).is_none());
    assert!(decode_vault(&record(&[("a", "t1"), ("b", "t1")])).is_none());
    assert!(decode_vault(&record(&[("a", "t 1")])).is_none());
    assert!(decode_vault(&record(&[("a", "")])).is_none());
}
