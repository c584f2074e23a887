//! The persistent token vault and the tokenization engine.
//!
//! `PersistentTokenVault` owns the in-memory vault and its sled-backed
//! durable copy.  All mutation goes through `set_token`, which persists the
//! staged state first and only commits it in memory when the durable flush
//! succeeded, so a failed write leaves the mappings untouched.
//!
//! Exclusive access is modeled by ownership: every mutating operation takes
//! `&mut self`, so a whole `tokenize` call is one critical section.  A
//! concurrent embedding wraps the vault in a mutual-exclusion guard and holds
//! it for the entire call; `lemma_serialized_calls_agree` states what such
//! serialized callers observe.

use vstd::prelude::*;

use crate::codec::{decode_vault, encode_vault, model_wf, spec_decode};
use crate::errors::VaultError;
use crate::text::{join_sp, join_words, split_words, split_ws, word_ok};
use crate::token::{generate_token, token_shaped};
use crate::vault::{lemma_map_of_contains, Vault};

verus! {

/// Relies on `sled::Db`: the embedded database handle.
#[verifier::external_type_specification]
#[verifier::external_body]
pub struct ExDb(sled::Db);

/// Relies on `sled::Error`: the storage engine's error type.
#[verifier::external_type_specification]
#[verifier::external_body]
pub struct ExSledError(sled::Error);

/// Relies on `sled::open`: opens (or creates) the database at the path.
/// Whether it succeeds depends on the machine, so nothing more is promised.
#[verifier::external_body]
fn sled_open(path: &str) -> (r: Result<sled::Db, sled::Error>) {
    sled::open(path)
}

/// Relies on `sled::Tree::get`: reads the value stored under `key`, if any.
/// The result depends on what is on disk, so nothing more is promised.
#[verifier::external_body]
fn db_get(db: &sled::Db, key: &str) -> (r: Result<Option<Vec<u8>>, sled::Error>) {
    match db.get(key) {
        Ok(Some(iv)) => Ok(Some(iv.to_vec())),
        Ok(None) => Ok(None),
        Err(e) => Err(e),
    }
}

/// Relies on `sled::Tree::insert`: stores `value` under `key`.
#[verifier::external_body]
fn db_insert(db: &sled::Db, key: &str, value: &Vec<u8>) -> (r: Result<(), sled::Error>) {
    match db.insert(key, value.as_slice()) {
        Ok(_) => Ok(()),
        Err(e) => Err(e),
    }
}

/// Relies on `sled::Tree::flush`: forces a durable flush of prior writes.
#[verifier::external_body]
fn db_flush(db: &sled::Db) -> (r: Result<(), sled::Error>) {
    match db.flush() {
        Ok(_) => Ok(()),
        Err(e) => Err(e),
    }
}

/// `v2` extends `v1`: every word/token assignment of `v1` is kept in `v2`.
pub open spec fn vault_extends(v1: Vault, v2: Vault) -> bool {
    forall|w: Seq<char>| #[trigger]
        v1.w2t().contains_key(w) ==> v2.w2t().contains_key(w) && v2.w2t()[w] == v1.w2t()[w]
}

/// The tokens the mapping assigns to a sequence of words.
pub open spec fn tokens_of(m: Map<Seq<char>, Seq<char>>, ws: Seq<Seq<char>>) -> Seq<Seq<char>> {
    ws.map_values(|w: Seq<char>| m[w])
}

/// Every word of `ws` has an assigned token in `m`.
pub open spec fn all_assigned(m: Map<Seq<char>, Seq<char>>, ws: Seq<Seq<char>>) -> bool {
    forall|i: int| 0 <= i < ws.len() ==> m.contains_key(#[trigger] ws[i])
}

/// Every token assigned in `new_m` but not in `old_m` has the minted shape:
/// 16 characters from the URL-safe base64 alphabet.
pub open spec fn new_tokens_shaped(
    old_m: Map<Seq<char>, Seq<char>>,
    new_m: Map<Seq<char>, Seq<char>>,
) -> bool {
    forall|w: Seq<char>| #[trigger]
        new_m.contains_key(w) && !old_m.contains_key(w) ==> token_shaped(new_m[w])
}

/// A failed tokenization stopped at word `k`: every earlier word of the
/// input is assigned, the word it stopped at is not, and nothing beyond the
/// first `k` words was added to the mapping — the committed prefix stands,
/// the failing word and everything after it are absent.
pub open spec fn stopped_at(
    old_m: Map<Seq<char>, Seq<char>>,
    new_m: Map<Seq<char>, Seq<char>>,
    ws: Seq<Seq<char>>,
    k: int,
) -> bool {
    &&& 0 <= k < ws.len()
    &&& forall|i: int| 0 <= i < k ==> new_m.contains_key(#[trigger] ws[i])
    &&& !new_m.contains_key(ws[k])
    &&& forall|w: Seq<char>| #[trigger]
        new_m.contains_key(w) ==> old_m.contains_key(w) || (exists|i: int|
            0 <= i < k && ws[i] == w)
}

/// At an error exit of `tokenize`, the loop facts at the failing word `k`
/// amount to `stopped_at`, and in particular some input word was unassigned
/// at entry.
proof fn lemma_tokenize_stop(
    old_m: Map<Seq<char>, Seq<char>>,
    new_m: Map<Seq<char>, Seq<char>>,
    ws: Seq<Seq<char>>,
    k: int,
)
    requires
        0 <= k < ws.len(),
        forall|i: int| 0 <= i < k ==> new_m.contains_key(#[trigger] ws[i]),
        !new_m.contains_key(ws[k]),
        forall|w: Seq<char>| #[trigger]
            new_m.contains_key(w) ==> old_m.contains_key(w) || (exists|i: int|
                0 <= i < k && ws[i] == w),
        forall|w: Seq<char>| #[trigger] old_m.contains_key(w) ==> new_m.contains_key(w),
    ensures
        stopped_at(old_m, new_m, ws, k),
        exists|j: int| stopped_at(old_m, new_m, ws, j),
        !all_assigned(old_m, ws),
{
    assert(stopped_at(old_m, new_m, ws, k));
    assert(!old_m.contains_key(ws[k]));
}

/// The words a sequence of tokens resolves to; unknown tokens are dropped.
pub open spec fn detok_seq(m: Map<Seq<char>, Seq<char>>, toks: Seq<Seq<char>>) -> Seq<Seq<char>>
    decreases toks.len(),
{
    if toks.len() == 0 {
        Seq::empty()
    } else {
        let rest = detok_seq(m, toks.drop_last());
        if m.contains_key(toks.last()) {
            rest.push(m[toks.last()])
        } else {
            rest
        }
    }
}

/// Rebuilds the vault from the stored record, if any.
///
/// A well-formed record yields exactly the mappings it encodes; a missing
/// record, one that does not parse, or one whose mappings would violate the
/// vault invariants yields the empty vault.  Together with
/// `codec::lemma_decode_encode` this is the durability contract: reloading
/// what `save` flushed restores the mappings of the last successful persist.
pub fn load_from_record(stored: Option<Vec<u8>>) -> (v: Vault)
    ensures
        v.wf(),
        match stored {
            Some(bytes) => (match spec_decode(bytes@) {
                Some(m) => (if model_wf(m.0, m.1) {
                    v.words_view() == m.0 && v.tokens_view() == m.1
                } else {
                    v.words_view().len() == 0
                }),
                None => v.words_view().len() == 0,
            }),
            None => v.words_view().len() == 0,
        },
{
    match stored {
        Some(bytes) => match decode_vault(&bytes) {
            Some(v) => {
                proof {
                    assert(model_wf(v.words_view(), v.tokens_view()));
                }
                v
            },
            None => Vault::empty(),
        },
        None => Vault::empty(),
    }
}

/// The vault together with its durable storage.
pub struct PersistentTokenVault {
    /// The handle of the durable store.
    pub db: sled::Db,
    /// The in-memory copy of the mappings.
    pub vault: Vault,
}

impl PersistentTokenVault {
    /// Well-formedness of the in-memory mappings.
    pub open spec fn wf(self) -> bool {
        self.vault.wf()
    }

    /// The forward mapping, word to token.
    pub open spec fn w2t(self) -> Map<Seq<char>, Seq<char>> {
        self.vault.w2t()
    }

    /// The reverse mapping, token to word.
    pub open spec fn t2w(self) -> Map<Seq<char>, Seq<char>> {
        self.vault.t2w()
    }

    /// Opens the store at `path` and loads the persisted vault.
    ///
    /// A missing or unparsable record degrades to an empty vault; only a
    /// store that cannot be opened or read at all is an error, and then the
    /// caller must not proceed.
    pub fn new(path: &str) -> (r: Result<PersistentTokenVault, VaultError>)
        ensures
            match r {
                Ok(v) => v.wf(),
                Err(e) => e == VaultError::StorageOpen,
            },
    {
        let db = match sled_open(path) {
            Ok(d) => d,
            Err(_) => {
                return Err(VaultError::StorageOpen);
            },
        };
        let stored = match db_get(&db, "vault") {
            Ok(o) => o,
            Err(_) => {
                return Err(VaultError::StorageOpen);
            },
        };
        let vault = load_from_record(stored);
        Ok(PersistentTokenVault { db, vault })
    }

    /// Serializes the whole vault, writes it under the single well-known
    /// key, and forces a durable flush.
    pub fn save(&self) -> (r: Result<(), VaultError>)
        requires
            self.wf(),
        ensures
            r matches Err(e) ==> e == VaultError::StorageWrite,
    {
        let bytes = encode_vault(&self.vault);
        match db_insert(&self.db, "vault", &bytes) {
            Ok(u) => u,
            Err(_) => {
                return Err(VaultError::StorageWrite);
            },
        }
        match db_flush(&self.db) {
            Ok(u) => Ok(u),
            Err(_) => Err(VaultError::StorageWrite),
        }
    }

    /// The token assigned to `word`, if any: a pure read.
    pub fn get_token(&self, word: &String) -> (r: Option<String>)
        requires
            self.wf(),
        ensures
            match r {
                Some(t) => self.w2t().contains_key(word@) && t@ == self.w2t()[word@],
                None => !self.w2t().contains_key(word@),
            },
    {
        self.vault.lookup_token(word)
    }

    /// The word behind `token`, if any: a pure read.
    pub fn get_word(&self, token: &String) -> (r: Option<String>)
        requires
            self.wf(),
        ensures
            match r {
                Some(w) => self.t2w().contains_key(token@) && w@ == self.t2w()[token@],
                None => !self.t2w().contains_key(token@),
            },
    {
        self.vault.lookup_word(token)
    }

    /// Assigns `token` to `word` in both maps and persists the new state.
    ///
    /// The write is staged: the record holding the new pair is flushed
    /// first, and the in-memory maps keep it only if the flush succeeded,
    /// so memory and disk never diverge silently.
    pub fn set_token(&mut self, word: String, token: String) -> (r: Result<(), VaultError>)
        requires
            old(self).wf(),
            !old(self).w2t().contains_key(word@),
            !old(self).t2w().contains_key(token@),
            word_ok(token@),
        ensures
            final(self).wf(),
            match r {
                Ok(u) => {
                    &&& final(self).w2t() == old(self).w2t().insert(word@, token@)
                    &&& final(self).t2w() == old(self).t2w().insert(token@, word@)
                    &&& final(self).vault.words_view() == old(self).vault.words_view().push(word@)
                    &&& final(self).vault.tokens_view() == old(self).vault.tokens_view().push(
                        token@,
                    )
                },
                Err(e) => {
                    &&& e == VaultError::StorageWrite
                    &&& final(self).vault.words_view() == old(self).vault.words_view()
                    &&& final(self).vault.tokens_view() == old(self).vault.tokens_view()
                    &&& final(self).w2t() == old(self).w2t()
                    &&& final(self).t2w() == old(self).t2w()
                },
            },
    {
        let ghost ow = self.vault.words_view();
        let ghost ot = self.vault.tokens_view();
        let ghost wv = word@;
        let ghost tv = token@;
        self.vault.insert(word, token);
        let ghost mid_w = self.vault.words@;
        let ghost mid_t = self.vault.tokens@;
        proof {
            assert(self.vault.words.deep_view() == ow.push(wv));
            assert(self.vault.tokens.deep_view() == ot.push(tv));
        }
        match self.save() {
            Ok(u) => Ok(u),
            Err(e) => {
                let _ = self.vault.words.pop();
                let _ = self.vault.tokens.pop();
                proof {
                    assert(self.vault.words@ == mid_w.subrange(0, mid_w.len() - 1));
                    assert(self.vault.tokens@ == mid_t.subrange(0, mid_t.len() - 1));
                    assert(mid_w.len() == ow.len() + 1);
                    assert(mid_t.len() == ot.len() + 1);
                    assert forall|i: int|
                        0 <= i < ow.len() implies #[trigger] self.vault.words.deep_view()[i]
                        == ow[i] by {
                        assert(self.vault.words@[i] == mid_w[i]);
                        assert(self.vault.words.deep_view()[i] == mid_w[i].deep_view());
                        assert(ow.push(wv)[i] == mid_w[i].deep_view());
                        assert(ow.push(wv)[i] == ow[i]);
                    }
                    assert forall|i: int|
                        0 <= i < ot.len() implies #[trigger] self.vault.tokens.deep_view()[i]
                        == ot[i] by {
                        assert(self.vault.tokens@[i] == mid_t[i]);
                        assert(self.vault.tokens.deep_view()[i] == mid_t[i].deep_view());
                        assert(ot.push(tv)[i] == mid_t[i].deep_view());
                        assert(ot.push(tv)[i] == ot[i]);
                    }
                    assert(self.vault.words.deep_view() =~= ow);
                    assert(self.vault.tokens.deep_view() =~= ot);
                }
                Err(e)
            },
        }
    }

    /// Mints a fresh token for a new word: up to two random candidates are
    /// checked against the live tokens, and exhaustion of the retry bound is
    /// reported as `TokenSpaceExhausted`, never papered over by accepting a
    /// colliding token.  Exhaustion can only be reported when at least one
    /// token is live — on an empty vault no candidate can collide.
    pub fn mint_token(&self) -> (r: Result<String, VaultError>)
        requires
            self.wf(),
        ensures
            match r {
                Ok(t) => !self.t2w().contains_key(t@) && token_shaped(t@) && word_ok(t@),
                Err(e) => {
                    &&& e == VaultError::TokenSpaceExhausted
                        || e == VaultError::RandomnessUnavailable
                    &&& e == VaultError::TokenSpaceExhausted ==> self.vault.tokens_view().len()
                        > 0
                },
            },
    {
        let first = match generate_token() {
            Ok(t) => t,
            Err(e) => {
                return Err(e);
            },
        };
        let second = match generate_token() {
            Ok(t) => t,
            Err(e) => {
                return Err(e);
            },
        };
        let ghost f1 = first@;
        let picked = self.vault.pick_fresh_token(first, second);
        proof {
            if picked is Err {
                assert(self.t2w().contains_key(f1));
                lemma_map_of_contains(self.vault.tokens_view(), self.vault.words_view());
                assert(self.vault.tokens_view().contains(f1));
            }
        }
        picked
    }

    /// Splits `input` on whitespace and replaces every word by its token,
    /// minting and persisting tokens for words seen for the first time; the
    /// tokens are joined with single spaces.
    ///
    /// On any outcome the vault only extends: no existing assignment is ever
    /// changed or lost, which is what makes repeated tokenization stable.
    /// Every newly assigned token has the minted shape.  When every word of
    /// the input is already assigned the call makes no mint and no persist,
    /// so it succeeds and leaves the vault untouched; a failure always names
    /// the first unseen word it could not serve, with the assignments made
    /// before it committed and nothing beyond them.
    pub fn tokenize(&mut self, input: &str) -> (r: Result<String, VaultError>)
        requires
            old(self).wf(),
        ensures
            final(self).wf(),
            vault_extends(old(self).vault, final(self).vault),
            new_tokens_shaped(old(self).w2t(), final(self).w2t()),
            forall|w: Seq<char>| #[trigger]
                final(self).w2t().contains_key(w) ==> old(self).w2t().contains_key(w)
                    || split_ws(input@).contains(w),
            all_assigned(old(self).w2t(), split_ws(input@)) ==> (r is Ok
                && final(self).vault.words_view() == old(self).vault.words_view()
                && final(self).vault.tokens_view() == old(self).vault.tokens_view()),
            match r {
                Ok(out) => {
                    &&& all_assigned(final(self).w2t(), split_ws(input@))
                    &&& out@ == join_sp(tokens_of(final(self).w2t(), split_ws(input@)))
                },
                Err(e) => {
                    &&& e == VaultError::StorageWrite || e == VaultError::TokenSpaceExhausted
                        || e == VaultError::RandomnessUnavailable
                    &&& exists|k: int|
                        stopped_at(old(self).w2t(), final(self).w2t(), split_ws(input@), k)
                },
            },
    {
        let words = split_words(input);
        let mut toks: Vec<String> = Vec::new();
        let n = words.len();
        let mut idx: usize = 0;
        while idx < n
            invariant
                idx <= n,
                n == words.deep_view().len(),
                words.deep_view() == split_ws(input@),
                self.wf(),
                vault_extends(old(self).vault, self.vault),
                new_tokens_shaped(old(self).w2t(), self.vault.w2t()),
                forall|w: Seq<char>| #[trigger]
                    self.vault.w2t().contains_key(w) ==> old(self).vault.w2t().contains_key(w)
                        || split_ws(input@).contains(w),
                forall|w: Seq<char>| #[trigger]
                    self.vault.w2t().contains_key(w) ==> old(self).vault.w2t().contains_key(w)
                        || (exists|i: int| 0 <= i < idx && split_ws(input@)[i] == w),
                all_assigned(old(self).w2t(), split_ws(input@)) ==> (self.vault.words_view()
                    == old(self).vault.words_view() && self.vault.tokens_view() == old(
                    self,
                ).vault.tokens_view()),
                toks.deep_view().len() == idx as int,
                forall|i: int|
                    0 <= i < idx ==> self.vault.w2t().contains_key(
                        #[trigger] split_ws(input@)[i],
                    ),
                forall|i: int|
                    0 <= i < idx ==> toks.deep_view()[i] == self.vault.w2t()[#[trigger] split_ws(input@)[i]],
            decreases n - idx,
        {
            let ghost vprev = self.vault;
            let w = &words[idx];
            proof {
                assert(w@ == words.deep_view()[idx as int]);
                assert(words.deep_view()[idx as int] == split_ws(input@)[idx as int]);
            }
            let t = match self.get_token(w) {
                Some(t) => t,
                None => {
                    proof {
                        if all_assigned(old(self).w2t(), split_ws(input@)) {
                            assert(old(self).w2t().contains_key(
                                split_ws(input@)[idx as int],
                            ));
                            assert(vprev.w2t().contains_key(split_ws(input@)[idx as int]));
                            assert(false);
                        }
                    }
                    let minted = match self.mint_token() {
                        Ok(m) => m,
                        Err(e) => {
                            proof {
                                assert(!self.vault.w2t().contains_key(
                                    split_ws(input@)[idx as int],
                                ));
                                lemma_tokenize_stop(
                                    old(self).w2t(),
                                    self.vault.w2t(),
                                    split_ws(input@),
                                    idx as int,
                                );
                            }
                            return Err(e);
                        },
                    };
                    let kept = minted.clone();
                    match self.set_token(w.clone(), minted) {
                        Ok(u) => u,
                        Err(e) => {
                            proof {
                                assert(!self.vault.w2t().contains_key(
                                    split_ws(input@)[idx as int],
                                ));
                                lemma_tokenize_stop(
                                    old(self).w2t(),
                                    self.vault.w2t(),
                                    split_ws(input@),
                                    idx as int,
                                );
                            }
                            return Err(e);
                        },
                    }
                    proof {
                        assert(self.vault.w2t() == vprev.w2t().insert(w@, kept@));
                        assert forall|x: Seq<char>| #[trigger]
                            vprev.w2t().contains_key(x) implies self.vault.w2t().contains_key(x)
                            && self.vault.w2t()[x] == vprev.w2t()[x] by {
                            assert(x != w@);
                        }
                        assert(split_ws(input@).contains(w@));
                        assert forall|x: Seq<char>| #[trigger]
                            self.vault.w2t().contains_key(x) && !old(
                                self,
                            ).w2t().contains_key(x) implies token_shaped(
                            self.vault.w2t()[x],
                        ) by {
                            if x != w@ {
                                assert(vprev.w2t().contains_key(x));
                            }
                        }
                        assert forall|x: Seq<char>| #[trigger]
                            self.vault.w2t().contains_key(x) implies old(
                            self,
                        ).vault.w2t().contains_key(x) || (exists|i: int|
                            0 <= i < idx + 1 && split_ws(input@)[i] == x) by {
                            if x == w@ {
                                assert(split_ws(input@)[idx as int] == x);
                            } else {
                                assert(vprev.w2t().contains_key(x));
                            }
                        }
                    }
                    kept
                },
            };
            let ghost before = toks.deep_view();
            toks.push(t);
            proof {
                assert(toks.deep_view() =~= before.push(t@));
                assert forall|i: int|
                    0 <= i < idx + 1 implies toks.deep_view()[i] == self.vault.w2t()[#[trigger] split_ws(input@)[i]]
                    && self.vault.w2t().contains_key(split_ws(input@)[i]) by {
                    if i < idx as int {
                        assert(vprev.w2t().contains_key(split_ws(input@)[i]));
                    }
                }
            }
            idx += 1;
        }
        let out = join_words(&toks);
        proof {
            assert(toks.deep_view() =~= tokens_of(self.vault.w2t(), split_ws(input@)));
        }
        Ok(out)
    }

    /// Splits `input` on whitespace and resolves each token back to its
    /// word; tokens unknown to the vault are dropped from the output, by
    /// policy, rather than replaced with a placeholder.  The vault is not
    /// touched.
    pub fn detokenize(&self, input: &str) -> (r: String)
        requires
            self.wf(),
        ensures
            r@ == join_sp(detok_seq(self.t2w(), split_ws(input@))),
    {
        let toks = split_words(input);
        let mut found: Vec<String> = Vec::new();
        let n = toks.len();
        let mut i: usize = 0;
        while i < n
            invariant
                i <= n,
                n == toks.deep_view().len(),
                toks.deep_view() == split_ws(input@),
                self.wf(),
                found.deep_view() == detok_seq(self.t2w(), toks.deep_view().take(i as int)),
            decreases n - i,
        {
            let ghost before = found.deep_view();
            proof {
                assert(toks.deep_view().take(i + 1).drop_last() =~= toks.deep_view().take(i as int));
                assert(toks.deep_view().take(i + 1).last() == toks.deep_view()[i as int]);
            }
            match self.get_word(&toks[i]) {
                Some(w) => {
                    found.push(w);
                    proof {
                        assert(found.deep_view() =~= before.push(
                            self.t2w()[toks.deep_view()[i as int]],
                        ));
                    }
                },
                None => {},
            }
            i += 1;
        }
        proof {
            assert(toks.deep_view().take(n as int) =~= toks.deep_view());
        }
        join_words(&found)
    }
}

} // verus!
