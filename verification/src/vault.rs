//! The in-memory token vault: a bijective word-to-token mapping.
//!
//! The vault is modeled as two parallel sequences of equal length; entry `i`
//! pairs word `i` with token `i`.  Well-formedness (`wf`) demands that words
//! are pairwise distinct, tokens are pairwise distinct, and every token is
//! nonempty and whitespace-free.  The two mapping views `w2t` and `t2w` are
//! then mutually consistent inverses (`lemma_bijection`), and no two distinct
//! words ever share a live token (`lemma_unique_tokens`).

use vstd::prelude::*;

use crate::errors::VaultError;
use crate::text::word_ok;

verus! {

/// No two elements of the sequence are equal.
pub open spec fn distinct_seq(s: Seq<Seq<char>>) -> bool {
    forall|i: int, j: int| #![trigger s[i], s[j]] 0 <= i < j < s.len() ==> s[i] != s[j]
}

/// The finite map pairing `ks[i]` with `vs[i]` (later entries win).
pub open spec fn map_of(ks: Seq<Seq<char>>, vs: Seq<Seq<char>>) -> Map<Seq<char>, Seq<char>>
    decreases ks.len(),
{
    if ks.len() == 0 {
        Map::empty()
    } else {
        map_of(ks.drop_last(), vs.drop_last()).insert(ks.last(), vs.last())
    }
}

/// The domain of `map_of(ks, vs)` is exactly the set of elements of `ks`.
pub proof fn lemma_map_of_contains(ks: Seq<Seq<char>>, vs: Seq<Seq<char>>)
    requires
        ks.len() == vs.len(),
    ensures
        forall|k: Seq<char>| #[trigger] map_of(ks, vs).contains_key(k) <==> ks.contains(k),
    decreases ks.len(),
{
    if ks.len() == 0 {
        assert(forall|k: Seq<char>| !(#[trigger] ks.contains(k)));
    } else {
        lemma_map_of_contains(ks.drop_last(), vs.drop_last());
        assert forall|k: Seq<char>| #[trigger] map_of(ks, vs).contains_key(k) <==> ks.contains(
            k,
        ) by {
            if ks.contains(k) {
                let i = choose|i: int| 0 <= i < ks.len() && ks[i] == k;
                if i < ks.len() - 1 {
                    assert(ks.drop_last()[i] == k);
                    assert(ks.drop_last().contains(k));
                    assert(map_of(ks.drop_last(), vs.drop_last()).contains_key(k));
                } else {
                    assert(k == ks.last());
                }
                assert(map_of(ks, vs).contains_key(k));
            }
            if map_of(ks, vs).contains_key(k) {
                if k == ks.last() {
                    assert(ks[ks.len() - 1] == k);
                } else {
                    assert(map_of(ks.drop_last(), vs.drop_last()).contains_key(k));
                    assert(ks.drop_last().contains(k));
                    let i = choose|i: int| 0 <= i < ks.drop_last().len() && ks.drop_last()[i] == k;
                    assert(ks.drop_last()[i] == ks[i]);
                    assert(ks[i] == k);
                }
            }
        }
    }
}

/// With distinct keys, `map_of` sends `ks[i]` to `vs[i]`.
pub proof fn lemma_map_of_get(ks: Seq<Seq<char>>, vs: Seq<Seq<char>>, i: int)
    requires
        ks.len() == vs.len(),
        distinct_seq(ks),
        0 <= i < ks.len(),
    ensures
        map_of(ks, vs).contains_key(ks[i]),
        map_of(ks, vs)[ks[i]] == vs[i],
    decreases ks.len(),
{
    if i < ks.len() - 1 {
        assert(ks[i] != ks.last());
        assert(distinct_seq(ks.drop_last()));
        lemma_map_of_get(ks.drop_last(), vs.drop_last(), i);
        assert(ks.drop_last()[i] == ks[i]);
        assert(vs.drop_last()[i] == vs[i]);
    }
}

/// The bidirectional word/token store.
pub struct Vault {
    /// The words, in insertion order.
    pub words: Vec<String>,
    /// The token assigned to each word, in the same order.
    pub tokens: Vec<String>,
}

impl Vault {
    /// The sequence of words held by the vault.
    pub open spec fn words_view(self) -> Seq<Seq<char>> {
        self.words.deep_view()
    }

    /// The sequence of tokens held by the vault.
    pub open spec fn tokens_view(self) -> Seq<Seq<char>> {
        self.tokens.deep_view()
    }

    /// The forward mapping, word to token.
    pub open spec fn w2t(self) -> Map<Seq<char>, Seq<char>> {
        map_of(self.words_view(), self.tokens_view())
    }

    /// The reverse mapping, token to word.
    pub open spec fn t2w(self) -> Map<Seq<char>, Seq<char>> {
        map_of(self.tokens_view(), self.words_view())
    }

    /// Well-formedness: parallel sequences, distinct words, distinct tokens,
    /// and every token nonempty and whitespace-free.
    pub open spec fn wf(self) -> bool {
        &&& self.words.len() == self.tokens.len()
        &&& distinct_seq(self.words_view())
        &&& distinct_seq(self.tokens_view())
        &&& forall|i: int|
            0 <= i < self.tokens_view().len() ==> word_ok(#[trigger] self.tokens_view()[i])
    }

    /// An empty vault.
    pub fn empty() -> (v: Vault)
        ensures
            v.wf(),
            v.words_view() == Seq::<Seq<char>>::empty(),
            v.tokens_view() == Seq::<Seq<char>>::empty(),
    {
        let v = Vault { words: Vec::new(), tokens: Vec::new() };
        proof {
            assert(v.words_view() =~= Seq::<Seq<char>>::empty());
            assert(v.tokens_view() =~= Seq::<Seq<char>>::empty());
        }
        v
    }

    /// The number of word/token pairs in the vault.
    pub fn len(&self) -> (n: usize)
        requires
            self.wf(),
        ensures
            n == self.words_view().len(),
    {
        self.words.len()
    }

    /// Looks up the token assigned to `word`, if any.
    pub fn lookup_token(&self, word: &String) -> (r: Option<String>)
        requires
            self.wf(),
        ensures
            match r {
                Some(t) => self.w2t().contains_key(word@) && t@ == self.w2t()[word@],
                None => !self.w2t().contains_key(word@),
            },
    {
        let n = self.words.len();
        let mut i: usize = 0;
        while i < n
            invariant
                self.wf(),
                i <= n,
                n == self.words_view().len(),
                forall|j: int| 0 <= j < i ==> self.words_view()[j] != word@,
            decreases n - i,
        {
            if self.words[i] == *word {
                let t = self.tokens[i].clone();
                proof {
                    lemma_map_of_get(self.words_view(), self.tokens_view(), i as int);
                }
                return Some(t);
            }
            i += 1;
        }
        proof {
            lemma_map_of_contains(self.words_view(), self.tokens_view());
            if self.w2t().contains_key(word@) {
                let j = choose|j: int|
                    0 <= j < self.words_view().len() && self.words_view()[j] == word@;
                assert(self.words_view()[j] != word@);
            }
        }
        None
    }

    /// Looks up the word that `token` stands for, if any.
    pub fn lookup_word(&self, token: &String) -> (r: Option<String>)
        requires
            self.wf(),
        ensures
            match r {
                Some(w) => self.t2w().contains_key(token@) && w@ == self.t2w()[token@],
                None => !self.t2w().contains_key(token@),
            },
    {
        let n = self.tokens.len();
        let mut i: usize = 0;
        while i < n
            invariant
                self.wf(),
                i <= n,
                n == self.tokens_view().len(),
                forall|j: int| 0 <= j < i ==> self.tokens_view()[j] != token@,
            decreases n - i,
        {
            if self.tokens[i] == *token {
                let w = self.words[i].clone();
                proof {
                    lemma_map_of_get(self.tokens_view(), self.words_view(), i as int);
                }
                return Some(w);
            }
            i += 1;
        }
        proof {
            lemma_map_of_contains(self.tokens_view(), self.words_view());
            if self.t2w().contains_key(token@) {
                let j = choose|j: int|
                    0 <= j < self.tokens_view().len() && self.tokens_view()[j] == token@;
                assert(self.tokens_view()[j] != token@);
            }
        }
        None
    }

    /// Inserts a fresh word/token pair, maintaining the bijection.
    pub fn insert(&mut self, word: String, token: String)
        requires
            old(self).wf(),
            !old(self).w2t().contains_key(word@),
            !old(self).t2w().contains_key(token@),
            word_ok(token@),
        ensures
            final(self).wf(),
            final(self).words_view() == old(self).words_view().push(word@),
            final(self).tokens_view() == old(self).tokens_view().push(token@),
            final(self).w2t() == old(self).w2t().insert(word@, token@),
            final(self).t2w() == old(self).t2w().insert(token@, word@),
    {
        proof {
            lemma_map_of_contains(old(self).words_view(), old(self).tokens_view());
            lemma_map_of_contains(old(self).tokens_view(), old(self).words_view());
        }
        let ghost ow = self.words_view();
        let ghost ot = self.tokens_view();
        self.words.push(word);
        self.tokens.push(token);
        proof {
            assert(self.words_view() =~= ow.push(word@));
            assert(self.tokens_view() =~= ot.push(token@));
            assert(!ow.contains(word@));
            assert(!ot.contains(token@));
            assert forall|i: int, j: int|
                #![trigger self.words_view()[i], self.words_view()[j]]
                0 <= i < j < self.words_view().len() implies self.words_view()[i]
                != self.words_view()[j] by {
                if j == ow.len() {
                    assert(ow[i] == self.words_view()[i]);
                    assert(ow.contains(ow[i]));
                }
            }
            assert forall|i: int, j: int|
                #![trigger self.tokens_view()[i], self.tokens_view()[j]]
                0 <= i < j < self.tokens_view().len() implies self.tokens_view()[i]
                != self.tokens_view()[j] by {
                if j == ot.len() {
                    assert(ot[i] == self.tokens_view()[i]);
                    assert(ot.contains(ot[i]));
                }
            }
            assert(self.words_view().push(word@).drop_last() =~= self.words_view());
            assert(ow.push(word@).drop_last() =~= ow);
            assert(ot.push(token@).drop_last() =~= ot);
        }
    }

    /// Checks the whole well-formedness invariant by exhaustive scan:
    /// parallel columns, pairwise-distinct words, pairwise-distinct tokens,
    /// and every token nonempty and whitespace-free.
    pub fn check_wf(&self) -> (r: bool)
        ensures
            r == self.wf(),
    {
        if self.words.len() != self.tokens.len() {
            return false;
        }
        if !check_distinct(&self.words) {
            return false;
        }
        if !check_distinct(&self.tokens) {
            return false;
        }
        check_words_ok(&self.tokens)
    }

    /// Returns the first of the two candidate tokens that is free in the
    /// vault, or `TokenSpaceExhausted` when both are already assigned.
    ///
    /// This is the collision-avoidance decision with its retry bound of two
    /// attempts, separated from the random candidate generation so that it is
    /// fully specified for every pair of candidates.
    pub fn pick_fresh_token(&self, first: String, second: String) -> (r: Result<
        String,
        VaultError,
    >)
        requires
            self.wf(),
        ensures
            !self.t2w().contains_key(first@) ==> (r matches Ok(t) && t@ == first@),
            self.t2w().contains_key(first@) && !self.t2w().contains_key(second@) ==> (
            r matches Ok(t) && t@ == second@),
            self.t2w().contains_key(first@) && self.t2w().contains_key(second@) ==> (
            r matches Err(e) && e == VaultError::TokenSpaceExhausted),
            r matches Ok(t) ==> !self.t2w().contains_key(t@) && (t@ == first@ || t@ == second@),
    {
        if self.lookup_word(&first).is_none() {
            Ok(first)
        } else if self.lookup_word(&second).is_none() {
            Ok(second)
        } else {
            Err(VaultError::TokenSpaceExhausted)
        }
    }
}

/// Invariant A (bijection): the two maps are mutually consistent views of one
/// relation — `w2t` sends `w` to `t` exactly when `t2w` sends `t` back to `w`.
pub proof fn lemma_bijection(v: Vault)
    requires
        v.wf(),
    ensures
        forall|w: Seq<char>| #[trigger]
            v.w2t().contains_key(w) ==> v.t2w().contains_key(v.w2t()[w]) && v.t2w()[v.w2t()[w]]
                == w,
        forall|t: Seq<char>| #[trigger]
            v.t2w().contains_key(t) ==> v.w2t().contains_key(v.t2w()[t]) && v.w2t()[v.t2w()[t]]
                == t,
{
    lemma_map_of_contains(v.words_view(), v.tokens_view());
    lemma_map_of_contains(v.tokens_view(), v.words_view());
    assert forall|w: Seq<char>| #[trigger] v.w2t().contains_key(w) implies v.t2w().contains_key(
        v.w2t()[w],
    ) && v.t2w()[v.w2t()[w]] == w by {
        let i = choose|i: int| 0 <= i < v.words_view().len() && v.words_view()[i] == w;
        lemma_map_of_get(v.words_view(), v.tokens_view(), i);
        lemma_map_of_get(v.tokens_view(), v.words_view(), i);
    }
    assert forall|t: Seq<char>| #[trigger] v.t2w().contains_key(t) implies v.w2t().contains_key(
        v.t2w()[t],
    ) && v.w2t()[v.t2w()[t]] == t by {
        let i = choose|i: int| 0 <= i < v.tokens_view().len() && v.tokens_view()[i] == t;
        lemma_map_of_get(v.tokens_view(), v.words_view(), i);
        lemma_map_of_get(v.words_view(), v.tokens_view(), i);
    }
}

/// Invariant B (uniqueness): no two distinct words hold the same live token.
pub proof fn lemma_unique_tokens(v: Vault)
    requires
        v.wf(),
    ensures
        forall|w1: Seq<char>, w2: Seq<char>|
            #![trigger v.w2t()[w1], v.w2t()[w2]]
            v.w2t().contains_key(w1) && v.w2t().contains_key(w2) && w1 != w2 ==> v.w2t()[w1]
                != v.w2t()[w2],
{
    lemma_map_of_contains(v.words_view(), v.tokens_view());
    assert forall|w1: Seq<char>, w2: Seq<char>|
        v.w2t().contains_key(w1) && v.w2t().contains_key(w2) && w1 != w2 implies #[trigger] v.w2t()[w1]
        != #[trigger] v.w2t()[w2] by {
        let i = choose|i: int| 0 <= i < v.words_view().len() && v.words_view()[i] == w1;
        let j = choose|j: int| 0 <= j < v.words_view().len() && v.words_view()[j] == w2;
        lemma_map_of_get(v.words_view(), v.tokens_view(), i);
        lemma_map_of_get(v.words_view(), v.tokens_view(), j);
        assert(i != j);
    }
}

/// Every token a well-formed vault assigns is nonempty and whitespace-free.
pub proof fn lemma_values_word_ok(v: Vault)
    requires
        v.wf(),
    ensures
        forall|w: Seq<char>| #[trigger] v.w2t().contains_key(w) ==> word_ok(v.w2t()[w]),
{
    lemma_map_of_contains(v.words_view(), v.tokens_view());
    assert forall|w: Seq<char>| #[trigger] v.w2t().contains_key(w) implies word_ok(
        v.w2t()[w],
    ) by {
        let i = choose|i: int| 0 <= i < v.words_view().len() && v.words_view()[i] == w;
        lemma_map_of_get(v.words_view(), v.tokens_view(), i);
    }
}

/// Whether a string is nonempty and whitespace-free, by exhaustive scan.
pub fn check_word_ok(s: &String) -> (r: bool)
    ensures
        r == word_ok(s@),
{
    let n = s.as_str().unicode_len();
    if n == 0 {
        return false;
    }
    let mut i: usize = 0;
    while i < n
        invariant
            i <= n,
            n == s@.len(),
            forall|k: int| 0 <= k < i ==> !crate::text::is_ws(#[trigger] s@[k]),
        decreases n - i,
    {
        if crate::text::is_ws_char(s.as_str().get_char(i)) {
            return false;
        }
        i += 1;
    }
    true
}

/// Whether every string in the vector is nonempty and whitespace-free.
pub fn check_words_ok(v: &Vec<String>) -> (r: bool)
    ensures
        r == crate::text::words_ok(v.deep_view()),
{
    let n = v.len();
    let mut i: usize = 0;
    while i < n
        invariant
            i <= n,
            n == v.deep_view().len(),
            forall|k: int| 0 <= k < i ==> word_ok(#[trigger] v.deep_view()[k]),
        decreases n - i,
    {
        if !check_word_ok(&v[i]) {
            proof {
                assert(!word_ok(v.deep_view()[i as int]));
            }
            return false;
        }
        i += 1;
    }
    true
}

/// Whether all strings in the vector are pairwise distinct, by exhaustive scan.
pub fn check_distinct(v: &Vec<String>) -> (r: bool)
    ensures
        r == distinct_seq(v.deep_view()),
{
    let n = v.len();
    let mut i: usize = 0;
    while i < n
        invariant
            i <= n,
            n == v.deep_view().len(),
            forall|a: int, b: int|
                #![trigger v.deep_view()[a], v.deep_view()[b]]
                0 <= a < b < n && a < i ==> v.deep_view()[a] != v.deep_view()[b],
        decreases n - i,
    {
        let mut j = i + 1;
        while j < n
            invariant
                i < j <= n,
                n == v.deep_view().len(),
                forall|b: int| i < b < j ==> v.deep_view()[i as int] != #[trigger] v.deep_view()[b],
            decreases n - j,
        {
            if v[i] == v[j] {
                proof {
                    assert(v.deep_view()[i as int] == v.deep_view()[j as int]);
                    assert(!distinct_seq(v.deep_view()));
                }
                return false;
            }
            j += 1;
        }
        i += 1;
    }
    true
}

} // verus!
