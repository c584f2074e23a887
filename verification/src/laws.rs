//! The laws the vault obeys, stated and proved over the same models that the
//! executable functions' contracts use.

use vstd::prelude::*;

use crate::store::{detok_seq, tokens_of, vault_extends};
use crate::text::{join_sp, lemma_split_join, split_ws, words_ok};
use crate::vault::{lemma_bijection, lemma_values_word_ok, Vault};

verus! {

/// Resolving the tokens a vault assigned recovers the words, in order.
proof fn lemma_detok_of_tokens(v: Vault, ws: Seq<Seq<char>>)
    requires
        v.wf(),
        forall|i: int| 0 <= i < ws.len() ==> v.w2t().contains_key(#[trigger] ws[i]),
    ensures
        detok_seq(v.t2w(), tokens_of(v.w2t(), ws)) == ws,
    decreases ws.len(),
{
    lemma_bijection(v);
    let ts = tokens_of(v.w2t(), ws);
    if ws.len() == 0 {
        assert(ts.len() == 0);
        assert(detok_seq(v.t2w(), ts) =~= ws);
    } else {
        lemma_detok_of_tokens(v, ws.drop_last());
        assert(ts.drop_last() =~= tokens_of(v.w2t(), ws.drop_last()));
        assert(ts.last() == v.w2t()[ws.last()]);
        assert(v.t2w().contains_key(ts.last()) && v.t2w()[ts.last()] == ws.last());
        assert(detok_seq(v.t2w(), ts) == ws.drop_last().push(ws.last()));
        assert(ws.drop_last().push(ws.last()) =~= ws);
    }
}

/// Round-trip law: detokenizing a tokenization yields the original word
/// sequence.  For any well-formed vault that assigns a token to every word
/// of `ws` — as it does after the tokenize call that produced the output —
/// splitting the space-joined tokens and resolving each one back through the
/// vault gives exactly `ws`.  No collision can interfere: the vault never
/// reassigns a live token.
pub proof fn lemma_round_trip(v: Vault, ws: Seq<Seq<char>>)
    requires
        v.wf(),
        forall|i: int| 0 <= i < ws.len() ==> v.w2t().contains_key(#[trigger] ws[i]),
    ensures
        detok_seq(v.t2w(), split_ws(join_sp(tokens_of(v.w2t(), ws)))) == ws,
{
    let ts = tokens_of(v.w2t(), ws);
    lemma_values_word_ok(v);
    assert(words_ok(ts)) by {
        assert(forall|i: int|
            0 <= i < ts.len() ==> #[trigger] ts[i] == v.w2t()[ws[i]]);
    }
    lemma_split_join(ts);
    lemma_detok_of_tokens(v, ws);
}

/// Idempotence law: a word that already holds a token keeps exactly that
/// token through any later vault state, because the vault only ever extends
/// — so tokenizing the same word twice in one vault lifetime yields the same
/// token both times.
pub proof fn lemma_same_token_twice(v1: Vault, v2: Vault, w: Seq<char>)
    requires
        vault_extends(v1, v2),
        v1.w2t().contains_key(w),
    ensures
        v2.w2t().contains_key(w),
        v2.w2t()[w] == v1.w2t()[w],
{
}

/// Serialized concurrency law: when two tokenize calls for the same
/// previously-unseen word run one after the other under the exclusion guard,
/// the first call's assignment is still in force during the second, so both
/// callers observe one and the same token for that word.
pub proof fn lemma_serialized_calls_agree(v1: Vault, v2: Vault, v3: Vault, w: Seq<char>)
    requires
        vault_extends(v1, v2),
        vault_extends(v2, v3),
        v2.w2t().contains_key(w),
    ensures
        v3.w2t().contains_key(w),
        v3.w2t()[w] == v2.w2t()[w],
{
}

/// Drop law: detokenization never invents words, and a token unknown to the
/// vault shortens the output — the unknown token's word is dropped rather
/// than replaced by a placeholder.
pub proof fn lemma_unknown_token_dropped(m: Map<Seq<char>, Seq<char>>, toks: Seq<Seq<char>>)
    ensures
        detok_seq(m, toks).len() <= toks.len(),
        (exists|i: int| 0 <= i < toks.len() && !m.contains_key(#[trigger] toks[i]))
            ==> detok_seq(m, toks).len() < toks.len(),
    decreases toks.len(),
{
    if toks.len() > 0 {
        lemma_unknown_token_dropped(m, toks.drop_last());
        if exists|i: int| 0 <= i < toks.len() && !m.contains_key(#[trigger] toks[i]) {
            let i = choose|i: int| 0 <= i < toks.len() && !m.contains_key(#[trigger] toks[i]);
            if i == toks.len() - 1 {
                assert(!m.contains_key(toks.last()));
            } else {
                assert(toks.drop_last()[i] == toks[i]);
                assert(exists|j: int|
                    0 <= j < toks.drop_last().len() && !m.contains_key(
                        #[trigger] toks.drop_last()[j],
                    ));
            }
        }
    }
}

} // verus!
