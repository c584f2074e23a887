//! Whitespace splitting and joining of word sequences.
//!
//! `split_ws` is the mathematical model of splitting a character sequence on
//! whitespace (empty words never appear); `join_sp` joins words with a single
//! space.  The executable `split_words` and `join_words` are proved against
//! these models, and `lemma_split_join` shows that splitting a join of
//! whitespace-free, nonempty words recovers exactly those words.

use vstd::prelude::*;

verus! {

/// Whitespace characters: the Unicode `White_Space` code points.
pub open spec fn is_ws(c: char) -> bool {
    let u = c as u32;
    ||| u == 0x20
    ||| (0x09 <= u && u <= 0x0D)
    ||| u == 0x85
    ||| u == 0xA0
    ||| u == 0x1680
    ||| (0x2000 <= u && u <= 0x200A)
    ||| u == 0x2028
    ||| u == 0x2029
    ||| u == 0x202F
    ||| u == 0x205F
    ||| u == 0x3000
}

/// A word as produced by splitting: nonempty and free of whitespace.
pub open spec fn word_ok(w: Seq<char>) -> bool {
    w.len() >= 1 && forall|i: int| 0 <= i < w.len() ==> !is_ws(#[trigger] w[i])
}

/// Every element of a word sequence is a well-shaped word.
pub open spec fn words_ok(ws: Seq<Seq<char>>) -> bool {
    forall|i: int| 0 <= i < ws.len() ==> word_ok(#[trigger] ws[i])
}

/// Splitting on whitespace, defined by recursion on the final character.
pub open spec fn split_ws(s: Seq<char>) -> Seq<Seq<char>>
    decreases s.len(),
{
    if s.len() == 0 {
        Seq::empty()
    } else {
        let prev = split_ws(s.drop_last());
        let c = s.last();
        if is_ws(c) {
            prev
        } else if s.len() >= 2 && !is_ws(s[s.len() - 2]) {
            prev.update(prev.len() - 1, prev.last().push(c))
        } else {
            prev.push(seq![c])
        }
    }
}

/// Joining words with a single space between consecutive words.
pub open spec fn join_sp(parts: Seq<Seq<char>>) -> Seq<char>
    decreases parts.len(),
{
    if parts.len() == 0 {
        Seq::empty()
    } else if parts.len() == 1 {
        parts[0]
    } else {
        join_sp(parts.drop_last()) + seq![' '] + parts.last()
    }
}

/// Appending a whitespace character does not change the split.
pub proof fn lemma_split_push_ws(a: Seq<char>, c: char)
    requires
        is_ws(c),
    ensures
        split_ws(a.push(c)) == split_ws(a),
{
    assert(a.push(c).drop_last() =~= a);
    assert(a.push(c).last() == c);
}

/// Appending a whole word to a sequence that is empty or ends in whitespace
/// appends that word to the split.
pub proof fn lemma_split_append_word(a: Seq<char>, w: Seq<char>)
    requires
        word_ok(w),
        a.len() == 0 || is_ws(a.last()),
    ensures
        split_ws(a + w) == split_ws(a).push(w),
    decreases w.len(),
{
    let s = a + w;
    assert(s.last() == w.last());
    assert(!is_ws(w.last()));
    if w.len() == 1 {
        assert(s.drop_last() =~= a);
        if s.len() >= 2 {
            assert(s[s.len() - 2] == a.last());
        }
        assert(seq![w[0]] =~= w);
        assert(split_ws(s) =~= split_ws(a).push(w));
    } else {
        let w0 = w.drop_last();
        assert(word_ok(w0));
        lemma_split_append_word(a, w0);
        assert(s.drop_last() =~= a + w0);
        assert(s[s.len() - 2] == w[w.len() - 2]);
        assert(!is_ws(w[w.len() - 2]));
        let prev = split_ws(a).push(w0);
        assert(split_ws(s.drop_last()) == prev);
        assert(prev.len() >= 1);
        assert(prev.last() == w0);
        assert(w0.push(w.last()) =~= w);
        assert(split_ws(s) == prev.update(prev.len() - 1, w0.push(w.last())));
        assert(prev.update(prev.len() - 1, w) =~= split_ws(a).push(w));
    }
}

/// Splitting the space-joined form of well-shaped words recovers the words.
pub proof fn lemma_split_join(parts: Seq<Seq<char>>)
    requires
        words_ok(parts),
    ensures
        split_ws(join_sp(parts)) == parts,
    decreases parts.len(),
{
    if parts.len() == 0 {
        assert(split_ws(join_sp(parts)) =~= parts);
    } else if parts.len() == 1 {
        let e = Seq::<char>::empty();
        assert(e + parts[0] =~= parts[0]);
        lemma_split_append_word(e, parts[0]);
        assert(split_ws(e).push(parts[0]) =~= parts);
    } else {
        let front = parts.drop_last();
        assert(words_ok(front));
        lemma_split_join(front);
        let j = join_sp(front);
        assert(join_sp(parts) == j + seq![' '] + parts.last());
        assert(j + seq![' '] =~= j.push(' '));
        lemma_split_push_ws(j, ' ');
        let a = j + seq![' '];
        assert(a.last() == ' ');
        lemma_split_append_word(a, parts.last());
        assert(join_sp(parts) == a + parts.last());
        assert(split_ws(join_sp(parts)) == split_ws(a).push(parts.last()));
        assert(split_ws(a) == front);
        assert(front.push(parts.last()) =~= parts);
    }
}

/// Whether a character is whitespace.
pub fn is_ws_char(c: char) -> (r: bool)
    ensures
        r == is_ws(c),
{
    let u = c as u32;
    u == 0x20 || (0x09 <= u && u <= 0x0D) || u == 0x85 || u == 0xA0 || u == 0x1680 || (0x2000 <= u
        && u <= 0x200A) || u == 0x2028 || u == 0x2029 || u == 0x202F || u == 0x205F || u == 0x3000
}

/// Splits `s` on whitespace into its words, in order, dropping all separators.
pub fn split_words(s: &str) -> (r: Vec<String>)
    ensures
        r.deep_view() == split_ws(s@),
{
    let n = s.unicode_len();
    let mut words: Vec<String> = Vec::new();
    let mut i: usize = 0;
    while i < n
        invariant
            i <= n,
            n == s@.len(),
            words.deep_view() == split_ws(s@.take(i as int)),
            i < n && !is_ws(s@[i as int]) ==> i == 0 || is_ws(s@[i - 1]),
        decreases n - i,
    {
        let c = s.get_char(i);
        if is_ws_char(c) {
            proof {
                lemma_split_push_ws(s@.take(i as int), c);
                assert(s@.take(i + 1) =~= s@.take(i as int).push(c));
            }
            i += 1;
        } else {
            let mut j = i + 1;
            while j < n && !is_ws_char(s.get_char(j))
                invariant
                    i < j <= n,
                    n == s@.len(),
                    forall|k: int| i <= k < j ==> !is_ws(#[trigger] s@[k]),
                decreases n - j,
            {
                j += 1;
            }
            let piece = s.substring_char(i, j);
            let w = piece.to_owned();
            proof {
                let wv = s@.subrange(i as int, j as int);
                assert(w@ == wv);
                assert(word_ok(wv));
                lemma_split_append_word(s@.take(i as int), wv);
                assert(s@.take(j as int) =~= s@.take(i as int) + wv);
                assert(words.deep_view().push(wv) =~= split_ws(s@.take(j as int)));
            }
            let ghost before = words.deep_view();
            words.push(w);
            proof {
                assert(words.deep_view() =~= before.push(w@));
            }
            i = j;
        }
    }
    proof {
        assert(s@.take(n as int) =~= s@);
    }
    words
}

/// Joins words with a single space between consecutive words.
pub fn join_words(words: &Vec<String>) -> (r: String)
    ensures
        r@ == join_sp(words.deep_view()),
{
    let mut out = String::new();
    let mut k: usize = 0;
    while k < words.len()
        invariant
            k <= words.len(),
            out@ == join_sp(words.deep_view().take(k as int)),
        decreases words.len() - k,
    {
        if k > 0 {
            out.append(" ");
            proof {
                reveal_strlit(" ");
                assert(" "@ =~= seq![' ']);
            }
        }
        out.append(words[k].as_str());
        proof {
            let dv = words.deep_view();
            assert(dv.take(k + 1).drop_last() =~= dv.take(k as int));
            assert(dv.take(k + 1).last() == dv[k as int]);
            if k == 0 {
                assert(join_sp(dv.take(1)) == dv.take(1)[0]);
            }
        }
        k += 1;
    }
    proof {
        assert(words.deep_view().take(words.len() as int) =~= words.deep_view());
    }
    out
}

} // verus!
