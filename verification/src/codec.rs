//! The persisted encoding of a vault.
//!
//! One record holds the whole vault: an entry count, then for each entry the
//! word and its token, each as a length-prefixed UTF-8 byte string (lengths
//! are 8-byte little-endian).  Decoding is total and forward-compatible:
//! any byte sequence that does not parse, or parses to mappings that violate
//! the vault invariants, yields `None`, which loaders treat as "no prior
//! state".  A record laid out in any other serialization format therefore
//! loads as an empty vault rather than as an error.
//! `lemma_decode_encode` proves that decoding an encoded vault
//! recovers exactly its mappings, which is the heart of the durability
//! argument: what was flushed is what a restart reloads.

use vstd::prelude::*;

use vstd::bytes::{
    lemma_auto_spec_u64_to_from_le_bytes, spec_u64_from_le_bytes, spec_u64_to_le_bytes,
    u64_from_le_bytes, u64_to_le_bytes,
};
use vstd::utf8::{decode_utf8, encode_utf8, encode_utf8_decode_utf8, encode_utf8_valid_utf8,
    valid_utf8};

use crate::text::words_ok;
use crate::vault::{check_distinct, check_words_ok, distinct_seq, Vault};

verus! {

/// A length-prefixed UTF-8 byte string.
pub open spec fn spec_encode_str(s: Seq<char>) -> Seq<u8> {
    spec_u64_to_le_bytes(encode_utf8(s).len() as u64) + encode_utf8(s)
}

/// The concatenation of the encoded entries, word then token, in order.
pub open spec fn spec_encode_entries(ws: Seq<Seq<char>>, ts: Seq<Seq<char>>) -> Seq<u8>
    decreases ws.len(),
{
    if ws.len() == 0 || ts.len() == 0 {
        Seq::empty()
    } else {
        spec_encode_str(ws[0]) + spec_encode_str(ts[0]) + spec_encode_entries(
            ws.drop_first(),
            ts.drop_first(),
        )
    }
}

/// The full record: entry count, then the entries.
pub open spec fn spec_encode(ws: Seq<Seq<char>>, ts: Seq<Seq<char>>) -> Seq<u8> {
    spec_u64_to_le_bytes(ws.len() as u64) + spec_encode_entries(ws, ts)
}

/// Parses one length-prefixed UTF-8 string; yields the string and the rest.
pub open spec fn spec_decode_str(b: Seq<u8>) -> Option<(Seq<char>, Seq<u8>)> {
    if b.len() < 8 {
        None
    } else {
        let n = spec_u64_from_le_bytes(b.take(8)) as int;
        if b.len() - 8 < n {
            None
        } else {
            let sb = b.subrange(8, 8 + n);
            if valid_utf8(sb) {
                Some((decode_utf8(sb), b.skip(8 + n)))
            } else {
                None
            }
        }
    }
}

/// Parses exactly `n` entries, requiring the input to be fully consumed.
pub open spec fn spec_decode_entries(b: Seq<u8>, n: nat) -> Option<
    (Seq<Seq<char>>, Seq<Seq<char>>),
>
    decreases n,
{
    if n == 0 {
        if b.len() == 0 {
            Some((Seq::empty(), Seq::empty()))
        } else {
            None
        }
    } else {
        match spec_decode_str(b) {
            None => None,
            Some(p1) => match spec_decode_str(p1.1) {
                None => None,
                Some(p2) => match spec_decode_entries(p2.1, (n - 1) as nat) {
                    None => None,
                    Some(rest) => Some((seq![p1.0] + rest.0, seq![p2.0] + rest.1)),
                },
            },
        }
    }
}

/// Parses a full record.
pub open spec fn spec_decode(b: Seq<u8>) -> Option<(Seq<Seq<char>>, Seq<Seq<char>>)> {
    if b.len() < 8 {
        None
    } else {
        spec_decode_entries(b.skip(8), spec_u64_from_le_bytes(b.take(8)) as nat)
    }
}

/// Every string's UTF-8 form is short enough for its 8-byte length prefix.
pub open spec fn encodable(ss: Seq<Seq<char>>) -> bool {
    forall|i: int|
        0 <= i < ss.len() ==> encode_utf8(#[trigger] ss[i]).len() < 0x1_0000_0000_0000_0000
}

/// The mapping-level invariants a decoded record must satisfy.
pub open spec fn model_wf(ws: Seq<Seq<char>>, ts: Seq<Seq<char>>) -> bool {
    &&& ws.len() == ts.len()
    &&& distinct_seq(ws)
    &&& distinct_seq(ts)
    &&& words_ok(ts)
}

/// Decoding an encoded string yields the string and leaves the rest.
pub proof fn lemma_decode_encode_str(s: Seq<char>, rest: Seq<u8>)
    requires
        encode_utf8(s).len() < 0x1_0000_0000_0000_0000,
    ensures
        spec_decode_str(spec_encode_str(s) + rest) == Some((s, rest)),
{
    lemma_auto_spec_u64_to_from_le_bytes();
    let eb = encode_utf8(s);
    let lb = spec_u64_to_le_bytes(eb.len() as u64);
    assert(lb.len() == 8);
    let b = spec_encode_str(s) + rest;
    assert(b.take(8) =~= lb);
    assert(spec_u64_from_le_bytes(lb) == eb.len() as u64);
    let n = eb.len() as int;
    assert(b.len() - 8 >= n);
    assert(b.subrange(8, 8 + n) =~= eb);
    encode_utf8_valid_utf8(s);
    encode_utf8_decode_utf8(s);
    assert(b.skip(8 + n) =~= rest);
}

/// Decoding the encoded entries recovers them exactly.
pub proof fn lemma_decode_encode_entries(ws: Seq<Seq<char>>, ts: Seq<Seq<char>>)
    requires
        ws.len() == ts.len(),
        encodable(ws),
        encodable(ts),
    ensures
        spec_decode_entries(spec_encode_entries(ws, ts), ws.len() as nat) == Some((ws, ts)),
    decreases ws.len(),
{
    if ws.len() == 0 {
        assert(ws =~= Seq::<Seq<char>>::empty());
        assert(ts =~= Seq::<Seq<char>>::empty());
    } else {
        let e0 = spec_encode_str(ws[0]);
        let e1 = spec_encode_str(ts[0]);
        let wr = ws.drop_first();
        let tr = ts.drop_first();
        assert(encodable(wr)) by {
            assert(forall|i: int| 0 <= i < wr.len() ==> #[trigger] wr[i] == ws[i + 1]);
        }
        assert(encodable(tr)) by {
            assert(forall|i: int| 0 <= i < tr.len() ==> #[trigger] tr[i] == ts[i + 1]);
        }
        lemma_decode_encode_entries(wr, tr);
        let er = spec_encode_entries(wr, tr);
        let b = spec_encode_entries(ws, ts);
        assert(b == e0 + e1 + er);
        assert(b =~= e0 + (e1 + er));
        lemma_decode_encode_str(ws[0], e1 + er);
        lemma_decode_encode_str(ts[0], er);
        assert(spec_decode_entries(er, wr.len() as nat) == Some((wr, tr)));
        assert(seq![ws[0]] + wr =~= ws);
        assert(seq![ts[0]] + tr =~= ts);
    }
}

/// Decoding an encoded record recovers the mappings exactly.
pub proof fn lemma_decode_encode(ws: Seq<Seq<char>>, ts: Seq<Seq<char>>)
    requires
        ws.len() == ts.len(),
        ws.len() < 0x1_0000_0000_0000_0000,
        encodable(ws),
        encodable(ts),
    ensures
        spec_decode(spec_encode(ws, ts)) == Some((ws, ts)),
{
    lemma_auto_spec_u64_to_from_le_bytes();
    let cb = spec_u64_to_le_bytes(ws.len() as u64);
    assert(cb.len() == 8);
    let b = spec_encode(ws, ts);
    assert(b.take(8) =~= cb);
    assert(b.skip(8) =~= spec_encode_entries(ws, ts));
    lemma_decode_encode_entries(ws, ts);
}

/// A parsed record of `n` entries consumes at least 16 bytes per entry.
proof fn lemma_decode_entries_min_len(b: Seq<u8>, n: nat)
    ensures
        spec_decode_entries(b, n) is Some ==> b.len() >= 16 * n,
    decreases n,
{
    if n > 0 && spec_decode_entries(b, n) is Some {
        match spec_decode_str(b) {
            None => {},
            Some(p1) => {
                assert(p1.1.len() <= b.len() - 8);
                match spec_decode_str(p1.1) {
                    None => {},
                    Some(p2) => {
                        assert(p2.1.len() <= p1.1.len() - 8);
                        lemma_decode_entries_min_len(p2.1, (n - 1) as nat);
                    },
                }
            },
        }
    }
}

/// Relies on `String::from_utf8`: succeeds exactly on valid UTF-8 input and
/// returns the string whose bytes are exactly the input.
#[verifier::external_body]
fn bytes_to_string(b: Vec<u8>) -> (r: Option<String>)
    ensures
        r is Some <==> valid_utf8(b@),
        r matches Some(s) ==> encode_utf8(s@) == b@,
{
    String::from_utf8(b).ok()
}

/// Appends the length-prefixed UTF-8 form of `s` to `out`.
fn encode_str_into(out: &mut Vec<u8>, s: &String)
    ensures
        final(out)@ == old(out)@ + spec_encode_str(s@),
        encode_utf8(s@).len() < 0x1_0000_0000_0000_0000,
{
    let bs = vstd::string::StrSliceExecFns::as_bytes_vec(s.as_str());
    let mut lb = u64_to_le_bytes(bs.len() as u64);
    let ghost o = out@;
    out.append(&mut lb);
    let mut body = bs;
    out.append(&mut body);
    proof {
        assert(out@ =~= o + spec_encode_str(s@));
    }
}

/// Encodes the whole vault as one record.
pub fn encode_vault(v: &Vault) -> (r: Vec<u8>)
    requires
        v.wf(),
    ensures
        r@ == spec_encode(v.words_view(), v.tokens_view()),
        encodable(v.words_view()),
        encodable(v.tokens_view()),
        v.words_view().len() < 0x1_0000_0000_0000_0000,
{
    let n = v.words.len();
    let mut out = u64_to_le_bytes(n as u64);
    let mut i: usize = 0;
    while i < n
        invariant
            i <= n,
            v.wf(),
            n == v.words_view().len(),
            n == v.tokens_view().len(),
            out@ == spec_u64_to_le_bytes(n as u64) + spec_encode_entries(
                v.words_view().take(i as int),
                v.tokens_view().take(i as int),
            ),
            forall|k: int|
                0 <= k < i ==> encode_utf8(#[trigger] v.words_view()[k]).len()
                    < 0x1_0000_0000_0000_0000,
            forall|k: int|
                0 <= k < i ==> encode_utf8(#[trigger] v.tokens_view()[k]).len()
                    < 0x1_0000_0000_0000_0000,
        decreases n - i,
    {
        encode_str_into(&mut out, &v.words[i]);
        encode_str_into(&mut out, &v.tokens[i]);
        proof {
            lemma_encode_entries_snoc(v.words_view(), v.tokens_view(), i as int);
            assert(out@ =~= spec_u64_to_le_bytes(n as u64) + spec_encode_entries(
                v.words_view().take(i + 1),
                v.tokens_view().take(i + 1),
            ));
        }
        i += 1;
    }
    proof {
        assert(v.words_view().take(n as int) =~= v.words_view());
        assert(v.tokens_view().take(n as int) =~= v.tokens_view());
    }
    out
}

/// Appending one entry to both columns extends the encoding at the end.
proof fn lemma_encode_entries_push(
    ws: Seq<Seq<char>>,
    ts: Seq<Seq<char>>,
    w: Seq<char>,
    t: Seq<char>,
)
    requires
        ws.len() == ts.len(),
    ensures
        spec_encode_entries(ws.push(w), ts.push(t)) == spec_encode_entries(ws, ts)
            + spec_encode_str(w) + spec_encode_str(t),
    decreases ws.len(),
{
    if ws.len() == 0 {
        assert(ws.push(w)[0] == w);
        assert(ts.push(t)[0] == t);
        assert(ws.push(w).drop_first() =~= Seq::<Seq<char>>::empty());
        assert(ts.push(t).drop_first() =~= Seq::<Seq<char>>::empty());
        assert(spec_encode_entries(Seq::<Seq<char>>::empty(), Seq::<Seq<char>>::empty())
            == Seq::<u8>::empty());
        assert(spec_encode_entries(ws.push(w), ts.push(t)) == spec_encode_str(w)
            + spec_encode_str(t) + Seq::<u8>::empty());
        assert(spec_encode_entries(ws, ts) == Seq::<u8>::empty());
        assert(spec_encode_str(w) + spec_encode_str(t) + Seq::<u8>::empty() =~= Seq::<u8>::empty()
            + spec_encode_str(w) + spec_encode_str(t));
    } else {
        lemma_encode_entries_push(ws.drop_first(), ts.drop_first(), w, t);
        assert(ws.push(w).drop_first() =~= ws.drop_first().push(w));
        assert(ts.push(t).drop_first() =~= ts.drop_first().push(t));
        assert(ws.push(w)[0] == ws[0]);
        assert(ts.push(t)[0] == ts[0]);
        let e0 = spec_encode_str(ws[0]);
        let e1 = spec_encode_str(ts[0]);
        let er = spec_encode_entries(ws.drop_first(), ts.drop_first());
        let ew = spec_encode_str(w);
        let et = spec_encode_str(t);
        assert(spec_encode_entries(ws.push(w), ts.push(t)) == e0 + e1 + (er + ew + et));
        assert(spec_encode_entries(ws, ts) == e0 + e1 + er);
        assert(e0 + e1 + (er + ew + et) =~= (e0 + e1 + er) + ew + et);
    }
}

/// The encoding of the first `i + 1` entries extends that of the first `i`.
proof fn lemma_encode_entries_snoc(ws: Seq<Seq<char>>, ts: Seq<Seq<char>>, i: int)
    requires
        ws.len() == ts.len(),
        0 <= i < ws.len(),
    ensures
        spec_encode_entries(ws.take(i + 1), ts.take(i + 1)) == spec_encode_entries(
            ws.take(i),
            ts.take(i),
        ) + spec_encode_str(ws[i]) + spec_encode_str(ts[i]),
{
    assert(ws.take(i + 1) =~= ws.take(i).push(ws[i]));
    assert(ts.take(i + 1) =~= ts.take(i).push(ts[i]));
    lemma_encode_entries_push(ws.take(i), ts.take(i), ws[i], ts[i]);
}

/// Reads the 8-byte little-endian integer at `pos`.
fn read_u64(b: &Vec<u8>, pos: usize) -> (x: u64)
    requires
        pos + 8 <= b@.len(),
    ensures
        x == spec_u64_from_le_bytes(b@.subrange(pos as int, pos as int + 8)),
{
    let blen = b.len();
    assert(pos + 8 <= blen);
    let s = vstd::slice::slice_subrange(b.as_slice(), pos, pos + 8);
    u64_from_le_bytes(s)
}

/// Parses the length-prefixed UTF-8 string at `pos`; yields it and the
/// position just past it.
fn read_str(b: &Vec<u8>, pos: usize) -> (r: Option<(String, usize)>)
    requires
        pos <= b@.len(),
    ensures
        match r {
            Some(p) => {
                &&& pos + 8 <= p.1 <= b@.len()
                &&& spec_decode_str(b@.skip(pos as int)) == Some((p.0@, b@.skip(p.1 as int)))
            },
            None => spec_decode_str(b@.skip(pos as int)) is None,
        },
{
    let blen = b.len();
    let ghost tail = b@.skip(pos as int);
    if blen - pos < 8 {
        return None;
    }
    let n64 = read_u64(b, pos);
    proof {
        assert(tail.take(8) =~= b@.subrange(pos as int, pos as int + 8));
    }
    let rem = blen - (pos + 8);
    if n64 > rem as u64 {
        return None;
    }
    let n = n64 as usize;
    let sb = vstd::slice::slice_subrange(b.as_slice(), pos + 8, pos + 8 + n);
    let sv = vstd::slice::slice_to_vec(sb);
    proof {
        assert(tail.subrange(8, 8 + n as int) =~= b@.subrange(
            pos as int + 8,
            pos as int + 8 + n as int,
        ));
    }
    match bytes_to_string(sv) {
        None => None,
        Some(s) => {
            proof {
                encode_utf8_valid_utf8(s@);
                encode_utf8_decode_utf8(s@);
                assert(tail.skip(8 + n as int) =~= b@.skip(pos as int + 8 + n as int));
            }
            Some((s, pos + 8 + n))
        },
    }
}

/// Prepends already-parsed columns to the outcome of parsing the remainder.
pub open spec fn spec_prepend(
    ws: Seq<Seq<char>>,
    ts: Seq<Seq<char>>,
    r: Option<(Seq<Seq<char>>, Seq<Seq<char>>)>,
) -> Option<(Seq<Seq<char>>, Seq<Seq<char>>)> {
    match r {
        Some(p) => Some((ws + p.0, ts + p.1)),
        None => None,
    }
}

/// Decodes a record into a vault.
///
/// Returns `None` exactly when the bytes do not parse as a record or the
/// parsed mappings violate the vault invariants; the caller treats `None`
/// as "start fresh".
pub fn decode_vault(b: &Vec<u8>) -> (r: Option<Vault>)
    ensures
        match r {
            Some(v) => {
                &&& v.wf()
                &&& spec_decode(b@) == Some((v.words_view(), v.tokens_view()))
            },
            None => match spec_decode(b@) {
                Some(m) => !model_wf(m.0, m.1),
                None => true,
            },
        },
{
    let blen = b.len();
    if blen < 8 {
        return None;
    }
    let count64 = read_u64(b, 0);
    proof {
        assert(b@.subrange(0, 8) =~= b@.take(8));
    }
    let rem = blen - 8;
    if count64 > (rem as u64) / 16 {
        proof {
            lemma_decode_entries_min_len(b@.skip(8), count64 as nat);
            assert(16 * (count64 as int) > rem as int) by (nonlinear_arith)
                requires
                    count64 as int > rem as int / 16,
                    rem as int >= 0,
            ;
        }
        return None;
    }
    let count = count64 as usize;
    let mut words: Vec<String> = Vec::new();
    let mut tokens: Vec<String> = Vec::new();
    let mut pos: usize = 8;
    let mut i: usize = 0;
    proof {
        assert(words.deep_view() =~= Seq::<Seq<char>>::empty());
        assert(tokens.deep_view() =~= Seq::<Seq<char>>::empty());
        match spec_decode_entries(b@.skip(8), count as nat) {
            Some(p) => {
                assert(Seq::<Seq<char>>::empty() + p.0 =~= p.0);
                assert(Seq::<Seq<char>>::empty() + p.1 =~= p.1);
            },
            None => {},
        }
    }
    while i < count
        invariant
            i <= count,
            8 <= pos <= blen,
            blen == b@.len(),
            words.deep_view().len() == i as int,
            tokens.deep_view().len() == i as int,
            spec_decode(b@) == spec_decode_entries(b@.skip(8), count as nat),
            spec_decode_entries(b@.skip(8), count as nat) == spec_prepend(
                words.deep_view(),
                tokens.deep_view(),
                spec_decode_entries(b@.skip(pos as int), (count - i) as nat),
            ),
        decreases count - i,
    {
        let ghost ws0 = words.deep_view();
        let ghost ts0 = tokens.deep_view();
        let ghost rem0 = spec_decode_entries(b@.skip(pos as int), (count - i) as nat);
        let p1 = match read_str(b, pos) {
            Some(p) => p,
            None => {
                proof {
                    assert(rem0 is None);
                    assert(spec_decode_entries(b@.skip(8), count as nat) is None);
                    assert(spec_decode(b@) is None);
                }
                return None;
            },
        };
        let p2 = match read_str(b, p1.1) {
            Some(p) => p,
            None => {
                proof {
                    assert(rem0 is None);
                    assert(spec_decode_entries(b@.skip(8), count as nat) is None);
                    assert(spec_decode(b@) is None);
                }
                return None;
            },
        };
        let w = p1.0;
        let t = p2.0;
        words.push(w);
        tokens.push(t);
        pos = p2.1;
        i += 1;
        proof {
            assert(words.deep_view() =~= ws0.push(p1.0@));
            assert(tokens.deep_view() =~= ts0.push(p2.0@));
            let rem1 = spec_decode_entries(b@.skip(pos as int), (count - i) as nat);
            match rem1 {
                None => {
                    assert(rem0 is None);
                },
                Some(rest) => {
                    assert(rem0 == Some(
                        (seq![p1.0@] + rest.0, seq![p2.0@] + rest.1),
                    ));
                    assert(ws0 + (seq![p1.0@] + rest.0) =~= ws0.push(p1.0@) + rest.0);
                    assert(ts0 + (seq![p2.0@] + rest.1) =~= ts0.push(p2.0@) + rest.1);
                },
            }
        }
    }
    if pos != blen {
        proof {
            assert(b@.skip(pos as int).len() != 0);
            assert(spec_decode_entries(b@.skip(pos as int), 0) is None);
        }
        return None;
    }
    proof {
        assert(b@.skip(pos as int).len() == 0);
        assert(spec_decode_entries(b@.skip(pos as int), 0) == Some(
            (Seq::<Seq<char>>::empty(), Seq::<Seq<char>>::empty()),
        ));
        assert(words.deep_view() + Seq::<Seq<char>>::empty() =~= words.deep_view());
        assert(tokens.deep_view() + Seq::<Seq<char>>::empty() =~= tokens.deep_view());
    }
    if !check_distinct(&words) {
        return None;
    }
    if !check_distinct(&tokens) {
        return None;
    }
    if !check_words_ok(&tokens) {
        return None;
    }
    let v = Vault { words, tokens };
    Some(v)
}

} // verus!
