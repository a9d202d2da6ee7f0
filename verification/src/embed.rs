//! Position-aware embedding, integer part: split the intent into words, hash each
//! word with its position, and XOR-fold the hash bytes into `dim` 32-bit lanes.
//! The lanes are the bit patterns of the embedding's `f32` components before
//! normalization.

use crate::hash::{hash_intent, spec_hash_intent};
use crate::text::{chars_of, is_whitespace, is_ws, string_of_all};
use vstd::prelude::*;

verus! {

/// Default embedding dimensionality.
pub const EMBED_DIM: usize = 64;

/// The whitespace-separated words of `s` from position `i`, where `cur` is the part
/// of a word already read (`str::split_whitespace`).
pub open spec fn words_from(s: Seq<char>, i: int, cur: Seq<char>) -> Seq<Seq<char>>
    decreases s.len() - i,
{
    if !(0 <= i < s.len()) {
        if cur.len() > 0 {
            seq![cur]
        } else {
            Seq::empty()
        }
    } else if is_ws(s[i]) {
        (if cur.len() > 0 {
            seq![cur]
        } else {
            Seq::empty()
        }) + words_from(s, i + 1, Seq::empty())
    } else {
        words_from(s, i + 1, cur.push(s[i]))
    }
}

/// The whitespace-separated words of `s`, in order.
pub open spec fn words(s: Seq<char>) -> Seq<Seq<char>> {
    words_from(s, 0, Seq::empty())
}

/// The decimal digit `d`.
pub open spec fn digit_char(d: nat) -> char {
    (d + 48) as char
}

/// The decimal notation of `n`.
pub open spec fn decimal(n: nat) -> Seq<char>
    decreases n,
{
    if n < 10 {
        seq![digit_char(n)]
    } else {
        decimal(n / 10).push(digit_char(n % 10))
    }
}

/// The text hashed for the word `word` at position `pos`: `"{pos}:{word}"`.
pub open spec fn salted_word(pos: nat, word: Seq<char>) -> Seq<char> {
    decimal(pos).push(':') + word
}

/// The little-endian 32-bit word that lane `i` takes from the digest `h`:
/// bytes `k`, `k + 1`, `(k + 2) % 32`, `(k + 3) % 32` with `k = (4 * i) % 32`.
pub open spec fn lane_word(h: Seq<u8>, i: int) -> u32 {
    let k = (i * 4) % 32;
    (h[k] as int + h[k + 1] as int * 0x100 + h[(k + 2) % 32] as int * 0x10000 + h[(k + 3)
        % 32] as int * 0x1000000) as u32
}

/// `bits` with each lane XOR-ed with its word of the digest `h`.
pub open spec fn fold_digest(bits: Seq<u32>, h: Seq<u8>) -> Seq<u32> {
    Seq::new(bits.len(), |i: int| bits[i] ^ lane_word(h, i))
}

/// `bits` with the words `ws[p..]` folded in, word `q` salted with its position `q`.
pub open spec fn fold_words(ws: Seq<Seq<char>>, p: int, bits: Seq<u32>) -> Seq<u32>
    decreases ws.len() - p,
{
    if !(0 <= p < ws.len()) {
        bits
    } else {
        fold_words(ws, p + 1, fold_digest(bits, spec_hash_intent(salted_word(p as nat, ws[p]))))
    }
}

/// `dim` lanes of zero bits.
pub open spec fn zero_lanes(dim: nat) -> Seq<u32> {
    Seq::new(dim, |i: int| 0u32)
}

/// The embedding lanes of `intent`: every word, salted with its position, hashed
/// and folded into `dim` zero lanes.
pub open spec fn embed_lanes(intent: Seq<char>, dim: nat) -> Seq<u32> {
    fold_words(words(intent), 0, zero_lanes(dim))
}

/// The texts of the words `ws`.
pub open spec fn words_view(ws: Seq<Vec<char>>) -> Seq<Seq<char>> {
    ws.map_values(|w: Vec<char>| w@)
}

/// The whitespace-separated words of `v`.
pub fn split_words(v: &Vec<char>) -> (r: Vec<Vec<char>>)
    ensures
        words_view(r@) == words(v@),
{
    let mut out: Vec<Vec<char>> = Vec::new();
    let mut cur: Vec<char> = Vec::new();
    let mut i: usize = 0;
    assert(words_view(out@) =~= Seq::<Seq<char>>::empty());
    while i < v.len()
        invariant
            i <= v.len(),
            words(v@) == words_view(out@) + words_from(v@, i as int, cur@),
        decreases v.len() - i,
    {
        let ghost before = words_view(out@);
        let ghost c0 = cur@;
        if is_whitespace(v[i]) {
            assert(words_from(v@, i as int, c0) == (if c0.len() > 0 {
                seq![c0]
            } else {
                Seq::<Seq<char>>::empty()
            }) + words_from(v@, i + 1, Seq::empty()));
            if cur.len() > 0 {
                let ghost c = cur@;
                out.push(cur);
                cur = Vec::new();
                assert(cur@ =~= Seq::<char>::empty());
                assert(words_view(out@) =~= before + seq![c]);
                assert(before + (seq![c] + words_from(v@, i + 1, Seq::empty())) =~= (before
                    + seq![c]) + words_from(v@, i + 1, Seq::empty()));
            } else {
                assert(cur@ =~= Seq::<char>::empty());
                assert(Seq::<Seq<char>>::empty() + words_from(v@, i + 1, Seq::empty())
                    =~= words_from(v@, i + 1, Seq::empty()));
            }
            assert(words(v@) == words_view(out@) + words_from(v@, i + 1, cur@));
        } else {
            assert(words_from(v@, i as int, c0) == words_from(v@, i + 1, c0.push(v@[i as int])));
            cur.push(v[i]);
            assert(words(v@) == words_view(out@) + words_from(v@, i + 1, cur@));
        }
        i = i + 1;
    }
    if cur.len() > 0 {
        let ghost before = words_view(out@);
        let ghost c = cur@;
        out.push(cur);
        assert(words_view(out@) =~= before + seq![c]);
    } else {
        assert(words_view(out@) + Seq::<Seq<char>>::empty() =~= words_view(out@));
    }
    out
}

/// Appends the decimal notation of `n`.
fn push_decimal(out: &mut Vec<char>, n: usize)
    ensures
        final(out)@ == old(out)@ + decimal(n as nat),
    decreases n,
{
    if n >= 10 {
        push_decimal(out, n / 10);
    }
    let d = (n % 10) as u8;
    out.push((d + 48) as char);
    if n >= 10 {
        assert(final(out)@ =~= old(out)@ + decimal(n as nat));
    } else {
        assert(final(out)@ =~= old(out)@ + decimal(n as nat));
    }
}

/// The digest of the word `w` salted with its position `pos`.
fn salted_digest(pos: usize, w: &Vec<char>) -> (h: [u8; 32])
    ensures
        h@ == spec_hash_intent(salted_word(pos as nat, w@)),
{
    let mut text: Vec<char> = Vec::new();
    push_decimal(&mut text, pos);
    text.push(':');
    let ghost head = text@;
    let mut i: usize = 0;
    while i < w.len()
        invariant
            i <= w.len(),
            text@ == head + w@.take(i as int),
        decreases w.len() - i,
    {
        text.push(w[i]);
        i = i + 1;
        assert(text@ =~= head + w@.take(i as int));
    }
    assert(w@.take(w.len() as int) =~= w@);
    assert(head =~= decimal(pos as nat).push(':'));
    let s = string_of_all(&text);
    let h = hash_intent(s.as_str());
    *h.as_bytes()
}

/// The lane word of digest `h` for lane `i` (see `lane_word`).
fn lane_of(h: &[u8; 32], i: usize) -> (r: u32)
    ensures
        r == lane_word(h@, i as int),
{
    let k = (i % 8) * 4;
    assert((i * 4) % 32 == (i % 8) * 4) by (nonlinear_arith);
    let b0 = h[k] as u32;
    let b1 = h[k + 1] as u32;
    let b2 = h[(k + 2) % 32] as u32;
    let b3 = h[(k + 3) % 32] as u32;
    b0 + b1 * 0x100 + b2 * 0x10000 + b3 * 0x1000000
}

/// The embedding lanes of `intent` (see `embed_lanes`): the bit patterns of the
/// `dim` components of the intent's embedding before normalization.
pub fn embed_bits(intent: &str, dim: usize) -> (bits: Vec<u32>)
    ensures
        bits@ == embed_lanes(intent@, dim as nat),
        bits.len() == dim,
{
    proof {
        embedding_has_dim_lanes(intent@, dim as nat);
    }
    let mut bits: Vec<u32> = Vec::new();
    let mut i: usize = 0;
    while i < dim
        invariant
            i <= dim,
            bits@ == zero_lanes(i as nat),
        decreases dim - i,
    {
        bits.push(0);
        i = i + 1;
        assert(bits@ =~= zero_lanes(i as nat));
    }
    let v = chars_of(intent);
    let ws = split_words(&v);
    let ghost wv = words_view(ws@);
    let mut p: usize = 0;
    while p < ws.len()
        invariant
            p <= ws.len(),
            wv == words_view(ws@),
            wv == words(intent@),
            bits@.len() == dim,
            embed_lanes(intent@, dim as nat) == fold_words(wv, p as int, bits@),
        decreases ws.len() - p,
    {
        let h = salted_digest(p, &ws[p]);
        assert(wv[p as int] == ws[p as int]@);
        let ghost before = bits@;
        let mut j: usize = 0;
        while j < bits.len()
            invariant
                j <= bits.len(),
                bits@.len() == before.len(),
                forall|k: int| 0 <= k < j ==> bits@[k] == before[k] ^ lane_word(h@, k),
                forall|k: int| j <= k < bits.len() ==> bits@[k] == before[k],
            decreases bits.len() - j,
        {
            let x = bits[j] ^ lane_of(&h, j);
            bits.set(j, x);
            j = j + 1;
        }
        assert(bits@ =~= fold_digest(before, h@));
        p = p + 1;
    }
    bits
}


proof fn lemma_fold_words_len(ws: Seq<Seq<char>>, p: int, bits: Seq<u32>)
    ensures
        fold_words(ws, p, bits).len() == bits.len(),
    decreases ws.len() - p,
{
    if 0 <= p < ws.len() {
        lemma_fold_words_len(
            ws,
            p + 1,
            fold_digest(bits, spec_hash_intent(salted_word(p as nat, ws[p]))),
        );
    }
}

/// An embedding has as many lanes as the dimension asked for.
pub proof fn embedding_has_dim_lanes(intent: Seq<char>, dim: nat)
    ensures
        embed_lanes(intent, dim).len() == dim,
{
    lemma_fold_words_len(words(intent), 0, zero_lanes(dim));
}

proof fn lemma_blank_has_no_words(s: Seq<char>, i: int)
    requires
        0 <= i,
        forall|k: int| i <= k < s.len() ==> is_ws(#[trigger] s[k]),
    ensures
        words_from(s, i, Seq::empty()) == Seq::<Seq<char>>::empty(),
    decreases s.len() - i,
{
    if i < s.len() {
        lemma_blank_has_no_words(s, i + 1);
        assert(Seq::<Seq<char>>::empty() + Seq::<Seq<char>>::empty() =~= Seq::<
            Seq<char>,
        >::empty());
    }
}

/// An intent with no words (empty, or whitespace only) embeds to all-zero lanes.
pub proof fn blank_intent_embeds_to_zero(intent: Seq<char>, dim: nat)
    requires
        forall|k: int| 0 <= k < intent.len() ==> is_ws(#[trigger] intent[k]),
    ensures
        embed_lanes(intent, dim) == zero_lanes(dim),
{
    lemma_blank_has_no_words(intent, 0);
}


proof fn lemma_lane_word_period(h: Seq<u8>, i: int)
    requires
        0 <= i,
    ensures
        lane_word(h, i) == lane_word(h, i % 8),
{
    assert((i * 4) % 32 == ((i % 8) * 4) % 32) by (nonlinear_arith)
        requires
            0 <= i,
    ;
}

/// Whether the lanes repeat with period 8.
pub open spec fn repeats_every_8(bits: Seq<u32>) -> bool {
    forall|i: int| 0 <= i < bits.len() ==> #[trigger] bits[i] == bits[i % 8]
}

proof fn lemma_fold_words_periodic(ws: Seq<Seq<char>>, p: int, bits: Seq<u32>)
    requires
        repeats_every_8(bits),
    ensures
        repeats_every_8(fold_words(ws, p, bits)),
    decreases ws.len() - p,
{
    if 0 <= p < ws.len() {
        let h = spec_hash_intent(salted_word(p as nat, ws[p]));
        let next = fold_digest(bits, h);
        assert forall|i: int| 0 <= i < next.len() implies #[trigger] next[i] == next[i % 8] by {
            lemma_lane_word_period(h, i);
            assert(bits[i] == bits[i % 8]);
        }
        lemma_fold_words_periodic(ws, p + 1, next);
    }
}

proof fn lemma_fold_words_pointwise(ws: Seq<Seq<char>>, p: int, b1: Seq<u32>, b2: Seq<u32>, i: int)
    requires
        0 <= i < b1.len(),
        i < b2.len(),
        b1[i] == b2[i],
    ensures
        fold_words(ws, p, b1)[i] == fold_words(ws, p, b2)[i],
    decreases ws.len() - p,
{
    if 0 <= p < ws.len() {
        let h = spec_hash_intent(salted_word(p as nat, ws[p]));
        lemma_fold_words_pointwise(ws, p + 1, fold_digest(b1, h), fold_digest(b2, h), i);
    }
}

/// The lanes of an embedding repeat every 8: every word's digest is folded into every
/// lane, lane `i` taking the same 32-bit word of the digest as lane `i % 8`.
pub proof fn embedding_lanes_repeat_every_8(intent: Seq<char>, dim: nat)
    ensures
        forall|i: int|
            0 <= i < dim ==> #[trigger] embed_lanes(intent, dim)[i] == embed_lanes(intent, dim)[i
                % 8],
{
    assert(repeats_every_8(zero_lanes(dim)));
    lemma_fold_words_periodic(words(intent), 0, zero_lanes(dim));
    embedding_has_dim_lanes(intent, dim);
}

/// The dimension only decides how many lanes there are: each lane has the same value
/// in every dimension that holds it.
pub proof fn embedding_lanes_independent_of_dim(intent: Seq<char>, d1: nat, d2: nat)
    ensures
        forall|i: int|
            0 <= i < d1 && i < d2 ==> #[trigger] embed_lanes(intent, d1)[i] == embed_lanes(
                intent,
                d2,
            )[i],
{
    assert forall|i: int| 0 <= i < d1 && i < d2 implies #[trigger] embed_lanes(intent, d1)[i]
        == embed_lanes(intent, d2)[i] by {
        lemma_fold_words_pointwise(words(intent), 0, zero_lanes(d1), zero_lanes(d2), i);
    }
}

/// A one-word intent embeds to its position-0 salted digest: every lane `i` is the
/// digest's little-endian 32-bit word at byte `4 * (i % 8)`.
pub proof fn one_word_embedding(intent: Seq<char>, dim: nat)
    requires
        words(intent).len() == 1,
    ensures
        forall|i: int|
            0 <= i < dim ==> {
                let h = spec_hash_intent(salted_word(0, words(intent)[0]));
                let k = 4 * (i % 8);
                #[trigger] embed_lanes(intent, dim)[i] == (h[k] as int + h[k + 1] as int * 0x100
                    + h[k + 2] as int * 0x10000 + h[k + 3] as int * 0x1000000) as u32
            },
{
    let ws = words(intent);
    let h = spec_hash_intent(salted_word(0, ws[0]));
    let z = zero_lanes(dim);
    let f = fold_digest(z, h);
    assert(fold_words(ws, 1, f) == f);
    assert forall|i: int| 0 <= i < dim implies {
        let k = 4 * (i % 8);
        #[trigger] embed_lanes(intent, dim)[i] == (h[k] as int + h[k + 1] as int * 0x100 + h[k
            + 2] as int * 0x10000 + h[k + 3] as int * 0x1000000) as u32
    } by {
        lemma_lane_word_period(h, i);
        let w = lane_word(h, i % 8);
        assert(z[i] == 0u32);
        assert(0u32 ^ w == w) by (bit_vector);
        assert((i % 8 * 4) % 32 == 4 * (i % 8));
    }
}


proof fn lemma_digit_char(d: nat)
    requires
        d < 10,
    ensures
        digit_char(d) as u32 == d + 48,
        digit_char(d) != ':',
{
}

proof fn lemma_decimal_digits(n: nat)
    ensures
        decimal(n).len() >= 1,
        n >= 10 ==> decimal(n).len() >= 2,
        forall|k: int| 0 <= k < decimal(n).len() ==> #[trigger] decimal(n)[k] != ':',
    decreases n,
{
    if n < 10 {
        lemma_digit_char(n);
    } else {
        lemma_decimal_digits(n / 10);
        lemma_digit_char(n % 10);
    }
}

proof fn lemma_decimal_injective(a: nat, b: nat)
    requires
        decimal(a) == decimal(b),
    ensures
        a == b,
    decreases a,
{
    lemma_decimal_digits(a);
    lemma_decimal_digits(b);
    if a < 10 && b < 10 {
        lemma_digit_char(a);
        lemma_digit_char(b);
        assert(decimal(a)[0] == digit_char(a));
        assert(decimal(b)[0] == digit_char(b));
    } else if a >= 10 && b >= 10 {
        lemma_digit_char(a % 10);
        lemma_digit_char(b % 10);
        assert(decimal(a).last() == digit_char(a % 10));
        assert(decimal(b).last() == digit_char(b % 10));
        assert(decimal(a).drop_last() =~= decimal(a / 10));
        assert(decimal(b).drop_last() =~= decimal(b / 10));
        lemma_decimal_injective(a / 10, b / 10);
        assert(digit_char(a % 10) == digit_char(b % 10));
        assert(a % 10 == b % 10);
        assert(a == 10 * (a / 10) + a % 10);
        assert(b == 10 * (b / 10) + b % 10);
    } else {
        lemma_decimal_digits(a / 10);
        lemma_decimal_digits(b / 10);
    }
}

/// Salting is unambiguous: the text hashed for a word determines both the word and its
/// position, so the same word at two positions (or two words at one position) is
/// hashed from different messages.
pub proof fn salted_words_are_distinct(p1: nat, w1: Seq<char>, p2: nat, w2: Seq<char>)
    requires
        salted_word(p1, w1) == salted_word(p2, w2),
    ensures
        p1 == p2,
        w1 == w2,
{
    lemma_decimal_digits(p1);
    lemma_decimal_digits(p2);
    let m = salted_word(p1, w1);
    let n1 = decimal(p1).len() as int;
    let n2 = decimal(p2).len() as int;
    assert(m[n1] == ':');
    assert(salted_word(p2, w2)[n2] == ':');
    if n1 < n2 {
        assert(m[n1] == decimal(p2)[n1]);
    } else if n2 < n1 {
        assert(m[n2] == decimal(p1)[n2]);
    }
    assert(m.take(n1) =~= decimal(p1));
    assert(salted_word(p2, w2).take(n2) =~= decimal(p2));
    lemma_decimal_injective(p1, p2);
    assert(m.skip(n1 + 1) =~= w1);
    assert(salted_word(p2, w2).skip(n2 + 1) =~= w2);
}

} // verus!
