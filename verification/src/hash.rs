//! BLAKE2b-256 intent hashing and hex rendering of digests.

use blake2::digest::consts::U32;
use blake2::{Blake2b, Digest};
use vstd::prelude::*;
use vstd::string::StringExecFns;
use vstd::utf8::{decode_utf8, encode_utf8};

verus! {

/// The BLAKE2b digest with a 32-byte output (BLAKE2b-256, RFC 7693) of a byte string.
pub uninterp spec fn blake2b_256(data: Seq<u8>) -> Seq<u8>;

/// Calls `Blake2b::<U32>` of the `blake2` crate: a fresh hasher, one `update` with `data`,
/// then `finalize`. The claim is that the 32 bytes it returns are the BLAKE2b-256
/// digest of `data`, a function of `data` alone.
#[verifier::external_body]
fn blake2b_256_digest(data: &[u8]) -> (out: [u8; 32])
    ensures
        out@ == blake2b_256(data@),
{
    let mut hasher = Blake2b::<U32>::new();
    hasher.update(data);
    let result = hasher.finalize();
    let mut out = [0u8; 32];
    out.copy_from_slice(&result);
    out
}

/// 32-byte hash digest for intent strings.
#[derive(Clone, PartialEq, Eq, Hash, Debug)]
pub struct IntentHash(pub(crate) [u8; 32]);

impl View for IntentHash {
    type V = Seq<u8>;

    closed spec fn view(&self) -> Seq<u8> {
        self.0@
    }
}

impl IntentHash {
    pub fn as_bytes(&self) -> (r: &[u8; 32])
        ensures
            r@ == self@,
    {
        &self.0
    }
}

/// A digest is its 32 bytes: two `IntentHash` values are equal exactly when their
/// bytes (what `as_bytes` returns) are equal.
pub proof fn hash_is_its_bytes(h1: IntentHash, h2: IntentHash)
    ensures
        h1@.len() == 32,
        (h1 == h2) == (h1@ == h2@),
{
    broadcast use vstd::array::axiom_array_ext_equal, vstd::array::lemma_array_index;

    if h1@ == h2@ {
        assert forall|i: int| 0 <= i < 32 implies h1.0[i] == h2.0[i] by {
            assert(h1.0@[i] == h2.0@[i]);
        }
        assert(h1.0 =~= h2.0);
    }
}

/// BLAKE2b-256 of the UTF-8 encoding of `intent`.
pub open spec fn spec_hash_intent(intent: Seq<char>) -> Seq<u8> {
    blake2b_256(encode_utf8(intent))
}

/// Hash an intent string with BLAKE2b-256.
pub fn hash_intent(intent: &str) -> (h: IntentHash)
    ensures
        h@ == spec_hash_intent(intent@),
{
    IntentHash(blake2b_256_digest(intent.as_bytes()))
}


/// A hex digit: `0`-`9`, then `a`-`f`.
pub open spec fn hex_digit(d: int) -> char {
    if d < 10 {
        (d + 48) as char
    } else {
        (d + 87) as char
    }
}

/// Lowercase hex of `bytes`, two digits per byte, high nibble first.
pub open spec fn hex_of(bytes: Seq<u8>) -> Seq<char> {
    Seq::new(
        2 * bytes.len(),
        |k: int|
            if k % 2 == 0 {
                hex_digit((bytes[k / 2] / 16) as int)
            } else {
                hex_digit((bytes[k / 2] % 16) as int)
            },
    )
}

fn hex_char(d: u8) -> (c: char)
    requires
        d < 16,
    ensures
        c == hex_digit(d as int),
{
    if d < 10 {
        (d + 48) as char
    } else {
        (d + 87) as char
    }
}

impl IntentHash {
    /// Lowercase hex of the 32 digest bytes (64 characters).
    pub fn to_hex(&self) -> (s: String)
        ensures
            s@ == hex_of(self@),
            s@.len() == 64,
    {
        let mut s = String::new();
        let mut i: usize = 0;
        while i < 32
            invariant
                i <= 32,
                self@ == self.0@,
                self@.len() == 32,
                s@.len() == 2 * i,
                forall|k: int| 0 <= k < 2 * i ==> s@[k] == #[trigger] hex_of(self@)[k],
            decreases 32 - i,
        {
            let b = self.0[i];
            let ghost before = s@;
            crate::text::push_char(&mut s, hex_char(b / 16));
            crate::text::push_char(&mut s, hex_char(b % 16));
            assert forall|k: int| 0 <= k < 2 * (i + 1) implies s@[k] == #[trigger] hex_of(
                self@,
            )[k] by {
                if k >= 2 * i {
                    assert(k / 2 == i);
                    assert(self@[i as int] == b);
                } else {
                    assert(s@[k] == before[k]);
                }
            }
            i = i + 1;
        }
        assert(s@ =~= hex_of(self@));
        s
    }

    /// The debugging text of the digest: `IntentHash(` and its hex, then `)`.
    pub fn debug_text(&self) -> (s: String)
        ensures
            s@ == "IntentHash("@ + hex_of(self@) + ")"@,
    {
        let mut s = String::from_str("IntentHash(");
        let hex = self.to_hex();
        s.append(hex.as_str());
        s.append(")");
        s
    }

    /// Whether the two digests are equal.
    pub fn same_digest(&self, other: &IntentHash) -> (r: bool)
        ensures
            r == (self@ == other@),
    {
        let mut i: usize = 0;
        while i < 32
            invariant
                i <= 32,
                self@ == self.0@,
                other@ == other.0@,
                forall|k: int| 0 <= k < i ==> self@[k] == other@[k],
            decreases 32 - i,
        {
            if self.0[i] != other.0[i] {
                return false;
            }
            i = i + 1;
        }
        assert(self@ =~= other@);
        true
    }
}

/// The `k` little-endian bytes of `n` (low byte first).
pub open spec fn le_bytes(n: nat, k: nat) -> Seq<u8>
    decreases k,
{
    if k == 0 {
        Seq::empty()
    } else {
        seq![(n % 256) as u8] + le_bytes(n / 256, (k - 1) as nat)
    }
}

/// `256` to the power `k`.
pub open spec fn pow256(k: nat) -> nat
    decreases k,
{
    if k == 0 {
        1
    } else {
        256 * pow256((k - 1) as nat)
    }
}

/// The message hashed for `intent` in the domain `salt`: the salt's length as 8
/// little-endian bytes, the salt, then the UTF-8 encoding of the intent. The length
/// prefix makes the split between salt and intent unambiguous.
pub open spec fn salted_message(intent: Seq<char>, salt: Seq<u8>) -> Seq<u8> {
    le_bytes(salt.len(), 8) + salt + encode_utf8(intent)
}

/// BLAKE2b-256 of the salted message of `intent` in the domain `salt`.
pub open spec fn spec_hash_intent_with_salt(intent: Seq<char>, salt: Seq<u8>) -> Seq<u8> {
    blake2b_256(salted_message(intent, salt))
}

proof fn lemma_le_bytes_len(n: nat, k: nat)
    ensures
        le_bytes(n, k).len() == k,
    decreases k,
{
    if k > 0 {
        lemma_le_bytes_len(n / 256, (k - 1) as nat);
    }
}

proof fn lemma_le_bytes_injective(a: nat, b: nat, k: nat)
    requires
        a < pow256(k),
        b < pow256(k),
        le_bytes(a, k) == le_bytes(b, k),
    ensures
        a == b,
    decreases k,
{
    if k > 0 {
        let la = le_bytes(a, k);
        let lb = le_bytes(b, k);
        assert(la[0] == (a % 256) as u8);
        assert(lb[0] == (b % 256) as u8);
        assert(a % 256 == b % 256);
        assert(la.drop_first() =~= le_bytes(a / 256, (k - 1) as nat));
        assert(lb.drop_first() =~= le_bytes(b / 256, (k - 1) as nat));
        lemma_le_bytes_injective(a / 256, b / 256, (k - 1) as nat);
    }
}

/// Every length a machine can hold is below `256^8`, so `salted_message_injective`
/// applies to the salts of all calls of `hash_intent_with_salt`.
pub proof fn usize_below_pow256_8(n: usize)
    ensures
        n < pow256(8),
{
    assert(pow256(0) == 1);
    assert(pow256(1) == 0x100);
    assert(pow256(2) == 0x10000);
    assert(pow256(3) == 0x1000000);
    assert(pow256(4) == 0x100000000);
    assert(pow256(5) == 0x10000000000);
    assert(pow256(6) == 0x1000000000000);
    assert(pow256(7) == 0x100000000000000);
    assert(pow256(8) == 0x10000000000000000);
}

/// Salted messages are unambiguous: the message determines both the salt and the
/// intent. Distinct salts (or distinct intents) therefore give distinct messages,
/// so their digests can agree only through a BLAKE2b-256 collision.
pub proof fn salted_message_injective(i1: Seq<char>, s1: Seq<u8>, i2: Seq<char>, s2: Seq<u8>)
    requires
        s1.len() < pow256(8),
        s2.len() < pow256(8),
        salted_message(i1, s1) == salted_message(i2, s2),
    ensures
        s1 == s2,
        i1 == i2,
{
    let m = salted_message(i1, s1);
    lemma_le_bytes_len(s1.len(), 8);
    lemma_le_bytes_len(s2.len(), 8);
    assert(m.take(8) =~= le_bytes(s1.len(), 8));
    assert(salted_message(i2, s2).take(8) =~= le_bytes(s2.len(), 8));
    lemma_le_bytes_injective(s1.len(), s2.len(), 8);
    let n = s1.len() as int;
    assert(m.subrange(8, 8 + n) =~= s1);
    assert(salted_message(i2, s2).subrange(8, 8 + n) =~= s2);
    assert(m.skip(8 + n) =~= encode_utf8(i1));
    assert(salted_message(i2, s2).skip(8 + n) =~= encode_utf8(i2));
    vstd::utf8::encode_utf8_decode_utf8(i1);
    vstd::utf8::encode_utf8_decode_utf8(i2);
}

/// Hash an intent with a context salt for domain separation: the digest of the
/// salt's length (8 bytes, little-endian), the salt, then the intent, as one message.
pub fn hash_intent_with_salt(intent: &str, salt: &[u8]) -> (h: IntentHash)
    ensures
        h@ == spec_hash_intent_with_salt(intent@, salt@),
{
    let bytes = intent.as_bytes();
    let mut data: Vec<u8> = Vec::new();
    let ghost len = salt@.len();
    let mut n: u64 = salt.len() as u64;
    let mut k: usize = 0;
    assert(le_bytes(len, 8) == data@ + le_bytes(n as nat, 8)) by {
        assert(data@ + le_bytes(n as nat, 8) =~= le_bytes(n as nat, 8));
    }
    while k < 8
        invariant
            k <= 8,
            le_bytes(len, 8) == data@ + le_bytes(n as nat, (8 - k) as nat),
        decreases 8 - k,
    {
        let ghost before = data@;
        data.push((n % 256) as u8);
        assert(le_bytes(n as nat, (8 - k) as nat) =~= seq![(n % 256) as u8] + le_bytes(
            (n / 256) as nat,
            (8 - k - 1) as nat,
        ));
        assert(before + (seq![(n % 256) as u8] + le_bytes((n / 256) as nat, (8 - k - 1) as nat))
            =~= data@ + le_bytes((n / 256) as nat, (8 - k - 1) as nat));
        n = n / 256;
        k = k + 1;
    }
    assert(data@ + le_bytes(n as nat, 0) =~= data@);
    let ghost prefix = data@;
    let mut i: usize = 0;
    while i < salt.len()
        invariant
            i <= salt.len(),
            data@ == prefix + salt@.take(i as int),
        decreases salt.len() - i,
    {
        data.push(salt[i]);
        i = i + 1;
        assert(data@ =~= prefix + salt@.take(i as int));
    }
    assert(salt@.take(salt.len() as int) =~= salt@);
    let mut j: usize = 0;
    while j < bytes.len()
        invariant
            j <= bytes.len(),
            data@ == prefix + salt@ + bytes@.take(j as int),
        decreases bytes.len() - j,
    {
        data.push(bytes[j]);
        j = j + 1;
        assert(data@ =~= prefix + salt@ + bytes@.take(j as int));
    }
    assert(bytes@.take(bytes.len() as int) =~= bytes@);
    IntentHash(blake2b_256_digest(data.as_slice()))
}

/// Whether `c` is a lowercase hex digit.
pub open spec fn is_lower_hex_digit(c: char) -> bool {
    ('0' <= c && c <= '9') || ('a' <= c && c <= 'f')
}

/// Every character of a hex rendering is a lowercase hex digit.
pub proof fn hex_is_lower_hex_digits(bytes: Seq<u8>)
    ensures
        forall|k: int| 0 <= k < hex_of(bytes).len() ==> is_lower_hex_digit(#[trigger] hex_of(bytes)[k]),
{
    assert forall|k: int| 0 <= k < hex_of(bytes).len() implies is_lower_hex_digit(
        #[trigger] hex_of(bytes)[k],
    ) by {
        let b = bytes[k / 2];
        assert(b / 16 < 16);
        assert(b % 16 < 16);
    }
}


/// An intent's digest covers all of it: it is the BLAKE2b-256 digest of a message from
/// which the whole intent is recovered (its UTF-8 encoding), whatever the length. So
/// intents that differ anywhere are hashed from different messages, and their digests
/// can agree only through a BLAKE2b-256 collision.
pub proof fn hash_covers_whole_intent(s1: Seq<char>, s2: Seq<char>)
    ensures
        exists|m: Seq<u8>| spec_hash_intent(s1) == blake2b_256(m) && decode_utf8(m) == s1,
        s1 != s2 ==> exists|m1: Seq<u8>, m2: Seq<u8>|
            m1 != m2 && spec_hash_intent(s1) == blake2b_256(m1) && spec_hash_intent(s2)
                == blake2b_256(m2),
{
    vstd::utf8::encode_utf8_decode_utf8(s1);
    vstd::utf8::encode_utf8_decode_utf8(s2);
    let m1 = encode_utf8(s1);
    let m2 = encode_utf8(s2);
    assert(spec_hash_intent(s1) == blake2b_256(m1) && decode_utf8(m1) == s1);
    if s1 != s2 {
        assert(m1 != m2);
        assert(m1 != m2 && spec_hash_intent(s1) == blake2b_256(m1) && spec_hash_intent(s2)
            == blake2b_256(m2));
    }
}

} // verus!
