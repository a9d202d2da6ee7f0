use blake2::digest::consts::U32;
use blake2::{Blake2b, Digest};
use lever_runner_carapace::hash::{hash_intent, hash_intent_with_salt};

#[test]
fn test_hash_test_deterministic() {
    let h1 = hash_intent("hello world");
    let h2 = hash_intent("hello world");
    assert_eq!(h1, h2);
}

#[test]
fn test_different_inputs() {
    let h1 = hash_intent("hello");
    let h2 = hash_intent("world");
    assert_ne!(h1, h2);
}

#[test]
fn test_hex_output() {
    let h = hash_intent("test");
    let hex = h.to_hex();
    assert_eq!(hex.len(), 64);
    assert!(hex.chars().all(|c| c.is_ascii_hexdigit()));
}

#[test]
fn test_with_salt() {
    let h1 = hash_intent_with_salt("test", b"salt1");
    let h2 = hash_intent_with_salt("test", b"salt2");
    assert_ne!(h1, h2);
}

fn reference_digest(parts: &[&[u8]]) -> Vec<u8> {
    let mut hasher = Blake2b::<U32>::new();
    for p in parts {
        hasher.update(p);
    }
    hasher.finalize().to_vec()
}

#[test]
fn hash_matches_blake2b_256() {
    let h = hash_intent("what is the weather");
    assert_eq!(h.as_bytes().to_vec(), reference_digest(&[b"what is the weather"]));
}

#[test]
fn salted_hash_is_length_prefixed() {
    let h = hash_intent_with_salt("intent", b"ctx:");
    let len = (b"ctx:".len() as u64).to_le_bytes();
    assert_eq!(h.as_bytes().to_vec(), reference_digest(&[&len, b"ctx:", b"intent"]));
}

#[test]
fn salted_hash_separates_domains() {
    assert_ne!(hash_intent_with_salt("c", b"ab"), hash_intent_with_salt("bc", b"a"));
    assert_ne!(hash_intent_with_salt("c", b"ab"), hash_intent("abc"));
    assert_ne!(hash_intent_with_salt("abc", b""), hash_intent("abc"));
    let empty_salt = reference_digest(&[&[0u8; 8], b"abc"]);
    assert_eq!(hash_intent_with_salt("abc", b"").as_bytes().to_vec(), empty_salt);
}

#[test]
fn hex_of_empty_intent() {
    let hex = hash_intent("").to_hex();
    let expected: String = reference_digest(&[b""]).iter().map(|b| format!("{:02x}", b)).collect();
    assert_eq!(hex, expected);
    assert_eq!(hex, "0e5751c026e543b2e8ab2eb06099daa1d1e5df47778f7787faab45cdf12fe3a8");
}

#[test]
fn hex_is_lowercase() {
    let hex = hash_intent("UPPER case").to_hex();
    assert!(hex.chars().all(|c| c.is_ascii_digit() || ('a'..='f').contains(&c)));
}

#[test]
fn unicode_intent_hashes_its_utf8_bytes() {
    let h = hash_intent("héllo wörld");
    assert_eq!(h.as_bytes().to_vec(), reference_digest(&["héllo wörld".as_bytes()]));
}

#[test]
fn debug_text_shows_hex() {
    let h = hash_intent("x");
    assert_eq!(h.debug_text(), format!("IntentHash({})", h.to_hex()));
}
