use lever_runner_carapace::embed::{embed_bits, EMBED_DIM};
use lever_runner_carapace::hash::hash_intent;

#[test]
fn test_default_dim() {
    let e = embed_bits("hello", EMBED_DIM);
    assert_eq!(e.len(), EMBED_DIM);
}

#[test]
fn test_custom_dim() {
    let e = embed_bits("hello", 128);
    assert_eq!(e.len(), 128);
}

#[test]
fn embed_test_deterministic() {
    let e1 = embed_bits("hello world", EMBED_DIM);
    let e2 = embed_bits("hello world", EMBED_DIM);
    assert_eq!(e1, e2);
}

#[test]
fn test_position_matters() {
    let e1 = embed_bits("hello world", EMBED_DIM);
    let e2 = embed_bits("world hello", EMBED_DIM);
    assert_ne!(e1, e2);
}

#[test]
fn test_empty_intent() {
    let e = embed_bits("", EMBED_DIM);
    assert!(e.iter().all(|&b| b == 0));
}

#[test]
fn whitespace_only_intent_is_zero() {
    let e = embed_bits(" \t\n\u{3000} ", 16);
    assert_eq!(e, vec![0u32; 16]);
}

fn lane(h: &[u8; 32], i: usize) -> u32 {
    let k = (i * 4) % 32;
    u32::from_le_bytes([h[k], h[k + 1], h[(k + 2) % 32], h[(k + 3) % 32]])
}

#[test]
fn single_word_lanes_are_its_salted_digest() {
    let h = hash_intent("0:hello");
    let e = embed_bits("  hello  ", 10);
    for i in 0..10 {
        assert_eq!(e[i], lane(h.as_bytes(), i));
    }
}

#[test]
fn words_fold_by_xor_with_positions() {
    let h0 = hash_intent("0:a");
    let h1 = hash_intent("1:b");
    let e = embed_bits("a \u{2003}b", 12);
    for i in 0..12 {
        assert_eq!(e[i], lane(h0.as_bytes(), i) ^ lane(h1.as_bytes(), i));
    }
}

#[test]
fn positions_past_nine_use_decimal() {
    let text = "w w w w w w w w w w w";
    let mut expected = vec![0u32; 4];
    for pos in 0..11 {
        let h = hash_intent(&format!("{}:w", pos));
        for i in 0..4 {
            expected[i] ^= lane(h.as_bytes(), i);
        }
    }
    assert_eq!(embed_bits(text, 4), expected);
}
