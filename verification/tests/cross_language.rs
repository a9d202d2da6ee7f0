// Cross-language test vectors: hashing determinism, f32 score encoding,
// best-action selection and wire-format sizes.

use lever_runner_carapace::hash::hash_intent;

#[test]
fn test_hash_determinism() {
    let h1 = hash_intent("").to_hex();
    let h2 = hash_intent("").to_hex();
    assert_eq!(h1, h2, "Hash must be deterministic for empty string");

    let h1 = hash_intent("hello").to_hex();
    let h2 = hash_intent("hello").to_hex();
    assert_eq!(h1, h2, "Hash must be deterministic for 'hello'");
}

#[test]
fn test_blake3_vectors_differ_from_blake2b() {
    // The vectors are BLAKE3-128; the crate uses BLAKE2b-256, so they are logged only.
    let cases: &[(&str, &str, &str)] = &[
        ("v0", "", "af1349b9f5f9a1a6a0404dea36dcc949"),
        ("v1", "hello", "ea8f163db38682925e4491c5e58d4bb3"),
        ("v2", "action:north", "c05ce8a1d72076f88e37c16a390c8317"),
        ("v3", "state:grid[3,7];prev:east", "ac313d566be1727caf7e70a6d1703751"),
        ("v4", "state:grid[0,0];prev:null", "7c3315da05fb3efdb42f5272bd67fe14"),
        ("v5", "embed:test_positive", "5964dd158401e45648111c39d9a819f8"),
        ("v6", "embed:test_negative", "891401b065bed0568fb51eca8fe56ab4"),
        ("v7", "gate:exact_match", "44a528dfe8597e554f0bc5e3b5e06a99"),
        ("v8", "gate:fuzzy_match", "fdf0a62541fd6caf40f8db3876df9e1a"),
        ("v9", "gate:semantic_miss", "692be2e4e75070f7de6de0a67ec22a8c"),
    ];

    for (id, input, expected_blake3) in cases {
        let actual = hash_intent(input).to_hex();
        println!(
            "{}: input={:?}, blake3_expected={}, blake2b_actual={}",
            id, input, expected_blake3, actual
        );
    }
}

#[test]
fn test_score_encoding() {
    let vectors: &[(&str, [f32; 4], &str)] = &[
        ("v0", [0.5f32, 0.0f32, 0.0f32, 0.0f32], "0000003f000000000000000000000000"),
        ("v1", [0.2f32, 1.0f32, 0.3f32, 0.0f32], "cdcc4c3e0000803f9a99993e00000000"),
        ("v2", [0.5f32, 0.5f32, 0.5f32, 0.5f32], "0000003f0000003f0000003f0000003f"),
        ("v3", [0.75f32, 3.14159f32, 0.0f32, 0.9f32], "0000403fd00f4940000000006666663f"),
        ("v4", [0.0f32, 0.0f32, 0.0f32, 0.0f32], "00000000000000000000000000000000"),
        ("v5", [1.0001f32, -1.0001f32, 0.0f32, 0.50000006f32], "4703803f470380bf000000000100003f"),
        ("v6", [0.0f32, 0.0f32, 0.0f32, 1.0f32], "0000000000000000000000000000803f"),
        ("v7", [9.8f32, 1.0f32, 0.0f32, 0.0f32], "cdcc1c410000803f0000000000000000"),
        ("v8", [0.1f32, 0.1f32, 1.0f32, 0.1f32], "cdcccc3dcdcccc3d0000803fcdcccc3d"),
        ("v9", [0.0f32, 0.0f32, 0.0f32, 0.0f32], "00000000000000000000000000000000"),
    ];

    for (id, scores, expected_hex) in vectors {
        let bytes: Vec<u8> = scores.iter().flat_map(|s| s.to_le_bytes()).collect();
        let actual_hex: String = bytes.iter().map(|b| format!("{:02x}", b)).collect();
        assert_eq!(actual_hex, *expected_hex, "Score encoding mismatch for {}", id);
    }
}

#[test]
fn test_best_action() {
    // (id, scores, expected_best_index, expect_tie)
    let cases: &[(&str, [f32; 4], Option<usize>, bool)] = &[
        ("v0", [0.5f32, 0.0f32, 0.0f32, 0.0f32], Some(0), false),
        ("v1", [0.2f32, 1.0f32, 0.3f32, 0.0f32], Some(1), false),
        ("v2", [0.5f32, 0.5f32, 0.5f32, 0.5f32], None, true),
        ("v3", [0.75f32, 3.14159f32, 0.0f32, 0.9f32], Some(1), false),
        ("v4", [0.0f32, 0.0f32, 0.0f32, 0.0f32], None, true),
        ("v5", [1.0001f32, -1.0001f32, 0.0f32, 0.50000006f32], Some(0), false),
        ("v6", [0.0f32, 0.0f32, 0.0f32, 1.0f32], Some(3), false),
        ("v7", [9.8f32, 1.0f32, 0.0f32, 0.0f32], Some(0), false),
        ("v8", [0.1f32, 0.1f32, 1.0f32, 0.1f32], Some(2), false),
        ("v9", [0.0f32, 0.0f32, 0.0f32, 0.0f32], None, true),
    ];

    for (id, scores, expected_best, expect_tie) in cases {
        let max = scores.iter().cloned().fold(f32::NEG_INFINITY, f32::max);
        let count = scores.iter().filter(|&&s| s == max).count();

        if *expect_tie {
            assert!(count > 1, "Expected tie for {}, but found unique max", id);
        } else {
            let best = scores.iter().position(|&s| s == max).unwrap();
            assert_eq!(Some(best), *expected_best, "Best action mismatch for {}", id);
        }
    }
}

#[test]
fn test_wire_format_entry_size() {
    let n_actions: usize = 4;
    let metadata_len: usize = 0;
    let entry_size = 16 + 8 * n_actions + 4 + metadata_len;
    let entry_padded = (entry_size + 7) / 8 * 8;
    assert_eq!(entry_padded, 56, "Wire format entry size mismatch");
    let total = (64 + entry_padded + 255) / 256 * 256;
    assert_eq!(total, 256, "Wire format total padded mismatch");
}
