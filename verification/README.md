# lever-runner-carapace

Intent resolution for agents: BLAKE2b-256 intent hashing, position-aware embeddings,
a three-gate resolver (exact hash match, vector similarity, fallback), skill-template
packs, and trust scores with exponential decay.

Layout:

- `src/` — the verified library (Verus):
  - `hash.rs`: `IntentHash`, `hash_intent`, `hash_intent_with_salt`, hex rendering;
    BLAKE2b comes from the `blake2` crate through one trusted wrapper.
  - `skill.rs`: `SkillPack::parse` and `render`, `ParamValues`, with their
    specifications (`pack_of`, `render_of`) and the parameter well-formedness law.
  - `embed.rs`: word splitting, position salting and XOR-folding of digests into the
    32-bit lanes of an embedding (`embed_bits`).
  - `gate.rs`: `IntentIndex` (labels and patterns, exact gate) and `GateDecision`.
  - `text.rs`: Unicode whitespace, trimming, searching, line splitting, replacement.
- `app/` — the floating-point layer on top of the library: `Embedding`
  normalization and cosine similarity, `cosine_search`, `GatePipeline`,
  `TrustTracker`, and the `.nail` YAML export.
- `tests/` — tests of the library.
