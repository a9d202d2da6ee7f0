//! Intent resolution core: BLAKE2b intent hashing, skill-template parsing and
//! rendering, the integer lanes of position-aware embeddings, and the exact gate of
//! the three-gate resolution pipeline.

pub mod embed;
pub mod gate;
pub mod hash;
pub mod skill;
pub mod text;

pub use gate::{GateDecision, IntentIndex};
pub use hash::hash_intent;
pub use skill::SkillPack;
