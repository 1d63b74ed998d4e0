//! Layers and models, and autoregressive inference: token state, caches, constraints, scheduling
//! and sessions.

pub mod arrays;
pub mod attention;
pub mod blocks;
pub mod choice;
pub mod constrained;
pub mod decoder;
pub mod heads;
pub mod initial;
pub mod kv_cache;
pub mod layers;
pub mod lora;
pub mod models;
pub mod norm;
pub mod operand;
pub mod params;
pub mod rope;
pub mod sampling;
pub mod scheduler;
pub mod session;
pub mod state;
pub mod trie;
