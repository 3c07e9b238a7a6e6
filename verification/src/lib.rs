//! DirtyData: a canonical graph IR with patches, deterministic hashing,
//! commit validation and a user-facing action language.

pub mod hash;
pub mod hex;
pub mod ids;
pub mod intent;
pub mod actions;
pub mod diff;
pub mod dsl;
pub mod ir;
pub mod keyed;
pub mod merge;
pub mod observer;
pub mod palette;
pub mod rack;
pub mod patch;
pub mod report;
pub mod storage;
pub mod text;
pub mod topo;
pub mod types;
pub mod validate;
pub mod walk;
