//! Merging of Minecraft resourcepacks: namespaced identifiers, per-kind asset
//! handling, and a resolver that turns colliding files into one consistent pack.
pub mod namespace;
pub mod index;
pub mod asset;
pub mod error;
pub mod classify;
pub mod conflict;
pub mod source;
pub mod utils;
pub mod workspace;
