//! A personal vocabulary-learning assistant's core: chat messages become
//! typed commands, commands become mutations of a per-user word store with
//! merge and dedup semantics, and every reply is rendered from the store.
//! The store persists as one JSON-shaped file whose encoding and decoding
//! round-trip; the wire clients that carry messages, translations and the
//! read-only HTTP surface live outside this crate.
pub mod codec;
pub mod commands;
pub mod lang;
pub mod messages;
pub mod storage;
pub mod strategy;
pub mod text;
pub mod updates;
pub mod user;
