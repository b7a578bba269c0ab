//! A reusable versioned log: hash-linked entries that hold their payloads
//! as bytes, a closed decoding step that a component supplies, and a view
//! that any replay of the log rebuilds.

pub mod envelope;
pub mod error;
pub mod family;
pub mod frames;
pub mod identity;
pub mod log;
pub mod migration;
pub mod record;
pub mod view;
