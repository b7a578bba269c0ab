//! What holds of the engine as a whole, beyond what any one call states.

pub mod calls;
pub mod checkpoints;
pub mod compaction;
pub mod component;
pub mod counters;
pub mod covering;
pub mod declaring;
pub mod digests;
pub mod evolution;
pub mod folds;
pub mod formats;
pub mod history;
pub mod imports;
pub mod metadata;
pub mod landing;
pub mod mirror;
pub mod reads;
pub mod rebuild;
pub mod registration;
pub mod replay;
pub mod replaying;
pub mod requests;
pub mod restoring;
pub mod runs;
pub mod sessions;
pub mod shipping;
pub mod sources;
pub mod staging;
pub mod standing;
pub mod subscribers;
pub mod values;
pub mod versioned;
pub mod views;
pub mod writes;
