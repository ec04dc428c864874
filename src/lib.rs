//! Builds the fellowship-membership proposal: a call tree assembled from a
//! roster, its canonical SCALE encoding, and the BLAKE2-256 digest of the batch.
pub mod call;
pub mod codec;
pub mod hasher;
pub mod builder;
pub mod roster;
pub mod present;
