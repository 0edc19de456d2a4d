//! Streaming piece commitments: padded piece bytes are folded into 64-byte
//! leaves, leaves into chunk roots, and chunk roots into one root.
pub mod domain;
pub mod commitment_reader;
pub mod chunks_reader;
pub mod piece;
