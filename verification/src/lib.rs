//! A document library: PDF metadata rows, free-form tags, and named blobs.
//!
//! The crate models the two independently failable stores of the service —
//! a transactional relational store and a non-transactional blob store — and
//! verifies the consistency engine that keeps them in agreement: tag
//! reconciliation, the ordered write-then-compensate upload and delete
//! protocols, and the filtered, paginated query engine.

pub mod blob;
pub mod codec;
pub mod library;
pub mod model;
pub mod query;
pub mod seqs;
pub mod store;
pub mod text;
