//! Indexing, splitting and inspection of AFP (MO:DCA) print files.
//!
//! The verified library holds the logic: the document-hierarchy state
//! machine, the split planner, structured-field and triplet decoding, and the
//! text decoding used when dumping NOP and TLE records.

pub mod features;
pub mod patterns;
pub mod boundary;
pub mod state;
pub mod strings;
pub mod chunk;
pub mod record;
pub mod triplet;
pub mod text;
pub mod inspect;
pub mod data;
pub mod writer;
pub mod report;
