//! A buffered key-value store.
//!
//! A buffer stages writes in an ordered scratch space above a persisted
//! table. Reads through the buffer see the scratch laid over the table;
//! iteration merges the two in key order; a flush stages every scratch
//! operation into a writer in one pass.
pub mod buf;
pub mod drain;
pub mod engine;
pub mod entries;
pub mod error;
pub mod flush;
pub mod fresh;
pub mod iter;
pub mod key;
pub mod keymap;
pub mod laws;
pub mod merge;
pub mod scratch;
pub mod table;
