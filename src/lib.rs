//! Synchronizes media metadata between a record, an editable text form and a tag tree.
pub mod field;
pub mod record;
pub mod text;
pub mod codec;
pub mod tags;
pub mod session;
pub mod laws;
pub mod merge_laws;
