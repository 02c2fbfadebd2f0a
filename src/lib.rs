//! Word-frequency statistics over batches of free-text notes.

pub mod text;
pub mod stopwords;
pub mod order;
pub mod keywords;
pub mod notes;
pub mod laws;
