//! A two-way dictionary lookup engine: records, their order, the parser of the
//! word lists, the searchable store with its prefix search, and the history of
//! bookmarked entries.

pub mod database;
pub mod history;
pub mod index;
pub mod order;
pub mod parser;
pub mod search;
pub mod selection;
pub mod sort;
pub mod text;
