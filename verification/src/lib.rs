//! Page-level recomposition of object-graph documents.
//!
//! A document is a graph of objects that refer to one another by identity.
//! Its pages hang in a tree below the catalog. This crate extracts, deletes,
//! splits and merges pages: it walks the page tree, collects what the
//! chosen pages reach, gives the collected objects new identities in a new
//! document, and builds the page tree, catalog and trailer that make the
//! new document stand alone.

pub mod builder;
pub mod collector;
pub mod document;
pub mod error;
pub mod files;
pub mod laws;
pub mod names;
pub mod object;
pub mod ops;
pub mod remapper;
pub mod selection;
pub mod table;
pub mod walker;
