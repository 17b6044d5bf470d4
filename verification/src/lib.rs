//! A structural and referential validator for Markdown documents: collects
//! the headings of an already-parsed document tree into records with unique
//! anchor identifiers, checks the heading hierarchy, renders a table of
//! contents, classifies and validates every link, and aggregates document
//! statistics.

pub mod links;
pub mod node;
pub mod stats;
pub mod text;
pub mod toc;
pub mod validate;
