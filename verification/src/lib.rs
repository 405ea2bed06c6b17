//! Frontmatter metadata tables.
//!
//! Takes a batch of parsed document trees, resolves a compact date for each
//! document, flattens the nested metadata into key/value pairs, and renders
//! the whole batch as one comma-separated table with a stable, date-first
//! column order.

pub mod csv_processor;
pub mod date;
pub mod frontmatter;
pub mod node;
pub mod record;
pub mod text;

pub use date::Date;
