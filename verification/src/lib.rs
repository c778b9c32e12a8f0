//! A small CSS style-resolution engine.
//!
//! The crate parses a subset of CSS text into a stylesheet, matches selectors
//! against element nodes of a document tree, and computes, per element, the
//! cascaded mapping from property names to typed values.

pub mod css;
pub mod dom;
pub mod strmap;
pub mod style;
