//! Resolution of style properties over a document tree.
//!
//! For every node of a content tree the library works out, from the rules of
//! a stylesheet, the value of each property that holds for the node, and
//! builds a styled tree of the same shape that carries these values.
//!
//! - [`content_tree`]: the document, elements and text.
//! - [`style`]: values, declarations, selectors, rules and stylesheets, and
//!   the search for the rules that apply to an element.
//! - [`sorting`]: the stable ordering of matched rules by specificity.
//! - [`cascade`]: what matched rules resolve to, and that the resolver
//!   computes it.
//! - [`style_tree`]: the styled tree, its builder and its accessors.
//! - [`text`]: comparison of strings.

pub mod cascade;
pub mod content_tree;
pub mod sorting;
pub mod style;
pub mod style_tree;
pub mod text;
