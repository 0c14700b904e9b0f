//! A document post-processor for SVG-like trees: elements whose identifier
//! encodes a horizontal alignment (left, center, right) have their text runs
//! re-anchored, using real font metrics for the rendered width. The tree
//! model, identifier classification, numeral handling, width scaling and the
//! rewriting pass are all verified; the font face itself is read through a
//! small set of trusted calls.
pub mod ident;
pub mod metrics;
pub mod num;
pub mod resolve;
pub mod tree;
