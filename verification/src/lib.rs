//! Deltas describe rich-text documents and edits to them as a linear
//! sequence of `insert`, `retain` and `delete` operations, each optionally
//! carrying a map of formatting attributes.  A delta made only of inserts is
//! a document; any mix of operations is a change.
//!
//! The crate provides the attribute algebra, the normalising builder, the
//! slicing iterator, a Myers diff engine with a replace-coalescing adapter,
//! document operations (`diff`, `invert`, `each_line`, `slice`) and the
//! operational-transformation core (`compose`, `transform`,
//! `transform_position`), together with machine-checked contracts for them.

pub mod attr_val;
pub mod attributes;
pub mod delta;
pub mod document;
pub mod error;
pub mod iterator;
pub mod myers;
pub mod operations;
pub mod ops_kind;
pub mod optransform;
pub mod replace;
pub mod sink;
pub mod utils;
