//! Semantic resolution and evaluation of Devicetree Source trees.
//!
//! Turns a merged tree of not-yet-evaluated property values into a tree of
//! plain byte-valued properties: phandle allocation, reference resolution,
//! integer expression evaluation and escape decoding. The `loader` module
//! keeps the bookkeeping of include-file search for a caller that does the
//! reading.

pub mod error;
pub mod escape;
pub mod eval;
pub mod expr;
pub mod loader;
pub mod pathset;
pub mod phandle;
pub mod tree;

use vstd::prelude::*;

verus! {

/// A fully evaluated node: every property holds its final bytes.
#[derive(Debug, Default)]
pub struct Node {
    pub name: String,
    pub properties: Vec<Property>,
    pub children: Vec<Node>,
}

/// A property of a fully evaluated node.
#[derive(Debug, Default)]
pub struct Property {
    pub name: String,
    pub value: Vec<u8>,
}

} // verus!
