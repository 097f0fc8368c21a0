//! A compact, allocation-frugal representation of a parsed JSON document:
//! a flat preorder node array paired with a whitespace-free byte buffer,
//! together with structural editing operations that work on that pair
//! directly, without re-parsing or materializing a tree.
//!
//! - [`node`] holds the flat encoding and its well-formedness invariants.
//! - [`lex`] compacts raw text; [`parse`] turns minified bytes into the
//!   flat node array and proves the invariants hold of its output.
//! - [`value`] is the surgical editor: exact-key lookup, insert and delete
//!   on a top-level object, mutating the node array and buffer in
//!   lockstep, plus the child view over the encoding.
//! - [`tree`] materializes a conventional tagged tree and serializes it
//!   back, with the round-trip law relating the two.
//! - [`laws`] states and proves the structural laws of the encoding.

pub mod laws;
pub mod lex;
pub mod locate;
pub mod node;
pub mod parse;
pub mod splice;
pub mod traverse;
pub mod tree;
pub mod value;

pub use node::Node;
pub use splice::push_all_at;
pub use tree::JsonNode;
pub use value::Value;
