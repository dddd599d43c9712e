//! A minimal virtual DOM: a tree of element, text and empty nodes, builders
//! for it, a diff engine that turns two trees into an edit script, a patch
//! applier over an in-memory host tree, and a session that keeps the last
//! rendered tree.
use vstd::prelude::*;

pub mod node;
pub mod render;
pub mod patch;
pub mod diff;
pub mod vdom;
pub mod laws;
pub mod minimality;
pub mod validate;
pub mod roundtrip;

verus! {

} // verus!
