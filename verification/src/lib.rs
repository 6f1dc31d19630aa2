//! relate: linting Cypher and gram, running parameterized Cypher statements,
//! and rendering gram graphs, with the library's behaviour proved by Verus.
use vstd::prelude::*;

pub mod text;
pub mod json;
pub mod syntax;
pub mod cli;
pub mod diagnostics;
pub mod lint;
pub mod query;
pub mod apply;
pub mod listing;
pub mod plan;
pub mod graph;
pub mod render;
pub mod external;

verus! {

} // verus!
