//! Storage: dictionary, permutation indexes and the triple store over them.

use vstd::prelude::*;

pub use dictionary::{Dictionary, TermType};
pub use engine::{max_result_rows, HybridEngine};
pub use executor::{execute_plan, execute_wcoj};
pub use export::{export_ntriples, parse_ntriples, ParsedTerm, ParsedTriple};
pub use permutations::{QueryResult, Term, Var};
pub use planner::{ExecutionPlan, GraphPattern, PatternTerm, TriplePattern};
pub use query::TripleStore;
pub use rows::RowBlock;
pub use turtle::parse_turtle_str;

pub mod csr;
pub mod dictionary;
pub mod dump_laws;
pub mod engine;
pub mod estimate_laws;
pub mod executor;
pub mod export;
pub mod index;
pub mod join_laws;
pub mod permutations;
pub mod planner;
pub mod query;
pub mod relation;
pub mod rows;
pub mod snapshot;
pub mod stats;
pub mod store_laws;
pub mod turtle;
pub mod turtle_laws;
pub mod turtle_terms;
pub mod turtle_text_laws;
pub mod turtle_tree_laws;

verus! {

/// The identifier that stands for "unbound" in result rows. Dictionary
/// identifiers are always smaller.
pub const NULL_ID: u32 = u32::MAX;

} // verus!
