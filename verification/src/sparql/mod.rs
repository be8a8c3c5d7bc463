//! Queries: their algebra, its text form, and its evaluation.

pub use run::{
    execute_count, execute_count_bind, execute_sparql, execute_sparql_bind, execute_sparql_infer,
    execute_update,
};
pub use service::{SparqlQueryParams, UpdateParams};

pub mod algebra;
pub mod algebra_laws;
pub mod bgp;
pub mod bind;
pub mod expr;
pub mod group_laws;
pub mod grouping;
pub mod json;
pub mod json_laws;
pub mod modifiers;
pub mod numbers;
pub mod path_laws;
pub mod paths;
pub mod pattern_laws;
pub mod reader;
pub mod reader_laws;
pub mod run;
pub mod run_laws;
pub mod service;
pub mod solve;
pub mod solve_laws;
pub mod sort_laws;
pub mod sorting;
pub mod sse;
pub mod sse_laws;
pub mod table_laws;
pub mod tables;
pub mod update;
pub mod value_laws;
pub mod values;
