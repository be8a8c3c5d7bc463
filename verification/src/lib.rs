//! An RDF triple store with a SPARQL engine, verified.

pub mod bytes;
pub mod cache;
pub mod fxmap;
pub mod hypertrie;
pub mod idset;
pub mod inference;
pub mod inference_laws;
pub mod interner;
pub mod order;
pub mod sorted;
pub mod sparql;
pub mod synthetic;
pub mod text;
pub mod wal;
