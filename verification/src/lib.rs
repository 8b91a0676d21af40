//! An embedded triple store: subject–predicate–object facts held under three
//! cyclic rotations, with partial-pattern lookup, multi-hop path queries and
//! variable-bound result sets.

pub mod evaluate;
pub mod graph;
pub mod json;
pub mod laws;
pub mod nested;
pub mod path;
pub mod queries;
pub mod results;
pub mod sparql;
pub mod store_iter;
pub mod triple;
pub mod triple_store;

pub use graph::Graph;
pub use json::JsonError;
pub use queries::Query as DBQuery;
pub use queries::QueryUnit as DBQueryUnit;
pub use queries::QueryUnit as OjiQueryUnit;
pub use results::Result as DBResult;
pub use results::Result as OjiResult;
pub use results::ResultCollection as DBResultCollection;
pub use results::ResultCollection as OjiResultCollection;
pub use results::ResultUnit as DBResultUnit;
pub use results::ResultUnit as OjiResultUnit;
pub use sparql::Query as OjiQuery;
pub use sparql::{QueryBuilder, QueryError};
pub use store_iter::{GraphIterator, GraphRefIterator, TripleStoreIterator, TripleStoreRefIterator};
pub use triple::{rotate, t_order, Double, QueryChain, QueryDouble, QueryTriple, TOrder, Triple};
pub use triple_store::TripleStore;
