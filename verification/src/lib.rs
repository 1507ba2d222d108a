//! Closures over a GraphQL schema: the types reachable from chosen roots, and
//! the fields that a set of query operations uses, each with the schema cut
//! down to what the closure holds.
//!
//! - [`focus`] cuts a schema down to the types that chosen roots reach, and
//!   [`refocus`] shows that focusing twice is focusing once.
//! - [`prune`] cuts a schema down to the types and fields that a query uses;
//!   [`usage`] says what a query uses, [`collect`] computes it, and
//!   [`fixpoint`] shows when pruning twice is pruning once.
//! - [`sort`] sorts the definitions of a schema by kind and name.
//!
//! [`schema`] and [`query`] hold the documents, [`index`] the lookup of names
//! and the edge rules of the type graph, [`reach`] what "transitively" means,
//! and [`graph`] the graph that is searched.

pub mod collect;
pub mod filter;
pub mod fixpoint;
pub mod focus;
pub mod graph;
pub mod index;
pub mod prune;
pub mod query;
pub mod reach;
pub mod refocus;
pub mod schema;
pub mod sort;
pub mod usage;
pub mod used;
pub mod util;
pub mod walk;
