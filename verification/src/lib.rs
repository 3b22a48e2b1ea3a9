//! Origin-indexed aggregation of BGP AS paths mined from MRT routing-table
//! snapshots, for the search of ASN hiding and path divergence.
//!
//! A [`route::Route`] is one RIB entry. Routes whose AS path collapses to the
//! same hop sequence are gathered in an [`as_path::AsPath`]; the AS paths that
//! end at one origin are gathered in an
//! [`origin_as_paths::OriginAsPaths`]; and [`path_data::PathData`] indexes
//! those by origin and merges the partial results of parallel workers.
//! [`parse`] folds the decoded records of one MRT file into such an index,
//! [`search`] reads the finished index, and [`laws`] states what holds
//! between the operations.
//!
//! Every type has a mathematical value, its view, and every function says in
//! its contract what it returns or changes in terms of those values.

pub mod error;
pub mod net;
pub mod communities;
pub mod large_communities;
pub mod dedup;
pub mod route;
pub mod as_path;
pub mod origin_as_paths;
pub mod path_data;
pub mod laws;
pub mod parse;
pub mod search;
pub mod args;
pub mod ribs;
