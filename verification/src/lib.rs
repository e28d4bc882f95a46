//! Distributed queries over datasets of content-addressed shards.
//!
//! A [`Query`] is evaluated over each shard of a dataset on its own ([`Query::map_shard`], which
//! gives a [`Partial`]), wherever the shard is. The partial results are merged ([`combine::reduce`])
//! and finalised ([`Partial::finalize`]). [`algebra`] proves that neither the number of shards nor
//! the order in which their results arrive changes the answer.
//!
//! - [`dataset`]: rows, shards and their bytes, ranges of columns, names of datasets.
//! - [`query`], [`sql`]: queries, their evaluation over rows, and their language.
//! - [`combine`], [`algebra`], [`means`]: accumulators, partial results, and their laws.
//! - [`order`], [`sort`]: the order and the number of result rows.
//! - [`join`]: equi-joins, at once and by buckets.
//! - [`plan`]: which host gets which shard, and which shards are left out.
//! - [`engine`], [`quorum`]: whom to ask next, when to give up, which copies agree.
//! - [`mesh`], [`caps`], [`catalog`], [`report`]: requests and replies, capabilities, the list of
//!   datasets, and the command line.
//! - [`json`], [`table`], [`text`], [`decimal`], [`float`], [`whole`], [`natural`], [`digest`]: values,
//!   maps, strings and numbers.
//!
//! What the parts promise as a whole is stated and proved on its own:
//!
//! - [`conditions`], [`grouping`]: which rows meet a condition, what groups and their outputs are.
//! - [`writing`], [`grammar`]: a query is read back from its text, and only queries are read.
//! - [`pairing`]: which rows a join pairs, and what a pair becomes.
//! - [`ranges`]: what ranges are and rule out, and where shards go.
//! - [`running`]: whom a run believes, what it counts, and when it is refused.
//! - [`numbers`], [`lines`], [`edges`]: numbers in texts, the lines of shards, names and messages.

pub mod algebra;
pub mod caps;
pub mod catalog;
pub mod combine;
pub mod conditions;
pub mod dataset;
pub mod decimal;
pub mod digest;
pub mod edges;
pub mod engine;
pub mod float;
pub mod grammar;
pub mod grouping;
pub mod join;
pub mod json;
pub mod lines;
pub mod means;
pub mod mesh;
pub mod natural;
pub mod numbers;
pub mod order;
pub mod pairing;
pub mod plan;
pub mod query;
pub mod quorum;
pub mod ranges;
pub mod report;
pub mod running;
pub mod sort;
pub mod sql;
pub mod table;
pub mod text;
pub mod whole;
pub mod writing;

pub use catalog::Catalog;
pub use combine::{Accum, GroupResult, Partial};
pub use dataset::{Dataset, Row, Shard};
pub use engine::{MapError, RunConfig, RunReport};
pub use join::{distributed_join, hash_join, JoinKeys};
pub use query::{Agg, CmpOp, OrderDir, OrderKey, Predicate, Query};
