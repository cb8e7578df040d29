//! A typed engine for dataflow pipelines.
//!
//! A pipeline is described by its nodes: each names a component, gives it a
//! configuration and either a seed or the nodes whose outputs it takes. The
//! engine reads the description, builds a graph of it whose types fit and
//! whose dependencies run in no circle, runs the nodes layer by layer, and
//! hands back what each node produced. Results can be kept in a cache and
//! found again: by what was run, or by the id of the request.
//!
//! - [`datatype`], [`data`], [`json`]: types, values and documents
//! - [`component`], [`components`]: what a node does, and the registry
//! - [`dagir`]: the description of a graph, read and checked for its shape
//! - [`graph`]: circles and layers
//! - [`dag`]: building and running a graph
//! - [`cache`], [`history`], [`codec`], [`clock`]: the result cache and the
//!   records of the history log
//! - [`fingerprint`], [`canonical`], [`written`]: what is hashed, and in
//!   what form
//! - [`results`], [`text`]: result maps and strings

pub mod cache;
pub mod canonical;
pub mod clock;
pub mod codec;
pub mod component;
pub mod components;
pub mod dag;
pub mod dagir;
pub mod data;
pub mod datatype;
pub mod fingerprint;
pub mod graph;
pub mod history;
pub mod json;
pub mod results;
pub mod text;
pub mod written;
