//! Attributed dependency graphs in the dot language of graphviz, and greedy
//! growth of clusters in them.
//!
//! - [`attributes`]: lists of attributes, each key once, in order of arrival.
//! - [`graph`]: nodes, edges and [`graph::DotGraph`], which keeps the graph's
//!   own attributes and two tables from ids and labels to nodes that are
//!   computed when asked for and discarded whenever the graph changes.
//! - [`engine`]: the calls into petgraph, which stores nodes and edges.
//! - [`builder`]: [`builder::DotGraphBuilder`], which builds a graph from
//!   optional parts and then lets a step derive further edges from it.
//! - [`lexer`], [`grammar`], [`dot`]: reading a text in the dot language.
//! - [`render`]: the text that [`graph::DotGraph::write`] gives.
//! - [`cluster`]: scoring a cluster by its dependencies and shared outputs,
//!   and growing one pass by pass.
//! - [`lex_law`], [`grammar_law`], [`round_trip`]: reading the text of a
//!   graph gives the graph back.
//! - [`dot_law`], [`parsed_law`]: what holds of every graph that a text
//!   states.
//! - [`counting`], [`text`]: helpers.

pub mod text;
pub mod attributes;
pub mod counting;
pub mod engine;
pub mod graph;
pub mod builder;
pub mod lexer;
pub mod render;
pub mod dot;
pub mod grammar;
pub mod cluster;
pub mod lex_law;
pub mod grammar_law;
pub mod round_trip;
pub mod dot_law;
pub mod parsed_law;
