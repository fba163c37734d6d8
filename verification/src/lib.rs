//! Finds a maximum clique of an undirected simple graph.
//!
//! A [`graph::Graph`] holds the adjacency lists of its nodes and the largest
//! length that any of them has had. [`solver::solve`] answers small graphs
//! at once and hands every other graph to one of two exact searches:
//! [`solver::backtracking`] tries every set of nodes,
//! [`solver::branch_and_bound`] takes the nodes by their degree and stops
//! where no node that is left can be part of a larger clique. [`io`] holds
//! what a run is told and the format of graph files and results.
//!
//! The contracts speak of a graph as the map from each node to the sequence
//! of its neighbours; [`adjacency`] says what it means for such a map to be
//! simple, to be complete and to hold a clique, and [`order`] in which
//! order the nodes of a graph are listed.

pub mod adjacency;
pub mod graph;
pub mod io;
mod list;
pub mod order;
pub mod solver;
pub mod text;
