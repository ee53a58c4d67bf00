//! A planner for chains of typed conversions.
//!
//! Conversions are the edges of a graph whose nodes are keys. Each edge has a
//! cost, requires a set of variations of its input and provides a set of
//! variations of its output. The planner finds a chain of edges from one key
//! to another by a best-first search that runs from both ends at once, and
//! a conversion has the callables of such a chain called one after the
//! other, planning again without an edge whose callable has failed.
//!
//! - [`variations`], [`edge`] and [`graph`] hold the data: sets of variation
//!   tags, edges, and the edge store with its two indices.
//! - [`model`] says what a search does, step by step, as mathematical
//!   functions; [`plan`] says what makes a chain a plan.
//! - [`state`] and [`search`] are the search itself, proved to follow the
//!   model.
//! - [`order`], [`sound`], [`cheapest`] and [`ending`] prove what holds of
//!   every search: the least state leaves a queue first, a chain that is
//!   found is a plan, one is found whenever there is a plan, a chain that
//!   one direction finds by itself is a cheapest one, and the search ends.
//! - [`registry`] and [`convert`] register conversions and revealers and
//!   steer one conversion through its attempts.

pub mod cheapest;
pub mod convert;
pub mod edge;
pub mod ending;
pub mod graph;
pub mod model;
pub mod order;
pub mod plan;
pub mod registry;
pub mod search;
pub mod sound;
pub mod state;
pub mod variations;
