//! Binary and expression metrics for Grafana, computed from Graphite series.
//!
//! The library holds the rules of the service: how a configuration is resolved, which series a
//! dashboard request needs, what Graphite is asked for, and how its answer becomes data frames.
//! Reading files, talking HTTP and (de)serialising messages are left to the program around it.

pub mod answer;
pub mod clock;
pub mod config;
pub mod dict;
pub mod expression;
pub mod float;
pub mod frame;
pub mod grafana;
pub mod graphite;
pub mod metric;
pub mod order;
pub mod query;
pub mod service;
pub mod table;
pub mod template;
pub mod text;
