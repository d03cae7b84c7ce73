//! sysrunner, a small init system: its service descriptions, the table of
//! services and their dependency graph, the state machines that start
//! services and bring the system up, and the control protocol.

pub mod cfg;
pub mod cli;
pub mod deps;
pub mod log;
pub mod manager;
pub mod service;
pub mod start;
pub mod startup;
pub mod table;
pub mod text;
