//! Latency scanning, speed ranking and DNS publication of edge addresses.
pub mod config;
pub mod daemon;
pub mod dns;
pub mod ip_loader;
pub mod json;
pub mod metric;
pub mod order;
pub mod output;
pub mod random;
pub mod runner;
pub mod scanner;
pub mod speed_tester;
pub mod text;
pub mod types;
pub mod web;
