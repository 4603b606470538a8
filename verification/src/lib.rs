//! The decisions of a collector that watches one inference server.

pub mod advice_run;
pub mod alert;
pub mod bench_run;
pub mod bench_steps;
pub mod cli;
pub mod cmd;
pub mod collect;
pub mod cost_run;
pub mod cost_setup_laws;
pub mod cost_setup_run;
pub mod cycle;
pub mod db;
pub mod detect;
pub mod http;
pub mod json;
pub mod loadouts;
pub mod nvml;
pub mod probe_run;
pub mod query;
pub mod rollup;
pub mod text;
