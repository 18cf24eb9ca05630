//! Verified core of the Topo Rust runtime.
pub mod text;
pub mod strmap;
pub mod config_model;
pub mod toml_emit;
pub mod config;
pub mod schema;
pub mod graph;
pub mod app;
pub mod readback;
pub mod check;
pub mod adaptive;
pub mod jit;
pub mod observe;
pub mod parallel;
pub mod pipeline;
pub mod laws;
pub mod arena;
