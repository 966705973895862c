pub mod error;
pub mod text;
pub mod strmap;
pub mod config;
pub mod manager;
pub mod process;
pub mod api;
pub mod metrics;
pub mod cli;
