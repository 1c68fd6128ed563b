pub mod address;
pub mod config;
pub mod last_sent;
pub mod osc;
pub mod param_map;
pub mod param_types;
pub mod utils;
