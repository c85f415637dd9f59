pub mod client;
pub mod command_laws;
pub mod commands;
pub mod data_types;
pub mod laws;
pub mod server;
pub mod utils;
