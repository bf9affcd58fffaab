pub mod client;
pub mod config;
pub mod tasks;
pub mod text;
