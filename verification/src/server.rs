//! The server: its configuration and the decisions of its simulated
//! endpoints.

pub mod config;
pub mod error;
pub mod server;

pub use config::ServerConfig;
pub use error::ServerError;
