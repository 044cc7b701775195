//! The configuration of the server.

use vstd::prelude::*;

verus! {

/// Where the server listens.
#[derive(Debug, Clone)]
pub struct ServerConfig {
    pub bind_address: String,
    pub port: u16,
}

impl ServerConfig {
    /// A server on every address of the machine, at `port`.
    pub fn new(port: u16) -> (config: Self)
        ensures
            config.bind_address@ == "0.0.0.0"@,
            config.port == port,
    {
        ServerConfig { bind_address: "0.0.0.0".to_string(), port }
    }
}

impl Default for ServerConfig {
    /// A server on every address of the machine, at port 8080.
    fn default() -> (config: Self)
        ensures
            config.bind_address@ == "0.0.0.0"@,
            config.port == 8080,
    {
        ServerConfig { bind_address: "0.0.0.0".to_string(), port: 8080 }
    }
}

} // verus!
