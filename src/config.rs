//! Service configuration as plain values.
use vstd::prelude::*;

verus! {

/// Where the service listens.
#[derive(Debug)]
pub struct ServerConfig {
    pub host: String,
    pub port: u16,
}

/// Filter for structured logs: one of `trace`, `debug`, `info`, `warn`, `error`.
#[derive(Debug)]
pub struct LogConfig {
    pub level: String,
}

#[derive(Debug)]
pub struct Config {
    pub server: ServerConfig,
    pub log: LogConfig,
}

} // verus!
