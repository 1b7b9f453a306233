//! The settings the server starts with.

use vstd::prelude::*;

verus! {

/// All settings needed to start the server.
#[derive(Debug)]
pub struct ServerConfig {
    pub server: Config,
    pub database: crate::db::Config,
    pub bring: crate::bring::Config,
}

/// Where the server listens.
#[derive(Debug)]
pub struct Config {
    pub host: String,
    pub port: u16,
}

} // verus!
