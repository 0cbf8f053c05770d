//! Server configuration.
use vstd::prelude::*;
use crate::error::Error;

verus! {

/// The address the server listens on.
#[derive(Clone, Debug)]
pub struct Config {
    pub addr: String,
}

impl Config {
    /// The default configuration: the loopback address on port 6379.
    pub fn new() -> (r: Config)
        ensures
            r.addr@ == "127.0.0.1:6379"@,
    {
        Config { addr: String::from_str("127.0.0.1:6379") }
    }
}

/// The configuration in effect; there is nothing to read yet, so it is
/// always the default one.
pub fn parse_config() -> (r: Result<Config, Error>)
    ensures
        r matches Ok(c) && c.addr@ == "127.0.0.1:6379"@,
{
    Ok(Config::new())
}

} // verus!
