use vstd::prelude::*;

verus! {

/// An error raised by the request core, with a human-readable message.
#[derive(Debug)]
pub struct RedisError {
    pub msg: String,
}

impl RedisError {
    pub fn new(msg: String) -> (r: RedisError)
        ensures
            r.msg@ == msg@,
    {
        RedisError { msg: msg }
    }
}

/// Errors of the library.
#[derive(Debug)]
pub enum Error {
    /// The peer sent bytes that do not form a request frame.
    Protocol(RedisError),
    /// The executor refused a command.
    Redis(RedisError),
}

} // verus!
