//! A minimal HTTP/1.1 static file server library.
//!
//! The library holds the verified core of the server: decoding a raw
//! request buffer into a structured request, dispatching it, rendering
//! directory listings, and encoding chunked responses. The surrounding
//! binary performs the socket and filesystem work and hands plain byte
//! buffers and directory entries in and out.

use vstd::prelude::*;
use vstd::string::StringExecFns;

pub mod dispatch;
pub mod request;
pub mod resolve;
pub mod response;

verus! {

/// Server configuration: the address to bind and the filesystem root
/// that request paths are resolved against.
pub struct Config {
    pub host: String,
    pub root: String,
}

impl Config {
    /// Builds a `Config` from positional command-line arguments:
    /// `args[1]` is the bind address, `args[2]` the filesystem root.
    /// Fails when fewer than two positional arguments are present.
    pub fn new(args: &[String]) -> (r: Result<Config, String>)
        ensures
            r is Ok <==> args@.len() >= 3,
            r is Ok ==> r->Ok_0.host@ == args@[1]@ && r->Ok_0.root@ == args@[2]@,
            r is Err ==> r->Err_0@ == "not enough arguments"@,
    {
        if args.len() < 3 {
            return Err(String::from_str("not enough arguments"));
        }
        Ok(Config { host: args[1].clone(), root: args[2].clone() })
    }
}

/// The server owns its configuration; the connection and listener
/// plumbing around it lives outside the library.
pub struct Server {
    pub config: Config,
}

impl Server {
    /// Wraps a configuration into a server.
    pub fn new(config: Config) -> (s: Server)
        ensures
            s.config == config,
    {
        Server { config }
    }
}

} // verus!
