//! Process configuration.
//!
//! Plain data: validation of timeouts and intervals, argument parsing and
//! the connection options of the store and broker clients belong to the
//! process around the library.

use vstd::prelude::*;

verus! {

/// Which role the process runs.
#[derive(Debug, Clone, Copy, PartialEq, Eq, Structural)]
pub enum Command {
    Server,
    Worker,
}

impl Default for Command {
    /// The server role is the default.
    fn default() -> (r: Command)
        ensures
            r == Command::Server,
    {
        Command::Server
    }
}

/// The knobs of one process: where to listen, how to reach the store and
/// the broker, the namespace prefixes, and the probing policy.
#[derive(Debug, Clone)]
pub struct Opt {
    pub listen: String,
    pub etcd_endpoints: Vec<String>,
    pub etcd_user: Option<String>,
    pub etcd_password: Option<String>,
    pub etcd_prefix: String,
    pub nats_address: String,
    pub nats_user: Option<String>,
    pub nats_password: Option<String>,
    pub nats_prefix: String,
    pub dispatch_interval: u64,
    pub request_timeout: u64,
    pub delete_after_failures: Option<u64>,
    pub command: Option<Command>,
}

} // verus!
