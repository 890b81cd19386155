//! The two values a server is configured with, and what they are when
//! nothing is given.

use vstd::prelude::*;
use crate::connection::{Connection, ConnectionState};

verus! {

/// The TCP port to bind when none is configured.
pub const DEFAULT_PORT: u16 = 8089;

/// The byte budget of a connection when none is configured: 32 GiB.
pub const DEFAULT_MAX_SEND_BYTES: u64 = 0x8_0000_0000;

/// The payload size of every data chunk: 1 MiB.
pub const CHUNK_SIZE: usize = 0x10_0000;

/// The configuration of a server. Once made it is only read: every
/// connection takes its budget from it and none can change it.
#[derive(Clone, Copy, Debug, PartialEq, Eq, Structural)]
pub struct Config {
    /// The TCP port to bind.
    pub port: u16,
    /// The byte budget of each connection.
    pub max_send_bytes: u64,
}

impl Config {
    /// The configuration for the values that were given; each one that was
    /// not is the default.
    pub fn resolve(port: Option<u16>, max_send_bytes: Option<u64>) -> (config: Config)
        ensures
            config.port == match port {
                Some(given) => given,
                None => DEFAULT_PORT,
            },
            config.max_send_bytes == match max_send_bytes {
                Some(given) => given,
                None => DEFAULT_MAX_SEND_BYTES,
            },
    {
        let port: u16 = match port {
            Some(given) => given,
            None => DEFAULT_PORT,
        };
        let max_send_bytes: u64 = match max_send_bytes {
            Some(given) => given,
            None => DEFAULT_MAX_SEND_BYTES,
        };
        Config { port, max_send_bytes }
    }

    /// A fresh connection with this configuration's budget and the standard
    /// chunk size.
    pub fn connection(&self) -> (made: Connection)
        ensures
            made@ == ConnectionState::initial(self.max_send_bytes as nat, CHUNK_SIZE as nat),
    {
        Connection::with_chunks(self.max_send_bytes, CHUNK_SIZE)
    }
}

impl Default for Config {
    fn default() -> (config: Config)
        ensures
            config.port == DEFAULT_PORT,
            config.max_send_bytes == DEFAULT_MAX_SEND_BYTES,
    {
        Config { port: DEFAULT_PORT, max_send_bytes: DEFAULT_MAX_SEND_BYTES }
    }
}

} // verus!
