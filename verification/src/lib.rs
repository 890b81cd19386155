//! The decision core of a throughput-testing server.
//!
//! A driver accepts TCP connections and, for each one, feeds I/O results to a
//! [`connection::Connection`], which answers with the next thing to do: read
//! the request, write the response headers, write the parts of a data chunk,
//! write the terminal chunk, close the socket, or stop. Nothing here performs
//! I/O; every function is a verified function of plain values.

pub mod config;
pub mod connection;
pub mod framing;
pub mod hex;
pub mod interleaving;
pub mod listener;
pub mod trace;
