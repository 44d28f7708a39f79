//! Byte-copy adapters between a TCP-like transport and an HTTP/2 stream, and
//! a pool of upstream HTTP/2 client connections shared by many tunnels.

pub mod io;
pub mod pool;
