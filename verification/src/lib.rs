//! Messages over UDP between a server and its clients.
//!
//! `packet` holds the datagram format and `bytes` the integer codec under it.
//! `connection`, `server` and `client` hold the state of each side and decide, for
//! each datagram received and each passing of time, what changes and what is sent;
//! the sockets and threads that carry those datagrams are the caller's.
pub mod bytes;
mod clock;
pub mod client;
pub mod connection;
pub mod ioerror;
pub mod packet;
pub mod server;
