//! A peer-to-peer file transfer core: a textual wire codec, a go-back-N
//! reliable connection layer over a pluggable datagram socket, and the
//! server- and client-side state machines that serve and assemble a file.
pub mod auth;
pub mod client;
pub mod config;
pub mod connection;
pub mod decimal;
pub mod parsing;
pub mod protocol;
pub mod roundtrip;
pub mod search;
pub mod server;
pub mod socket;
