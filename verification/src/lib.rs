//! Verified core of a set of networking exercises: checksums, packet formats,
//! protocol state machines and message parsers.
use vstd::prelude::*;

pub mod checksum;
pub mod text;
pub mod ping;
pub mod addr;
pub mod stop_and_wait;
pub mod file_transfer;
pub mod ftp_server;
pub mod ftp_client;
pub mod http;
pub mod remote;
pub mod table;
pub mod heartbeat;
pub mod peers;
pub mod smtp;
pub mod blacklist;
pub mod file_server;

verus! {
} // verus!
