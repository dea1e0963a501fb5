//! Session bookkeeping for a development-server manager: bounded log
//! buffers, a reclaimable port allocator, the session table with its
//! lifecycle rules, and the message rewrite applied by the stdio bridge.
//!
//! Everything here works on plain values. Process handles, sockets, clocks
//! and transports belong to the embedding program, which reports what it
//! observed and carries out what these functions decide.
//!
//! - [`log_buffer`]: the captured output of one stream, capped in bytes.
//! - [`port_allocator`]: loopback ports, handed out and taken back.
//! - [`session_key`]: the short keys by which sessions are known.
//! - [`server_entry`]: the record of one supervised process.
//! - [`launch`]: what is executed to start a process.
//! - [`manager`]: the session table, the tool operations and the sweeper.
//! - [`consistency`] and [`protocol`]: how table and allocator agree.
//! - [`json`], [`keyed`] and [`response`]: the answers of the tools.
//! - [`proxy`]: the rules of the stdio bridge.

pub mod consistency;
pub mod json;
pub mod keyed;
pub mod launch;
pub mod log_buffer;
pub mod manager;
pub mod port_allocator;
pub mod protocol;
pub mod proxy;
pub mod response;
pub mod server_entry;
pub mod session_key;
