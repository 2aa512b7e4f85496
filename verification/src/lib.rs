//! lessor: a DHCPv4 server library.
//!
//! The core decides; callers do the I/O. Time is always passed in, so the
//! allocation policy and the lease state machine behave deterministically.

pub mod addr;
pub mod text;
pub mod lease;
pub mod scope;
pub mod store;
pub mod message;
pub mod server;
pub mod parse;
pub mod config;
pub mod net;
pub mod netcfg;
pub mod discovery;
pub mod neighbor;
pub mod events;
pub mod health;
pub mod service;
pub mod capture;
pub mod conflict;
pub mod daemon;
pub mod api;
pub mod records;
pub mod dhcp;
pub mod wire;
