//! Verified core of a multi-protocol forwarding proxy.
//!
//! The crate holds the pure logic of the proxy: the typed configuration
//! model and its validation, the rule table that classifies a target host
//! to a named egress, the name -> declaration managers, the HTTP and
//! SOCKS5 wire codecs, and the per-cell bridge decisions that splice an
//! inbound protocol onto an outbound one.  All networking lives outside
//! the crate and hands these functions plain bytes and strings.

pub mod bridge;
pub mod config;
pub mod dns;
pub mod host;
pub mod http_head;
pub mod manager;
pub mod protocol;
pub mod route;
pub mod service;
pub mod socks5;
pub mod text;
