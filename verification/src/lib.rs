//! Verified core of a tool that pings the servers of a WireGuard VPN provider,
//! ranks them by round-trip time and writes one WireGuard configuration per server.
mod sums;
mod text;
pub mod util;
pub mod wireguard;
pub mod archive;
pub mod asn;
pub mod context;
pub mod host;
pub mod ping;
pub mod pinger;

pub use text::{chars_of, string_from_chars};
