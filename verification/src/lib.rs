//! A verified core for a Wake-on-LAN device registry: a JSON-backed list of
//! devices with create/update/delete semantics, and construction of the
//! 102-byte WOL magic packet from a textual MAC address.
//!
//! File and network I/O stay with the caller: every function here maps plain
//! values to plain values, so the registry transitions, the document codec
//! and the packet layout are all verified.
pub mod device;
pub mod json;
pub mod laws;
pub mod store;
pub mod text;
pub mod wol;
