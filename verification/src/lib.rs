//! hive runs agents in containers of their own.
//!
//! This library holds what hive decides: what an agent's spec says ([`agent`], [`label`]), what
//! to run for it ([`launch`]), which MCP servers to attach to its sessions ([`session`]) and with
//! which credentials ([`headers`]). It does no I/O.
pub mod agent;
pub mod headers;
pub mod json;
pub mod label;
pub mod launch;
pub mod session;
pub mod text;
