//! A relay that lets a local language-tooling client drive a backend process
//! on a remote machine: the client forwards its editor's byte stream over a
//! network connection, and the remote side resolves a workspace descriptor to
//! a command, spawns it, and relays bytes between the connection and the
//! process's standard streams until the process exits.
//!
//! This crate holds the verified core: the workspace descriptor and its
//! resolver, the handshake frame codec, the per-session lifecycle state
//! machine, and the byte-transparent forwarding channels. The unverified
//! shells around it (sockets, process spawning, logging) live outside.

pub mod channels;
pub mod codec;
pub mod config;
pub mod encoding;
pub mod proto;
pub mod relay;
pub mod resolve;
