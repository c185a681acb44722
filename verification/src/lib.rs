//! Protocol core of a small multiplayer tile-world game.
//!
//! Clients and a server exchange UDP datagrams framed as a one-byte tag
//! followed by a payload.  This crate holds the verified heart of that
//! protocol: the wire codec for positions, player rosters, chunks and world
//! snapshots; the server's slot/roster state machine with its dispatch
//! handlers and liveness sweep; and the client session state machine.
//! Socket I/O stays outside; every function here works on plain values.

pub mod client;
pub mod codec;
pub mod device;
pub mod grid;
pub mod net;
pub mod server;
pub mod ui;
pub mod window;
pub mod wire;
pub mod world;
