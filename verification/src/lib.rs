//! Server-side netcode of a multiplayer game: client actions stored per game
//! frame with lag compensation, room and pause handling, world update
//! broadcasting, and the packet queues of client connections.

pub mod actions;
pub mod broadcasting;
pub mod cast_actions;
pub mod framed_updates;
pub mod look_actions;
pub mod net;
pub mod server_network;
pub mod systems;
pub mod walk_actions;
