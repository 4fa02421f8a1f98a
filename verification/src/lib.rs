//! Core of a multiplayer server for the Classic voxel-world protocol
//! (protocol version 7): the wire codec, the tagged binary store, the world
//! model, the per-client session state machine and the tick of the server.
//!
//! The library performs no I/O. A session's socket is represented by the
//! bytes that were read from it and the bytes that are to be written to it;
//! the program around the library moves those bytes.

pub mod clock;
pub mod config;
pub mod gzip;
pub mod nbt;
pub mod nbt_laws;
pub mod packets;
pub mod player;
pub mod server;
pub mod server_laws;
pub mod text;
pub mod util;
pub mod world;
pub mod world_file;
