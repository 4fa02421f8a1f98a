//! The options that the server is started with.

use vstd::prelude::*;

verus! {

/// An IPv4 address and a port.
#[derive(Clone, Copy, Debug, PartialEq)]
pub struct SocketAddress {
    pub octets: (u8, u8, u8, u8),
    pub port: u16,
}

/// All options.
#[derive(Clone, Debug, PartialEq)]
pub struct Config {
    pub server: ServerCfg,
    pub simulation: SimulationCfg,
    pub world: WorldCfg,
}

/// The listener and what the server tells of itself.
#[derive(Clone, Debug, PartialEq)]
pub struct ServerCfg {
    /// Where the listener is bound.
    pub ip: SocketAddress,
    /// The name that a client is told on joining.
    pub name: String,
    /// The message of the day that a client is told on joining.
    pub motd: String,
    /// How many sessions the roster may hold.
    pub max_players: i8,
}

/// Tick lengths in milliseconds.
#[derive(Clone, Copy, Debug, PartialEq, Eq, Structural)]
pub struct SimulationCfg {
    pub server_tick_rate: u64,
    pub sand_tick_rate: u64,
}

/// Where the world comes from and where it is kept.
#[derive(Clone, Debug, PartialEq)]
pub struct WorldCfg {
    pub gen: WorldGenCfg,
    /// Where the world is saved.
    pub path: String,
    /// Whether the world is saved when the server shuts down.
    pub autosave: bool,
}

/// The origin of the world.
#[derive(Clone, Debug, PartialEq)]
pub enum WorldGenCfg {
    /// A saved world at this path.
    FromFile(String),
    /// A fresh flat map of this size.
    FlatMap { width: i16, height: i16, length: i16 },
}

impl Default for Config {
    /// A server for ten players on `127.0.0.1:25565` with a fresh flat map
    /// of 64 by 32 by 64 cells.
    fn default() -> (r: Self)
        ensures
            r.server.ip.octets == (127u8, 0u8, 0u8, 1u8),
            r.server.ip.port == 25565,
            r.server.name@ == "Qubiq Server!"@,
            r.server.motd@ == "Welcome to server!"@,
            r.server.max_players == 10,
            r.simulation == (SimulationCfg { server_tick_rate: 50, sand_tick_rate: 20 }),
            r.world.gen matches WorldGenCfg::FlatMap { width, height, length } && width == 64
                && height == 32 && length == 64,
            r.world.path@ == "maps/test.cw"@,
            r.world.autosave,
    {
        Config {
            server: ServerCfg {
                ip: SocketAddress { octets: (127, 0, 0, 1), port: 25565 },
                name: "Qubiq Server!".to_owned(),
                motd: "Welcome to server!".to_owned(),
                max_players: 10,
            },
            simulation: SimulationCfg { server_tick_rate: 50, sand_tick_rate: 20 },
            world: WorldCfg {
                gen: WorldGenCfg::FlatMap { width: 64, height: 32, length: 64 },
                path: "maps/test.cw".to_owned(),
                autosave: true,
            },
        }
    }
}

} // verus!
