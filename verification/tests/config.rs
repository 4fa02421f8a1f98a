use qubiq::clock::rest;
use qubiq::config::{Config, SimulationCfg, SocketAddress, WorldGenCfg};

#[test]
fn defaults() {
    let config = Config::default();
    assert_eq!(config.server.ip, SocketAddress { octets: (127, 0, 0, 1), port: 25565 });
    assert_eq!(config.server.name, "Qubiq Server!");
    assert_eq!(config.server.motd, "Welcome to server!");
    assert_eq!(config.server.max_players, 10);
    assert_eq!(
        config.simulation,
        SimulationCfg { server_tick_rate: 50, sand_tick_rate: 20 }
    );
    assert_eq!(config.world.gen, WorldGenCfg::FlatMap { width: 64, height: 32, length: 64 });
    assert_eq!(config.world.path, "maps/test.cw");
    assert!(config.world.autosave);
}

#[test]
fn rest_after_a_tick() {
    assert_eq!(rest(50, Some(0)), 50_000_000);
    assert_eq!(rest(50, Some(12_345_678)), 37_654_322);
    assert_eq!(rest(50, Some(49_999_999)), 1);
    assert_eq!(rest(50, Some(50_000_000)), 0);
    assert_eq!(rest(50, Some(u128::MAX)), 0);
    assert_eq!(rest(50, None), 50_000_000);
    assert_eq!(rest(0, Some(0)), 0);
    assert_eq!(rest(0, None), 0);
    assert_eq!(rest(u64::MAX, None), u64::MAX as u128 * 1_000_000);
}
