use qubiq::config::{Config, WorldGenCfg};
use qubiq::player::{Outcome, Player, TickError};
use qubiq::server::{Admission, Queue, Server};
use qubiq::util::CodecError;
use qubiq::world::{World, WorldError};

fn pad(text: &str) -> Vec<u8> {
    let mut bytes = text.as_bytes().to_vec();
    bytes.resize(64, 0x20);
    bytes
}

fn identification(name: &str) -> Vec<u8> {
    let mut frame = vec![0x00, 0x07];
    frame.extend(pad(name));
    frame.extend(pad("key"));
    frame.push(0x00);
    frame
}

fn server(max_players: i8) -> Server {
    let mut config = Config::default();
    config.server.max_players = max_players;
    config.world.gen = WorldGenCfg::FlatMap { width: 16, height: 16, length: 16 };
    Server::new(config, &[]).unwrap()
}

fn let_in(server: &mut Server) -> i8 {
    match server.accept() {
        Admission::Admitted(pid) => pid,
        Admission::Refused(_) => panic!("refused"),
    }
}

fn join(server: &mut Server, name: &str) -> i8 {
    let pid = let_in(server);
    let at = server.players.len() - 1;
    server.players[at].stream.inbox = identification(name);
    pid
}

fn clear(server: &mut Server) {
    for player in server.players.iter_mut() {
        player.stream.outbox.clear();
    }
}

fn frames(mut bytes: &[u8]) -> Vec<Vec<u8>> {
    let mut list = Vec::new();
    while !bytes.is_empty() {
        let len = match bytes[0] {
            0x00 => 131,
            0x01 | 0x02 => 1,
            0x03 => 1028,
            0x04 => 7,
            0x06 => 8,
            0x07 => 74,
            0x08 => 10,
            0x0c => 2,
            0x0d => 66,
            0x0e => 65,
            other => panic!("unexpected opcode {}", other),
        };
        list.push(bytes[..len].to_vec());
        bytes = &bytes[len..];
    }
    list
}

fn of_kind(bytes: &[u8], opcode: u8) -> Vec<Vec<u8>> {
    frames(bytes).into_iter().filter(|f| f[0] == opcode).collect()
}

fn spawn_frame(pid: i8, name: &str, position: (i16, i16, i16)) -> Vec<u8> {
    let mut frame = vec![0x07, pid as u8];
    frame.extend(pad(name));
    frame.extend(position.0.to_be_bytes());
    frame.extend(position.1.to_be_bytes());
    frame.extend(position.2.to_be_bytes());
    frame.extend([0, 0]);
    frame
}

fn message_frame(text: &str) -> Vec<u8> {
    let mut frame = vec![0x0d, 0x00];
    frame.extend(pad(text));
    frame
}

fn pids(server: &Server) -> Vec<i8> {
    server.players.iter().map(|p| p.pid).collect()
}

#[test]
fn server_starts_empty_with_a_flat_map() {
    let server = Server::new(Config::default(), &[]).unwrap();
    assert!(server.players.is_empty());
    assert!(server.queue.is_empty());
    assert_eq!(server.max_players, 10);
    assert_eq!(server.world, World::new(64, 32, 64));
    assert_eq!(server.config, Config::default());
}

#[test]
fn server_starts_from_a_saved_world() {
    let mut world = World::new(8, 4, 8);
    world.set_block(1, 2, 3, 0x11);
    let file = world.save_world().unwrap();
    let mut config = Config::default();
    config.world.gen = WorldGenCfg::FromFile("maps/test.cw".to_string());
    let server = Server::new(config.clone(), &file).unwrap();
    assert_eq!(server.world, world);
    assert_eq!(Server::new(config, b"junk").err(), Some(WorldError::Decompression));
}

#[test]
fn server_refuses_sizes_that_make_no_world() {
    let mut config = Config::default();
    config.world.gen = WorldGenCfg::FlatMap { width: 0, height: 32, length: 64 };
    assert_eq!(Server::new(config.clone(), &[]).err(), Some(WorldError::Malformed));
    config.world.gen = WorldGenCfg::FlatMap { width: 4096, height: 4096, length: 4096 };
    assert_eq!(Server::new(config, &[]).err(), Some(WorldError::Malformed));
}

#[test]
fn roster_accepts_up_to_its_limit() {
    let mut server = server(3);
    assert_eq!(server.accept(), Admission::Admitted(0));
    assert_eq!(server.accept(), Admission::Admitted(1));
    assert_eq!(server.accept(), Admission::Admitted(2));
    assert_eq!(server.players.len(), 3);
    let mut kick = vec![0x0e];
    kick.extend(pad("Server is full!"));
    assert_eq!(server.accept(), Admission::Refused(kick));
    assert_eq!(server.players.len(), 3);
    assert_eq!(pids(&server), vec![0, 1, 2]);
    assert_eq!(server.players[2], Player::new(qubiq::player::Stream::new(), 2));
}

#[test]
fn roster_without_room_refuses_everybody() {
    for max in [0i8, -1, i8::MIN] {
        let mut server = server(max);
        assert!(matches!(server.accept(), Admission::Refused(_)));
        assert!(server.players.is_empty());
    }
}

#[test]
fn largest_roster_takes_127_sessions() {
    let mut server = server(127);
    for expected in 0..127 {
        assert_eq!(server.accept(), Admission::Admitted(expected));
    }
    assert!(matches!(server.accept(), Admission::Refused(_)));
    let mut seen = pids(&server);
    seen.sort();
    seen.dedup();
    assert_eq!(seen.len(), 127);
    assert!(seen.iter().all(|pid| *pid >= 0));
}

#[test]
fn least_free_player_id_is_taken() {
    let mut server = server(10);
    for _ in 0..4 {
        let_in(&mut server);
    }
    server.players[1].active = false;
    server.players[2].active = false;
    server.prune();
    assert_eq!(pids(&server), vec![0, 3]);
    assert_eq!(server.accept(), Admission::Admitted(1));
    assert_eq!(server.accept(), Admission::Admitted(2));
    assert_eq!(server.accept(), Admission::Admitted(4));
    assert_eq!(pids(&server), vec![0, 3, 1, 2, 4]);
}

#[test]
fn prune_keeps_the_order() {
    let mut server = server(10);
    for _ in 0..5 {
        let_in(&mut server);
    }
    server.players[0].active = false;
    server.players[3].active = false;
    server.prune();
    assert_eq!(pids(&server), vec![1, 2, 4]);
    server.prune();
    assert_eq!(pids(&server), vec![1, 2, 4]);
}

#[test]
fn two_clients_join_in_one_tick() {
    let mut server = server(10);
    let a = join(&mut server, "Alice");
    let b = join(&mut server, "Bob");
    let errors = server.tick();
    assert_eq!(errors, vec![None, None]);
    assert!(server.queue.is_empty());
    assert_eq!(server.players.len(), 2);
    let center = (256, 256 + 51, 256);

    let to_a = &server.players[0].stream.outbox;
    let spawns_a = of_kind(to_a, 0x07);
    assert_eq!(spawns_a[0], spawn_frame(-1, "Alice", center));
    assert!(spawns_a.contains(&spawn_frame(b, "Bob", center)));
    assert!(spawns_a.contains(&spawn_frame(b, "Bob", (0, 0, 0))));
    assert_eq!(spawns_a.len(), 3);

    let to_b = &server.players[1].stream.outbox;
    let spawns_b = of_kind(to_b, 0x07);
    assert_eq!(spawns_b[0], spawn_frame(-1, "Bob", center));
    assert!(spawns_b.contains(&spawn_frame(a, "Alice", center)));
    assert!(spawns_b.contains(&spawn_frame(a, "Alice", (0, 0, 0))));
    assert_eq!(spawns_b.len(), 3);

    let chat_a = of_kind(to_a, 0x0d);
    assert_eq!(
        chat_a,
        vec![message_frame("&eBob joined the game"), message_frame("&eAlice joined the game")]
    );
    assert_eq!(of_kind(to_b, 0x0d), chat_a);

    assert_eq!(of_kind(to_a, 0x08), vec![vec![0x08, b as u8, 0, 0, 0, 0, 0, 0, 0, 0]]);
    assert_eq!(of_kind(to_b, 0x08), vec![vec![0x08, a as u8, 0, 0, 0, 0, 0, 0, 0, 0]]);
    assert_eq!(*frames(to_a).last().unwrap(), vec![0x08, b as u8, 0, 0, 0, 0, 0, 0, 0, 0]);
}

#[test]
fn queue_is_emptied_last_in_first_out() {
    let mut server = server(10);
    join(&mut server, "Alice");
    join(&mut server, "Bob");
    server.tick();
    clear(&mut server);
    let mut input = vec![0x0d, 0x00];
    input.extend(pad("first"));
    input.extend([0x05, 0, 1, 0, 2, 0, 3, 1, 0x2a]);
    input.extend([0x0d, 0x00]);
    input.extend(pad("second"));
    server.players[0].stream.inbox = input;
    let errors = server.tick();
    assert_eq!(errors, vec![None, None]);
    assert!(server.queue.is_empty());
    assert_eq!(server.world.get_block(1, 2, 3), 0x2a);
    for player in server.players.iter() {
        let got = frames(&player.stream.outbox);
        assert_eq!(got[0], message_frame("Alice: second"));
        assert_eq!(got[1], vec![0x06, 0, 1, 0, 2, 0, 3, 0x2a]);
        assert_eq!(got[2], message_frame("Alice: first"));
        assert_eq!(got.len(), 4);
        assert_eq!(got[3][0], 0x08);
    }
}

#[test]
fn set_block_reaches_every_client() {
    let mut server = server(10);
    join(&mut server, "Alice");
    join(&mut server, "Bob");
    join(&mut server, "Carol");
    server.tick();
    clear(&mut server);
    server.players[0].stream.inbox = vec![0x05, 0x00, 0x05, 0x00, 0x0a, 0x00, 0x07, 0x01, 0x04];
    server.tick();
    assert_eq!(server.world.get_block(5, 10, 7), 0x04);
    for player in server.players.iter() {
        assert_eq!(
            of_kind(&player.stream.outbox, 0x06),
            vec![vec![0x06, 0x00, 0x05, 0x00, 0x0a, 0x00, 0x07, 0x04]]
        );
    }
}

#[test]
fn chat_reaches_every_client_sanitized() {
    let mut server = server(10);
    join(&mut server, "Alice");
    join(&mut server, "Bob");
    server.tick();
    clear(&mut server);
    let mut input = vec![0x0d, 0x00];
    input.extend(pad("Hi %red%end&"));
    server.players[0].stream.inbox = input;
    server.tick();
    let to_b = of_kind(&server.players[1].stream.outbox, 0x0d);
    assert_eq!(to_b.len(), 1);
    assert_eq!(to_b[0][1], 0x00);
    let text = String::from_utf8(to_b[0][2..].to_vec()).unwrap();
    assert!(text.starts_with("Alice: Hi &red&end"));
    assert_eq!(text.trim_end(), "Alice: Hi &red&end");
    assert_eq!(of_kind(&server.players[0].stream.outbox, 0x0d), to_b);
}

#[test]
fn positions_reach_everybody_else() {
    let mut server = server(10);
    join(&mut server, "Alice");
    join(&mut server, "Bob");
    join(&mut server, "Carol");
    server.tick();
    clear(&mut server);
    server.players[1].stream.inbox = vec![0x08, 0xff, 0, 1, 0, 2, 0, 3, 4, 5];
    server.tick();
    let bob = vec![0x08, 1, 0, 1, 0, 2, 0, 3, 4, 5];
    let alice = vec![0x08, 0, 0, 0, 0, 0, 0, 0, 0, 0];
    let carol = vec![0x08, 2, 0, 0, 0, 0, 0, 0, 0, 0];
    assert_eq!(frames(&server.players[0].stream.outbox), vec![bob.clone(), carol.clone()]);
    assert_eq!(frames(&server.players[1].stream.outbox), vec![alice.clone(), carol]);
    assert_eq!(frames(&server.players[2].stream.outbox), vec![alice, bob]);
}

#[test]
fn lost_client_is_despawned_and_leaves_with_the_next_tick() {
    let mut server = server(10);
    let a = join(&mut server, "Alice");
    join(&mut server, "Bob");
    join(&mut server, "Carol");
    server.tick();
    clear(&mut server);
    server.players[0].stream.ping = Outcome::Failed;
    server.players[0].stream.inbox = vec![0x08, 0xff, 0, 1, 0, 2, 0, 3, 4, 5];
    let errors = server.tick();
    assert_eq!(errors, vec![None, None, None]);
    assert!(!server.players[0].active);
    assert_eq!(server.players[0].position, (0, 0, 0));
    assert!(server.queue.is_empty());
    for player in server.players[1..].iter() {
        let got = frames(&player.stream.outbox);
        assert_eq!(got[0], message_frame("&eAlice left the game"));
        assert_eq!(got[1], vec![0x0c, a as u8]);
        assert_eq!(of_kind(&player.stream.outbox, 0x0c).len(), 1);
    }
    clear(&mut server);
    server.tick();
    assert_eq!(pids(&server), vec![1, 2]);
    for player in server.players.iter() {
        assert!(of_kind(&player.stream.outbox, 0x0c).is_empty());
        assert!(of_kind(&player.stream.outbox, 0x0d).is_empty());
        assert_eq!(frames(&player.stream.outbox).len(), 1);
    }
    assert_eq!(server.accept(), Admission::Admitted(0));
}

#[test]
fn session_with_an_error_is_given_up() {
    let mut server = server(10);
    join(&mut server, "Alice");
    join(&mut server, "Bob");
    server.tick();
    clear(&mut server);
    server.players[1].stream.inbox = vec![0x08, 0xff, 0, 1];
    let errors = server.tick();
    assert_eq!(errors, vec![None, Some(TickError::Packet(CodecError::UnexpectedEof))]);
    assert!(server.players[0].active);
    assert!(!server.players[1].active);
    assert!(of_kind(&server.players[0].stream.outbox, 0x0c).is_empty());
    let errors = server.tick();
    assert_eq!(errors, vec![None]);
    assert_eq!(pids(&server), vec![0]);
}

#[test]
fn kicked_client_leaves_with_the_next_tick() {
    let mut server = server(10);
    let_in(&mut server);
    let mut frame = vec![0x00, 0x06];
    frame.extend(pad("Old"));
    frame.extend(pad("key"));
    frame.push(0);
    server.players[0].stream.inbox = frame;
    assert_eq!(server.tick(), vec![None]);
    assert_eq!(server.players.len(), 1);
    assert!(!server.players[0].active);
    assert_eq!(of_kind(&server.players[0].stream.outbox, 0x0e).len(), 1);
    assert_eq!(server.tick(), Vec::<Option<TickError>>::new());
    assert!(server.players.is_empty());
}

#[test]
fn invariants_hold_tick_after_tick() {
    let mut server = server(4);
    for round in 0..12usize {
        for _ in 0..2 {
            if let Admission::Admitted(_) = server.accept() {
                let at = server.players.len() - 1;
                server.players[at].stream.inbox = identification(&format!("p{}", round));
            }
        }
        if round % 3 == 1 && !server.players.is_empty() {
            server.players[0].stream.ping = Outcome::Failed;
        }
        if round % 4 == 2 && server.players.len() > 1 {
            server.players[1].stream.read = Outcome::Failed;
        }
        server.tick();
        assert!(server.queue.is_empty());
        assert!(server.players.len() <= 4);
        let mut seen = pids(&server);
        assert!(seen.iter().all(|pid| *pid >= 0));
        seen.sort();
        seen.dedup();
        assert_eq!(seen.len(), server.players.len());
        assert_eq!(server.world.blocks.len(), 16 * 16 * 16);
        clear(&mut server);
    }
}

#[test]
fn deliver_one_effect() {
    let mut server = server(10);
    let_in(&mut server);
    let_in(&mut server);
    server.deliver(Queue::DespawnPlayer(9));
    server.deliver(Queue::ChatMessage("hi".to_string()));
    server.deliver(Queue::SetBlock { coords: (1, 2, 3), block_type: 4 });
    server.deliver(Queue::SpawnPlayer(77));
    for player in server.players.iter() {
        assert_eq!(
            frames(&player.stream.outbox),
            vec![vec![0x0c, 9], message_frame("hi"), vec![0x06, 0, 1, 0, 2, 0, 3, 4]]
        );
    }
    clear(&mut server);
    server.players[1].position = (5, 6, 7);
    server.deliver(Queue::SpawnPlayer(0));
    assert_eq!(
        frames(&server.players[0].stream.outbox),
        vec![spawn_frame(1, "Unknown", (5, 6, 7))]
    );
    assert_eq!(
        frames(&server.players[1].stream.outbox),
        vec![spawn_frame(0, "Unknown", (256, 307, 256))]
    );
}

#[test]
fn shutdown_kicks_everybody() {
    let mut server = server(10);
    let_in(&mut server);
    let_in(&mut server);
    server.kick_players();
    let mut kick = vec![0x0e];
    kick.extend(pad("Server closed!"));
    for player in server.players.iter() {
        assert_eq!(player.stream.outbox, kick);
        assert!(player.active);
    }
}
