use qubiq::config::Config;
use qubiq::player::{lift, Outcome, Player, Stream, TickError};
use qubiq::server::Queue;
use qubiq::util::CodecError;
use qubiq::world::World;
use std::collections::VecDeque;

fn pad(text: &str) -> Vec<u8> {
    let mut bytes = text.as_bytes().to_vec();
    bytes.resize(64, 0x20);
    bytes
}

fn identification(version: u8, name: &str) -> Vec<u8> {
    let mut frame = vec![0x00, version];
    frame.extend(pad(name));
    frame.extend(pad("key"));
    frame.push(0x00);
    frame
}

fn chat(text: &str) -> Vec<u8> {
    let mut frame = vec![0x0d, 0x00];
    frame.extend(pad(text));
    frame
}

fn fresh(pid: i8) -> Player {
    Player::new(Stream::new(), pid)
}

fn joined(pid: i8, name: &str, world: &mut World) -> Player {
    let mut player = fresh(pid);
    player.stream.inbox = identification(7, name);
    let mut queue = VecDeque::new();
    assert_eq!(player.tick(&Config::default(), &mut queue, world), Ok(()));
    player.stream.outbox.clear();
    player
}

fn gunzip(bytes: &[u8]) -> Vec<u8> {
    let mut decoder = flate2::bufread::GzDecoder::new(bytes);
    let mut data = Vec::new();
    std::io::Read::read_to_end(&mut decoder, &mut data).unwrap();
    data
}

#[test]
fn new_session_waits_for_identification() {
    let player = fresh(-1);
    assert_eq!(player.pid, -1);
    assert!(player.active);
    assert!(!player.authed);
    assert_eq!(player.name, "Unknown");
    assert_eq!(player.position, (0, 0, 0));
    assert_eq!((player.yaw, player.pitch, player.operator), (0, 0, 0));
    assert!(player.stream.inbox.is_empty());
    assert!(player.stream.outbox.is_empty());
}

#[test]
fn handshake() {
    let config = Config::default();
    let mut world = World::new(64, 32, 64);
    let mut queue = VecDeque::new();
    let mut player = fresh(3);
    player.stream.inbox = identification(7, "Alice");
    assert_eq!(player.tick(&config, &mut queue, &mut world), Ok(()));
    assert!(player.active);
    assert!(player.authed);
    assert_eq!(player.name, "Alice");
    assert_eq!(player.operator, 0x64);
    assert!(player.stream.inbox.is_empty());

    let out = &player.stream.outbox;
    let mut info = vec![0x00, 0x07];
    info.extend(pad("Qubiq Server!"));
    info.extend(pad("Welcome to server!"));
    info.push(0x64);
    assert_eq!(&out[..131], &info[..]);
    assert_eq!(out[131], 0x02);
    let mut at = 132;
    let mut gz = Vec::new();
    let mut chunks = 0;
    while out[at] == 0x03 {
        let len = i16::from_be_bytes([out[at + 1], out[at + 2]]) as usize;
        gz.extend(&out[at + 3..at + 3 + len]);
        at += 1028;
        chunks += 1;
    }
    assert!(chunks >= 1);
    let level = gunzip(&gz);
    assert_eq!(&level[..4], &(64i32 * 32 * 64).to_be_bytes());
    assert_eq!(&level[4..], &world.blocks[..]);
    assert_eq!(&out[at..at + 7], &[0x04, 0, 64, 0, 32, 0, 64]);
    at += 7;
    let mut spawn = vec![0x07, 0xff];
    spawn.extend(pad("Alice"));
    spawn.extend([0x04, 0x00, 0x02, 0x33, 0x04, 0x00, 0, 0]);
    assert_eq!(&out[at..], &spawn[..]);

    assert_eq!(
        queue,
        VecDeque::from(vec![
            Queue::SpawnPlayer(3),
            Queue::ChatMessage("&eAlice joined the game".to_string()),
        ])
    );
}

#[test]
fn other_protocol_versions_are_kicked() {
    for version in [6u8, 8, 0, 255] {
        let config = Config::default();
        let mut world = World::new(4, 4, 4);
        let mut queue = VecDeque::new();
        let mut player = fresh(0);
        let mut input = identification(version, "Bob");
        input.extend(chat("ignored"));
        player.stream.inbox = input;
        assert_eq!(player.tick(&config, &mut queue, &mut world), Ok(()));
        assert!(!player.active);
        assert!(!player.authed);
        assert_eq!(player.name, "Unknown");
        let mut kick = vec![0x0e];
        kick.extend(pad(&format!(
            "Protocol version mismatch! Your: {} - Server: 7",
            version
        )));
        assert_eq!(player.stream.outbox, kick);
        assert!(queue.is_empty());
        assert!(player.stream.inbox.is_empty());
    }
}

#[test]
fn version_seven_proceeds() {
    let mut world = World::new(4, 4, 4);
    let player = joined(1, "Bob", &mut world);
    assert!(player.active && player.authed);
}

#[test]
fn name_is_trimmed_at_its_end_only() {
    let mut world = World::new(4, 4, 4);
    let player = joined(1, "  Al ice \t", &mut world);
    assert_eq!(player.name, "  Al ice");
}

#[test]
fn something_else_before_identification_is_kicked() {
    let config = Config::default();
    let mut world = World::new(4, 4, 4);
    let mut queue = VecDeque::new();
    let mut player = fresh(0);
    player.stream.inbox = chat("hello");
    assert_eq!(player.tick(&config, &mut queue, &mut world), Ok(()));
    assert!(!player.active);
    assert!(!player.authed);
    let mut kick = vec![0x0e];
    kick.extend(pad("Identification expected!"));
    assert_eq!(player.stream.outbox, kick);
    assert!(queue.is_empty());
}

#[test]
fn incomplete_identification_is_an_error() {
    let config = Config::default();
    let mut world = World::new(4, 4, 4);
    let mut queue = VecDeque::new();
    let mut player = fresh(0);
    player.stream.inbox = identification(7, "Alice")[..100].to_vec();
    assert_eq!(
        player.tick(&config, &mut queue, &mut world),
        Err(TickError::Packet(CodecError::UnexpectedEof))
    );
    assert!(!player.authed);
    assert!(player.active);
    assert!(player.stream.outbox.is_empty());
    assert!(player.stream.inbox.is_empty());
}

#[test]
fn no_input_changes_nothing() {
    let config = Config::default();
    let mut world = World::new(4, 4, 4);
    let mut queue = VecDeque::new();
    let mut player = fresh(0);
    assert_eq!(player.tick(&config, &mut queue, &mut world), Ok(()));
    assert_eq!(player, fresh(0));
    let mut player = joined(0, "A", &mut world);
    let before = joined(0, "A", &mut world);
    assert_eq!(player.tick(&config, &mut queue, &mut world), Ok(()));
    assert_eq!(player, before);
    assert!(queue.is_empty());
}

#[test]
fn failed_read_gives_the_session_up() {
    let config = Config::default();
    let mut world = World::new(4, 4, 4);
    let mut queue = VecDeque::new();
    let mut player = fresh(0);
    player.stream.read = Outcome::Failed;
    assert_eq!(player.tick(&config, &mut queue, &mut world), Ok(()));
    assert!(!player.active);
    let mut player = joined(0, "A", &mut world);
    player.stream.read = Outcome::Failed;
    player.stream.inbox = vec![0x08, 0xff, 0, 1, 0, 2, 0, 3, 4, 5];
    assert_eq!(player.tick(&config, &mut queue, &mut world), Ok(()));
    assert!(!player.active);
    assert_eq!(player.position, (1, 2, 3));
}

#[test]
fn position_updates_the_pose_without_an_answer() {
    let config = Config::default();
    let mut world = World::new(4, 4, 4);
    let mut queue = VecDeque::new();
    let mut player = joined(2, "A", &mut world);
    player.stream.inbox = vec![0x08, 0xff, 0x01, 0x00, 0xff, 0xfe, 0x00, 0x20, 0x40, 0x80];
    assert_eq!(player.tick(&config, &mut queue, &mut world), Ok(()));
    assert_eq!(player.position, (256, -2, 32));
    assert_eq!((player.yaw, player.pitch), (0x40, 0x80));
    assert!(player.stream.outbox.is_empty());
    assert!(queue.is_empty());
}

#[test]
fn set_block_places_and_destroys() {
    let config = Config::default();
    let mut world = World::new(16, 16, 16);
    let mut queue = VecDeque::new();
    let mut player = joined(2, "A", &mut world);
    player.stream.inbox = vec![0x05, 0x00, 0x05, 0x00, 0x0a, 0x00, 0x07, 0x01, 0x04];
    assert_eq!(player.tick(&config, &mut queue, &mut world), Ok(()));
    assert_eq!(world.get_block(5, 10, 7), 0x04);
    assert_eq!(
        queue,
        VecDeque::from(vec![Queue::SetBlock { coords: (5, 10, 7), block_type: 0x04 }])
    );
    queue.clear();
    player.stream.inbox = vec![0x05, 0x00, 0x05, 0x00, 0x0a, 0x00, 0x07, 0x00, 0x04];
    assert_eq!(player.tick(&config, &mut queue, &mut world), Ok(()));
    assert_eq!(world.get_block(5, 10, 7), 0x00);
    assert_eq!(
        queue,
        VecDeque::from(vec![Queue::SetBlock { coords: (5, 10, 7), block_type: 0x00 }])
    );
    queue.clear();
    let before = world.blocks.clone();
    player.stream.inbox = vec![0x05, 0x00, 0x05, 0x7f, 0xff, 0x00, 0x07, 0x02, 0x09];
    assert_eq!(player.tick(&config, &mut queue, &mut world), Ok(()));
    assert_eq!(world.blocks, before);
    assert_eq!(
        queue,
        VecDeque::from(vec![Queue::SetBlock { coords: (5, 32767, 7), block_type: 0x09 }])
    );
    assert!(player.stream.outbox.is_empty());
}

#[test]
fn chat_is_sanitized_and_queued_with_the_name() {
    let config = Config::default();
    let mut world = World::new(4, 4, 4);
    let mut queue = VecDeque::new();
    let mut player = joined(2, "Alice", &mut world);
    player.stream.inbox = chat("Hi %red%end&");
    assert_eq!(player.tick(&config, &mut queue, &mut world), Ok(()));
    assert_eq!(queue.len(), 1);
    match queue.pop_back() {
        Some(Queue::ChatMessage(text)) => {
            assert!(text.starts_with("Alice: Hi &red&end"));
            assert_eq!(text, format!("Alice: Hi &red&end{}", " ".repeat(52)));
        }
        other => panic!("unexpected {:?}", other),
    }
    let mut full = vec![0x0d, 0x00];
    full.extend(format!("{}%", "m".repeat(63)).as_bytes());
    player.stream.inbox = full;
    assert_eq!(player.tick(&config, &mut queue, &mut world), Ok(()));
    assert_eq!(
        queue.pop_back(),
        Some(Queue::ChatMessage(format!("Alice: {}", "m".repeat(63))))
    );
}

#[test]
fn frames_are_served_in_order_and_strangers_passed_over() {
    let config = Config::default();
    let mut world = World::new(8, 8, 8);
    let mut queue = VecDeque::new();
    let mut player = joined(2, "A", &mut world);
    let mut input = vec![0x01, 0x55, 0x02];
    input.extend(chat("one"));
    input.extend([0x05, 0, 1, 0, 1, 0, 1, 1, 9]);
    input.extend(identification(7, "Again"));
    input.extend([0x08, 0xff, 0, 1, 0, 2, 0, 3, 4, 5]);
    input.extend(chat("two"));
    player.stream.inbox = input;
    assert_eq!(player.tick(&config, &mut queue, &mut world), Ok(()));
    assert_eq!(player.name, "A");
    assert_eq!(player.position, (1, 2, 3));
    assert_eq!(world.get_block(1, 1, 1), 9);
    assert!(player.stream.outbox.is_empty());
    assert_eq!(
        queue,
        VecDeque::from(vec![
            Queue::ChatMessage(format!("A: {:<64}", "one")),
            Queue::SetBlock { coords: (1, 1, 1), block_type: 9 },
            Queue::ChatMessage(format!("A: {:<64}", "two")),
        ])
    );
}

#[test]
fn frame_that_is_not_all_there_is_an_error() {
    let config = Config::default();
    let mut world = World::new(8, 8, 8);
    let mut queue = VecDeque::new();
    let mut player = joined(2, "A", &mut world);
    let mut input = vec![0x08, 0xff, 0, 1, 0, 2, 0, 3, 4, 5];
    input.extend([0x05, 0, 1, 0, 1]);
    player.stream.inbox = input;
    player.stream.read = Outcome::Failed;
    assert_eq!(
        player.tick(&config, &mut queue, &mut world),
        Err(TickError::Packet(CodecError::UnexpectedEof))
    );
    assert_eq!(player.position, (1, 2, 3));
    assert!(player.active);
    assert!(player.stream.inbox.is_empty());
}

#[test]
fn join_and_play_in_one_tick() {
    let config = Config::default();
    let mut world = World::new(8, 8, 8);
    let mut queue = VecDeque::new();
    let mut player = fresh(4);
    let mut input = identification(7, "Eve");
    input.extend([0x05, 0, 1, 0, 1, 0, 1, 1, 9]);
    input.extend(chat("hello"));
    player.stream.inbox = input;
    assert_eq!(player.tick(&config, &mut queue, &mut world), Ok(()));
    assert_eq!(world.get_block(1, 1, 1), 9);
    assert_eq!(
        queue,
        VecDeque::from(vec![
            Queue::SpawnPlayer(4),
            Queue::ChatMessage("&eEve joined the game".to_string()),
            Queue::SetBlock { coords: (1, 1, 1), block_type: 9 },
            Queue::ChatMessage(format!("Eve: {:<64}", "hello")),
        ])
    );
}

#[test]
fn liveness_follows_the_ping() {
    let mut player = fresh(0);
    player.check_liveness();
    assert!(player.active);
    player.stream.ping = Outcome::Failed;
    player.check_liveness();
    assert!(!player.active);
    player.stream.ping = Outcome::WouldBlock;
    player.check_liveness();
    assert!(!player.active);
}

#[test]
fn disconnect_sends_a_kick() {
    let mut player = fresh(0);
    player.stream.outbox = vec![1];
    player.disconnect("Server closed!".to_string());
    let mut expected = vec![1, 0x0e];
    expected.extend(pad("Server closed!"));
    assert_eq!(player.stream.outbox, expected);
    assert!(player.active);
}

#[test]
fn spawn_for_another_player() {
    let world = World::new(64, 32, 64);
    let mut viewer = fresh(0);
    let mut other = fresh(5);
    other.name = "Bob".to_string();
    other.position = (10, 20, 30);
    other.yaw = 1;
    other.pitch = 2;
    viewer.spawn_player(&other, None);
    let mut expected = vec![0x07, 5];
    expected.extend(pad("Bob"));
    expected.extend([0, 10, 0, 20, 0, 30, 1, 2]);
    assert_eq!(viewer.stream.outbox, expected);
    viewer.stream.outbox.clear();
    viewer.spawn_player(&other, Some(&world));
    let mut expected = vec![0x07, 5];
    expected.extend(pad("Bob"));
    expected.extend([0x04, 0x00, 0x02, 0x33, 0x04, 0x00, 1, 2]);
    assert_eq!(viewer.stream.outbox, expected);
}

#[test]
fn position_of_another_player() {
    let mut viewer = fresh(0);
    let mut other = fresh(-2);
    other.position = (-1, 2, 3);
    other.yaw = 7;
    other.pitch = 8;
    viewer.broadcast_position(&other);
    assert_eq!(viewer.stream.outbox, vec![0x08, 0xfe, 0xff, 0xff, 0, 2, 0, 3, 7, 8]);
}

#[test]
fn lift_raises_by_51_and_stops_at_the_top() {
    assert_eq!(lift((1, 512, 3)), (1, 563, 3));
    assert_eq!(lift((0, 32716, 0)), (0, 32767, 0));
    assert_eq!(lift((0, 32717, 0)), (0, 32767, 0));
    assert_eq!(lift((0, 32767, 0)), (0, 32767, 0));
    assert_eq!(lift((0, -32768, 0)), (0, -32717, 0));
}

#[test]
fn join_with_a_given_level() {
    let config = Config::default();
    let world = World::new(4, 2, 8);
    let mut queue = VecDeque::new();
    queue.push_back(Queue::DespawnPlayer(9));
    let mut player = fresh(6);
    player.yaw = 11;
    player.pitch = 12;
    player.stream.outbox = vec![0xaa];
    player.join(&config, "Zed  ", &[1, 2, 3], &mut queue, &world);
    assert_eq!(player.name, "Zed");
    assert!(player.authed);
    assert_eq!(player.operator, 0x64);
    let mut expected = vec![0xaa, 0x00, 0x07];
    expected.extend(pad("Qubiq Server!"));
    expected.extend(pad("Welcome to server!"));
    expected.push(0x64);
    expected.push(0x02);
    expected.extend([0x03, 0x00, 0x03, 1, 2, 3]);
    expected.extend(vec![0u8; 1021]);
    expected.push(100);
    expected.extend([0x04, 0, 4, 0, 2, 0, 8]);
    expected.extend([0x07, 0xff]);
    expected.extend(pad("Zed"));
    expected.extend([0x00, 0x40, 0x00, 0x53, 0x00, 0x80, 11, 12]);
    assert_eq!(player.stream.outbox, expected);
    assert_eq!(
        queue,
        VecDeque::from(vec![
            Queue::DespawnPlayer(9),
            Queue::SpawnPlayer(6),
            Queue::ChatMessage("&eZed joined the game".to_string()),
        ])
    );
}

#[test]
fn trailing_whitespace_of_every_kind_is_trimmed_from_a_name() {
    let mut world = World::new(4, 4, 4);
    let player = joined(1, "Ann\u{a0}\u{3000}\u{2003}\t ", &mut world);
    assert_eq!(player.name, "Ann");
    let player = joined(1, "Ann\u{200b}", &mut world);
    assert_eq!(player.name, "Ann\u{200b}");
}

#[test]
fn whitespace_is_what_the_standard_library_trims() {
    let listed = |c: char| {
        let u = c as u32;
        (0x09..=0x0d).contains(&u)
            || u == 0x20
            || u == 0x85
            || u == 0xa0
            || u == 0x1680
            || (0x2000..=0x200a).contains(&u)
            || u == 0x2028
            || u == 0x2029
            || u == 0x202f
            || u == 0x205f
            || u == 0x3000
    };
    for u in 0..=0x10ffffu32 {
        if let Some(c) = char::from_u32(u) {
            assert_eq!(c.is_whitespace(), listed(c), "U+{:04X}", u);
        }
    }
}

#[test]
fn a_socket_that_would_block_is_not_lost() {
    let config = Config::default();
    let mut world = World::new(4, 4, 4);
    let mut queue = VecDeque::new();
    let mut player = joined(0, "A", &mut world);
    player.stream.ping = Outcome::WouldBlock;
    player.stream.read = Outcome::WouldBlock;
    player.check_liveness();
    assert!(player.active);
    assert_eq!(player.tick(&config, &mut queue, &mut world), Ok(()));
    assert!(player.active);
    assert!(!Outcome::Done.is_lost());
    assert!(!Outcome::WouldBlock.is_lost());
    assert!(Outcome::Failed.is_lost());
}
