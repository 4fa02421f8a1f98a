use qubiq::packets::{
    broadcast_block, broadcast_message, despawn_player, handle_player_identification,
    handle_player_message, handle_position_and_orientation, handle_set_block, kick,
    level_chunk_data, level_finalize, level_init, ping, player_position_update, sanitize,
    server_info, spawn_player, update_user_type, ClientPacket, ServerPacket,
};
use qubiq::util::{CodecError, Reader};

fn pad(text: &str) -> Vec<u8> {
    let mut bytes = text.as_bytes().to_vec();
    bytes.resize(64, 0x20);
    bytes
}

fn spaced(text: &str) -> String {
    format!("{:<64}", text)
}

#[test]
fn identification_is_decoded() {
    let mut payload = vec![0x07];
    payload.extend(pad("Alice"));
    payload.extend(pad("key"));
    payload.push(0x00);
    payload.push(0x55);
    let mut reader = Reader::new(&payload);
    let packet = handle_player_identification(&mut reader).unwrap();
    assert_eq!(
        packet,
        ClientPacket::PlayerAuth {
            protocol_version: 7,
            username: spaced("Alice"),
            verification_key: spaced("key"),
            unused: 0,
        }
    );
    assert_eq!(reader.remaining(), 1);
}

#[test]
fn incomplete_identification_is_refused_in_place() {
    let payload = vec![0x07; 129];
    let mut reader = Reader::new(&payload);
    assert_eq!(handle_player_identification(&mut reader), Err(CodecError::UnexpectedEof));
    assert_eq!(reader.remaining(), 129);
}

#[test]
fn set_block_is_decoded() {
    let payload = [0x00, 0x05, 0x00, 0x0a, 0x00, 0x07, 0x01, 0x04];
    let mut reader = Reader::new(&payload);
    assert_eq!(
        handle_set_block(&mut reader),
        Ok(ClientPacket::SetBlock { coords: (5, 10, 7), mode: 1, block_type: 4 })
    );
    assert_eq!(reader.remaining(), 0);
    let mut reader = Reader::new(&payload[..7]);
    assert_eq!(handle_set_block(&mut reader), Err(CodecError::UnexpectedEof));
    assert_eq!(reader.remaining(), 7);
}

#[test]
fn position_is_decoded() {
    let payload = [0xff, 0x01, 0x00, 0xff, 0xff, 0x00, 0x20, 0x40, 0x80];
    let mut reader = Reader::new(&payload);
    assert_eq!(
        handle_position_and_orientation(&mut reader),
        Ok(ClientPacket::PositionAndOrientation {
            pid: 255,
            position: (256, -1, 32),
            yaw: 0x40,
            pitch: 0x80,
        })
    );
    let mut reader = Reader::new(&payload[..8]);
    assert_eq!(handle_position_and_orientation(&mut reader), Err(CodecError::UnexpectedEof));
}

#[test]
fn message_is_decoded_and_sanitized() {
    let mut payload = vec![0xff];
    payload.extend(pad("50% off"));
    let mut reader = Reader::new(&payload);
    assert_eq!(
        handle_player_message(&mut reader),
        Ok(ClientPacket::Message(spaced("50& off")))
    );
    assert_eq!(reader.remaining(), 0);
    let mut reader = Reader::new(&payload[..64]);
    assert_eq!(handle_player_message(&mut reader), Err(CodecError::UnexpectedEof));
}

#[test]
fn trailing_ampersand_is_stripped() {
    assert_eq!(sanitize("Hi %red%end&".to_string()), "Hi &red&end");
    assert_eq!(sanitize("100%".to_string()), "100");
    assert_eq!(sanitize("a&&".to_string()), "a&");
    assert_eq!(sanitize("&".to_string()), "");
    assert_eq!(sanitize(String::new()), "");
    assert_eq!(sanitize("plain".to_string()), "plain");
    assert_eq!(sanitize("%a%".to_string()), "&a");
    assert_eq!(sanitize("a& ".to_string()), "a ");
    assert_eq!(sanitize("a%   ".to_string()), "a   ");
    assert_eq!(sanitize("a&& ".to_string()), "a& ");
    assert_eq!(sanitize("& ".to_string()), " ");
    assert_eq!(sanitize("a & b \t\n".to_string()), "a & b \t\n");
    assert_eq!(sanitize("a&\t".to_string()), "a&\t");
    assert_eq!(sanitize("   ".to_string()), "   ");
}

#[test]
fn message_of_exactly_64_bytes_is_handled() {
    let text = format!("{}%", "m".repeat(63));
    let mut payload = vec![0x00];
    payload.extend(text.as_bytes());
    let mut reader = Reader::new(&payload);
    assert_eq!(
        handle_player_message(&mut reader),
        Ok(ClientPacket::Message("m".repeat(63)))
    );
    let full = "n".repeat(64);
    let mut payload = vec![0x00];
    payload.extend(full.as_bytes());
    assert_eq!(
        handle_player_message(&mut Reader::new(&payload)),
        Ok(ClientPacket::Message(full))
    );
}

#[test]
fn padded_message_loses_the_ampersand_before_the_padding_and_keeps_the_padding() {
    let mut payload = vec![0x00];
    payload.extend(pad("Hi %red%end&"));
    assert_eq!(
        handle_player_message(&mut Reader::new(&payload)),
        Ok(ClientPacket::Message(format!("Hi &red&end{}", " ".repeat(52))))
    );
    let mut payload = vec![0x00];
    payload.extend(pad("  two  words  "));
    assert_eq!(
        handle_player_message(&mut Reader::new(&payload)),
        Ok(ClientPacket::Message(spaced("  two  words")))
    );
    let mut payload = vec![0x00];
    payload.extend(pad(""));
    assert_eq!(
        handle_player_message(&mut Reader::new(&payload)),
        Ok(ClientPacket::Message(" ".repeat(64)))
    );
    let mut payload = vec![0x00];
    payload.extend(pad("a%% b"));
    assert_eq!(
        handle_player_message(&mut Reader::new(&payload)),
        Ok(ClientPacket::Message(spaced("a&& b")))
    );
}

#[test]
fn text_that_ends_in_a_space_keeps_it() {
    assert_eq!(sanitize("ab ".to_string()), "ab ");
    assert_eq!(sanitize("a%b  ".to_string()), "a&b  ");
    assert_eq!(sanitize(" ".to_string()), " ");
    for text in ["x", "x ", "x%y", "%x", "x\t", "x& y", "\u{e9}% \u{3000}"] {
        assert_eq!(sanitize(text.to_string()), text.replace('%', "&"));
    }
}

#[test]
fn server_info_frame() {
    let mut out = Vec::new();
    server_info(
        &mut out,
        ServerPacket::ServerInfo {
            operator: 0x64,
            name: "Qubiq Server!".to_string(),
            motd: "Welcome to server!".to_string(),
        },
    );
    let mut expected = vec![0x00, 0x07];
    expected.extend(pad("Qubiq Server!"));
    expected.extend(pad("Welcome to server!"));
    expected.push(0x64);
    assert_eq!(out, expected);
    assert_eq!(out.len(), 131);
}

#[test]
fn spawn_frame() {
    let mut out = Vec::new();
    spawn_player(
        &mut out,
        ServerPacket::SpawnPlayer {
            pid: -1,
            username: "Alice".to_string(),
            position: (1024, 563, -2),
            yaw: 3,
            pitch: 4,
        },
    );
    let mut expected = vec![0x07, 0xff];
    expected.extend(pad("Alice"));
    expected.extend([0x04, 0x00, 0x02, 0x33, 0xff, 0xfe, 3, 4]);
    assert_eq!(out, expected);
    assert_eq!(out.len(), 74);
}

#[test]
fn position_frame() {
    let mut out = Vec::new();
    player_position_update(
        &mut out,
        ServerPacket::PositionAndOrientation { pid: 5, position: (1, 2, 3), yaw: 9, pitch: 8 },
    );
    assert_eq!(out, vec![0x08, 5, 0, 1, 0, 2, 0, 3, 9, 8]);
}

#[test]
fn despawn_frame() {
    let mut out = Vec::new();
    despawn_player(&mut out, ServerPacket::DespawnPlayer(-3));
    assert_eq!(out, vec![0x0c, 0xfd]);
}

#[test]
fn level_frames() {
    let mut out = Vec::new();
    level_init(&mut out, ServerPacket::LevelInit);
    assert_eq!(out, vec![0x02]);
    let mut out = Vec::new();
    level_finalize(&mut out, ServerPacket::LevelFinal { width: 64, height: 32, length: 256 });
    assert_eq!(out, vec![0x04, 0, 64, 0, 32, 1, 0]);
}

#[test]
fn level_chunk_is_padded_to_1024_bytes() {
    let data = [1u8, 2, 3];
    let mut out = Vec::new();
    level_chunk_data(
        &mut out,
        ServerPacket::LevelData { length: 3, data: &data, percentage: 50 },
    );
    assert_eq!(out.len(), 1028);
    assert_eq!(&out[..6], &[0x03, 0x00, 0x03, 1, 2, 3]);
    assert!(out[6..1027].iter().all(|b| *b == 0));
    assert_eq!(out[1027], 50);
}

#[test]
fn full_level_chunk() {
    let data = vec![0xabu8; 1024];
    let mut out = Vec::new();
    level_chunk_data(
        &mut out,
        ServerPacket::LevelData { length: 1024, data: &data, percentage: 100 },
    );
    assert_eq!(out.len(), 1028);
    assert_eq!(&out[..3], &[0x03, 0x04, 0x00]);
    assert_eq!(&out[3..1027], &data[..]);
    assert_eq!(out[1027], 100);
}

#[test]
fn oversized_level_chunk_is_cut() {
    let data = vec![7u8; 2000];
    let mut out = Vec::new();
    level_chunk_data(
        &mut out,
        ServerPacket::LevelData { length: 1024, data: &data, percentage: 1 },
    );
    assert_eq!(out.len(), 1028);
}

#[test]
fn set_block_frame() {
    let mut out = Vec::new();
    broadcast_block(&mut out, ServerPacket::SetBlock { coords: (5, 10, 7), block_type: 4 });
    assert_eq!(out, vec![0x06, 0, 5, 0, 10, 0, 7, 4]);
}

#[test]
fn ping_frame() {
    let mut out = Vec::new();
    ping(&mut out);
    assert_eq!(out, vec![0x01]);
}

#[test]
fn kick_frame() {
    let mut out = Vec::new();
    kick(&mut out, ServerPacket::Kick("Server is full!".to_string()));
    let mut expected = vec![0x0e];
    expected.extend(pad("Server is full!"));
    assert_eq!(out, expected);
}

#[test]
fn message_frame() {
    let mut out = Vec::new();
    broadcast_message(&mut out, ServerPacket::Message("hello".to_string()));
    let mut expected = vec![0x0d, 0x00];
    expected.extend(pad("hello"));
    assert_eq!(out, expected);
}

#[test]
fn a_frame_of_another_kind_writes_nothing() {
    let mut out = vec![1u8, 2];
    server_info(&mut out, ServerPacket::LevelInit);
    player_position_update(&mut out, ServerPacket::DespawnPlayer(1));
    spawn_player(&mut out, ServerPacket::LevelInit);
    despawn_player(&mut out, ServerPacket::LevelInit);
    level_init(&mut out, ServerPacket::DespawnPlayer(1));
    level_chunk_data(&mut out, ServerPacket::LevelInit);
    level_finalize(&mut out, ServerPacket::LevelInit);
    broadcast_block(&mut out, ServerPacket::LevelInit);
    kick(&mut out, ServerPacket::Message("x".to_string()));
    broadcast_message(&mut out, ServerPacket::Kick("x".to_string()));
    assert_eq!(out, vec![1u8, 2]);
}

#[test]
fn opcode_is_read_as_a_byte() {
    let data = [0x0du8, 0x01];
    let mut reader = Reader::new(&data);
    assert_eq!(qubiq::packets::read_byte(&mut reader), Ok(0x0d));
    let mut out = Vec::new();
    qubiq::packets::write_short(&mut out, 258);
    assert_eq!(out, vec![1, 2]);
}

#[test]
fn user_type_frame() {
    let mut out = Vec::new();
    update_user_type(&mut out, ServerPacket::UpdateUserType(0x64));
    update_user_type(&mut out, ServerPacket::LevelInit);
    assert_eq!(out, vec![0x0f, 0x64]);
}
