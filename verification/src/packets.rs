//! The frames of the wire protocol: one opcode byte and a payload whose
//! length the opcode fixes. Frames from the client are decoded from a
//! [`Reader`] that stands behind the opcode; frames to the client are
//! appended to a `Vec<u8>`.

use vstd::prelude::*;
use crate::text::{
    lemma_all_trailing, repeated, replace, replaced, strip_suffix, trim_end_matches,
    without_all_trailing, without_trailing,
};
use vstd::utf8::encode_utf8;
use crate::util::{
    mcstring_bytes, mcstring_of, sbyte_bits, short_bytes, short_of, write_byte, write_mcstring,
    write_sbyte, CodecError, Reader,
};

verus! {

/// The only protocol version that the server speaks.
pub const PROTOCOL_VERSION: u8 = 0x07;

/// The opcode of the frame that opens a level transfer.
pub const SERVER_LEVEL_INIT: u8 = 0x02;

/// The opcode of a level chunk frame.
pub const SERVER_LEVEL_DATA: u8 = 0x03;

/// The opcode of the frame that closes a level transfer.
pub const SERVER_LEVEL_FINAL: u8 = 0x04;

/// The opcode of a set-block frame from the server.
pub const SERVER_BLOCK: u8 = 0x06;

/// The opcode of a spawn frame.
pub const SERVER_SPAWN: u8 = 0x07;

/// The opcode of a despawn frame.
pub const SERVER_DESPAWN: u8 = 0x0c;

/// The opcode of a kick frame.
pub const SERVER_KICK: u8 = 0x0e;

/// The opcode of the frame that tells a client whether it is an operator.
pub const SERVER_USER_TYPE: u8 = 0x0f;

/// The opcode of an identification frame, from either side.
pub const CS_IDENTIFICATION: u8 = 0x00;

/// The opcode of a ping frame, from either side.
pub const CS_PING_PONG: u8 = 0x01;

/// The opcode of a position frame, from either side.
pub const CS_POSITION_ORIENTATION: u8 = 0x08;

/// The opcode of a chat frame, from either side.
pub const CS_MESSAGE: u8 = 0x0d;

/// The opcode of a set-block frame from a client.
pub const CLIENT_BLOCK: u8 = 0x05;

/// The number of data bytes in a level chunk frame.
pub const CHUNK_LENGTH: usize = 1024;

/// A frame that a client sent, without its opcode.
#[derive(Debug, PartialEq)]
pub enum ClientPacket {
    PlayerAuth { protocol_version: u8, username: String, verification_key: String, unused: u8 },
    Message(String),
    PositionAndOrientation { pid: u8, position: (i16, i16, i16), yaw: u8, pitch: u8 },
    SetBlock { coords: (i16, i16, i16), mode: u8, block_type: u8 },
}

/// A frame for a client.
#[derive(Debug, PartialEq)]
pub enum ServerPacket<'a> {
    ServerInfo { operator: u8, name: String, motd: String },
    SpawnPlayer { pid: i8, username: String, position: (i16, i16, i16), yaw: u8, pitch: u8 },
    DespawnPlayer(i8),
    LevelInit,
    LevelData { length: i16, data: &'a [u8], percentage: u8 },
    LevelFinal { width: i16, height: i16, length: i16 },
    SetBlock { coords: (i16, i16, i16), block_type: u8 },
    PositionAndOrientation { pid: i8, position: (i16, i16, i16), yaw: u8, pitch: u8 },
    Message(String),
    Kick(String),
    UpdateUserType(u8),
}

/// Three 16-bit numbers in a row.
pub open spec fn triple_bytes(c: (i16, i16, i16)) -> Seq<u8> {
    short_bytes(c.0) + short_bytes(c.1) + short_bytes(c.2)
}

/// The three 16-bit numbers at the start of `b`.
pub open spec fn triple_of(b: Seq<u8>) -> (i16, i16, i16) {
    (short_of(b), short_of(b.skip(2)), short_of(b.skip(4)))
}

/// The 1024 data bytes of a level chunk frame: `data`, cut after 1024 bytes
/// or filled up with zeros.
pub open spec fn chunk_data(data: Seq<u8>) -> Seq<u8> {
    Seq::new(
        1024,
        |i: int|
            if i < data.len() {
                data[i]
            } else {
                0u8
            },
    )
}

/// The bytes of a level chunk frame: opcode, length, 1024 data bytes and the
/// percentage.
pub open spec fn level_data_frame(length: i16, data: Seq<u8>, percentage: u8) -> Seq<u8> {
    seq![SERVER_LEVEL_DATA] + short_bytes(length) + chunk_data(data) + seq![percentage]
}

/// The text of a chat message as the server passes it on: every `%`
/// becomes `&`, and one `&` is dropped where it stands at the end of the
/// text or directly before the spaces that fill the text up. Those spaces
/// stay.
pub open spec fn sanitized(text: Seq<char>) -> Seq<char> {
    let marked = replaced(text, '%', seq!['&']);
    let body = without_all_trailing(marked, ' ');
    without_trailing(body, '&') + repeated(' ', (marked.len() - body.len()) as nat)
}

/// A text in which no `&` stands at the end or directly before the spaces
/// at the end is passed on with every `%` replaced and nothing else
/// changed; a text that ends in `&` once every `%` is replaced loses that
/// one character.
pub proof fn lemma_sanitized(text: Seq<char>)
    ensures
        ({
            let marked = replaced(text, '%', seq!['&']);
            let body = without_all_trailing(marked, ' ');
            &&& (body.len() == 0 || body.last() != '&') ==> sanitized(text) == marked
            &&& marked.len() > 0 && marked.last() == '&' ==> sanitized(text)
                == marked.drop_last()
            &&& body.len() > 0 && body.last() == '&' ==> sanitized(text).len() + 1
                == marked.len()
        }),
{
    let marked = replaced(text, '%', seq!['&']);
    let body = without_all_trailing(marked, ' ');
    lemma_all_trailing(marked, ' ');
    if marked.len() > 0 && marked.last() == '&' {
        assert(body == marked);
        assert(sanitized(text) =~= marked.drop_last());
    }
}

/// The length of the payload that follows the opcode of a frame from the
/// client, or nothing for an opcode that no client frame has.
pub open spec fn payload_length(opcode: u8) -> Option<int> {
    if opcode == CS_IDENTIFICATION {
        Some(130)
    } else if opcode == CS_PING_PONG {
        Some(0)
    } else if opcode == CLIENT_BLOCK {
        Some(8)
    } else if opcode == CS_POSITION_ORIENTATION {
        Some(9)
    } else if opcode == CS_MESSAGE {
        Some(65)
    } else {
        None
    }
}

/// The identification frame of the server.
pub open spec fn server_info_frame(operator: u8, name: Seq<char>, motd: Seq<char>) -> Seq<u8> {
    seq![CS_IDENTIFICATION, PROTOCOL_VERSION] + mcstring_bytes(name) + mcstring_bytes(motd)
        + seq![operator]
}

/// The frame that makes a player appear.
pub open spec fn spawn_frame(
    pid: i8,
    username: Seq<char>,
    position: (i16, i16, i16),
    yaw: u8,
    pitch: u8,
) -> Seq<u8> {
    seq![SERVER_SPAWN, sbyte_bits(pid)] + mcstring_bytes(username) + triple_bytes(position)
        + seq![yaw, pitch]
}

/// The frame that makes a player disappear.
pub open spec fn despawn_frame(pid: i8) -> Seq<u8> {
    seq![SERVER_DESPAWN, sbyte_bits(pid)]
}

/// The frame that closes a level transfer.
pub open spec fn level_final_frame(width: i16, height: i16, length: i16) -> Seq<u8> {
    seq![SERVER_LEVEL_FINAL] + triple_bytes((width, height, length))
}

/// The frame that tells of a changed block.
pub open spec fn set_block_frame(coords: (i16, i16, i16), block_type: u8) -> Seq<u8> {
    seq![SERVER_BLOCK] + triple_bytes(coords) + seq![block_type]
}

/// The frame that tells where a player is and where it looks.
pub open spec fn position_frame(pid: i8, position: (i16, i16, i16), yaw: u8, pitch: u8) -> Seq<
    u8,
> {
    seq![CS_POSITION_ORIENTATION, sbyte_bits(pid)] + triple_bytes(position) + seq![yaw, pitch]
}

/// The frame of a chat line from the server.
pub open spec fn message_frame(text: Seq<char>) -> Seq<u8> {
    seq![CS_MESSAGE, 0u8] + mcstring_bytes(text)
}

/// The frame that tells a client why it is disconnected.
pub open spec fn kick_frame(reason: Seq<char>) -> Seq<u8> {
    seq![SERVER_KICK] + mcstring_bytes(reason)
}

impl<'a> ServerPacket<'a> {
    /// The bytes of the frame, opcode first.
    pub open spec fn frame(self) -> Seq<u8> {
        match self {
            ServerPacket::ServerInfo { operator, name, motd } => server_info_frame(
                operator,
                name@,
                motd@,
            ),
            ServerPacket::SpawnPlayer { pid, username, position, yaw, pitch } => spawn_frame(
                pid,
                username@,
                position,
                yaw,
                pitch,
            ),
            ServerPacket::DespawnPlayer(pid) => despawn_frame(pid),
            ServerPacket::LevelInit => seq![SERVER_LEVEL_INIT],
            ServerPacket::LevelData { length, data, percentage } => level_data_frame(
                length,
                data@,
                percentage,
            ),
            ServerPacket::LevelFinal { width, height, length } => level_final_frame(
                width,
                height,
                length,
            ),
            ServerPacket::SetBlock { coords, block_type } => set_block_frame(coords, block_type),
            ServerPacket::PositionAndOrientation { pid, position, yaw, pitch } => position_frame(
                pid,
                position,
                yaw,
                pitch,
            ),
            ServerPacket::Message(text) => message_frame(text@),
            ServerPacket::Kick(reason) => kick_frame(reason@),
            ServerPacket::UpdateUserType(kind) => seq![SERVER_USER_TYPE, kind],
        }
    }
}

/// The frame of a ping, which has no payload.
pub open spec fn ping_frame() -> Seq<u8> {
    seq![CS_PING_PONG]
}


/// Appends three 16-bit numbers.
fn write_triple(writer: &mut Vec<u8>, c: (i16, i16, i16))
    ensures
        final(writer)@ == old(writer)@ + triple_bytes(c),
{
    write_short(writer, c.0);
    write_short(writer, c.1);
    write_short(writer, c.2);
    assert(final(writer)@ =~= old(writer)@ + triple_bytes(c));
}

/// Reads three 16-bit numbers. The reader stays in place on failure.
fn read_triple(reader: &mut Reader) -> (r: Result<(i16, i16, i16), CodecError>)
    ensures
        match r {
            Ok(c) => old(reader)@.len() >= 6 && c == triple_of(old(reader)@) && final(reader)@
                == old(reader)@.skip(6),
            Err(e) => old(reader)@.len() < 6 && e == CodecError::UnexpectedEof && final(reader)@
                == old(reader)@,
        },
{
    let mut ahead: Reader = *reader;
    let x: i16 = crate::util::read_short(&mut ahead)?;
    let y: i16 = crate::util::read_short(&mut ahead)?;
    let z: i16 = crate::util::read_short(&mut ahead)?;
    assert(ahead@ =~= old(reader)@.skip(6));
    *reader = ahead;
    Ok((x, y, z))
}

/// Reads one unsigned byte, such as the opcode of a frame.
pub fn read_byte(reader: &mut Reader) -> (r: Result<u8, CodecError>)
    ensures
        match r {
            Ok(v) => old(reader)@.len() >= 1 && v == old(reader)@[0] && final(reader)@
                == old(reader)@.skip(1),
            Err(e) => old(reader)@.len() < 1 && e == CodecError::UnexpectedEof && final(reader)@
                == old(reader)@,
        },
{
    crate::util::read_byte(reader)
}

/// Appends a signed 16-bit number, big-endian.
pub fn write_short(writer: &mut Vec<u8>, val: i16)
    ensures
        final(writer)@ == old(writer)@ + short_bytes(val),
{
    crate::util::write_short(writer, val)
}

/// Decodes the payload of an identification frame: version, name, key and
/// one unused byte. The reader stays in place where the payload is not all
/// there.
pub fn handle_player_identification(reader: &mut Reader) -> (r: Result<ClientPacket, CodecError>)
    ensures
        match r {
            Ok(ClientPacket::PlayerAuth { protocol_version, username, verification_key, unused }) =>
                {
                &&& old(reader)@.len() >= 130
                &&& protocol_version == old(reader)@[0]
                &&& username@ == mcstring_of(old(reader)@.skip(1))
                &&& verification_key@ == mcstring_of(old(reader)@.skip(65))
                &&& unused == old(reader)@[129]
                &&& final(reader)@ == old(reader)@.skip(130)
            },
            Ok(_) => false,
            Err(e) => old(reader)@.len() < 130 && e == CodecError::UnexpectedEof
                && final(reader)@ == old(reader)@,
        },
{
    let mut ahead: Reader = *reader;
    let protocol_version: u8 = crate::util::read_byte(&mut ahead)?;
    let username = crate::util::read_mcstring(&mut ahead)?;
    let verification_key = crate::util::read_mcstring(&mut ahead)?;
    let unused: u8 = crate::util::read_byte(&mut ahead)?;
    assert(ahead@ =~= old(reader)@.skip(130));
    assert(old(reader)@.skip(1).skip(64) =~= old(reader)@.skip(65));
    *reader = ahead;
    Ok(ClientPacket::PlayerAuth { protocol_version, username, verification_key, unused })
}

/// Decodes the payload of a chat frame: one unused byte and the text, which
/// comes back sanitized.
pub fn handle_player_message(reader: &mut Reader) -> (r: Result<ClientPacket, CodecError>)
    ensures
        match r {
            Ok(ClientPacket::Message(text)) => {
                &&& old(reader)@.len() >= 65
                &&& text@ == sanitized(mcstring_of(old(reader)@.skip(1)))
                &&& final(reader)@ == old(reader)@.skip(65)
            },
            Ok(_) => false,
            Err(e) => old(reader)@.len() < 65 && e == CodecError::UnexpectedEof && final(reader)@
                == old(reader)@,
        },
{
    let mut ahead: Reader = *reader;
    let _unused: u8 = crate::util::read_byte(&mut ahead)?;
    let message = crate::util::read_mcstring(&mut ahead)?;
    assert(ahead@ =~= old(reader)@.skip(65));
    *reader = ahead;
    Ok(ClientPacket::Message(sanitize(message)))
}

/// Replaces every `%` of a chat message by `&` and drops one `&` where it
/// stands at the end or directly before the spaces at the end.
pub fn sanitize(message: String) -> (r: String)
    ensures
        r@ == sanitized(message@),
{
    proof {
        reveal_strlit("&");
        reveal_strlit(" ");
    }
    assert("&"@ =~= seq!['&']);
    assert(" "@ =~= seq![' ']);
    let back_message = replace(message.as_str(), '%', "&");
    let body = trim_end_matches(back_message.as_str(), ' ');
    proof {
        lemma_padding_bytes(back_message@);
    }
    match strip_suffix(body, '&') {
        Some(stripped) => {
            let whole: usize = back_message.as_str().as_bytes().len();
            let kept: usize = body.as_bytes().len();
            let padding: usize = whole - kept;
            assert(padding == back_message@.len() - body@.len());
            let mut out = stripped.to_owned();
            let mut i: usize = 0;
            while i < padding
                invariant
                    i <= padding,
                    " "@ == seq![' '],
                    out@ == stripped@ + repeated(' ', i as nat),
                decreases padding - i,
            {
                out.append(" ");
                i += 1;
                assert(out@ =~= stripped@ + repeated(' ', i as nat));
            }
            assert(out@ == sanitized(message@));
            out
        },
        None => {
            assert(back_message@ =~= sanitized(message@));
            back_message
        },
    }
}

/// The spaces at the end of a text take one byte each.
proof fn lemma_padding_bytes(s: Seq<char>)
    ensures
        without_all_trailing(s, ' ').len() <= s.len(),
        encode_utf8(without_all_trailing(s, ' ')).len() <= encode_utf8(s).len(),
        encode_utf8(s).len() - encode_utf8(without_all_trailing(s, ' ')).len() == s.len()
            - without_all_trailing(s, ' ').len(),
        s == without_all_trailing(s, ' ') + repeated(
            ' ',
            (s.len() - without_all_trailing(s, ' ').len()) as nat,
        ),
{
    let body = without_all_trailing(s, ' ');
    let fill = repeated(' ', (s.len() - body.len()) as nat);
    lemma_all_trailing(s, ' ');
    crate::util::lemma_encode_utf8_concat(body, fill);
    assert(vstd::utf8::is_ascii_chars(fill));
    vstd::utf8::is_ascii_chars_encode_utf8(fill);
}

/// Decodes the payload of a set-block frame: coordinates, mode and block
/// type.
pub fn handle_set_block(reader: &mut Reader) -> (r: Result<ClientPacket, CodecError>)
    ensures
        match r {
            Ok(ClientPacket::SetBlock { coords, mode, block_type }) => {
                &&& old(reader)@.len() >= 8
                &&& coords == triple_of(old(reader)@)
                &&& mode == old(reader)@[6]
                &&& block_type == old(reader)@[7]
                &&& final(reader)@ == old(reader)@.skip(8)
            },
            Ok(_) => false,
            Err(e) => old(reader)@.len() < 8 && e == CodecError::UnexpectedEof && final(reader)@
                == old(reader)@,
        },
{
    let mut ahead: Reader = *reader;
    let coords = read_triple(&mut ahead)?;
    let mode: u8 = crate::util::read_byte(&mut ahead)?;
    let block_type: u8 = crate::util::read_byte(&mut ahead)?;
    assert(ahead@ =~= old(reader)@.skip(8));
    *reader = ahead;
    Ok(ClientPacket::SetBlock { coords, mode, block_type })
}

/// Decodes the payload of a position frame: player id, position, yaw and
/// pitch.
pub fn handle_position_and_orientation(reader: &mut Reader) -> (r: Result<
    ClientPacket,
    CodecError,
>)
    ensures
        match r {
            Ok(ClientPacket::PositionAndOrientation { pid, position, yaw, pitch }) => {
                &&& old(reader)@.len() >= 9
                &&& pid == old(reader)@[0]
                &&& position == triple_of(old(reader)@.skip(1))
                &&& yaw == old(reader)@[7]
                &&& pitch == old(reader)@[8]
                &&& final(reader)@ == old(reader)@.skip(9)
            },
            Ok(_) => false,
            Err(e) => old(reader)@.len() < 9 && e == CodecError::UnexpectedEof && final(reader)@
                == old(reader)@,
        },
{
    let mut ahead: Reader = *reader;
    let pid: u8 = crate::util::read_byte(&mut ahead)?;
    let position = read_triple(&mut ahead)?;
    let yaw: u8 = crate::util::read_byte(&mut ahead)?;
    let pitch: u8 = crate::util::read_byte(&mut ahead)?;
    assert(ahead@ =~= old(reader)@.skip(9));
    *reader = ahead;
    Ok(ClientPacket::PositionAndOrientation { pid, position, yaw, pitch })
}

/// Appends the server's identification frame where `data` is one, and
/// nothing otherwise.
pub fn server_info(writer: &mut Vec<u8>, data: ServerPacket)
    ensures
        data is ServerInfo ==> final(writer)@ == old(writer)@ + data.frame(),
        !(data is ServerInfo) ==> final(writer)@ == old(writer)@,
{
    if let ServerPacket::ServerInfo { operator, name, motd } = data {
        write_byte(writer, CS_IDENTIFICATION);
        write_byte(writer, PROTOCOL_VERSION);
        write_mcstring(writer, name.as_str());
        write_mcstring(writer, motd.as_str());
        write_byte(writer, operator);
        assert(final(writer)@ =~= old(writer)@ + data.frame());
    }
}

/// Appends a position frame where `data` is one, and nothing otherwise.
pub fn player_position_update(writer: &mut Vec<u8>, data: ServerPacket)
    ensures
        data is PositionAndOrientation ==> final(writer)@ == old(writer)@ + data.frame(),
        !(data is PositionAndOrientation) ==> final(writer)@ == old(writer)@,
{
    if let ServerPacket::PositionAndOrientation { pid, position, yaw, pitch } = data {
        write_byte(writer, CS_POSITION_ORIENTATION);
        write_sbyte(writer, pid);
        write_triple(writer, position);
        write_byte(writer, yaw);
        write_byte(writer, pitch);
        assert(final(writer)@ =~= old(writer)@ + data.frame());
    }
}

/// Appends a spawn frame where `data` is one, and nothing otherwise.
pub fn spawn_player(writer: &mut Vec<u8>, data: ServerPacket)
    ensures
        data is SpawnPlayer ==> final(writer)@ == old(writer)@ + data.frame(),
        !(data is SpawnPlayer) ==> final(writer)@ == old(writer)@,
{
    if let ServerPacket::SpawnPlayer { pid, username, position, yaw, pitch } = data {
        write_byte(writer, SERVER_SPAWN);
        write_sbyte(writer, pid);
        write_mcstring(writer, username.as_str());
        write_triple(writer, position);
        write_byte(writer, yaw);
        write_byte(writer, pitch);
        assert(final(writer)@ =~= old(writer)@ + data.frame());
    }
}

/// Appends a despawn frame where `data` is one, and nothing otherwise.
pub fn despawn_player(writer: &mut Vec<u8>, data: ServerPacket)
    ensures
        data is DespawnPlayer ==> final(writer)@ == old(writer)@ + data.frame(),
        !(data is DespawnPlayer) ==> final(writer)@ == old(writer)@,
{
    if let ServerPacket::DespawnPlayer(pid) = data {
        write_byte(writer, SERVER_DESPAWN);
        write_sbyte(writer, pid);
        assert(final(writer)@ =~= old(writer)@ + data.frame());
    }
}

/// Appends the frame that opens a level transfer where `data` is one, and
/// nothing otherwise.
pub fn level_init(writer: &mut Vec<u8>, data: ServerPacket)
    ensures
        data is LevelInit ==> final(writer)@ == old(writer)@ + data.frame(),
        !(data is LevelInit) ==> final(writer)@ == old(writer)@,
{
    if let ServerPacket::LevelInit = data {
        write_byte(writer, SERVER_LEVEL_INIT);
        assert(final(writer)@ =~= old(writer)@ + data.frame());
    }
}

/// Appends a level chunk frame where `data` is one, and nothing otherwise.
/// The frame always carries 1024 data bytes: the chunk, cut after 1024
/// bytes or filled up with zeros.
pub fn level_chunk_data(writer: &mut Vec<u8>, data: ServerPacket)
    ensures
        data is LevelData ==> final(writer)@ == old(writer)@ + data.frame(),
        !(data is LevelData) ==> final(writer)@ == old(writer)@,
{
    if let ServerPacket::LevelData { length, data: chunk, percentage } = data {
        write_byte(writer, SERVER_LEVEL_DATA);
        write_short(writer, length);
        let ghost before = writer@;
        let n: usize = chunk.len();
        let mut i: usize = 0;
        while i < CHUNK_LENGTH
            invariant
                i <= 1024,
                n == chunk@.len(),
                writer@ == before + chunk_data(chunk@).take(i as int),
            decreases 1024 - i,
        {
            if i < n {
                writer.push(chunk[i]);
            } else {
                writer.push(0x00);
            }
            i += 1;
            assert(writer@ =~= before + chunk_data(chunk@).take(i as int));
        }
        assert(chunk_data(chunk@).take(1024) =~= chunk_data(chunk@));
        write_byte(writer, percentage);
        assert(final(writer)@ =~= old(writer)@ + data.frame());
    }
}

/// Appends the frame that closes a level transfer where `data` is one, and
/// nothing otherwise.
pub fn level_finalize(writer: &mut Vec<u8>, data: ServerPacket)
    ensures
        data is LevelFinal ==> final(writer)@ == old(writer)@ + data.frame(),
        !(data is LevelFinal) ==> final(writer)@ == old(writer)@,
{
    if let ServerPacket::LevelFinal { width, height, length } = data {
        write_byte(writer, SERVER_LEVEL_FINAL);
        write_triple(writer, (width, height, length));
        assert(final(writer)@ =~= old(writer)@ + data.frame());
    }
}

/// Appends a set-block frame where `data` is one, and nothing otherwise.
pub fn broadcast_block(writer: &mut Vec<u8>, data: ServerPacket)
    ensures
        data is SetBlock ==> final(writer)@ == old(writer)@ + data.frame(),
        !(data is SetBlock) ==> final(writer)@ == old(writer)@,
{
    if let ServerPacket::SetBlock { coords, block_type } = data {
        write_byte(writer, SERVER_BLOCK);
        write_triple(writer, coords);
        write_byte(writer, block_type);
        assert(final(writer)@ =~= old(writer)@ + data.frame());
    }
}

/// Appends a ping frame.
pub fn ping(writer: &mut Vec<u8>)
    ensures
        final(writer)@ == old(writer)@ + ping_frame(),
{
    write_byte(writer, CS_PING_PONG);
    assert(final(writer)@ =~= old(writer)@ + ping_frame());
}

/// Appends a kick frame where `data` is one, and nothing otherwise.
pub fn kick(writer: &mut Vec<u8>, data: ServerPacket)
    ensures
        data is Kick ==> final(writer)@ == old(writer)@ + data.frame(),
        !(data is Kick) ==> final(writer)@ == old(writer)@,
{
    if let ServerPacket::Kick(message) = data {
        write_byte(writer, SERVER_KICK);
        write_mcstring(writer, message.as_str());
        assert(final(writer)@ =~= old(writer)@ + data.frame());
    }
}

/// Appends the frame that tells a client whether it is an operator where
/// `data` is one, and nothing otherwise.
pub fn update_user_type(writer: &mut Vec<u8>, data: ServerPacket)
    ensures
        data is UpdateUserType ==> final(writer)@ == old(writer)@ + data.frame(),
        !(data is UpdateUserType) ==> final(writer)@ == old(writer)@,
{
    if let ServerPacket::UpdateUserType(kind) = data {
        write_byte(writer, SERVER_USER_TYPE);
        write_byte(writer, kind);
        assert(final(writer)@ =~= old(writer)@ + data.frame());
    }
}

/// Appends a chat frame from the server where `data` is one, and nothing
/// otherwise.
pub fn broadcast_message(writer: &mut Vec<u8>, data: ServerPacket)
    ensures
        data is Message ==> final(writer)@ == old(writer)@ + data.frame(),
        !(data is Message) ==> final(writer)@ == old(writer)@,
{
    if let ServerPacket::Message(message) = data {
        write_byte(writer, CS_MESSAGE);
        write_sbyte(writer, 0);
        write_mcstring(writer, message.as_str());
        assert(final(writer)@ =~= old(writer)@ + data.frame());
    }
}

} // verus!
