//! A session: what the server knows of one client, the bytes that came from
//! its socket and the bytes that are to go to it.

use std::collections::VecDeque;
use vstd::prelude::*;
use crate::config::Config;
use crate::packets::{
    handle_player_identification, handle_player_message, handle_position_and_orientation,
    handle_set_block, kick, kick_frame, player_position_update, position_frame, sanitized,
    server_info, server_info_frame, spawn_frame, spawn_player, triple_of, ClientPacket,
    ServerPacket, CLIENT_BLOCK, CS_IDENTIFICATION, CS_MESSAGE, CS_PING_PONG,
    CS_POSITION_ORIENTATION, PROTOCOL_VERSION,
};
use crate::server::{queue_view, Queue, QueueView};
use crate::text::{decimal, to_decimal, trim_end, trimmed_end};
use crate::util::{mcstring_of, CodecError, Reader};
use crate::world::{level_stream, send_level, World, WorldError, WorldView, AIR};

verus! {

/// The flag of an operator.
pub const OPERATOR: u8 = 0x64;

/// The player id under which a client is told of itself.
pub const SELF_PID: i8 = -1;

/// How far above the spawn cell a player appears, in units of player
/// positions.
pub const SPAWN_LIFT: i16 = 51;

/// How an operation on a socket went.
#[derive(Clone, Copy, Debug, PartialEq, Eq, Structural)]
pub enum Outcome {
    /// It went through.
    Done,
    /// The socket had nothing to give or could take nothing for now.
    WouldBlock,
    /// The socket reported any other error, or its end.
    Failed,
}

impl Outcome {
    /// Whether the outcome tells that the connection is lost. That a socket
    /// would have blocked tells no such thing.
    pub open spec fn lost(self) -> bool {
        self == Outcome::Failed
    }

    /// Whether the outcome tells that the connection is lost.
    pub fn is_lost(&self) -> (r: bool)
        ensures
            r == self.lost(),
    {
        match self {
            Outcome::Failed => true,
            _ => false,
        }
    }
}

/// The socket of a session, as far as the library deals with it. The
/// program around the library writes a ping at the start of a tick and
/// reads what there is; it fills `ping`, `inbox` and `read` before the tick
/// and sends off `outbox` after it.
#[derive(Clone, Debug, PartialEq)]
pub struct Stream {
    /// The bytes that were read from the socket and are not yet served.
    pub inbox: Vec<u8>,
    /// How the read went that found no more bytes.
    pub read: Outcome,
    /// How the write of the ping at the start of the tick went.
    pub ping: Outcome,
    /// The bytes that are to be written to the socket.
    pub outbox: Vec<u8>,
}

/// The mathematical view of a socket.
#[verifier::ext_equal]
pub struct StreamView {
    pub inbox: Seq<u8>,
    pub read: Outcome,
    pub ping: Outcome,
    pub outbox: Seq<u8>,
}

impl View for Stream {
    type V = StreamView;

    open spec fn view(&self) -> StreamView {
        StreamView {
            inbox: self.inbox@,
            read: self.read,
            ping: self.ping,
            outbox: self.outbox@,
        }
    }
}

impl Stream {
    /// A socket on which nothing has happened yet.
    pub fn new() -> (r: Self)
        ensures
            r@ == (StreamView {
                inbox: Seq::empty(),
                read: Outcome::Done,
                ping: Outcome::Done,
                outbox: Seq::empty(),
            }),
    {
        Stream {
            inbox: Vec::new(),
            read: Outcome::Done,
            ping: Outcome::Done,
            outbox: Vec::new(),
        }
    }
}

/// One client of the server.
#[derive(Debug, PartialEq)]
pub struct Player {
    pub stream: Stream,
    /// Cleared once the session is to leave the roster.
    pub active: bool,
    pub pid: i8,
    pub name: String,
    pub position: (i16, i16, i16),
    pub yaw: u8,
    pub pitch: u8,
    pub operator: u8,
    /// Set once the client has identified itself.
    pub authed: bool,
}

/// The mathematical view of a session.
#[verifier::ext_equal]
pub struct PlayerView {
    pub stream: StreamView,
    pub active: bool,
    pub pid: i8,
    pub name: Seq<char>,
    pub position: (i16, i16, i16),
    pub yaw: u8,
    pub pitch: u8,
    pub operator: u8,
    pub authed: bool,
}

impl View for Player {
    type V = PlayerView;

    open spec fn view(&self) -> PlayerView {
        PlayerView {
            stream: self.stream@,
            active: self.active,
            pid: self.pid,
            name: self.name@,
            position: self.position,
            yaw: self.yaw,
            pitch: self.pitch,
            operator: self.operator,
            authed: self.authed,
        }
    }
}

/// Why a session could not be served to the end of what it had sent.
#[derive(Clone, Copy, Debug, PartialEq, Eq, Structural)]
pub enum TickError {
    /// A frame was not all there.
    Packet(CodecError),
    /// The level could not be made ready for the client.
    World(WorldError),
}

/// A position raised by the lift of a spawning player, held to the range
/// of a signed 16-bit number.
pub open spec fn lifted(p: (i16, i16, i16)) -> (i16, i16, i16) {
    (
        p.0,
        if p.1 + SPAWN_LIFT > i16::MAX {
            i16::MAX
        } else {
            (p.1 + SPAWN_LIFT) as i16
        },
        p.2,
    )
}

/// Where a player appears in `world`.
pub open spec fn spawn_position(world: WorldView) -> (i16, i16, i16) {
    lifted(world.spawning_point())
}

/// What a client with another protocol version is told.
pub open spec fn mismatch_reason(version: u8) -> Seq<char> {
    "Protocol version mismatch! Your: "@ + decimal(version as nat) + " - Server: "@ + decimal(
        PROTOCOL_VERSION as nat,
    )
}

/// What a client is told that sends something else before it has
/// identified itself.
pub open spec fn unidentified_reason() -> Seq<char> {
    "Identification expected!"@
}

/// The chat line that tells of a player who joined.
pub open spec fn join_line(name: Seq<char>) -> Seq<char> {
    "&e"@ + name + " joined the game"@
}

/// The chat line that tells of a player who left.
pub open spec fn leave_line(name: Seq<char>) -> Seq<char> {
    "&e"@ + name + " left the game"@
}

/// The chat line for what a player said.
pub open spec fn chat_line(name: Seq<char>, text: Seq<char>) -> Seq<char> {
    name + ": "@ + text
}

/// What a session works on while it is served: itself, the queue of
/// deferred effects and the world.
#[verifier::ext_equal]
pub struct TickState {
    pub player: PlayerView,
    pub queue: Seq<QueueView>,
    pub world: WorldView,
}

/// The state that a session, a queue and a world make up.
pub open spec fn tick_state(player: Player, queue: VecDeque<Queue>, world: World) -> TickState {
    TickState { player: player@, queue: queue_view(queue@), world: world@ }
}

impl TickState {
    /// The state once the client was told `reason` and given up.
    pub open spec fn kicked(self, reason: Seq<char>) -> TickState {
        TickState {
            player: PlayerView { active: false, ..self.player.sent(kick_frame(reason)) },
            ..self
        }
    }

    /// The state once a client that speaks the protocol of the server has
    /// identified itself as `username`, where `gz` is the compressed level:
    /// the client is named, made an operator and told about the server, the
    /// world and its own appearance, and the others are to learn that it
    /// joined.
    pub open spec fn joined_with(
        self,
        server_name: Seq<char>,
        motd: Seq<char>,
        username: Seq<char>,
        gz: Seq<u8>,
    ) -> TickState {
        let named = PlayerView {
            name: trimmed_end(username),
            operator: OPERATOR,
            authed: true,
            ..self.player
        };
        TickState {
            player: named.sent(
                server_info_frame(OPERATOR, server_name, motd) + level_stream(
                    gz,
                    self.world.width,
                    self.world.height,
                    self.world.length,
                ) + spawn_frame(
                    SELF_PID,
                    named.name,
                    spawn_position(self.world),
                    named.yaw,
                    named.pitch,
                ),
            ),
            queue: self.queue.push(QueueView::SpawnPlayer(named.pid)).push(
                QueueView::ChatMessage(join_line(named.name)),
            ),
            world: self.world,
        }
    }

    /// The state once the player has told where it is.
    pub open spec fn moved(self, position: (i16, i16, i16), yaw: u8, pitch: u8) -> TickState {
        TickState { player: PlayerView { position, yaw, pitch, ..self.player }, ..self }
    }

    /// The state once the player has said `text`, already sanitized.
    pub open spec fn said(self, text: Seq<char>) -> TickState {
        TickState {
            queue: self.queue.push(QueueView::ChatMessage(chat_line(self.player.name, text))),
            ..self
        }
    }

    /// The state once the player has changed a block: with mode zero the
    /// cell is emptied, with any other it takes the block type.
    pub open spec fn built(self, coords: (i16, i16, i16), mode: u8, block_type: u8) -> TickState {
        let block = if mode == 0 {
            AIR
        } else {
            block_type
        };
        TickState {
            queue: self.queue.push(QueueView::SetBlock { coords, block_type: block }),
            world: self.world.set_block(coords.0, coords.1, coords.2, block),
            ..self
        }
    }

    /// The state once the frame with this opcode and payload from a
    /// client that has identified itself was served. Pings and further
    /// identifications change nothing.
    pub open spec fn handled(self, opcode: u8, payload: Seq<u8>) -> TickState {
        if opcode == CS_POSITION_ORIENTATION {
            self.moved(triple_of(payload.skip(1)), payload[7], payload[8])
        } else if opcode == CS_MESSAGE {
            self.said(sanitized(mcstring_of(payload.skip(1))))
        } else if opcode == CLIENT_BLOCK {
            self.built(triple_of(payload), payload[6], payload[7])
        } else {
            self
        }
    }

    /// The state once all of `input` from a client that has identified
    /// itself was served, frame by frame. A byte that is no opcode of a
    /// client frame is passed over. A frame that is not all there ends the
    /// work with an error.
    pub open spec fn in_game(self, input: Seq<u8>) -> (TickState, Result<(), TickError>)
        decreases input.len(),
    {
        if input.len() == 0 {
            (self, Ok(()))
        } else {
            match crate::packets::payload_length(input[0]) {
                None => self.in_game(input.skip(1)),
                Some(n) => if input.len() < 1 + n {
                    (self, Err(TickError::Packet(CodecError::UnexpectedEof)))
                } else {
                    self.handled(input[0], input.subrange(1, 1 + n)).in_game(input.skip(1 + n))
                },
            }
        }
    }

    /// The state at the end of the input: the session is given up where
    /// the read that found no more bytes tells that the connection is lost.
    pub open spec fn ended(self) -> TickState {
        TickState {
            player: PlayerView {
                active: self.player.active && !self.player.stream.read.lost(),
                ..self.player
            },
            ..self
        }
    }

    /// The state with an empty inbox.
    pub open spec fn drained(self) -> TickState {
        TickState {
            player: PlayerView {
                stream: StreamView { inbox: Seq::empty(), ..self.player.stream },
                ..self.player
            },
            ..self
        }
    }

    /// The state once everything in the inbox was served, and whether that
    /// went through.
    ///
    /// A session that has not identified itself must start with an
    /// identification; anything else has it kicked. An identification with
    /// another protocol version has it kicked, too. After a kick the rest
    /// of the input is dropped. A client with the protocol version of the
    /// server is let in, and what it sent behind its identification is
    /// served; where the level cannot be compressed for it, nothing but the
    /// inbox changes and the error says so.
    pub open spec fn ticked(self, server_name: Seq<char>, motd: Seq<char>) -> (
        TickState,
        Result<(), TickError>,
    ) {
        let input = self.player.stream.inbox;
        let start = self.drained();
        if self.player.authed {
            finished(start.in_game(input))
        } else if input.len() == 0 {
            (start.ended(), Ok(()))
        } else if input[0] != CS_IDENTIFICATION {
            (start.kicked(unidentified_reason()), Ok(()))
        } else if input.len() < 131 {
            (start, Err(TickError::Packet(CodecError::UnexpectedEof)))
        } else if input[1] != PROTOCOL_VERSION {
            (start.kicked(mismatch_reason(input[1])), Ok(()))
        } else {
            match start.world.compressed_level() {
                None => (start, Err(TickError::World(WorldError::Compression))),
                Some(gz) => finished(
                    start.joined_with(server_name, motd, mcstring_of(input.skip(2)), gz).in_game(
                        input.skip(131),
                    ),
                ),
            }
        }
    }
}

/// What becomes of the session once its frames were served: where that
/// went through, the end of the input is looked at.
pub open spec fn finished(served: (TickState, Result<(), TickError>)) -> (
    TickState,
    Result<(), TickError>,
) {
    match served.1 {
        Ok(()) => (served.0.ended(), Ok(())),
        Err(e) => served,
    }
}

/// A client that identifies itself with another protocol version than
/// that of the server is told so and given up at once, whatever it sends
/// after that; with the version of the server it is let in, unless the
/// level cannot be compressed for it.
pub proof fn lemma_version_gate(state: TickState, server_name: Seq<char>, motd: Seq<char>)
    requires
        !state.player.authed,
        state.player.stream.inbox.len() >= 131,
        state.player.stream.inbox[0] == CS_IDENTIFICATION,
    ensures
        state.player.stream.inbox[1] != PROTOCOL_VERSION ==> state.ticked(server_name, motd) == (
            state.drained().kicked(mismatch_reason(state.player.stream.inbox[1])),
            Ok::<(), TickError>(()),
        ),
        state.player.stream.inbox[1] == PROTOCOL_VERSION && state.world.compressed_level()
            is Some ==> {
            let after = state.ticked(server_name, motd).0.player;
            &&& after.authed
            &&& after.operator == OPERATOR
            &&& after.name == trimmed_end(mcstring_of(state.player.stream.inbox.skip(2)))
            &&& after.active == (state.player.active && (state.ticked(server_name, motd).1
                is Err || !state.player.stream.read.lost()))
        },
        state.player.stream.inbox[1] == PROTOCOL_VERSION && state.world.compressed_level()
            is None ==> state.ticked(server_name, motd) == (
            state.drained(),
            Err::<(), TickError>(TickError::World(WorldError::Compression)),
        ),
{
    if state.player.stream.inbox[1] == PROTOCOL_VERSION {
        let input = state.player.stream.inbox;
        if let Some(gz) = state.world.compressed_level() {
            let next = state.drained().joined_with(
                server_name,
                motd,
                mcstring_of(input.skip(2)),
                gz,
            );
            lemma_in_game_keeps(next, input.skip(131));
        }
    }
}

/// Serving the frames of a client that has identified itself leaves its
/// player id, its name, what it has been sent before and the size of the
/// world as they are.
pub proof fn lemma_in_game_keeps(state: TickState, input: Seq<u8>)
    ensures
        state.in_game(input).0.player.authed == state.player.authed,
        state.in_game(input).0.player.pid == state.player.pid,
        state.in_game(input).0.player.name == state.player.name,
        state.in_game(input).0.player.operator == state.player.operator,
        state.in_game(input).0.player.active == state.player.active,
        state.in_game(input).0.player.stream == state.player.stream,
        state.in_game(input).0.world.blocks.len() == state.world.blocks.len(),
        state.in_game(input).0.world.width == state.world.width,
        state.in_game(input).0.world.height == state.world.height,
        state.in_game(input).0.world.length == state.world.length,
        state.in_game(input).0.world.spawn == state.world.spawn,
    decreases input.len(),
{
    if input.len() > 0 {
        match crate::packets::payload_length(input[0]) {
            None => {
                lemma_in_game_keeps(state, input.skip(1));
            },
            Some(n) => {
                if input.len() >= 1 + n {
                    lemma_in_game_keeps(
                        state.handled(input[0], input.subrange(1, 1 + n)),
                        input.skip(1 + n),
                    );
                }
            },
        }
    }
}

impl PlayerView {
    /// The session after `bytes` were put into its outbox.
    pub open spec fn sent(self, bytes: Seq<u8>) -> PlayerView {
        PlayerView {
            stream: StreamView { outbox: self.stream.outbox + bytes, ..self.stream },
            ..self
        }
    }

    /// The frame that makes this player appear at `position`.
    pub open spec fn spawn_frame_at(self, position: (i16, i16, i16)) -> Seq<u8> {
        spawn_frame(self.pid, self.name, position, self.yaw, self.pitch)
    }

    /// The frame that tells where this player is.
    pub open spec fn position_frame(self) -> Seq<u8> {
        position_frame(self.pid, self.position, self.yaw, self.pitch)
    }
}

impl Player {
    /// A session that has not identified itself yet.
    pub fn new(stream: Stream, pid: i8) -> (r: Self)
        ensures
            r@ == (PlayerView {
                stream: stream@,
                active: true,
                pid,
                name: "Unknown"@,
                position: (0i16, 0i16, 0i16),
                yaw: 0,
                pitch: 0,
                operator: 0,
                authed: false,
            }),
    {
        Player {
            stream,
            active: true,
            pid,
            name: "Unknown".to_owned(),
            position: (0, 0, 0),
            yaw: 0,
            pitch: 0,
            operator: 0,
            authed: false,
        }
    }

    /// Serves everything that the inbox holds and leaves it empty, as
    /// [`TickState::ticked`] tells.
    pub fn tick(&mut self, config: &Config, queue: &mut VecDeque<Queue>, world: &mut World) -> (r:
        Result<(), TickError>)
        requires
            old(world)@.wf(),
        ensures
            final(world)@.wf(),
            final(self).pid == old(self).pid,
            (tick_state(*final(self), *final(queue), *final(world)), r) == tick_state(
                *old(self),
                *old(queue),
                *old(world),
            ).ticked(config.server.name@, config.server.motd@),
    {
        let ghost entry = tick_state(*self, *queue, *world);
        let mut inbox: Vec<u8> = Vec::new();
        std::mem::swap(&mut inbox, &mut self.stream.inbox);
        let mut reader = Reader::new(inbox.as_slice());
        assert(tick_state(*self, *queue, *world) =~= entry.drained());
        if !self.authed {
            match self.greet(config, &mut reader, queue, world) {
                Ok(true) => {},
                Ok(false) => {
                    return Ok(());
                },
                Err(e) => {
                    return Err(e);
                },
            }
        }
        match self.play(&mut reader, queue, world) {
            Ok(()) => {
                if self.stream.read.is_lost() {
                    self.active = false;
                }
                Ok(())
            },
            Err(e) => Err(e),
        }
    }

    /// Serves the start of the input of a client that has not identified
    /// itself, and tells whether the client was let in.
    #[verifier::rlimit(50)]
    fn greet(
        &mut self,
        config: &Config,
        reader: &mut Reader,
        queue: &mut VecDeque<Queue>,
        world: &World,
    ) -> (r: Result<bool, TickError>)
        requires
            !old(self).authed,
            world@.wf(),
        ensures
            final(self).pid == old(self).pid,
            ({
                let start = tick_state(*old(self), *old(queue), *world);
                let after = tick_state(*final(self), *final(queue), *world);
                let input = old(reader)@;
                match r {
                    Ok(true) => {
                        &&& input.len() >= 131
                        &&& input[0] == CS_IDENTIFICATION
                        &&& input[1] == PROTOCOL_VERSION
                        &&& start.world.compressed_level() matches Some(gz)
                        &&& after == start.joined_with(
                            config.server.name@,
                            config.server.motd@,
                            mcstring_of(input.skip(2)),
                            gz,
                        )
                        &&& final(reader)@ == input.skip(131)
                    },
                    Ok(false) => {
                        ||| input.len() == 0 && after == start.ended()
                        ||| input.len() > 0 && input[0] != CS_IDENTIFICATION && after
                            == start.kicked(unidentified_reason())
                        ||| input.len() >= 131 && input[0] == CS_IDENTIFICATION && input[1]
                            != PROTOCOL_VERSION && after == start.kicked(
                            mismatch_reason(input[1]),
                        )
                    },
                    Err(TickError::Packet(e)) => {
                        &&& e == CodecError::UnexpectedEof
                        &&& 0 < input.len() < 131
                        &&& input[0] == CS_IDENTIFICATION
                        &&& after == start
                    },
                    Err(TickError::World(e)) => {
                        &&& e == WorldError::Compression
                        &&& input.len() >= 131
                        &&& input[0] == CS_IDENTIFICATION
                        &&& input[1] == PROTOCOL_VERSION
                        &&& start.world.compressed_level() is None
                        &&& after == start
                    },
                }
            }),
    {
        let ghost start = tick_state(*self, *queue, *world);
        let ghost input = reader@;
        let opcode: u8 = match crate::packets::read_byte(reader) {
            Ok(v) => v,
            Err(_) => {
                if self.stream.read.is_lost() {
                    self.active = false;
                }
                assert(tick_state(*self, *queue, *world) =~= start.ended());
                return Ok(false);
            },
        };
        if opcode != CS_IDENTIFICATION {
            self.disconnect("Identification expected!".to_owned());
            self.active = false;
            assert(tick_state(*self, *queue, *world) =~= start.kicked(unidentified_reason()));
            return Ok(false);
        }
        let packet = match handle_player_identification(reader) {
            Ok(p) => p,
            Err(e) => {
                return Err(TickError::Packet(e));
            },
        };
        if let ClientPacket::PlayerAuth { protocol_version, username, .. } = packet {
            assert(protocol_version == input[1]);
            assert(input.skip(1).skip(1) =~= input.skip(2));
            assert(reader@ =~= input.skip(131));
            if protocol_version != PROTOCOL_VERSION {
                let mut msg = "Protocol version mismatch! Your: ".to_owned();
                msg.append(to_decimal(protocol_version).as_str());
                msg.append(" - Server: ");
                msg.append(to_decimal(PROTOCOL_VERSION).as_str());
                self.disconnect(msg);
                self.active = false;
                assert(tick_state(*self, *queue, *world) =~= start.kicked(
                    mismatch_reason(protocol_version),
                ));
                return Ok(false);
            }
            let gz = match world.gzip_world() {
                Ok(gz) => gz,
                Err(e) => {
                    return Err(TickError::World(e));
                },
            };
            self.join(config, username.as_str(), gz.as_slice(), queue, world);
            Ok(true)
        } else {
            Ok(false)
        }
    }

    /// Serves the frames of a client that has identified itself, one after
    /// the other, up to the end of the input or to a frame that is not all
    /// there.
    #[verifier::rlimit(50)]
    fn play(&mut self, reader: &mut Reader, queue: &mut VecDeque<Queue>, world: &mut World) -> (r:
        Result<(), TickError>)
        requires
            old(world)@.wf(),
        ensures
            final(world)@.wf(),
            final(self).pid == old(self).pid,
            r matches Err(e) ==> e == TickError::Packet(CodecError::UnexpectedEof),
            (tick_state(*final(self), *final(queue), *final(world)), r) == tick_state(
                *old(self),
                *old(queue),
                *old(world),
            ).in_game(old(reader)@),
    {
        let ghost start = tick_state(*self, *queue, *world);
        let ghost input = reader@;
        while reader.remaining() > 0
            invariant
                world@.wf(),
                self.pid == old(self).pid,
                start == tick_state(*old(self), *old(queue), *old(world)),
                input == old(reader)@,
                tick_state(*self, *queue, *world).in_game(reader@) == start.in_game(input),
            decreases reader@.len(),
        {
            let ghost ahead = reader@;
            let opcode: u8 = match crate::packets::read_byte(reader) {
                Ok(v) => v,
                Err(e) => {
                    return Err(TickError::Packet(e));
                },
            };
            match frame_length(opcode) {
                None => {
                    assert(reader@ =~= ahead.skip(1));
                },
                Some(n) => {
                    let payload = match reader.take(n) {
                        Ok(bytes) => bytes,
                        Err(e) => {
                            assert(ahead.len() < 1 + n);
                            assert(tick_state(*self, *queue, *world).in_game(ahead) == (
                                tick_state(*self, *queue, *world),
                                Err::<(), TickError>(
                                    TickError::Packet(CodecError::UnexpectedEof),
                                ),
                            ));
                            return Err(TickError::Packet(e));
                        },
                    };
                    assert(payload@ =~= ahead.subrange(1, 1 + n));
                    assert(reader@ =~= ahead.skip(1 + n));
                    self.handle(opcode, payload, queue, world);
                },
            }
        }
        Ok(())
    }

    /// Serves one frame of a client that has identified itself.
    fn handle(
        &mut self,
        opcode: u8,
        payload: &[u8],
        queue: &mut VecDeque<Queue>,
        world: &mut World,
    )
        requires
            old(world)@.wf(),
            crate::packets::payload_length(opcode) == Some(payload@.len() as int),
        ensures
            final(world)@.wf(),
            final(self).pid == old(self).pid,
            tick_state(*final(self), *final(queue), *final(world)) == tick_state(
                *old(self),
                *old(queue),
                *old(world),
            ).handled(opcode, payload@),
    {
        let mut reader = Reader::new(payload);
        if opcode == CS_POSITION_ORIENTATION {
            if let Ok(ClientPacket::PositionAndOrientation { position, yaw, pitch, .. }) =
                handle_position_and_orientation(&mut reader) {
                self.position = position;
                self.yaw = yaw;
                self.pitch = pitch;
            }
        } else if opcode == CS_MESSAGE {
            if let Ok(ClientPacket::Message(msg)) = handle_player_message(&mut reader) {
                self.say(msg.as_str(), queue);
            }
        } else if opcode == CLIENT_BLOCK {
            if let Ok(ClientPacket::SetBlock { coords, mode, block_type }) = handle_set_block(
                &mut reader,
            ) {
                build(coords, mode, block_type, queue, world);
            }
        }
        assert(tick_state(*final(self), *final(queue), *final(world)) =~= tick_state(
            *old(self),
            *old(queue),
            *old(world),
        ).handled(opcode, payload@));
    }

    /// Lets a client in that has identified itself as `username`, given
    /// the compressed level.
    pub fn join(
        &mut self,
        config: &Config,
        username: &str,
        gz: &[u8],
        queue: &mut VecDeque<Queue>,
        world: &World,
    )
        ensures
            tick_state(*final(self), *final(queue), *world) == tick_state(
                *old(self),
                *old(queue),
                *world,
            ).joined_with(config.server.name@, config.server.motd@, username@, gz@),
    {
        self.name = trim_end(username).to_owned();
        self.operator = OPERATOR;
        self.authed = true;
        server_info(
            &mut self.stream.outbox,
            ServerPacket::ServerInfo {
                operator: self.operator,
                name: config.server.name.clone(),
                motd: config.server.motd.clone(),
            },
        );
        send_level(&mut self.stream.outbox, gz, world.width, world.height, world.length);
        let position = lift(world.spawning_point());
        spawn_player(
            &mut self.stream.outbox,
            ServerPacket::SpawnPlayer {
                pid: SELF_PID,
                username: self.name.clone(),
                position,
                yaw: self.yaw,
                pitch: self.pitch,
            },
        );
        queue.push_back(Queue::SpawnPlayer(self.pid));
        let mut line = "&e".to_owned();
        line.append(self.name.as_str());
        line.append(" joined the game");
        queue.push_back(Queue::ChatMessage(line));
        assert(queue_view(final(queue)@) =~= queue_view(old(queue)@).push(
            QueueView::SpawnPlayer(self.pid),
        ).push(QueueView::ChatMessage(join_line(self.name@))));
        assert(tick_state(*final(self), *final(queue), *world) =~= tick_state(
            *old(self),
            *old(queue),
            *world,
        ).joined_with(config.server.name@, config.server.motd@, username@, gz@));
    }

    /// Queues what the player said for everybody.
    fn say(&self, text: &str, queue: &mut VecDeque<Queue>)
        ensures
            queue_view(final(queue)@) == queue_view(old(queue)@).push(
                QueueView::ChatMessage(chat_line(self.name@, text@)),
            ),
    {
        let mut formatted = self.name.clone();
        formatted.append(": ");
        formatted.append(text);
        queue.push_back(Queue::ChatMessage(formatted));
        assert(queue_view(final(queue)@) =~= queue_view(old(queue)@).push(
            QueueView::ChatMessage(chat_line(self.name@, text@)),
        ));
    }

    /// Tells this session that `player` appears: where `player` stands,
    /// or, where a world is given, at the spawn point of that world.
    pub fn spawn_player(&mut self, player: &Player, world: Option<&World>)
        ensures
            final(self)@ == old(self)@.sent(
                player@.spawn_frame_at(
                    match world {
                        Some(w) => spawn_position(w@),
                        None => player.position,
                    },
                ),
            ),
    {
        let position = match world {
            Some(w) => lift(w.spawning_point()),
            None => player.position,
        };
        self.send_spawn(player.pid, player.name.as_str(), position, player.yaw, player.pitch);
    }

    /// Puts a spawn frame into the outbox.
    pub fn send_spawn(
        &mut self,
        pid: i8,
        name: &str,
        position: (i16, i16, i16),
        yaw: u8,
        pitch: u8,
    )
        ensures
            final(self)@ == old(self)@.sent(spawn_frame(pid, name@, position, yaw, pitch)),
    {
        spawn_player(
            &mut self.stream.outbox,
            ServerPacket::SpawnPlayer { pid, username: name.to_owned(), position, yaw, pitch },
        );
    }

    /// Tells this session where `player` is and where it looks.
    pub fn broadcast_position(&mut self, player: &Player)
        ensures
            final(self)@ == old(self)@.sent(player@.position_frame()),
    {
        self.send_position(player.pid, player.position, player.yaw, player.pitch);
    }

    /// Puts a position frame into the outbox.
    pub fn send_position(&mut self, pid: i8, position: (i16, i16, i16), yaw: u8, pitch: u8)
        ensures
            final(self)@ == old(self)@.sent(position_frame(pid, position, yaw, pitch)),
    {
        player_position_update(
            &mut self.stream.outbox,
            ServerPacket::PositionAndOrientation { pid, position, yaw, pitch },
        );
    }

    /// Gives the session up where the write of the ping at the start of
    /// the tick tells that the connection is lost.
    pub fn check_liveness(&mut self)
        ensures
            final(self)@ == (PlayerView {
                active: old(self).active && !old(self).stream.ping.lost(),
                ..old(self)@
            }),
    {
        if self.stream.ping.is_lost() {
            self.active = false;
        }
    }

    /// Tells the client why it is disconnected.
    pub fn disconnect(&mut self, reason: String)
        ensures
            final(self)@ == old(self)@.sent(kick_frame(reason@)),
    {
        kick(&mut self.stream.outbox, ServerPacket::Kick(reason));
    }
}

/// The length of the payload that follows the opcode of a frame from the
/// client, or nothing for a byte that is no such opcode.
pub fn frame_length(opcode: u8) -> (r: Option<usize>)
    ensures
        match r {
            Some(n) => crate::packets::payload_length(opcode) == Some(n as int),
            None => crate::packets::payload_length(opcode) is None,
        },
{
    if opcode == CS_IDENTIFICATION {
        Some(130)
    } else if opcode == CS_PING_PONG {
        Some(0)
    } else if opcode == CLIENT_BLOCK {
        Some(8)
    } else if opcode == CS_POSITION_ORIENTATION {
        Some(9)
    } else if opcode == CS_MESSAGE {
        Some(65)
    } else {
        None
    }
}

/// Changes a block of the world and queues the change for everybody.
fn build(
    coords: (i16, i16, i16),
    mode: u8,
    block_type: u8,
    queue: &mut VecDeque<Queue>,
    world: &mut World,
)
    ensures
        queue_view(final(queue)@) == queue_view(old(queue)@).push(
            QueueView::SetBlock {
                coords,
                block_type: if mode == 0 {
                    AIR
                } else {
                    block_type
                },
            },
        ),
        final(world)@ == old(world)@.set_block(
            coords.0,
            coords.1,
            coords.2,
            if mode == 0 {
                AIR
            } else {
                block_type
            },
        ),
{
    let block: u8 = if mode == 0x0 {
        AIR
    } else {
        block_type
    };
    queue.push_back(Queue::SetBlock { coords, block_type: block });
    world.set_block(coords.0, coords.1, coords.2, block);
    assert(queue_view(final(queue)@) =~= queue_view(old(queue)@).push(
        QueueView::SetBlock { coords, block_type: block },
    ));
}

/// Raises a position by the lift of a spawning player.
pub fn lift(p: (i16, i16, i16)) -> (r: (i16, i16, i16))
    ensures
        r == lifted(p),
{
    let y: i16 = if p.1 > i16::MAX - SPAWN_LIFT {
        i16::MAX
    } else {
        p.1 + SPAWN_LIFT
    };
    (p.0, y, p.2)
}

} // verus!
