//! What the tick of a session and the tick of the server come to on input
//! of given kinds: a client that joins, a block that is set, a connection
//! that is lost.

use vstd::prelude::*;
use crate::packets::{
    despawn_frame, message_frame, set_block_frame, triple_bytes, triple_of, CLIENT_BLOCK,
    CS_IDENTIFICATION, PROTOCOL_VERSION,
};
use crate::player::{leave_line, PlayerView, TickError, TickState};
use crate::server::{others_positions, still_active, told_all, QueueView, ServerView};
use crate::util::{lemma_short_roundtrip, mcstring_of, short_bytes};
use crate::world::AIR;

verus! {

/// Whether a session has identified itself, is connected, and has sent
/// nothing.
pub open spec fn idle(p: PlayerView) -> bool {
    &&& live(p)
    &&& p.stream.inbox.len() == 0
}

/// Whether a session has identified itself and is connected.
pub open spec fn live(p: PlayerView) -> bool {
    &&& p.active
    &&& p.authed
    &&& !p.stream.ping.lost()
    &&& !p.stream.read.lost()
}

/// The set-block frame of a client.
pub open spec fn client_block_frame(coords: (i16, i16, i16), mode: u8, block_type: u8) -> Seq<u8> {
    seq![CLIENT_BLOCK] + triple_bytes(coords) + seq![mode, block_type]
}

/// The block that a set-block frame puts into the world: air with mode
/// zero, the block type with any other.
pub open spec fn placed(mode: u8, block_type: u8) -> u8 {
    if mode == 0 {
        AIR
    } else {
        block_type
    }
}

/// A roster of sessions that were not given up stays as it is when the
/// sessions that were given up leave.
pub proof fn lemma_nobody_leaves(players: Seq<PlayerView>)
    requires
        forall|k: int| 0 <= k < players.len() ==> (#[trigger] players[k]).active,
    ensures
        still_active(players) == players,
    decreases players.len(),
{
    if players.len() > 0 {
        lemma_nobody_leaves(players.drop_last());
        assert(players.drop_last().push(players.last()) =~= players);
    }
}

/// Serving an idle session changes nothing and ends on no error.
pub proof fn lemma_idle_served(server: ServerView, k: int)
    requires
        0 <= k < server.players.len(),
        idle(server.players[k]),
    ensures
        server.served(k) == (server, None::<TickError>),
{
    let state = server.state_of(k);
    assert(state.drained() =~= state);
    assert(state.in_game(state.player.stream.inbox) == (state, Ok::<(), TickError>(())));
    assert(state.ended() =~= state);
    assert(server.players.update(k, state.player) =~= server.players);
    assert(server.served(k).0 =~= server);
}

/// Where every session but the one at place `a` is idle, serving the first
/// `n` sessions comes to serving that one, if it is among them.
#[verifier::rlimit(50)]
pub proof fn lemma_one_busy(server: ServerView, a: int, n: int)
    requires
        0 <= a < server.players.len(),
        0 <= n <= server.players.len(),
        forall|k: int|
            0 <= k < server.players.len() && k != a ==> idle(#[trigger] server.players[k]),
    ensures
        server.served_to(n) == (if a < n {
            server.served(a).0
        } else {
            server
        }),
        server.errors_to(n) == Seq::new(
            n as nat,
            |k: int|
                if k == a {
                    server.served(a).1
                } else {
                    None::<TickError>
                },
        ),
    decreases n,
{
    if n > 0 {
        lemma_one_busy(server, a, n - 1);
        let before = server.served_to(n - 1);
        if n - 1 != a {
            assert(before.players[n - 1] == server.players[n - 1]);
            lemma_idle_served(before, n - 1);
        }
        assert(server.errors_to(n) =~= Seq::new(
            n as nat,
            |k: int|
                if k == a {
                    server.served(a).1
                } else {
                    None::<TickError>
                },
        ));
    } else {
        assert(server.errors_to(n) =~= Seq::new(
            n as nat,
            |k: int|
                if k == a {
                    server.served(a).1
                } else {
                    None::<TickError>
                },
        ));
    }
}

/// Whom a session is told about depends on the player ids, the positions
/// and the directions of the sessions alone.
pub proof fn lemma_positions_alike(a: Seq<PlayerView>, b: Seq<PlayerView>, pid: i8, n: int)
    requires
        0 <= n <= a.len(),
        a.len() == b.len(),
        forall|k: int|
            0 <= k < a.len() ==> (#[trigger] a[k]).position_frame() == b[k].position_frame()
                && a[k].pid == b[k].pid,
    ensures
        others_positions(a, pid, n) == others_positions(b, pid, n),
    decreases n,
{
    if n > 0 {
        lemma_positions_alike(a, b, pid, n - 1);
        assert(a[n - 1].position_frame() == b[n - 1].position_frame());
    }
}

/// A queue of one effect is emptied by delivering that effect.
pub proof fn lemma_one_effect(server: ServerView, event: QueueView)
    requires
        server.queue == seq![event],
    ensures
        server.flushed() == (ServerView { queue: Seq::empty(), ..server }).delivered(event),
{
    let popped = ServerView { queue: server.queue.drop_last(), ..server };
    assert(popped =~= ServerView { queue: Seq::empty(), ..server });
    let once = popped.delivered(event);
    assert(once.queue.len() == 0);
    assert(server.flushed() == once.flushed());
    assert(once.flushed() == once);
}

/// The three numbers of a set-block frame are read as they were written.
proof fn lemma_block_frame(coords: (i16, i16, i16), mode: u8, block_type: u8)
    ensures
        ({
            let payload = triple_bytes(coords) + seq![mode, block_type];
            &&& payload.len() == 8
            &&& triple_of(payload) == coords
            &&& payload[6] == mode
            &&& payload[7] == block_type
            &&& client_block_frame(coords, mode, block_type).len() == 9
            &&& client_block_frame(coords, mode, block_type)[0] == CLIENT_BLOCK
            &&& client_block_frame(coords, mode, block_type).subrange(1, 9) == payload
            &&& client_block_frame(coords, mode, block_type).skip(9) == Seq::<u8>::empty()
        }),
{
    let tail = seq![mode, block_type];
    let payload = triple_bytes(coords) + tail;
    let zeros = Seq::new(2, |i: int| 0u8);
    let rest1 = short_bytes(coords.1) + short_bytes(coords.2) + tail;
    let rest2 = short_bytes(coords.2) + tail;
    lemma_short_roundtrip(coords.0, rest1, zeros);
    lemma_short_roundtrip(coords.1, rest2, zeros);
    lemma_short_roundtrip(coords.2, tail, zeros);
    assert(payload =~= short_bytes(coords.0) + rest1);
    assert(payload.skip(2) =~= short_bytes(coords.1) + rest2);
    assert(payload.skip(4) =~= short_bytes(coords.2) + tail);
    let frame = client_block_frame(coords, mode, block_type);
    assert(frame.subrange(1, 9) =~= payload);
    assert(frame.skip(9) =~= Seq::<u8>::empty());
}

/// A set-block frame from a client that has identified itself puts the
/// block into the world and queues the change.
pub proof fn lemma_block_in_game(
    state: TickState,
    coords: (i16, i16, i16),
    mode: u8,
    block_type: u8,
)
    ensures
        state.in_game(client_block_frame(coords, mode, block_type)) == (
            state.built(coords, mode, block_type),
            Ok::<(), TickError>(()),
        ),
{
    let input = client_block_frame(coords, mode, block_type);
    lemma_block_frame(coords, mode, block_type);
    let next = state.handled(CLIENT_BLOCK, input.subrange(1, 9));
    assert(next == state.built(coords, mode, block_type));
    assert(next.in_game(input.skip(9)) == (next, Ok::<(), TickError>(())));
    assert(state.in_game(input) == next.in_game(input.skip(9)));
}

/// A client that identifies itself with the protocol version of the
/// server and sends nothing else is let in, where the level can be
/// compressed: it is named, made an operator and told about the server,
/// the world and its own appearance, and its joining is queued for the
/// others.
pub proof fn lemma_join(state: TickState, server_name: Seq<char>, motd: Seq<char>)
    requires
        !state.player.authed,
        state.player.stream.inbox.len() == 131,
        state.player.stream.inbox[0] == CS_IDENTIFICATION,
        state.player.stream.inbox[1] == PROTOCOL_VERSION,
        state.world.compressed_level() is Some,
    ensures
        state.ticked(server_name, motd) == (
            state.drained().joined_with(
                server_name,
                motd,
                mcstring_of(state.player.stream.inbox.skip(2)),
                state.world.compressed_level()->Some_0,
            ).ended(),
            Ok::<(), TickError>(()),
        ),
{
    let input = state.player.stream.inbox;
    let next = state.drained().joined_with(
        server_name,
        motd,
        mcstring_of(input.skip(2)),
        state.world.compressed_level()->Some_0,
    );
    assert(input.skip(131).len() == 0);
    assert(next.in_game(input.skip(131)) == (next, Ok::<(), TickError>(())));
}

/// A client that identifies itself with the protocol version of the
/// server and then sets a block is let in, where the level can be
/// compressed, and its block is put into the world and queued behind its
/// joining.
pub proof fn lemma_join_then_block(
    state: TickState,
    server_name: Seq<char>,
    motd: Seq<char>,
    coords: (i16, i16, i16),
    mode: u8,
    block_type: u8,
)
    requires
        !state.player.authed,
        state.player.stream.inbox.len() == 140,
        state.player.stream.inbox[0] == CS_IDENTIFICATION,
        state.player.stream.inbox[1] == PROTOCOL_VERSION,
        state.player.stream.inbox.skip(131) == client_block_frame(coords, mode, block_type),
        state.world.compressed_level() is Some,
    ensures
        state.ticked(server_name, motd) == (
            state.drained().joined_with(
                server_name,
                motd,
                mcstring_of(state.player.stream.inbox.skip(2)),
                state.world.compressed_level()->Some_0,
            ).built(coords, mode, block_type).ended(),
            Ok::<(), TickError>(()),
        ),
{
    let input = state.player.stream.inbox;
    let next = state.drained().joined_with(
        server_name,
        motd,
        mcstring_of(input.skip(2)),
        state.world.compressed_level()->Some_0,
    );
    lemma_block_in_game(next, coords, mode, block_type);
}

/// What serving a live session comes to that has sent one set-block
/// frame: the block is put into the world and the change is queued.
pub proof fn lemma_block_served(
    state: TickState,
    server_name: Seq<char>,
    motd: Seq<char>,
    coords: (i16, i16, i16),
    mode: u8,
    block_type: u8,
)
    requires
        live(state.player),
        state.player.stream.inbox == client_block_frame(coords, mode, block_type),
    ensures
        state.ticked(server_name, motd) == (
            state.drained().built(coords, mode, block_type),
            Ok::<(), TickError>(()),
        ),
{
    let start = state.drained();
    lemma_block_in_game(start, coords, mode, block_type);
    assert(start.built(coords, mode, block_type).ended() =~= start.built(
        coords,
        mode,
        block_type,
    ));
}

/// A block that a client sets reaches the world and every session within
/// the tick: where one live session has sent a set-block frame, the others
/// are idle and the queue is empty, the tick puts the block into the
/// world, tells every session of the roster, the sender too, of the
/// change, and then tells every session where the others are.
#[verifier::rlimit(50)]
pub proof fn lemma_block_reaches_everybody(
    server: ServerView,
    a: int,
    coords: (i16, i16, i16),
    mode: u8,
    block_type: u8,
)
    requires
        server.queue.len() == 0,
        0 <= a < server.players.len(),
        forall|k: int|
            0 <= k < server.players.len() && k != a ==> idle(#[trigger] server.players[k]),
        live(server.players[a]),
        server.players[a].stream.inbox == client_block_frame(coords, mode, block_type),
    ensures
        server.ticked().world == server.world.set_block(
            coords.0,
            coords.1,
            coords.2,
            placed(mode, block_type),
        ),
        server.ticked().queue.len() == 0,
        server.ticked().players.len() == server.players.len(),
        forall|k: int|
            0 <= k < server.players.len() ==> (#[trigger] server.ticked().players[k]).stream.outbox
                == server.players[k].stream.outbox + set_block_frame(
                coords,
                placed(mode, block_type),
            ) + others_positions(
                server.players,
                server.players[k].pid,
                server.players.len() as int,
            ),
        forall|k: int|
            0 <= k < server.players.len() ==> #[trigger] server.tick_errors()[k] is None,
{
    let n = server.players.len() as int;
    let block = placed(mode, block_type);
    let event = QueueView::SetBlock { coords, block_type: block };
    lemma_nobody_leaves(server.players);
    assert(server.pruned() =~= server);
    lemma_one_busy(server, a, n);
    lemma_block_served(
        server.state_of(a),
        server.server_name,
        server.motd,
        coords,
        mode,
        block_type,
    );
    let served = server.served(a).0;
    assert(served == server.served_to(n));
    assert(served.queue =~= seq![event]);
    lemma_one_effect(served, event);
    let told = served.flushed();
    assert(told.players == told_all(served.players, set_block_frame(coords, block)));
    assert forall|k: int| 0 <= k < n implies (#[trigger] server.ticked().players[k]).stream.outbox
        == server.players[k].stream.outbox + set_block_frame(coords, block) + others_positions(
        server.players,
        server.players[k].pid,
        n,
    ) by {
        assert forall|j: int| 0 <= j < n implies (#[trigger] told.players[j]).position_frame()
            == server.players[j].position_frame() && told.players[j].pid
            == server.players[j].pid by {
            assert(told.players[j] == served.players[j].sent(set_block_frame(coords, block)));
        }
        lemma_positions_alike(told.players, server.players, server.players[k].pid, n);
        assert(told.players[k] == served.players[k].sent(set_block_frame(coords, block)));
        assert(served.players[k].stream.outbox == server.players[k].stream.outbox);
    }
}

/// A session whose connection is lost is made known to everybody within
/// the tick: where the ping of one session that had not been given up
/// tells that the connection is lost, the others are idle and the queue
/// is empty, the tick gives that session up, tells every session of the
/// roster the line that it left and that its player is gone, and then
/// tells every session where the others are. The session is still in the
/// roster when the tick is over.
#[verifier::rlimit(50)]
pub proof fn lemma_loss_reaches_everybody(server: ServerView, a: int)
    requires
        server.queue.len() == 0,
        0 <= a < server.players.len(),
        forall|k: int|
            0 <= k < server.players.len() && k != a ==> idle(#[trigger] server.players[k]),
        server.players[a].active,
        server.players[a].stream.ping.lost(),
    ensures
        server.ticked().world == server.world,
        server.ticked().queue.len() == 0,
        server.ticked().players.len() == server.players.len(),
        !server.ticked().players[a].active,
        forall|k: int|
            0 <= k < server.players.len() ==> (#[trigger] server.ticked().players[k]).stream.outbox
                == server.players[k].stream.outbox + message_frame(
                leave_line(server.players[a].name),
            ) + despawn_frame(server.players[a].pid) + others_positions(
                server.players,
                server.players[k].pid,
                server.players.len() as int,
            ),
{
    let n = server.players.len() as int;
    let gone = QueueView::DespawnPlayer(server.players[a].pid);
    let line = QueueView::ChatMessage(leave_line(server.players[a].name));
    let said = message_frame(leave_line(server.players[a].name));
    let drop = despawn_frame(server.players[a].pid);
    lemma_nobody_leaves(server.players);
    assert(server.pruned() =~= server);
    lemma_one_busy(server, a, n);
    let served = server.served(a).0;
    assert(served == server.served_to(n));
    assert(served.queue =~= seq![gone, line]);
    crate::server::lemma_last_in_first_out(served, gone, line);
    let told = served.flushed();
    let emptied = ServerView { queue: Seq::empty(), ..served };
    assert(told.players == told_all(told_all(served.players, said), drop));
    assert forall|k: int| 0 <= k < n implies (#[trigger] server.ticked().players[k]).stream.outbox
        == server.players[k].stream.outbox + said + drop + others_positions(
        server.players,
        server.players[k].pid,
        n,
    ) by {
        assert forall|j: int| 0 <= j < n implies (#[trigger] told.players[j]).position_frame()
            == server.players[j].position_frame() && told.players[j].pid
            == server.players[j].pid by {
            assert(told.players[j] == served.players[j].sent(said).sent(drop));
        }
        lemma_positions_alike(told.players, server.players, server.players[k].pid, n);
        assert(told.players[k] == served.players[k].sent(said).sent(drop));
        assert(served.players[k].stream.outbox == server.players[k].stream.outbox);
    }
    assert(told.players[a] == served.players[a].sent(said).sent(drop));
}

} // verus!
