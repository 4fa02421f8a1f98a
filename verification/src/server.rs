//! The server: the roster of sessions, the queue of deferred effects, the
//! world, and the tick that moves them on.

use std::collections::VecDeque;
use vstd::prelude::*;
use crate::config::{Config, WorldGenCfg};
use crate::packets::{
    broadcast_block, broadcast_message, despawn_frame, despawn_player, kick, kick_frame,
    message_frame, set_block_frame, ServerPacket,
};
use crate::player::{
    leave_line, lift, spawn_position, Outcome, Player, PlayerView, Stream, StreamView,
    TickError, TickState,
};
use crate::util::append_bytes;
use crate::world::{flat_world, sides_fit, World, WorldError, WorldView};
use crate::world_file::world_in_file;

verus! {

/// An effect that a session asks for while it is served, and that reaches
/// the other sessions once all of them have been served.
#[derive(Debug, PartialEq)]
pub enum Queue {
    /// The player with this id joined.
    SpawnPlayer(i8),
    /// The player with this id left.
    DespawnPlayer(i8),
    /// A chat line for everybody.
    ChatMessage(String),
    /// A block changed.
    SetBlock { coords: (i16, i16, i16), block_type: u8 },
}

/// The mathematical view of a deferred effect.
#[verifier::ext_equal]
pub enum QueueView {
    SpawnPlayer(i8),
    DespawnPlayer(i8),
    ChatMessage(Seq<char>),
    SetBlock { coords: (i16, i16, i16), block_type: u8 },
}

impl View for Queue {
    type V = QueueView;

    open spec fn view(&self) -> QueueView {
        match self {
            Queue::SpawnPlayer(pid) => QueueView::SpawnPlayer(*pid),
            Queue::DespawnPlayer(pid) => QueueView::DespawnPlayer(*pid),
            Queue::ChatMessage(text) => QueueView::ChatMessage(text@),
            Queue::SetBlock { coords, block_type } => QueueView::SetBlock {
                coords: *coords,
                block_type: *block_type,
            },
        }
    }
}

/// The views of the effects in a queue, oldest first.
pub open spec fn queue_view(queue: Seq<Queue>) -> Seq<QueueView> {
    queue.map_values(|e: Queue| e@)
}


/// The server.
#[derive(Debug)]
pub struct Server {
    /// The options that the server was started with. No operation of the
    /// server changes them.
    pub config: Config,
    /// How many sessions the roster may hold.
    pub max_players: i8,
    /// What is to reach the sessions once all of them have been served.
    pub queue: VecDeque<Queue>,
    /// The roster.
    pub players: Vec<Player>,
    pub world: World,
}

/// The mathematical view of the server.
#[verifier::ext_equal]
pub struct ServerView {
    pub server_name: Seq<char>,
    pub motd: Seq<char>,
    pub max_players: i8,
    pub queue: Seq<QueueView>,
    pub players: Seq<PlayerView>,
    pub world: WorldView,
}

/// The views of the sessions of a roster, in order.
pub open spec fn roster_view(players: Seq<Player>) -> Seq<PlayerView> {
    players.map_values(|p: Player| p@)
}

impl View for Server {
    type V = ServerView;

    open spec fn view(&self) -> ServerView {
        ServerView {
            server_name: self.config.server.name@,
            motd: self.config.server.motd@,
            max_players: self.max_players,
            queue: queue_view(self.queue@),
            players: roster_view(self.players@),
            world: self.world@,
        }
    }
}

/// What a client is told for which the roster has no room.
pub open spec fn full_reason() -> Seq<char> {
    "Server is full!"@
}

/// What the clients are told when the server shuts down.
pub open spec fn closed_reason() -> Seq<char> {
    "Server closed!"@
}

/// Whether a session of the roster has the player id `id`.
pub open spec fn pid_used(players: Seq<PlayerView>, id: int) -> bool {
    exists|i: int| 0 <= i < players.len() && #[trigger] players[i].pid == id
}

/// The least player id from `from` up to 127 that no session of the roster
/// has.
pub open spec fn free_pid(players: Seq<PlayerView>, from: int) -> Option<i8>
    decreases 128 - from,
{
    if from < 0 || from > 127 {
        None
    } else if !pid_used(players, from) {
        Some(from as i8)
    } else {
        free_pid(players, from + 1)
    }
}

/// A session that was just let in under the player id `pid`.
pub open spec fn newcomer(pid: i8) -> PlayerView {
    PlayerView {
        stream: StreamView {
            inbox: Seq::empty(),
            read: Outcome::Done,
            ping: Outcome::Done,
            outbox: Seq::empty(),
        },
        active: true,
        pid,
        name: "Unknown"@,
        position: (0i16, 0i16, 0i16),
        yaw: 0,
        pitch: 0,
        operator: 0,
        authed: false,
    }
}

/// The sessions of the roster that were not given up, in their order.
pub open spec fn still_active(players: Seq<PlayerView>) -> Seq<PlayerView>
    decreases players.len(),
{
    if players.len() == 0 {
        players
    } else if players.last().active {
        still_active(players.drop_last()).push(players.last())
    } else {
        still_active(players.drop_last())
    }
}

/// The roster once `bytes` were put into the outbox of every session.
pub open spec fn told_all(players: Seq<PlayerView>, bytes: Seq<u8>) -> Seq<PlayerView> {
    players.map_values(|p: PlayerView| p.sent(bytes))
}

/// The place of the first session from place `from` on that has the player
/// id `pid`, or the length of the roster where there is none.
pub open spec fn place_of(players: Seq<PlayerView>, pid: i8, from: int) -> int
    decreases players.len() - from,
{
    if from < 0 || from >= players.len() {
        players.len() as int
    } else if players[from].pid == pid {
        from
    } else {
        place_of(players, pid, from + 1)
    }
}

/// The spawn frames of the first `n` sessions of the roster that have
/// another player id than `pid`, each where its player stands.
pub open spec fn others_spawns(players: Seq<PlayerView>, pid: i8, n: int) -> Seq<u8>
    decreases n,
{
    if n <= 0 {
        Seq::empty()
    } else if players[n - 1].pid != pid {
        others_spawns(players, pid, n - 1) + players[n - 1].spawn_frame_at(players[n - 1].position)
    } else {
        others_spawns(players, pid, n - 1)
    }
}

/// The position frames of the first `n` sessions of the roster that have
/// another player id than `pid`.
pub open spec fn others_positions(players: Seq<PlayerView>, pid: i8, n: int) -> Seq<u8>
    decreases n,
{
    if n <= 0 {
        Seq::empty()
    } else if players[n - 1].pid != pid {
        others_positions(players, pid, n - 1) + players[n - 1].position_frame()
    } else {
        others_positions(players, pid, n - 1)
    }
}

/// What serving a session came to, and the error that ended it, if any.
///
/// A session whose ping tells that the connection is lost is given up,
/// and the others are to learn that it left. Any other session is served
/// what its inbox holds; an error in that has it given up.
pub open spec fn session_served(state: TickState, server_name: Seq<char>, motd: Seq<char>) -> (
    TickState,
    Option<TickError>,
) {
    if !state.player.active || state.player.stream.ping.lost() {
        (
            TickState {
                player: PlayerView { active: false, ..state.player },
                queue: state.queue.push(QueueView::DespawnPlayer(state.player.pid)).push(
                    QueueView::ChatMessage(leave_line(state.player.name)),
                ),
                world: state.world,
            },
            None,
        )
    } else {
        let served = state.ticked(server_name, motd);
        match served.1 {
            Ok(()) => (served.0, None),
            Err(e) => (
                TickState { player: PlayerView { active: false, ..served.0.player }, ..served.0 },
                Some(e),
            ),
        }
    }
}

impl ServerView {
    /// What holds of the server between any two operations: the world is
    /// well formed, no player id is negative, no two sessions have the same
    /// player id, and the roster holds no more sessions than it may.
    pub open spec fn wf(self) -> bool {
        &&& self.world.wf()
        &&& forall|i: int| 0 <= i < self.players.len() ==> #[trigger] self.players[i].pid >= 0
        &&& forall|i: int, j: int|
            0 <= i < j < self.players.len() ==> #[trigger] self.players[i].pid
                != #[trigger] self.players[j].pid
        &&& self.players.len() <= self.roster_limit()
    }

    /// The number of sessions that the roster may hold.
    pub open spec fn roster_limit(self) -> int {
        if self.max_players > 0 {
            self.max_players as int
        } else {
            0
        }
    }

    /// The player id under which the next client is let in, or nothing
    /// where the roster is full or every player id is taken.
    pub open spec fn admission(self) -> Option<i8> {
        if self.players.len() + 1 > self.max_players {
            None
        } else {
            free_pid(self.players, 0)
        }
    }

    /// The server once the next client was let in or turned away.
    pub open spec fn accepted(self) -> ServerView {
        match self.admission() {
            Some(pid) => ServerView { players: self.players.push(newcomer(pid)), ..self },
            None => self,
        }
    }

    /// The server without the sessions that were given up.
    pub open spec fn pruned(self) -> ServerView {
        ServerView { players: still_active(self.players), ..self }
    }

    /// The state that the session at place `i` works on.
    pub open spec fn state_of(self, i: int) -> TickState {
        TickState { player: self.players[i], queue: self.queue, world: self.world }
    }

    /// The server once the session at place `i` was served, and the error
    /// that ended the session, if any.
    pub open spec fn served(self, i: int) -> (ServerView, Option<TickError>) {
        let done = session_served(self.state_of(i), self.server_name, self.motd);
        (
            ServerView {
                players: self.players.update(i, done.0.player),
                queue: done.0.queue,
                world: done.0.world,
                ..self
            },
            done.1,
        )
    }

    /// The server once the first `n` sessions were served in order.
    pub open spec fn served_to(self, n: int) -> ServerView
        decreases n,
    {
        if n <= 0 {
            self
        } else {
            self.served_to(n - 1).served(n - 1).0
        }
    }

    /// For each of the first `n` sessions, served in order, the error that
    /// ended it, if any.
    pub open spec fn errors_to(self, n: int) -> Seq<Option<TickError>>
        decreases n,
    {
        if n <= 0 {
            Seq::empty()
        } else {
            self.errors_to(n - 1).push(self.served_to(n - 1).served(n - 1).1)
        }
    }

    /// The server once the sessions were told that the player with the id
    /// `pid` joined: every session with another id is told of the new
    /// player at the spawn point, and the new player is told of every one of
    /// them where it stands. Nothing happens where no session has the id.
    pub open spec fn spawn_told(self, pid: i8) -> ServerView {
        let n = place_of(self.players, pid, 0);
        if n >= self.players.len() {
            self
        } else {
            let new = self.players[n];
            let frame = new.spawn_frame_at(spawn_position(self.world));
            ServerView {
                players: Seq::new(
                    self.players.len(),
                    |i: int|
                        if self.players[i].pid != pid {
                            self.players[i].sent(frame)
                        } else if i == n {
                            new.sent(others_spawns(self.players, pid, self.players.len() as int))
                        } else {
                            self.players[i]
                        },
                ),
                ..self
            }
        }
    }

    /// The server once a deferred effect has reached the sessions.
    pub open spec fn delivered(self, event: QueueView) -> ServerView {
        match event {
            QueueView::SpawnPlayer(pid) => self.spawn_told(pid),
            QueueView::DespawnPlayer(pid) => ServerView {
                players: told_all(self.players, despawn_frame(pid)),
                ..self
            },
            QueueView::ChatMessage(text) => ServerView {
                players: told_all(self.players, message_frame(text)),
                ..self
            },
            QueueView::SetBlock { coords, block_type } => ServerView {
                players: told_all(self.players, set_block_frame(coords, block_type)),
                ..self
            },
        }
    }

    /// The server once the queue was emptied, the effect that was queued
    /// last being delivered first.
    pub open spec fn flushed(self) -> ServerView
        decreases self.queue.len(),
    {
        if self.queue.len() == 0 {
            self
        } else {
            ServerView { queue: self.queue.drop_last(), ..self }.delivered(
                self.queue.last(),
            ).flushed()
        }
    }

    /// The server once every session was told where every session with
    /// another player id is.
    pub open spec fn positions_told(self) -> ServerView {
        ServerView {
            players: Seq::new(
                self.players.len(),
                |i: int|
                    self.players[i].sent(
                        others_positions(
                            self.players,
                            self.players[i].pid,
                            self.players.len() as int,
                        ),
                    ),
            ),
            ..self
        }
    }

    /// The server after a tick: the sessions that were given up leave the
    /// roster, the others are served in order, the queue is emptied, and
    /// everybody is told where everybody else is.
    pub open spec fn ticked(self) -> ServerView {
        self.pruned().served_to(self.pruned().players.len() as int).flushed().positions_told()
    }

    /// For each session that a tick serves, the error that ended it, if
    /// any.
    pub open spec fn tick_errors(self) -> Seq<Option<TickError>> {
        self.pruned().errors_to(self.pruned().players.len() as int)
    }

    /// The server once every client was told that it shuts down.
    pub open spec fn closed(self) -> ServerView {
        ServerView { players: told_all(self.players, kick_frame(closed_reason())), ..self }
    }
}


/// What became of a client that asked to be let in.
#[derive(Clone, Debug, PartialEq)]
pub enum Admission {
    /// It joined the roster under this player id.
    Admitted(i8),
    /// It was turned away, and this frame tells it why.
    Refused(Vec<u8>),
}

/// The world that a server starts with: the one that the file holds, or a
/// fresh flat map, as the options tell.
pub open spec fn first_world(gen: WorldGenCfg, world_file: Seq<u8>) -> Result<
    WorldView,
    WorldError,
> {
    match gen {
        WorldGenCfg::FromFile(_) => world_in_file(world_file),
        WorldGenCfg::FlatMap { width, height, length } => if sides_fit(width, height, length) {
            Ok(flat_world(width, height, length))
        } else {
            Err(WorldError::Malformed)
        },
    }
}

impl Server {
    /// A server with an empty roster and an empty queue. Its world is read
    /// from `world_file`, the contents of the file that the options name,
    /// or made afresh, as the options tell; `world_file` is not looked at
    /// in the second case.
    pub fn new(config: Config, world_file: &[u8]) -> (r: Result<Self, WorldError>)
        ensures
            match r {
                Ok(server) => {
                    &&& server@.wf()
                    &&& first_world(config.world.gen, world_file@) == Ok::<
                        WorldView,
                        WorldError,
                    >(server@.world)
                    &&& server.config == config
                    &&& server.max_players == config.server.max_players
                    &&& server.queue@.len() == 0
                    &&& server.players@.len() == 0
                },
                Err(e) => first_world(config.world.gen, world_file@) == Err::<
                    WorldView,
                    WorldError,
                >(e),
            },
    {
        let world = match &config.world.gen {
            WorldGenCfg::FromFile(_) => World::load_world(world_file)?,
            WorldGenCfg::FlatMap { width, height, length } => match World::try_new(
                *width,
                *height,
                *length,
            ) {
                Some(world) => world,
                None => {
                    return Err(WorldError::Malformed);
                },
            },
        };
        let max_players: i8 = config.server.max_players;
        let server = Server {
            config,
            max_players,
            queue: VecDeque::new(),
            players: Vec::new(),
            world,
        };
        assert(server@.players =~= Seq::<PlayerView>::empty());
        Ok(server)
    }

    /// Whether the server is well formed.
    pub fn is_wf(&self) -> (r: bool)
        ensures
            r == self@.wf(),
    {
        let ghost roster = self@.players;
        let n: usize = self.players.len();
        if !self.world.is_wf() {
            return false;
        }
        if self.max_players <= 0 {
            if n > 0 {
                return false;
            }
        } else if n > self.max_players as usize {
            return false;
        }
        let mut j: usize = 0;
        while j < n
            invariant
                j <= n,
                n == self.players@.len(),
                roster == roster_view(self.players@),
                forall|b: int| 0 <= b < j ==> (#[trigger] roster[b]).pid >= 0,
                forall|a: int, b: int|
                    0 <= a < b < j ==> (#[trigger] roster[a]).pid != (#[trigger] roster[b]).pid,
            decreases n - j,
        {
            if self.players[j].pid < 0 {
                assert(roster[j as int].pid < 0);
                return false;
            }
            let mut i: usize = 0;
            while i < j
                invariant
                    i <= j,
                    j < n,
                    n == self.players@.len(),
                    roster == roster_view(self.players@),
                    forall|a: int|
                        0 <= a < i ==> (#[trigger] roster[a]).pid != roster[j as int].pid,
                decreases j - i,
            {
                if self.players[i].pid == self.players[j].pid {
                    assert(roster[i as int].pid == roster[j as int].pid);
                    return false;
                }
                i += 1;
            }
            j += 1;
        }
        true
    }

    /// The least player id that no session of the roster has.
    fn gen_pid(&self) -> (r: Option<i8>)
        ensures
            r == free_pid(self@.players, 0),
            r matches Some(id) ==> 0 <= id && !pid_used(self@.players, id as int),
    {
        let ghost roster = self@.players;
        let n: usize = self.players.len();
        let mut id: u8 = 0;
        while id < 128
            invariant
                id <= 128,
                n == self.players@.len(),
                roster == roster_view(self.players@),
                free_pid(roster, id as int) == free_pid(roster, 0),
            decreases 128 - id,
        {
            let mut free: bool = true;
            let mut i: usize = 0;
            while i < n
                invariant
                    i <= n,
                    id < 128,
                    n == self.players@.len(),
                    roster == roster_view(self.players@),
                    free ==> forall|k: int| 0 <= k < i ==> (#[trigger] roster[k]).pid != id,
                    !free ==> pid_used(roster, id as int),
                decreases n - i,
            {
                if self.players[i].pid == id as i8 {
                    free = false;
                    assert(roster[i as int].pid == id);
                }
                i += 1;
            }
            if free {
                return Some(id as i8);
            }
            id += 1;
        }
        None
    }

    /// Lets the next client in under the least free player id, or turns it
    /// away where the roster is full or no player id is free.
    pub fn accept(&mut self) -> (r: Admission)
        requires
            old(self)@.wf(),
        ensures
            final(self)@.wf(),
            final(self).config == old(self).config,
            final(self)@ == old(self)@.accepted(),
            match r {
                Admission::Admitted(pid) => old(self)@.admission() == Some(pid),
                Admission::Refused(frame) => old(self)@.admission() is None && frame@
                    == kick_frame(full_reason()),
            },
    {
        let current_players: usize = self.players.len();
        if self.max_players >= 0 && current_players + 1 <= self.max_players as usize {
            if let Some(pid) = self.gen_pid() {
                self.players.push(Player::new(Stream::new(), pid));
                assert(roster_view(self.players@) =~= roster_view(old(self).players@).push(
                    newcomer(pid),
                ));
                assert(final(self)@ =~= old(self)@.accepted());
                assert(final(self)@.wf()) by {
                    let before = old(self)@.players;
                    let after = final(self)@.players;
                    assert forall|i: int, j: int| 0 <= i < j < after.len() implies (
                    #[trigger] after[i]).pid != (#[trigger] after[j]).pid by {
                        if j == before.len() {
                            assert(before[i].pid != pid);
                        } else {
                            assert(before[i].pid != before[j].pid);
                        }
                    }
                }
                return Admission::Admitted(pid);
            }
        }
        let mut frame: Vec<u8> = Vec::new();
        kick(&mut frame, ServerPacket::Kick("Server is full!".to_owned()));
        Admission::Refused(frame)
    }

    /// Drops the sessions that were given up from the roster. The others
    /// stay in their order.
    pub fn prune(&mut self)
        requires
            old(self)@.wf(),
        ensures
            final(self)@.wf(),
            final(self).config == old(self).config,
            final(self)@ == old(self)@.pruned(),
            forall|i: int| 0 <= i < final(self)@.players.len() ==> final(self)@.players[i].active,
    {
        let ghost before = self.players@;
        let ghost roster = roster_view(self.players@);
        let n: usize = self.players.len();
        let mut stack: Vec<Player> = Vec::new();
        let mut k: usize = 0;
        while k < n
            invariant
                k <= n,
                n == before.len(),
                self.players@ == before.take(n - k),
                stack@.len() == k,
                forall|j: int| 0 <= j < k ==> #[trigger] stack@[j] == before[n - 1 - j],
                self.max_players == old(self).max_players,
                self.config == old(self).config,
                self.queue == old(self).queue,
                self.world == old(self).world,
            decreases n - k,
        {
            let p = self.players.pop();
            if let Some(player) = p {
                stack.push(player);
            }
            k += 1;
            assert(self.players@ =~= before.take(n - k));
        }
        let mut m: usize = 0;
        let ghost mut origin: Seq<int> = Seq::empty();
        while m < n
            invariant
                m <= n,
                n == before.len(),
                roster == roster_view(before),
                stack@.len() == n - m,
                forall|j: int| 0 <= j < n - m ==> #[trigger] stack@[j] == before[n - 1 - j],
                roster_view(self.players@) == still_active(roster.take(m as int)),
                origin.len() == self.players@.len(),
                self.players@.len() <= m,
                forall|a: int|
                    0 <= a < origin.len() ==> 0 <= #[trigger] origin[a] < m && self.players@[a]
                        == before[origin[a]] && before[origin[a]].active,
                forall|a: int, b: int|
                    0 <= a < b < origin.len() ==> #[trigger] origin[a] < #[trigger] origin[b],
                self.max_players == old(self).max_players,
                self.config == old(self).config,
                self.queue == old(self).queue,
                self.world == old(self).world,
            decreases n - m,
        {
            let p = stack.pop();
            let ghost seen = roster.take(m as int + 1);
            assert(seen.drop_last() =~= roster.take(m as int));
            assert(seen.last() == before[m as int]@);
            if let Some(player) = p {
                assert(player == before[m as int]);
                if player.active {
                    self.players.push(player);
                    proof {
                        origin = origin.push(m as int);
                    }
                }
            }
            m += 1;
            assert(roster_view(self.players@) =~= still_active(roster.take(m as int)));
        }
        assert(roster.take(n as int) =~= roster);
        assert(final(self)@ =~= old(self)@.pruned());
        assert(final(self)@.wf()) by {
            let after = final(self)@.players;
            assert forall|i: int| 0 <= i < after.len() implies (#[trigger] after[i]).pid >= 0 by {
                assert(roster[origin[i]].pid >= 0);
            }
            assert forall|i: int, j: int| 0 <= i < j < after.len() implies (#[trigger] after[i]).pid
                != (#[trigger] after[j]).pid by {
                assert(roster[origin[i]].pid != roster[origin[j]].pid);
            }
        }
        assert forall|i: int| 0 <= i < final(self)@.players.len() implies final(
            self
        )@.players[i].active by {
            assert(roster[origin[i]].active);
        }
    }

    /// Serves every session of the roster in order and tells for each the
    /// error that ended it, if any. A session whose ping tells that the
    /// connection is lost is given up, and its leaving is queued for the
    /// others; any other session is
    /// served what its inbox holds, and given up on an error.
    #[verifier::rlimit(50)]
    pub fn serve(&mut self) -> (errors: Vec<Option<TickError>>)
        requires
            old(self)@.wf(),
        ensures
            final(self)@.wf(),
            final(self).config == old(self).config,
            errors@.len() == old(self)@.players.len(),
            final(self)@.players.len() == old(self)@.players.len(),
            errors@ == old(self)@.errors_to(old(self)@.players.len() as int),
            final(self)@ == old(self)@.served_to(old(self)@.players.len() as int),
    {
        let ghost start = self@;
        let n: usize = self.players.len();
        let mut errors: Vec<Option<TickError>> = Vec::new();
        let mut i: usize = 0;
        while i < n
            invariant
                i <= n,
                n == self.players@.len(),
                n == start.players.len(),
                errors@.len() == i,
                start.wf(),
                self@.world.wf(),
                self@.server_name == start.server_name,
                self@.motd == start.motd,
                self@.max_players == start.max_players,
                forall|k: int|
                    0 <= k < n ==> (#[trigger] self@.players[k]).pid == start.players[k].pid,
                self.config == old(self).config,
                errors@ == start.errors_to(i as int),
                self@ == start.served_to(i as int),
            decreases n - i,
        {
            let ghost now = self@;
            let ghost so_far = errors@;
            self.players[i].check_liveness();
            let error: Option<TickError> = if self.players[i].active {
                match self.players[i].tick(&self.config, &mut self.queue, &mut self.world) {
                    Ok(()) => None,
                    Err(e) => {
                        self.players[i].active = false;
                        Some(e)
                    },
                }
            } else {
                self.queue.push_back(Queue::DespawnPlayer(self.players[i].pid));
                let mut line = "&e".to_owned();
                line.append(self.players[i].name.as_str());
                line.append(" left the game");
                self.queue.push_back(Queue::ChatMessage(line));
                assert(queue_view(self.queue@) =~= now.queue.push(
                    QueueView::DespawnPlayer(now.players[i as int].pid),
                ).push(QueueView::ChatMessage(leave_line(now.players[i as int].name))));
                None
            };
            errors.push(error);
            proof {
                assert(roster_view(self.players@) =~= now.players.update(
                    i as int,
                    self.players@[i as int]@,
                ));
                assert(self@ =~= now.served(i as int).0);
                assert(error == now.served(i as int).1);
                assert(errors@ =~= so_far.push(error));
            }
            i += 1;
        }
        errors
    }

    /// Tells the sessions that the player with the id `pid` joined: every
    /// session with another id learns of the new player at the spawn point,
    /// and the new player learns of each of them where it stands.
    fn tell_spawn(&mut self, pid: i8)
        ensures
            final(self).config == old(self).config,
            final(self)@ == old(self)@.spawn_told(pid),
    {
        let ghost start = self@;
        let n: usize = self.players.len();
        let mut place: usize = 0;
        while place < n && self.players[place].pid != pid
            invariant
                place <= n,
                n == self.players@.len(),
                self.config == old(self).config,
                self@ == start,
                place_of(start.players, pid, place as int) == place_of(start.players, pid, 0),
            decreases n - place,
        {
            place += 1;
        }
        if place >= n {
            return ;
        }
        let name = self.players[place].name.clone();
        let yaw: u8 = self.players[place].yaw;
        let pitch: u8 = self.players[place].pitch;
        let center = lift(self.world.spawning_point());
        let ghost frame = start.players[place as int].spawn_frame_at(spawn_position(start.world));
        let mut i: usize = 0;
        while i < n
            invariant
                i <= n,
                place < n,
                n == self.players@.len(),
                n == start.players.len(),
                self.config == old(self).config,
                name@ == start.players[place as int].name,
                yaw == start.players[place as int].yaw,
                pitch == start.players[place as int].pitch,
                start.players[place as int].pid == pid,
                center == spawn_position(start.world),
                frame == start.players[place as int].spawn_frame_at(spawn_position(start.world)),
                self@.server_name == start.server_name,
                self@.motd == start.motd,
                self@.max_players == start.max_players,
                self@.queue == start.queue,
                self@.world == start.world,
                start.players == roster_view(old(self).players@),
                forall|k: int|
                    0 <= k < n ==> (#[trigger] self.players@[k])@ == (if start.players[k].pid
                        != pid {
                        if k < i {
                            start.players[k].sent(frame)
                        } else {
                            start.players[k]
                        }
                    } else if k == place {
                        start.players[k].sent(others_spawns(start.players, pid, i as int))
                    } else {
                        start.players[k]
                    }),
            decreases n - i,
        {
            let ghost now = self.players@;
            assert(now[i as int]@.pid == start.players[i as int].pid);
            assert(now[place as int]@ == start.players[place as int].sent(
                others_spawns(start.players, pid, i as int),
            ));
            if self.players[i].pid != pid {
                self.players[i].send_spawn(pid, name.as_str(), center, yaw, pitch);
                let other_pid: i8 = self.players[i].pid;
                let other_name = self.players[i].name.clone();
                let other_position = self.players[i].position;
                let other_yaw: u8 = self.players[i].yaw;
                let other_pitch: u8 = self.players[i].pitch;
                self.players[place].send_spawn(
                    other_pid,
                    other_name.as_str(),
                    other_position,
                    other_yaw,
                    other_pitch,
                );
                assert(self.players@[i as int]@ == start.players[i as int].sent(frame));
                assert(self.players@[place as int]@ =~= start.players[place as int].sent(
                    others_spawns(start.players, pid, i as int + 1),
                ));
            }
            i += 1;
        }
        assert(self@.players =~= start.spawn_told(pid).players);
        assert(self@ =~= start.spawn_told(pid));
    }

    /// Lets a deferred effect reach the sessions.
    pub fn deliver(&mut self, event: Queue)
        ensures
            final(self).config == old(self).config,
            final(self)@ == old(self)@.delivered(event@),
    {
        match event {
            Queue::SpawnPlayer(pid) => {
                self.tell_spawn(pid);
            },
            Queue::DespawnPlayer(pid) => {
                let mut frame: Vec<u8> = Vec::new();
                despawn_player(&mut frame, ServerPacket::DespawnPlayer(pid));
                tell_all(&mut self.players, frame.as_slice());
            },
            Queue::ChatMessage(msg) => {
                let mut frame: Vec<u8> = Vec::new();
                broadcast_message(&mut frame, ServerPacket::Message(msg));
                tell_all(&mut self.players, frame.as_slice());
            },
            Queue::SetBlock { coords, block_type } => {
                let mut frame: Vec<u8> = Vec::new();
                broadcast_block(&mut frame, ServerPacket::SetBlock { coords, block_type });
                tell_all(&mut self.players, frame.as_slice());
            },
        }
    }

    /// Empties the queue, delivering the effect that was queued last first.
    pub fn flush(&mut self)
        ensures
            final(self).config == old(self).config,
            final(self)@ == old(self)@.flushed(),
            final(self).queue@.len() == 0,
    {
        let ghost start = self@;
        loop
            invariant
                self.config == old(self).config,
                self@.flushed() == start.flushed(),
            ensures
                self.config == old(self).config,
                self@ == start.flushed(),
                self.queue@.len() == 0,
            decreases self.queue@.len(),
        {
            let ghost now = self@;
            let event = match self.queue.pop_back() {
                Some(event) => event,
                None => {
                    break ;
                },
            };
            assert(queue_view(self.queue@) =~= now.queue.drop_last());
            assert(event@ == now.queue.last());
            self.deliver(event);
        }
    }

    /// Tells every session where every session with another player id is.
    pub fn broadcast_positions(&mut self)
        ensures
            final(self).config == old(self).config,
            final(self)@ == old(self)@.positions_told(),
    {
        let ghost start = self@;
        let n: usize = self.players.len();
        let mut viewer: usize = 0;
        while viewer < n
            invariant
                viewer <= n,
                n == self.players@.len(),
                n == start.players.len(),
                self.config == old(self).config,
                self@.server_name == start.server_name,
                self@.motd == start.motd,
                self@.max_players == start.max_players,
                self@.queue == start.queue,
                self@.world == start.world,
                start.players == roster_view(old(self).players@),
                forall|k: int|
                    0 <= k < n ==> (#[trigger] self.players@[k])@ == (if k < viewer {
                        start.players[k].sent(
                            others_positions(start.players, start.players[k].pid, n as int),
                        )
                    } else {
                        start.players[k]
                    }),
            decreases n - viewer,
        {
            let viewer_pid: i8 = self.players[viewer].pid;
            assert(self.players@[viewer as int]@ == start.players[viewer as int]);
            let mut target: usize = 0;
            while target < n
                invariant
                    viewer < n,
                    target <= n,
                    n == self.players@.len(),
                    n == start.players.len(),
                    self.config == old(self).config,
                    viewer_pid == start.players[viewer as int].pid,
                    self@.server_name == start.server_name,
                    self@.motd == start.motd,
                    self@.max_players == start.max_players,
                    self@.queue == start.queue,
                    self@.world == start.world,
                    start.players == roster_view(old(self).players@),
                    forall|k: int|
                        0 <= k < n ==> (#[trigger] self.players@[k])@ == (if k < viewer {
                            start.players[k].sent(
                                others_positions(start.players, start.players[k].pid, n as int),
                            )
                        } else if k == viewer {
                            start.players[k].sent(
                                others_positions(start.players, viewer_pid, target as int),
                            )
                        } else {
                            start.players[k]
                        }),
                decreases n - target,
            {
                let ghost now = self.players@;
                assert(now[target as int]@.pid == start.players[target as int].pid);
                assert(now[target as int]@.position == start.players[target as int].position);
                assert(now[viewer as int]@ == start.players[viewer as int].sent(
                    others_positions(start.players, viewer_pid, target as int),
                ));
                if self.players[target].pid != viewer_pid {
                    let pid: i8 = self.players[target].pid;
                    let position = self.players[target].position;
                    let yaw: u8 = self.players[target].yaw;
                    let pitch: u8 = self.players[target].pitch;
                    self.players[viewer].send_position(pid, position, yaw, pitch);
                    assert(self.players@[viewer as int]@ =~= start.players[viewer as int].sent(
                        others_positions(start.players, viewer_pid, target as int + 1),
                    ));
                }
                target += 1;
            }
            viewer += 1;
        }
        assert(self@.players =~= start.positions_told().players);
        assert(self@ =~= start.positions_told());
    }

    /// One tick of the server: the sessions that were given up leave the
    /// roster, the others are served in order, the queue is emptied, and
    /// everybody is told where everybody else is. The result tells for each
    /// session of the roster the error that ended it, if any. The
    /// connections that arrived are let in beforehand, one call of
    /// [`Server::accept`] each.
    pub fn tick(&mut self) -> (errors: Vec<Option<TickError>>)
        requires
            old(self)@.wf(),
        ensures
            final(self)@.wf(),
            final(self).config == old(self).config,
            final(self).queue@.len() == 0,
            errors@.len() == final(self).players@.len(),
            errors@ == old(self)@.tick_errors(),
            final(self)@ == old(self)@.ticked(),
    {
        self.prune();
        let errors = self.serve();
        let ghost served = self@;
        self.flush();
        proof {
            lemma_flushed_keeps(served);
        }
        let ghost flushed = self@;
        self.broadcast_positions();
        assert(final(self)@.wf()) by {
            let after = final(self)@.players;
            assert forall|i: int| 0 <= i < after.len() implies (#[trigger] after[i]).pid >= 0 by {
                assert(flushed.players[i].pid == served.players[i].pid);
            }
            assert forall|i: int, j: int| 0 <= i < j < after.len() implies (#[trigger] after[i]).pid
                != (#[trigger] after[j]).pid by {
                assert(flushed.players[i].pid == served.players[i].pid);
                assert(flushed.players[j].pid == served.players[j].pid);
            }
        }
        errors
    }

    /// Tells every client that the server shuts down.
    pub fn kick_players(&mut self)
        ensures
            final(self).config == old(self).config,
            final(self)@ == old(self)@.closed(),
    {
        let mut frame: Vec<u8> = Vec::new();
        kick(&mut frame, ServerPacket::Kick("Server closed!".to_owned()));
        tell_all(&mut self.players, frame.as_slice());
    }
}

/// What holds of a well-formed server: every session has a player id of
/// its own between 0 and 127, the roster holds no more sessions than it
/// may where that number is not negative, and the world has one block per
/// cell.
pub proof fn lemma_invariants(server: ServerView)
    requires
        server.wf(),
    ensures
        forall|i: int| 0 <= i < server.players.len() ==> 0 <= (#[trigger] server.players[i]).pid
            <= 127,
        forall|i: int, j: int|
            0 <= i < server.players.len() && 0 <= j < server.players.len() && i != j ==> (
            #[trigger] server.players[i]).pid != (#[trigger] server.players[j]).pid,
        server.max_players >= 0 ==> server.players.len() <= server.max_players,
        server.players.len() <= 127,
        server.world.blocks.len() == server.world.width * server.world.height
            * server.world.length,
{
    assert forall|i: int, j: int|
        0 <= i < server.players.len() && 0 <= j < server.players.len() && i != j implies (
    #[trigger] server.players[i]).pid != (#[trigger] server.players[j]).pid by {
        if i < j {
            assert(server.players[i].pid != server.players[j].pid);
        } else {
            assert(server.players[j].pid != server.players[i].pid);
        }
    }
}

/// A roster in which every player id below `k` is taken holds at least `k`
/// sessions.
pub proof fn lemma_taken_ids(players: Seq<PlayerView>, k: int)
    requires
        0 <= k,
        forall|id: int| 0 <= id < k ==> pid_used(players, id),
    ensures
        players.len() >= k,
    decreases k,
{
    if k > 0 {
        assert(pid_used(players, k - 1));
        let j = choose|j: int| 0 <= j < players.len() && #[trigger] players[j].pid == k - 1;
        let others = players.remove(j);
        assert forall|id: int| 0 <= id < k - 1 implies pid_used(others, id) by {
            assert(pid_used(players, id));
            let i = choose|i: int| 0 <= i < players.len() && #[trigger] players[i].pid == id;
            if i < j {
                assert(others[i].pid == id);
            } else {
                assert(others[i - 1].pid == id);
            }
        }
        lemma_taken_ids(others, k - 1);
    }
}

/// Where no player id from `from` up to 127 is free, each of them is
/// taken.
pub proof fn lemma_no_free_pid(players: Seq<PlayerView>, from: int)
    requires
        0 <= from <= 128,
        free_pid(players, from) is None,
    ensures
        forall|id: int| from <= id < 128 ==> pid_used(players, id),
    decreases 128 - from,
{
    if from < 128 {
        lemma_no_free_pid(players, from + 1);
    }
}

/// A roster with room has a free player id: a client is let in exactly
/// when the roster holds fewer sessions than it may.
pub proof fn lemma_admission(server: ServerView)
    requires
        server.wf(),
    ensures
        server.admission() is Some <==> server.players.len() + 1 <= server.max_players,
        server.accepted().wf(),
{
    if server.players.len() + 1 <= server.max_players {
        if free_pid(server.players, 0) is None {
            lemma_no_free_pid(server.players, 0);
            lemma_taken_ids(server.players, 128);
        }
    }
    match server.admission() {
        Some(pid) => {
            lemma_free_pid(server.players, 0);
            let after = server.accepted().players;
            assert forall|i: int, j: int| 0 <= i < j < after.len() implies (#[trigger] after[i]).pid
                != (#[trigger] after[j]).pid by {
                if j == server.players.len() {
                    assert(server.players[i].pid != pid);
                } else {
                    assert(server.players[i].pid != server.players[j].pid);
                }
            }
        },
        None => {},
    }
}

/// The free player id that is found from `from` on is not below `from`,
/// not above 127, and taken by no session.
pub proof fn lemma_free_pid(players: Seq<PlayerView>, from: int)
    requires
        0 <= from,
    ensures
        free_pid(players, from) matches Some(id) ==> from <= id <= 127 && !pid_used(
            players,
            id as int,
        ),
    decreases 128 - from,
{
    if from <= 127 && pid_used(players, from) {
        lemma_free_pid(players, from + 1);
    }
}

/// Of two effects in the queue, the one that was queued last reaches the
/// sessions first.
pub proof fn lemma_last_in_first_out(server: ServerView, first: QueueView, last: QueueView)
    requires
        server.queue == seq![first, last],
    ensures
        server.flushed() == (ServerView { queue: Seq::empty(), ..server }).delivered(
            last,
        ).delivered(first),
{
    let emptied = ServerView { queue: Seq::empty(), ..server };
    let popped = ServerView { queue: server.queue.drop_last(), ..server };
    assert(popped.queue =~= seq![first]);
    let once = popped.delivered(last);
    assert(once.queue =~= seq![first]);
    let again = ServerView { queue: once.queue.drop_last(), ..once };
    assert(again.queue =~= Seq::<QueueView>::empty());
    assert(again =~= emptied.delivered(last));
    let twice = again.delivered(first);
    assert(twice.queue.len() == 0);
    assert(server.flushed() == once.flushed());
    assert(once.flushed() == twice.flushed());
    assert(twice.flushed() == twice);
}

/// Emptying the queue leaves the world, the length of the roster and the
/// player id of every session as they are.
pub proof fn lemma_flushed_keeps(server: ServerView)
    ensures
        server.flushed().world == server.world,
        server.flushed().max_players == server.max_players,
        server.flushed().queue.len() == 0,
        server.flushed().players.len() == server.players.len(),
        forall|k: int|
            0 <= k < server.players.len() ==> (#[trigger] server.flushed().players[k]).pid
                == server.players[k].pid,
    decreases server.queue.len(),
{
    if server.queue.len() > 0 {
        let popped = ServerView { queue: server.queue.drop_last(), ..server };
        let next = popped.delivered(server.queue.last());
        lemma_flushed_keeps(next);
        assert forall|k: int| 0 <= k < server.players.len() implies (
        #[trigger] server.flushed().players[k]).pid == server.players[k].pid by {
            assert(next.players[k].pid == server.players[k].pid);
        }
    }
}

/// Puts `frame` into the outbox of every session.
fn tell_all(players: &mut Vec<Player>, frame: &[u8])
    ensures
        roster_view(final(players)@) == told_all(roster_view(old(players)@), frame@),
{
    let n: usize = players.len();
    let mut i: usize = 0;
    while i < n
        invariant
            i <= n,
            n == players@.len(),
            n == old(players)@.len(),
            forall|k: int|
                0 <= k < i ==> (#[trigger] players@[k])@ == old(players)@[k]@.sent(frame@),
            forall|k: int| i <= k < n ==> (#[trigger] players@[k]) == old(players)@[k],
        decreases n - i,
    {
        append_bytes(&mut players[i].stream.outbox, frame);
        i += 1;
    }
    assert(roster_view(players@) =~= told_all(roster_view(old(players)@), frame@));
}

} // verus!
