//! Server authority: the canonical per-client state table, connection event
//! handling, per-tick input application and kinematic integration, and the
//! outbound-message queue flushed to the transport at a defined point of the
//! tick.
//!
//! The connection state machine is `Connected -> Active -> Disconnected`: a
//! connect event allocates default state, sends the full current snapshot to
//! the new client only, and announces the newcomer to everyone else; a
//! disconnect event removes the state and announces the removal; each tick
//! applies the latest buffered input per client (last-writer-wins), integrates
//! positions, and broadcasts the entire authoritative table.

use vstd::prelude::*;
use crate::channels::ServerChannel;
use crate::fixed::{Vec2i, coord_ok, clamp_spec, clamp_i64, COORD_LIMIT, SCALE};
use crate::idtable::{IdTable, has_id, val_of, distinct_ids, id_set, lemma_idx_of_unique};
use crate::messages::{
    ClientId, ClientMessage, PlayerController, RemotePlayerState, ServerMessage, ServerMessageView,
    controller_of,
};

verus! {

/// Player speed, in thousandths of a world unit per second.
pub const PLAYER_SPEED_MILLI: i64 = 15000;

/// Milliseconds in a second, as used by the kinematic update.
pub const MILLIS_PER_SECOND: i64 = 1000;

/// Upper bound on one tick's duration. A transport tick is a few dozen
/// milliseconds; a minute bounds the arithmetic comfortably.
pub const MAX_TICK_MILLIS: u64 = 60000;

/// Authoritative per-player record: the latest controller received from the
/// client, and the state the server integrates and replicates.
#[derive(Clone, Copy, PartialEq, Eq, Structural, Debug)]
pub struct ServerPlayer {
    pub controller: PlayerController,
    pub state: RemotePlayerState,
}

impl ServerPlayer {
    /// Controller and state in range.
    pub open spec fn ok(self) -> bool {
        self.controller.ok() && self.state.ok()
    }

    /// The record a player starts with: neutral controller at the origin.
    pub fn spawned() -> (r: ServerPlayer)
        ensures
            r == spawned_player(),
            r.ok(),
    {
        ServerPlayer { controller: PlayerController::neutral(), state: RemotePlayerState::origin() }
    }
}

/// The record a connect event allocates.
pub open spec fn spawned_player() -> ServerPlayer {
    ServerPlayer {
        controller: PlayerController { move_direction: Vec2i { x: 0, y: 0 }, target_angle: 0 },
        state: RemotePlayerState { position: Vec2i { x: 0, y: 0 }, angle: 0 },
    }
}

/// Who an outbound message is for.
#[derive(Clone, Copy, PartialEq, Eq, Structural, Debug)]
pub enum Destination {
    /// One client.
    To(ClientId),
    /// Every connected client.
    Broadcast,
    /// Every connected client but one.
    BroadcastExcept(ClientId),
}

/// One message queued for the transport, with its channel and destination.
/// Queuing instead of sending inline gives a deterministic send order.
#[derive(PartialEq, Eq, Debug)]
pub struct OutboundMessage {
    pub destination: Destination,
    pub channel: ServerChannel,
    pub message: ServerMessage,
}

/// Mathematical shape of an [`OutboundMessage`].
pub struct OutboundMessageView {
    pub destination: Destination,
    pub channel: ServerChannel,
    pub message: ServerMessageView,
}

impl View for OutboundMessage {
    type V = OutboundMessageView;

    open spec fn view(&self) -> OutboundMessageView {
        OutboundMessageView {
            destination: self.destination,
            channel: self.channel,
            message: self.message@,
        }
    }
}

/// The views of a queue of outbound messages, oldest first.
pub open spec fn outbox_views(s: Seq<OutboundMessage>) -> Seq<OutboundMessageView> {
    s.map_values(|m: OutboundMessage| m@)
}

/// Queuing one more message appends its view.
proof fn lemma_outbox_push(s: Seq<OutboundMessage>, x: OutboundMessage)
    ensures
        outbox_views(s.push(x)) == outbox_views(s).push(x@),
{
    assert(outbox_views(s.push(x)) =~= outbox_views(s).push(x@));
}

/// The snapshot rows of a lobby: each player's identity and replicated state,
/// in table order.
pub open spec fn snap_of(s: Seq<(u64, ServerPlayer)>) -> Seq<(u64, RemotePlayerState)> {
    s.map_values(|kv: (u64, ServerPlayer)| (kv.0, kv.1.state))
}

/// `snap_of` keeps keys, order and per-key states.
pub proof fn lemma_snap_of_ids(s: Seq<(u64, ServerPlayer)>)
    ensures
        snap_of(s).len() == s.len(),
        forall|i: int|
            0 <= i < s.len() ==> #[trigger] snap_of(s)[i] == (s[i].0, s[i].1.state),
        forall|k: u64| #[trigger] has_id(snap_of(s), k) == has_id(s, k),
        distinct_ids(s) == distinct_ids(snap_of(s)),
        id_set(snap_of(s)) == id_set(s),
        distinct_ids(s) ==> forall|k: u64|
            #[trigger] has_id(s, k) ==> val_of(snap_of(s), k) == val_of(s, k).state,
{
    let t = snap_of(s);
    assert forall|k: u64| #[trigger] has_id(t, k) == has_id(s, k) by {
        if has_id(s, k) {
            let i = crate::idtable::idx_of(s, k);
            assert(t[i].0 == k);
        }
        if has_id(t, k) {
            let i = crate::idtable::idx_of(t, k);
            assert(s[i].0 == k);
        }
    }
    assert(id_set(t) =~= id_set(s));
    if distinct_ids(s) {
        assert forall|i: int, j: int| 0 <= i < j < t.len() implies (#[trigger] t[i]).0 != (
        #[trigger] t[j]).0 by {
            assert(t[i].0 == s[i].0 && t[j].0 == s[j].0);
        }
        assert forall|k: u64| #[trigger] has_id(s, k) implies val_of(t, k) == val_of(
            s,
            k,
        ).state by {
            let i = crate::idtable::idx_of(s, k);
            lemma_idx_of_unique(s, i);
            assert(t[i] == (s[i].0, s[i].1.state));
            lemma_idx_of_unique(t, i);
        }
    }
    if distinct_ids(t) {
        assert forall|i: int, j: int| 0 <= i < j < s.len() implies (#[trigger] s[i]).0 != (
        #[trigger] s[j]).0 by {
            assert(t[i].0 == s[i].0 && t[j].0 == s[j].0);
        }
    }
}

/// One axis of the kinematic update `position += direction * speed * dt`,
/// clamped into the world bounds.
pub open spec fn step_spec(pos: i64, dir: i64, dt: u64) -> i64 {
    let delta = if dir >= 0 {
        dir * PLAYER_SPEED_MILLI * dt / (SCALE * MILLIS_PER_SECOND)
    } else {
        -((-dir) * PLAYER_SPEED_MILLI * dt / (SCALE * MILLIS_PER_SECOND))
    };
    clamp_spec((pos + delta) as i64, (-COORD_LIMIT) as i64, COORD_LIMIT)
}

/// The state one tick of integration gives a player: position stepped along
/// the latest input direction, facing snapped to the requested angle.
pub open spec fn integrate_spec(p: ServerPlayer, dt: u64) -> RemotePlayerState {
    RemotePlayerState {
        position: Vec2i {
            x: step_spec(p.state.position.x, p.controller.move_direction.x, dt),
            y: step_spec(p.state.position.y, p.controller.move_direction.y, dt),
        },
        angle: p.controller.target_angle,
    }
}

/// One axis of the kinematic update, executable.
fn step_axis(pos: i64, dir: i64, dt: u64) -> (r: i64)
    requires
        coord_ok(pos),
        -SCALE <= dir <= SCALE,
        dt <= MAX_TICK_MILLIS,
    ensures
        r == step_spec(pos, dir, dt),
        coord_ok(r),
{
    let magnitude: i64 = if dir >= 0 {
        dir
    } else {
        -dir
    };
    proof {
        let m = magnitude as int;
        let d = dt as int;
        assert(0 <= m * 15000 * d && m * 15000 * d <= 900000000000) by (nonlinear_arith)
            requires
                0 <= m <= 1000,
                0 <= d <= 60000,
        ;
    }
    let scaled: i64 = magnitude * PLAYER_SPEED_MILLI * (dt as i64);
    proof {
        vstd::arithmetic::div_mod::lemma_div_is_ordered(0, scaled as int, 1000000);
        vstd::arithmetic::div_mod::lemma_div_is_ordered(scaled as int, 900000000000, 1000000);
        vstd::arithmetic::div_mod::lemma_div_by_multiple(900000, 1000000);
    }
    let step: i64 = scaled / (SCALE * MILLIS_PER_SECOND);
    let moved: i64 = if dir >= 0 {
        pos + step
    } else {
        pos - step
    };
    clamp_i64(moved, -COORD_LIMIT, COORD_LIMIT)
}

/// Why an input message was not applied.
#[derive(Clone, Copy, PartialEq, Eq, Structural, Debug)]
pub enum InputOutcome {
    /// The controller was stored; the next tick applies it.
    Applied,
    /// The payload did not decode to a valid input message; it is dropped
    /// and the connection keeps going.
    Malformed,
    /// The sender has no lobby entry (a benign race around connection
    /// events); nothing is mutated.
    UnknownClient,
}

/// The authoritative simulation context: the lobby table and the outbound
/// queue. Passed explicitly to every event handler and to the tick.
pub struct ServerContext {
    lobby: IdTable<ServerPlayer>,
    outbox: Vec<OutboundMessage>,
}

impl ServerContext {
    /// The authoritative table, as a sequence of identity/record rows.
    pub closed spec fn lobby_seq(&self) -> Seq<(u64, ServerPlayer)> {
        self.lobby@
    }

    /// Views of the messages queued for the transport, oldest first.
    pub closed spec fn outbox_seq(&self) -> Seq<OutboundMessageView> {
        outbox_views(self.outbox@)
    }

    /// Lobby keys unique, every record in range.
    pub open spec fn wf(&self) -> bool {
        &&& distinct_ids(self.lobby_seq())
        &&& forall|i: int|
            0 <= i < self.lobby_seq().len() ==> (#[trigger] self.lobby_seq()[i]).1.ok()
    }

    /// The set of connected client identities.
    pub open spec fn client_ids(&self) -> Set<u64> {
        id_set(self.lobby_seq())
    }

    /// A fresh server with no clients and nothing queued.
    pub fn new() -> (r: ServerContext)
        ensures
            r.lobby_seq() == Seq::<(u64, ServerPlayer)>::empty(),
            r.outbox_seq() == Seq::<OutboundMessageView>::empty(),
            r.wf(),
    {
        let r = ServerContext { lobby: IdTable::new(), outbox: Vec::new() };
        proof {
            assert(r.outbox_seq() =~= Seq::<OutboundMessageView>::empty());
        }
        r
    }

    /// Number of connected clients.
    pub fn client_count(&self) -> (n: usize)
        ensures
            n == self.lobby_seq().len(),
    {
        self.lobby.len()
    }

    /// The record of one client, if connected.
    pub fn player(&self, client_id: ClientId) -> (r: Option<&ServerPlayer>)
        requires
            self.wf(),
        ensures
            match r {
                Some(p) => has_id(self.lobby_seq(), client_id) && *p == val_of(
                    self.lobby_seq(),
                    client_id,
                ),
                None => !has_id(self.lobby_seq(), client_id),
            },
    {
        self.lobby.get(client_id)
    }

    /// The full authoritative state table, as a snapshot payload.
    pub fn make_snapshot(&self) -> (r: Vec<(ClientId, RemotePlayerState)>)
        ensures
            r@ == snap_of(self.lobby_seq()),
    {
        let n = self.lobby.len();
        let mut out: Vec<(ClientId, RemotePlayerState)> = Vec::new();
        let mut i: usize = 0;
        while i < n
            invariant
                i <= n,
                n == self.lobby_seq().len(),
                out@.len() == i,
                forall|j: int|
                    0 <= j < i ==> #[trigger] out@[j] == (
                    self.lobby_seq()[j].0,
                    self.lobby_seq()[j].1.state,
                    ),
            decreases n - i,
        {
            let entry = self.lobby.entry_at(i);
            out.push((entry.0, entry.1.state));
            i = i + 1;
        }
        proof {
            lemma_snap_of_ids(self.lobby_seq());
            assert(out@ =~= snap_of(self.lobby_seq()));
        }
        out
    }

    /// Handle a connect event: allocate default state for the newcomer, send
    /// it the full current snapshot (itself included), and announce it to all
    /// other clients. A connect for an identity already present is a benign
    /// transport race: nothing is mutated and nothing is sent.
    pub fn handle_connect(&mut self, client_id: ClientId)
        requires
            old(self).wf(),
        ensures
            final(self).wf(),
            has_id(old(self).lobby_seq(), client_id) ==> *final(self) == *old(self),
            !has_id(old(self).lobby_seq(), client_id) ==> {
                &&& final(self).lobby_seq() == old(self).lobby_seq().push(
                    (client_id, spawned_player()),
                )
                &&& final(self).outbox_seq() == old(self).outbox_seq().push(
                    OutboundMessageView {
                        destination: Destination::To(client_id),
                        channel: ServerChannel::ServerMessages,
                        message: ServerMessageView::Players(snap_of(final(self).lobby_seq())),
                    },
                ).push(
                    OutboundMessageView {
                        destination: Destination::BroadcastExcept(client_id),
                        channel: ServerChannel::ServerMessages,
                        message: ServerMessageView::PlayerConnected {
                            client_id,
                            state: spawned_player().state,
                        },
                    },
                )
            },
    {
        if self.lobby.contains_id(client_id) {
            return ;
        }
        self.lobby.insert(client_id, ServerPlayer::spawned());
        proof {
            let s1 = self.lobby_seq();
            assert forall|i: int| 0 <= i < s1.len() implies (#[trigger] s1[i]).1.ok() by {
                if i < s1.len() - 1 {
                    assert(s1[i] == old(self).lobby_seq()[i]);
                }
            }
        }
        let snapshot = self.make_snapshot();
        let ghost q0 = self.outbox@;
        let first = OutboundMessage {
            destination: Destination::To(client_id),
            channel: ServerChannel::ServerMessages,
            message: ServerMessage::Players(snapshot),
        };
        self.outbox.push(first);
        proof {
            lemma_outbox_push(q0, first);
        }
        let ghost q1 = self.outbox@;
        let announced = ServerPlayer::spawned();
        let second = OutboundMessage {
            destination: Destination::BroadcastExcept(client_id),
            channel: ServerChannel::ServerMessages,
            message: ServerMessage::PlayerConnected { client_id, state: announced.state },
        };
        self.outbox.push(second);
        proof {
            lemma_outbox_push(q1, second);
        }
    }

    /// Handle a disconnect event: drop the client's state and announce the
    /// removal to everyone left. A disconnect for an unknown identity is a
    /// benign race: nothing is mutated and nothing is sent.
    pub fn handle_disconnect(&mut self, client_id: ClientId)
        requires
            old(self).wf(),
        ensures
            final(self).wf(),
            !has_id(old(self).lobby_seq(), client_id) ==> *final(self) == *old(self),
            has_id(old(self).lobby_seq(), client_id) ==> {
                &&& !has_id(final(self).lobby_seq(), client_id)
                &&& final(self).lobby_seq().len() == old(self).lobby_seq().len() - 1
                &&& forall|k: u64|
                    k != client_id ==> #[trigger] has_id(final(self).lobby_seq(), k) == has_id(
                        old(self).lobby_seq(),
                        k,
                    )
                &&& forall|k: u64|
                    k != client_id && has_id(old(self).lobby_seq(), k) ==> #[trigger] val_of(
                        final(self).lobby_seq(),
                        k,
                    ) == val_of(old(self).lobby_seq(), k)
                &&& final(self).outbox_seq() == old(self).outbox_seq().push(
                    OutboundMessageView {
                        destination: Destination::Broadcast,
                        channel: ServerChannel::ServerMessages,
                        message: ServerMessageView::PlayerDisconnected { client_id },
                    },
                )
            },
    {
        if !self.lobby.contains_id(client_id) {
            return ;
        }
        let ghost s0 = self.lobby_seq();
        self.lobby.remove(client_id);
        proof {
            let s1 = self.lobby_seq();
            assert forall|i: int| 0 <= i < s1.len() implies (#[trigger] s1[i]).1.ok() by {
                lemma_idx_of_unique(s1, i);
                let k = s1[i].0;
                assert(has_id(s1, k));
                assert(k != client_id);
                assert(has_id(s0, k));
                assert(val_of(s1, k) == val_of(s0, k));
                lemma_idx_of_unique(s0, crate::idtable::idx_of(s0, k));
            }
        }
        let ghost q0 = self.outbox@;
        let note = OutboundMessage {
            destination: Destination::Broadcast,
            channel: ServerChannel::ServerMessages,
            message: ServerMessage::PlayerDisconnected { client_id },
        };
        self.outbox.push(note);
        proof {
            lemma_outbox_push(q0, note);
        }
    }

    /// Store a client's controller message. Within a tick the latest stored
    /// controller wins; the tick applies it. A message from an identity with
    /// no lobby entry is ignored (a benign race around connection events).
    pub fn handle_input(&mut self, client_id: ClientId, message: &ClientMessage) -> (outcome:
        InputOutcome)
        requires
            old(self).wf(),
            message.ok(),
        ensures
            final(self).wf(),
            final(self).outbox_seq() == old(self).outbox_seq(),
            outcome != InputOutcome::Malformed,
            outcome == InputOutcome::UnknownClient <==> !has_id(
                old(self).lobby_seq(),
                client_id,
            ),
            outcome == InputOutcome::UnknownClient ==> *final(self) == *old(self),
            outcome == InputOutcome::Applied ==> {
                &&& has_id(final(self).lobby_seq(), client_id)
                &&& val_of(final(self).lobby_seq(), client_id) == (ServerPlayer {
                    controller: controller_of(*message),
                    state: val_of(old(self).lobby_seq(), client_id).state,
                })
                &&& final(self).lobby_seq().len() == old(self).lobby_seq().len()
                &&& forall|k: u64|
                    #[trigger] has_id(final(self).lobby_seq(), k) == has_id(
                        old(self).lobby_seq(),
                        k,
                    )
                &&& forall|k: u64|
                    k != client_id && has_id(old(self).lobby_seq(), k) ==> #[trigger] val_of(
                        final(self).lobby_seq(),
                        k,
                    ) == val_of(old(self).lobby_seq(), k)
            },
    {
        let current_state = match self.lobby.get(client_id) {
            Some(p) => p.state,
            None => {
                return InputOutcome::UnknownClient;
            },
        };
        let controller = match message {
            ClientMessage::Controller(c) => *c,
        };
        let updated = ServerPlayer { controller, state: current_state };
        let ghost s0 = self.lobby_seq();
        self.lobby.insert(client_id, updated);
        proof {
            let s1 = self.lobby_seq();
            assert forall|i: int| 0 <= i < s1.len() implies (#[trigger] s1[i]).1.ok() by {
                lemma_idx_of_unique(s1, i);
                let k = s1[i].0;
                assert(has_id(s1, k));
                if k == client_id {
                    assert(s1[i].1 == val_of(s1, client_id));
                } else {
                    assert(has_id(s0, k));
                    assert(val_of(s1, k) == val_of(s0, k));
                    lemma_idx_of_unique(s0, crate::idtable::idx_of(s0, k));
                }
            }
            assert forall|k: u64| #[trigger] has_id(s1, k) == has_id(s0, k) by {
                if k == client_id {
                    assert(has_id(s0, client_id));
                }
            }
        }
        InputOutcome::Applied
    }

    /// Receive one raw input payload from a client: decode it and store the
    /// controller. A payload that does not decode to a valid input message is
    /// dropped without terminating the connection; an unknown sender is
    /// ignored as a benign race; nothing else is mutated in either case.
    pub fn handle_raw_input(&mut self, client_id: ClientId, bytes: &Vec<u8>) -> (outcome:
        InputOutcome)
        requires
            old(self).wf(),
        ensures
            final(self).wf(),
            final(self).outbox_seq() == old(self).outbox_seq(),
            outcome == InputOutcome::Malformed <==> crate::codec::dec_client(bytes@) is None,
            outcome == InputOutcome::Malformed ==> *final(self) == *old(self),
            crate::codec::dec_client(bytes@) matches Some(m) ==> {
                &&& (outcome == InputOutcome::UnknownClient <==> !has_id(
                    old(self).lobby_seq(),
                    client_id,
                ))
                &&& outcome == InputOutcome::UnknownClient ==> *final(self) == *old(self)
                &&& outcome == InputOutcome::Applied ==> {
                    &&& has_id(final(self).lobby_seq(), client_id)
                    &&& val_of(final(self).lobby_seq(), client_id) == (ServerPlayer {
                        controller: controller_of(m),
                        state: val_of(old(self).lobby_seq(), client_id).state,
                    })
                    &&& forall|k: u64|
                        #[trigger] has_id(final(self).lobby_seq(), k) == has_id(
                            old(self).lobby_seq(),
                            k,
                        )
                    &&& forall|k: u64|
                        k != client_id && has_id(old(self).lobby_seq(), k) ==> #[trigger] val_of(
                            final(self).lobby_seq(),
                            k,
                        ) == val_of(old(self).lobby_seq(), k)
                }
            },
    {
        let message = match crate::codec::decode_client_message(bytes) {
            Some(m) => m,
            None => {
                return InputOutcome::Malformed;
            },
        };
        self.handle_input(client_id, &message)
    }

    /// Advance the simulation one tick: integrate every player's position
    /// along its latest input, snap its facing angle, and queue the full
    /// authoritative table as one snapshot broadcast on the unreliable
    /// channel.
    pub fn tick(&mut self, dt_millis: u64)
        requires
            old(self).wf(),
            dt_millis <= MAX_TICK_MILLIS,
        ensures
            final(self).wf(),
            final(self).lobby_seq().len() == old(self).lobby_seq().len(),
            forall|i: int|
                0 <= i < old(self).lobby_seq().len() ==> #[trigger] final(self).lobby_seq()[i]
                    == (
                old(self).lobby_seq()[i].0,
                ServerPlayer {
                    controller: old(self).lobby_seq()[i].1.controller,
                    state: integrate_spec(old(self).lobby_seq()[i].1, dt_millis),
                },
                ),
            final(self).outbox_seq() == old(self).outbox_seq().push(
                OutboundMessageView {
                    destination: Destination::Broadcast,
                    channel: ServerChannel::PlayerData,
                    message: ServerMessageView::Players(snap_of(final(self).lobby_seq())),
                },
            ),
    {
        let n = self.lobby.len();
        let mut i: usize = 0;
        while i < n
            invariant
                i <= n,
                old(self).wf(),
                dt_millis <= MAX_TICK_MILLIS,
                n == old(self).lobby_seq().len(),
                self.lobby_seq().len() == n,
                self.outbox@ == old(self).outbox@,
                forall|j: int|
                    i <= j < n ==> #[trigger] self.lobby_seq()[j] == old(self).lobby_seq()[j],
                forall|j: int|
                    0 <= j < i ==> #[trigger] self.lobby_seq()[j] == (
                    old(self).lobby_seq()[j].0,
                    ServerPlayer {
                        controller: old(self).lobby_seq()[j].1.controller,
                        state: integrate_spec(old(self).lobby_seq()[j].1, dt_millis),
                    },
                    ),
                distinct_ids(self.lobby_seq()),
            decreases n - i,
        {
            let entry = self.lobby.entry_at(i);
            let player = entry.1;
            let next_state = RemotePlayerState {
                position: Vec2i {
                    x: step_axis(
                        player.state.position.x,
                        player.controller.move_direction.x,
                        dt_millis,
                    ),
                    y: step_axis(
                        player.state.position.y,
                        player.controller.move_direction.y,
                        dt_millis,
                    ),
                },
                angle: player.controller.target_angle,
            };
            let updated = ServerPlayer { controller: player.controller, state: next_state };
            self.lobby.update_at(i, updated);
            i = i + 1;
        }
        proof {
            let s1 = self.lobby_seq();
            assert forall|j: int| 0 <= j < s1.len() implies (#[trigger] s1[j]).1.ok() by {}
        }
        let snapshot = self.make_snapshot();
        let ghost q0 = self.outbox@;
        let broadcast_msg = OutboundMessage {
            destination: Destination::Broadcast,
            channel: ServerChannel::PlayerData,
            message: ServerMessage::Players(snapshot),
        };
        self.outbox.push(broadcast_msg);
        proof {
            lemma_outbox_push(q0, broadcast_msg);
        }
    }

    /// Hand every queued message to the transport layer, oldest first,
    /// leaving the queue empty.
    pub fn take_outbox(&mut self) -> (r: Vec<OutboundMessage>)
        ensures
            outbox_views(r@) == old(self).outbox_seq(),
            final(self).outbox_seq() == Seq::<OutboundMessageView>::empty(),
            final(self).lobby_seq() == old(self).lobby_seq(),
    {
        let mut drained: Vec<OutboundMessage> = Vec::new();
        core::mem::swap(&mut drained, &mut self.outbox);
        proof {
            assert(self.outbox_seq() =~= Seq::<OutboundMessageView>::empty());
        }
        drained
    }
}

} // verus!
