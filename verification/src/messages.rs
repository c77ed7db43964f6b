//! Wire message types shared by server and client.
//!
//! Control-channel payloads announce membership changes; the snapshot payload
//! carries the full authoritative state table each tick; the input payload
//! carries one client's latest controller state.

use vstd::prelude::*;
use crate::fixed::{Vec2i, coord_ok, SCALE};
use crate::idtable::distinct_ids;

verus! {

/// Identifier the transport assigns to a connection; stable for the
/// connection's lifetime and never reused while it is open.
pub type ClientId = u64;

/// Server-assigned persistent handle for a replicated entity, used as the
/// diff key across snapshots.
#[derive(Clone, Copy, PartialEq, Eq, Structural, Hash, Debug, Default)]
pub struct NetworkId(pub u32);

/// Read-only copy of a player's authoritative attributes, as replicated to
/// clients in snapshots and connection announcements.
#[derive(Clone, Copy, PartialEq, Eq, Structural, Debug)]
pub struct RemotePlayerState {
    /// Authoritative position, in thousandths of a world unit.
    pub position: Vec2i,
    /// Facing angle, in thousandths of a radian.
    pub angle: i64,
}

impl RemotePlayerState {
    /// All fields within the transmissible range.
    pub open spec fn ok(self) -> bool {
        self.position.ok() && coord_ok(self.angle)
    }

    /// The default state a player starts in: the origin, facing angle zero.
    pub fn origin() -> (r: RemotePlayerState)
        ensures
            r == (RemotePlayerState { position: Vec2i { x: 0, y: 0 }, angle: 0 }),
            r.ok(),
    {
        RemotePlayerState { position: Vec2i { x: 0, y: 0 }, angle: 0 }
    }
}

/// A client's controller state: the direction it is trying to move and the
/// angle it is trying to face.
#[derive(Clone, Copy, PartialEq, Eq, Structural, Debug)]
pub struct PlayerController {
    /// Direction the player is trying to move, in thousandths: the magnitude
    /// must be at most one world unit per unit of speed.
    pub move_direction: Vec2i,
    /// Angle the player is trying to face towards, in thousandths of a radian.
    pub target_angle: i64,
}

impl PlayerController {
    /// Direction magnitude at most 1 (in fixed point: the squared length of
    /// `move_direction` is at most `SCALE` squared) and the angle in range.
    pub open spec fn ok(self) -> bool {
        &&& -SCALE <= self.move_direction.x <= SCALE
        &&& -SCALE <= self.move_direction.y <= SCALE
        &&& self.move_direction.x * self.move_direction.x + self.move_direction.y
            * self.move_direction.y <= SCALE * SCALE
        &&& coord_ok(self.target_angle)
    }

    /// The neutral controller: no movement, facing angle zero.
    pub fn neutral() -> (r: PlayerController)
        ensures
            r == (PlayerController { move_direction: Vec2i { x: 0, y: 0 }, target_angle: 0 }),
            r.ok(),
    {
        PlayerController { move_direction: Vec2i { x: 0, y: 0 }, target_angle: 0 }
    }
}

/// Server-to-client messages.
#[derive(PartialEq, Eq, Debug)]
pub enum ServerMessage {
    /// Announces a new peer on the control channel, carrying its initial
    /// state so every client converges without waiting for the next snapshot.
    PlayerConnected { client_id: ClientId, state: RemotePlayerState },
    /// Announces a departed peer on the control channel.
    PlayerDisconnected { client_id: ClientId },
    /// Full authoritative state table, broadcast on the snapshot channel
    /// every tick. Keys are unique; insertion order carries no meaning.
    Players(Vec<(ClientId, RemotePlayerState)>),
}

impl ServerMessage {
    /// States in range, and snapshot keys unique.
    pub open spec fn ok(self) -> bool {
        self@.ok()
    }
}

/// Mathematical shape of a [`ServerMessage`]: the snapshot payload is a
/// sequence instead of a vector, so contracts can speak of it directly.
pub enum ServerMessageView {
    PlayerConnected { client_id: ClientId, state: RemotePlayerState },
    PlayerDisconnected { client_id: ClientId },
    Players(Seq<(ClientId, RemotePlayerState)>),
}

impl ServerMessageView {
    /// States in range, snapshot keys unique, and the population small enough
    /// for the wire format's row count.
    pub open spec fn ok(self) -> bool {
        match self {
            ServerMessageView::PlayerConnected { client_id, state } => state.ok(),
            ServerMessageView::PlayerDisconnected { client_id } => true,
            ServerMessageView::Players(players) => {
                &&& players.len() <= u64::MAX
                &&& distinct_ids(players)
                &&& forall|i: int| 0 <= i < players.len() ==> (#[trigger] players[i]).1.ok()
            },
        }
    }
}

impl View for ServerMessage {
    type V = ServerMessageView;

    open spec fn view(&self) -> ServerMessageView {
        match self {
            ServerMessage::PlayerConnected { client_id, state } => {
                ServerMessageView::PlayerConnected { client_id: *client_id, state: *state }
            },
            ServerMessage::PlayerDisconnected { client_id } => {
                ServerMessageView::PlayerDisconnected { client_id: *client_id }
            },
            ServerMessage::Players(players) => ServerMessageView::Players(players@),
        }
    }
}

/// Client-to-server messages.
#[derive(PartialEq, Eq, Debug)]
pub enum ClientMessage {
    /// The client's latest controller state; sent every frame with
    /// latest-state-wins semantics.
    Controller(PlayerController),
}

impl ClientMessage {
    /// Controller fields in range.
    pub open spec fn ok(self) -> bool {
        match self {
            ClientMessage::Controller(c) => c.ok(),
        }
    }
}

/// The controller a [`ClientMessage`] carries.
pub open spec fn controller_of(m: ClientMessage) -> PlayerController {
    match m {
        ClientMessage::Controller(c) => c,
    }
}

} // verus!
