//! Channel registry: the two logical channels of the session, fixed at
//! session start and identical on client and server.
//!
//! The control channel is reliable and ordered so membership events are never
//! lost or reordered; the snapshot/input channel is unreliable because
//! continuous state is superseded by the next tick's broadcast anyway.

use vstd::prelude::*;

verus! {

/// Memory budget of the reliable control channel, in bytes (10 MiB).
pub const CONTROL_CHANNEL_BUDGET: u64 = 10485760;

/// Memory budget of the unreliable snapshot/input channel, in bytes (5 MiB).
pub const SNAPSHOT_CHANNEL_BUDGET: u64 = 5242880;

/// Resend interval for unacknowledged reliable fragments, in milliseconds.
pub const CONTROL_RESEND_MILLIS: u64 = 200;

/// Delivery policy of a channel.
#[derive(Clone, Copy, PartialEq, Eq, Structural, Debug)]
pub enum SendKind {
    /// Delivered exactly once, in send order; unacknowledged fragments are
    /// retransmitted after `resend_time_millis`.
    ReliableOrdered { resend_time_millis: u64 },
    /// Best effort: packets may be dropped or reordered, never retransmitted.
    Unreliable,
}

/// Static configuration of one logical channel.
#[derive(Clone, Copy, PartialEq, Eq, Structural, Debug)]
pub struct ChannelConfig {
    pub channel_id: u8,
    pub max_memory_usage_bytes: u64,
    pub send_type: SendKind,
}

/// Server-to-client channels.
#[derive(Clone, Copy, PartialEq, Eq, Structural, Debug)]
pub enum ServerChannel {
    /// Reliable ordered control channel for membership events.
    ServerMessages,
    /// Unreliable channel for per-tick snapshots.
    PlayerData,
}

/// Wire identifier of a server channel.
pub open spec fn server_channel_id(c: ServerChannel) -> u8 {
    match c {
        ServerChannel::ServerMessages => 0,
        ServerChannel::PlayerData => 1,
    }
}

impl From<ServerChannel> for u8 {
    fn from(channel_id: ServerChannel) -> (r: u8)
        ensures
            r == server_channel_id(channel_id),
    {
        match channel_id {
            ServerChannel::ServerMessages => 0,
            ServerChannel::PlayerData => 1,
        }
    }
}

impl vstd::std_specs::convert::FromSpecImpl<ServerChannel> for u8 {
    open spec fn obeys_from_spec() -> bool {
        true
    }

    open spec fn from_spec(t: ServerChannel) -> u8 {
        server_channel_id(t)
    }
}

impl ServerChannel {
    /// The two server channels: a reliable ordered control channel with a
    /// 10 MiB budget and 200 ms resend, and an unreliable snapshot channel.
    pub fn channels_config() -> (r: Vec<ChannelConfig>)
        ensures
            r@.len() == 2,
            r@[0] == (ChannelConfig {
                channel_id: server_channel_id(ServerChannel::ServerMessages),
                max_memory_usage_bytes: CONTROL_CHANNEL_BUDGET,
                send_type: SendKind::ReliableOrdered {
                    resend_time_millis: CONTROL_RESEND_MILLIS,
                },
            }),
            r@[1] == (ChannelConfig {
                channel_id: server_channel_id(ServerChannel::PlayerData),
                max_memory_usage_bytes: CONTROL_CHANNEL_BUDGET,
                send_type: SendKind::Unreliable,
            }),
    {
        let mut configs: Vec<ChannelConfig> = Vec::new();
        configs.push(
            ChannelConfig {
                channel_id: ServerChannel::ServerMessages.into(),
                max_memory_usage_bytes: CONTROL_CHANNEL_BUDGET,
                send_type: SendKind::ReliableOrdered {
                    resend_time_millis: CONTROL_RESEND_MILLIS,
                },
            },
        );
        configs.push(
            ChannelConfig {
                channel_id: ServerChannel::PlayerData.into(),
                max_memory_usage_bytes: CONTROL_CHANNEL_BUDGET,
                send_type: SendKind::Unreliable,
            },
        );
        configs
    }
}

/// Bytes the transport may spend per tick and connection.
pub const AVAILABLE_BYTES_PER_TICK: u64 = 1048576;

/// The transport configuration of one session: per-tick budget and the two
/// channel tables, identical on client and server.
pub struct ConnectionConfig {
    pub available_bytes_per_tick: u64,
    pub client_channels_config: Vec<ChannelConfig>,
    pub server_channels_config: Vec<ChannelConfig>,
}

/// The session's transport configuration.
pub fn make_connection_config() -> (r: ConnectionConfig)
    ensures
        r.available_bytes_per_tick == AVAILABLE_BYTES_PER_TICK,
        r.client_channels_config@.len() == 1,
        r.server_channels_config@.len() == 2,
        r.client_channels_config@[0].send_type == SendKind::Unreliable,
        r.server_channels_config@[0].send_type == (SendKind::ReliableOrdered {
            resend_time_millis: CONTROL_RESEND_MILLIS,
        }),
        r.server_channels_config@[1].send_type == SendKind::Unreliable,
{
    ConnectionConfig {
        available_bytes_per_tick: AVAILABLE_BYTES_PER_TICK,
        client_channels_config: ClientChannel::channels_config(),
        server_channels_config: ServerChannel::channels_config(),
    }
}

/// Client-to-server channels.
#[derive(Clone, Copy, PartialEq, Eq, Structural, Debug)]
pub enum ClientChannel {
    /// Unreliable input channel: the latest controller state supersedes any
    /// dropped packet on the next frame.
    Input,
}

/// Wire identifier of a client channel.
pub open spec fn client_channel_id(c: ClientChannel) -> u8 {
    match c {
        ClientChannel::Input => 0,
    }
}

impl From<ClientChannel> for u8 {
    fn from(channel_id: ClientChannel) -> (r: u8)
        ensures
            r == client_channel_id(channel_id),
    {
        match channel_id {
            ClientChannel::Input => 0,
        }
    }
}

impl vstd::std_specs::convert::FromSpecImpl<ClientChannel> for u8 {
    open spec fn obeys_from_spec() -> bool {
        true
    }

    open spec fn from_spec(t: ClientChannel) -> u8 {
        client_channel_id(t)
    }
}

impl ClientChannel {
    /// The single client channel: unreliable, 5 MiB budget, loss-tolerant
    /// because every frame resends the full controller state.
    pub fn channels_config() -> (r: Vec<ChannelConfig>)
        ensures
            r@.len() == 1,
            r@[0] == (ChannelConfig {
                channel_id: client_channel_id(ClientChannel::Input),
                max_memory_usage_bytes: SNAPSHOT_CHANNEL_BUDGET,
                send_type: SendKind::Unreliable,
            }),
    {
        let mut configs: Vec<ChannelConfig> = Vec::new();
        configs.push(
            ChannelConfig {
                channel_id: ClientChannel::Input.into(),
                max_memory_usage_bytes: SNAPSHOT_CHANNEL_BUDGET,
                send_type: SendKind::Unreliable,
            },
        );
        configs
    }
}

} // verus!
