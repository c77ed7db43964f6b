use netsync::channels::{ChannelConfig, ClientChannel, SendKind, ServerChannel,
    CONTROL_CHANNEL_BUDGET, CONTROL_RESEND_MILLIS, SNAPSHOT_CHANNEL_BUDGET};

#[test]
fn server_channel_ids() {
    assert_eq!(u8::from(ServerChannel::ServerMessages), 0);
    assert_eq!(u8::from(ServerChannel::PlayerData), 1);
}

#[test]
fn client_channel_ids() {
    assert_eq!(u8::from(ClientChannel::Input), 0);
}

#[test]
fn server_channels_config_is_control_plus_snapshot() {
    let configs = ServerChannel::channels_config();
    assert_eq!(configs.len(), 2);
    assert_eq!(
        configs[0],
        ChannelConfig {
            channel_id: 0,
            max_memory_usage_bytes: CONTROL_CHANNEL_BUDGET,
            send_type: SendKind::ReliableOrdered { resend_time_millis: CONTROL_RESEND_MILLIS },
        }
    );
    assert_eq!(
        configs[1],
        ChannelConfig {
            channel_id: 1,
            max_memory_usage_bytes: CONTROL_CHANNEL_BUDGET,
            send_type: SendKind::Unreliable,
        }
    );
}

#[test]
fn channel_budgets_and_resend_interval() {
    assert_eq!(CONTROL_CHANNEL_BUDGET, 10 * 1024 * 1024);
    assert_eq!(SNAPSHOT_CHANNEL_BUDGET, 5 * 1024 * 1024);
    assert_eq!(CONTROL_RESEND_MILLIS, 200);
}

#[test]
fn client_channels_config_is_one_unreliable_input_channel() {
    let configs = ClientChannel::channels_config();
    assert_eq!(configs.len(), 1);
    assert_eq!(
        configs[0],
        ChannelConfig {
            channel_id: 0,
            max_memory_usage_bytes: SNAPSHOT_CHANNEL_BUDGET,
            send_type: SendKind::Unreliable,
        }
    );
}
