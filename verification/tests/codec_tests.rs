use netsync::codec::{decode_client_message, decode_server_message, encode_client_message,
    encode_server_message};
use netsync::fixed::{Vec2i, COORD_LIMIT};
use netsync::messages::{ClientMessage, PlayerController, RemotePlayerState, ServerMessage};

fn state(x: i64, y: i64, angle: i64) -> RemotePlayerState {
    RemotePlayerState { position: Vec2i { x, y }, angle }
}

#[test]
fn disconnected_message_exact_bytes() {
    let m = ServerMessage::PlayerDisconnected { client_id: 5 };
    let bytes = encode_server_message(&m);
    assert_eq!(bytes, vec![2u8, 5, 0, 0, 0, 0, 0, 0, 0]);
}

#[test]
fn connected_round_trip() {
    let m = ServerMessage::PlayerConnected {
        client_id: 0xDEAD_BEEF_0102_0304,
        state: state(-12345, 67890, -1570),
    };
    let bytes = encode_server_message(&m);
    assert_eq!(bytes.len(), 36);
    assert_eq!(decode_server_message(&bytes), Some(m));
}

#[test]
fn disconnected_round_trip() {
    let m = ServerMessage::PlayerDisconnected { client_id: u64::MAX };
    let bytes = encode_server_message(&m);
    assert_eq!(decode_server_message(&bytes), Some(m));
}

#[test]
fn snapshot_round_trip() {
    let m = ServerMessage::Players(vec![
        (1, state(0, 0, 0)),
        (2, state(15000, -15000, 785)),
        (99, state(COORD_LIMIT, -COORD_LIMIT, COORD_LIMIT)),
    ]);
    let bytes = encode_server_message(&m);
    assert_eq!(bytes.len(), 1 + 8 + 3 * 35);
    assert_eq!(decode_server_message(&bytes), Some(m));
}

#[test]
fn empty_snapshot_round_trip() {
    let m = ServerMessage::Players(Vec::new());
    let bytes = encode_server_message(&m);
    assert_eq!(bytes, vec![3u8, 0, 0, 0, 0, 0, 0, 0, 0]);
    assert_eq!(decode_server_message(&bytes), Some(m));
}

#[test]
fn client_message_round_trip() {
    let m = ClientMessage::Controller(PlayerController {
        move_direction: Vec2i { x: -600, y: 800 },
        target_angle: 3141,
    });
    let bytes = encode_client_message(&m);
    assert_eq!(bytes.len(), 28);
    assert_eq!(decode_client_message(&bytes), Some(m));
}

#[test]
fn empty_payload_is_rejected() {
    assert_eq!(decode_server_message(&Vec::new()), None);
    assert_eq!(decode_client_message(&Vec::new()), None);
}

#[test]
fn unknown_tag_is_rejected() {
    let mut bytes = encode_server_message(&ServerMessage::PlayerDisconnected { client_id: 1 });
    bytes[0] = 77;
    assert_eq!(decode_server_message(&bytes), None);
}

#[test]
fn truncated_payload_is_rejected() {
    let m = ServerMessage::PlayerConnected { client_id: 7, state: state(1, 2, 3) };
    let mut bytes = encode_server_message(&m);
    bytes.pop();
    assert_eq!(decode_server_message(&bytes), None);
}

#[test]
fn trailing_bytes_are_rejected() {
    let m = ServerMessage::Players(vec![(4, state(5, 6, 7))]);
    let mut bytes = encode_server_message(&m);
    bytes.push(0);
    assert_eq!(decode_server_message(&bytes), None);
}

#[test]
fn snapshot_with_wrong_count_is_rejected() {
    let m = ServerMessage::Players(vec![(4, state(5, 6, 7)), (8, state(9, 10, 11))]);
    let mut bytes = encode_server_message(&m);
    bytes[1] = 1;
    assert_eq!(decode_server_message(&bytes), None);
}

#[test]
fn duplicate_snapshot_identity_is_rejected() {
    let m = ServerMessage::Players(vec![(4, state(5, 6, 7)), (4, state(9, 10, 11))]);
    let bytes = encode_server_message(&m);
    assert_eq!(decode_server_message(&bytes), None);
}

#[test]
fn out_of_range_coordinate_is_rejected() {
    let mut bytes = vec![1u8];
    bytes.extend_from_slice(&[0u8; 8]);
    bytes.push(0);
    bytes.extend_from_slice(&(COORD_LIMIT as u64 + 1).to_le_bytes());
    bytes.extend_from_slice(&[0u8; 9]);
    bytes.extend_from_slice(&[0u8; 9]);
    assert_eq!(bytes.len(), 36);
    assert_eq!(decode_server_message(&bytes), None);

    let mut fine = vec![1u8];
    fine.extend_from_slice(&[0u8; 8]);
    fine.push(0);
    fine.extend_from_slice(&(COORD_LIMIT as u64).to_le_bytes());
    fine.extend_from_slice(&[0u8; 9]);
    fine.extend_from_slice(&[0u8; 9]);
    assert!(decode_server_message(&fine).is_some());
}

#[test]
fn bad_sign_byte_is_rejected() {
    let m = ClientMessage::Controller(PlayerController {
        move_direction: Vec2i { x: 1, y: 1 },
        target_angle: 0,
    });
    let mut bytes = encode_client_message(&m);
    bytes[1] = 2;
    assert_eq!(decode_client_message(&bytes), None);
}

#[test]
fn overlong_direction_is_rejected() {
    let m = ClientMessage::Controller(PlayerController {
        move_direction: Vec2i { x: 1000, y: 0 },
        target_angle: 0,
    });
    let mut bytes = encode_client_message(&m);
    assert!(decode_client_message(&bytes).is_some());
    bytes[10] = 1;
    bytes[11] = 232;
    bytes[12] = 3;
    assert_eq!(decode_client_message(&bytes), None);
}

#[test]
fn negative_zero_decodes_to_zero() {
    let m = ClientMessage::Controller(PlayerController {
        move_direction: Vec2i { x: 0, y: 0 },
        target_angle: 0,
    });
    let mut bytes = encode_client_message(&m);
    bytes[1] = 1;
    assert_eq!(
        decode_client_message(&bytes),
        Some(ClientMessage::Controller(PlayerController {
            move_direction: Vec2i { x: 0, y: 0 },
            target_angle: 0,
        }))
    );
}
