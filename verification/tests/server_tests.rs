use netsync::channels::ServerChannel;
use netsync::codec::encode_client_message;
use netsync::fixed::{Vec2i, COORD_LIMIT};
use netsync::messages::{ClientMessage, PlayerController, RemotePlayerState, ServerMessage};
use netsync::server::{Destination, InputOutcome, ServerContext};

const A: u64 = 10;
const B: u64 = 20;

fn controller(dx: i64, dy: i64, angle: i64) -> ClientMessage {
    ClientMessage::Controller(PlayerController {
        move_direction: Vec2i { x: dx, y: dy },
        target_angle: angle,
    })
}

#[test]
fn connect_sends_snapshot_to_newcomer_and_announces_to_the_rest() {
    let mut server = ServerContext::new();
    server.handle_connect(A);
    let out = server.take_outbox();
    assert_eq!(out.len(), 2);

    assert_eq!(out[0].destination, Destination::To(A));
    assert_eq!(out[0].channel, ServerChannel::ServerMessages);
    match &out[0].message {
        ServerMessage::Players(players) => {
            assert_eq!(players.len(), 1);
            assert_eq!(players[0].0, A);
            assert_eq!(players[0].1.position, Vec2i { x: 0, y: 0 });
        },
        other => panic!("expected a snapshot, got {:?}", other),
    }

    assert_eq!(out[1].destination, Destination::BroadcastExcept(A));
    match &out[1].message {
        ServerMessage::PlayerConnected { client_id, state } => {
            assert_eq!(*client_id, A);
            assert_eq!(state.position, Vec2i { x: 0, y: 0 });
        },
        other => panic!("expected a connection announcement, got {:?}", other),
    }
}

#[test]
fn duplicate_connect_is_ignored() {
    let mut server = ServerContext::new();
    server.handle_connect(A);
    server.take_outbox();
    server.handle_connect(A);
    assert_eq!(server.client_count(), 1);
    assert_eq!(server.take_outbox().len(), 0);
}

#[test]
fn disconnect_removes_state_and_broadcasts() {
    let mut server = ServerContext::new();
    server.handle_connect(A);
    server.handle_connect(B);
    server.take_outbox();

    server.handle_disconnect(A);
    assert_eq!(server.client_count(), 1);
    assert!(server.player(A).is_none());
    assert!(server.player(B).is_some());

    let out = server.take_outbox();
    assert_eq!(out.len(), 1);
    assert_eq!(out[0].destination, Destination::Broadcast);
    assert_eq!(out[0].message, ServerMessage::PlayerDisconnected { client_id: A });
}

#[test]
fn unknown_disconnect_is_ignored() {
    let mut server = ServerContext::new();
    server.handle_disconnect(A);
    assert_eq!(server.take_outbox().len(), 0);
}

#[test]
fn tick_integrates_position_from_latest_input() {
    let mut server = ServerContext::new();
    server.handle_connect(A);
    let outcome = server.handle_input(A, &controller(1000, 0, 700));
    assert_eq!(outcome, InputOutcome::Applied);
    server.take_outbox();

    server.tick(1000);
    let player = server.player(A).unwrap();
    assert_eq!(player.state.position, Vec2i { x: 15000, y: 0 });
    assert_eq!(player.state.angle, 700);

    let out = server.take_outbox();
    assert_eq!(out.len(), 1);
    assert_eq!(out[0].destination, Destination::Broadcast);
    assert_eq!(out[0].channel, ServerChannel::PlayerData);
    match &out[0].message {
        ServerMessage::Players(players) => {
            assert_eq!(players.len(), 1);
            assert_eq!(players[0].1.position, Vec2i { x: 15000, y: 0 });
        },
        other => panic!("expected a snapshot, got {:?}", other),
    }
}

#[test]
fn last_input_wins_within_a_tick() {
    let mut server = ServerContext::new();
    server.handle_connect(A);
    server.handle_input(A, &controller(1000, 0, 0));
    server.handle_input(A, &controller(0, -1000, 0));
    server.tick(2000);
    let player = server.player(A).unwrap();
    assert_eq!(player.state.position, Vec2i { x: 0, y: -30000 });
}

#[test]
fn position_is_clamped_at_the_world_bound() {
    let mut server = ServerContext::new();
    server.handle_connect(A);
    server.handle_input(A, &controller(1000, 0, 0));
    for _ in 0..5 {
        server.tick(60000);
    }
    let player = server.player(A).unwrap();
    assert!(player.state.position.x <= COORD_LIMIT);
}

#[test]
fn input_for_unknown_client_is_ignored() {
    let mut server = ServerContext::new();
    let outcome = server.handle_input(A, &controller(1000, 0, 0));
    assert_eq!(outcome, InputOutcome::UnknownClient);
    assert_eq!(server.client_count(), 0);
}

#[test]
fn malformed_input_payload_is_dropped() {
    let mut server = ServerContext::new();
    server.handle_connect(A);
    server.take_outbox();

    let outcome = server.handle_raw_input(A, &vec![9, 9, 9]);
    assert_eq!(outcome, InputOutcome::Malformed);
    assert_eq!(server.client_count(), 1);
    assert_eq!(server.take_outbox().len(), 0);
}

#[test]
fn well_formed_input_payload_is_applied() {
    let mut server = ServerContext::new();
    server.handle_connect(A);
    let bytes = encode_client_message(&controller(0, 1000, 0));
    let outcome = server.handle_raw_input(A, &bytes);
    assert_eq!(outcome, InputOutcome::Applied);
    server.tick(1000);
    assert_eq!(server.player(A).unwrap().state.position, Vec2i { x: 0, y: 15000 });
}

#[test]
fn idle_player_stays_put() {
    let mut server = ServerContext::new();
    server.handle_connect(A);
    server.tick(1000);
    assert_eq!(server.player(A).unwrap().state.position, Vec2i { x: 0, y: 0 });
}
