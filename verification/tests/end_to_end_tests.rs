//! The full connect/announce/disconnect scenario, run over encoded packets.

use netsync::client::ClientContext;
use netsync::codec::encode_server_message;
use netsync::fixed::Vec2i;
use netsync::messages::ServerMessage;
use netsync::server::{Destination, OutboundMessage, ServerContext};

const A: u64 = 1;
const B: u64 = 2;

/// Hand one outbound message to the clients its destination names, as the
/// transport would, encoding and decoding it on the way.
fn deliver(out: &OutboundMessage, clients: &mut [(u64, &mut ClientContext)]) {
    let bytes = encode_server_message(&out.message);
    for (id, client) in clients.iter_mut() {
        let wanted = match out.destination {
            Destination::To(dest) => dest == *id,
            Destination::Broadcast => true,
            Destination::BroadcastExcept(except) => except != *id,
        };
        if wanted {
            client.apply_packet(&bytes).expect("a delivered packet always decodes");
        }
    }
}

#[test]
fn connect_announce_and_disconnect_converge() {
    let mut server = ServerContext::new();
    let mut client_a = ClientContext::new();
    let mut client_b = ClientContext::new();

    // Client A connects and receives the full snapshot: itself at the origin.
    // Only A is connected, so only A can be delivered to.
    server.handle_connect(A);
    for out in server.take_outbox() {
        deliver(&out, &mut [(A, &mut client_a)]);
    }
    assert!(client_a.is_known(A));
    assert_eq!(client_a.known_state(A).unwrap().position, Vec2i { x: 0, y: 0 });
    assert_eq!(client_a.known_count(), 1);
    assert_eq!(client_b.known_count(), 0);

    // Client B connects: A hears the announcement, B gets the full snapshot.
    server.handle_connect(B);
    for out in server.take_outbox() {
        deliver(&out, &mut [(A, &mut client_a), (B, &mut client_b)]);
    }
    assert!(client_a.is_known(A) && client_a.is_known(B));
    assert!(client_b.is_known(A) && client_b.is_known(B));
    assert_eq!(client_a.known_count(), 2);
    assert_eq!(client_b.known_count(), 2);

    // B disconnects: A removes B's entity within one drain cycle.
    server.handle_disconnect(B);
    let out = server.take_outbox();
    assert_eq!(out.len(), 1);
    assert_eq!(out[0].message, ServerMessage::PlayerDisconnected { client_id: B });
    deliver(&out[0], &mut [(A, &mut client_a)]);
    assert!(!client_a.is_known(B));
    assert!(client_a.is_known(A));
    assert_eq!(client_a.known_count(), 1);
}

#[test]
fn every_client_converges_after_a_tick_broadcast() {
    let mut server = ServerContext::new();
    let mut client_a = ClientContext::new();
    let mut client_b = ClientContext::new();

    server.handle_connect(A);
    server.handle_connect(B);
    server.handle_disconnect(A);
    server.take_outbox();

    // Neither client saw any of the above; one tick broadcast heals both.
    server.tick(50);
    for out in server.take_outbox() {
        deliver(&out, &mut [(A, &mut client_a), (B, &mut client_b)]);
    }
    assert!(!client_a.is_known(A) && client_a.is_known(B));
    assert!(!client_b.is_known(A) && client_b.is_known(B));
    assert_eq!(client_a.known_state(B), client_b.known_state(B));
}

#[test]
fn garbage_packet_leaves_the_client_unchanged() {
    let mut client = ClientContext::new();
    client.apply_connected(A, &netsync::messages::RemotePlayerState {
        position: Vec2i { x: 3, y: 4 },
        angle: 5,
    });
    let before_count = client.known_count();
    assert_eq!(client.apply_packet(&vec![0xFF, 0x00, 0x42]), None);
    assert_eq!(client.known_count(), before_count);
    assert_eq!(
        client.known_state(A).unwrap().position,
        Vec2i { x: 3, y: 4 }
    );
}
