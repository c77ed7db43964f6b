use netsync::client::{ClientContext, ReconcileOp};
use netsync::fixed::{Vec2i, SCALE};
use netsync::messages::{NetworkId, RemotePlayerState};

fn state(x: i64, y: i64, angle: i64) -> RemotePlayerState {
    RemotePlayerState { position: Vec2i { x, y }, angle }
}

const A: u64 = 1;
const B: u64 = 2;
const C: u64 = 3;

#[test]
fn network_ids_compare_by_value() {
    assert_eq!(NetworkId(7), NetworkId(7));
    assert_ne!(NetworkId(7), NetworkId(8));
    assert_eq!(NetworkId::default(), NetworkId(0));
}

#[test]
fn first_snapshot_spawns_everyone() {
    let mut client = ClientContext::new();
    let ops = client.apply_snapshot(&vec![(A, state(0, 0, 0)), (B, state(5, 5, 0))]);
    assert_eq!(ops, vec![ReconcileOp::Spawn(A), ReconcileOp::Spawn(B)]);
    assert!(client.is_known(A));
    assert!(client.is_known(B));
    assert_eq!(client.known_count(), 2);
    assert_eq!(client.known_state(A), Some(state(0, 0, 0)));
    assert_eq!(client.known_state(B), Some(state(5, 5, 0)));
}

#[test]
fn diff_spawns_updates_and_despawns_exactly() {
    let mut client = ClientContext::new();
    client.apply_snapshot(&vec![(A, state(0, 0, 0)), (B, state(5, 5, 0))]);
    let ops = client.apply_snapshot(&vec![(B, state(6, 6, 0)), (C, state(9, 9, 0))]);

    assert_eq!(ops.len(), 3);
    assert!(ops.contains(&ReconcileOp::Spawn(C)));
    assert!(ops.contains(&ReconcileOp::Update(B)));
    assert!(ops.contains(&ReconcileOp::Despawn(A)));

    assert!(!client.is_known(A));
    assert!(client.is_known(B));
    assert!(client.is_known(C));
    assert_eq!(client.known_state(B), Some(state(6, 6, 0)));
    assert_eq!(client.known_state(C), Some(state(9, 9, 0)));
}

#[test]
fn duplicate_snapshot_is_idempotent() {
    let snap = vec![(A, state(10, 20, 30)), (B, state(40, 50, 60))];
    let mut client = ClientContext::new();
    client.apply_snapshot(&snap);
    let renderer_a = client.renderer_of(A);
    let ops = client.apply_snapshot(&snap);

    assert_eq!(ops, vec![ReconcileOp::Update(A), ReconcileOp::Update(B)]);
    for op in &ops {
        assert!(!matches!(op, ReconcileOp::Spawn(_)));
        assert!(!matches!(op, ReconcileOp::Despawn(_)));
    }
    assert_eq!(client.known_count(), 2);
    assert_eq!(client.known_state(A), Some(state(10, 20, 30)));
    assert_eq!(client.known_state(B), Some(state(40, 50, 60)));
    assert_eq!(client.renderer_of(A), renderer_a);
}

#[test]
fn dropped_packet_heals_on_next_snapshot() {
    let snap1 = vec![(A, state(0, 0, 0)), (B, state(1, 1, 0))];
    let snap2 = vec![(A, state(2, 2, 0)), (C, state(3, 3, 0))];
    let snap3 = vec![(C, state(4, 4, 0))];

    let mut lossless = ClientContext::new();
    lossless.apply_snapshot(&snap1);
    lossless.apply_snapshot(&snap2);
    lossless.apply_snapshot(&snap3);

    let mut lossy = ClientContext::new();
    lossy.apply_snapshot(&snap1);
    lossy.apply_snapshot(&snap3);

    for id in [A, B, C] {
        assert_eq!(lossless.is_known(id), lossy.is_known(id));
        assert_eq!(lossless.known_state(id), lossy.known_state(id));
    }
    assert_eq!(lossless.known_count(), 1);
    assert_eq!(lossy.known_state(C), Some(state(4, 4, 0)));
}

#[test]
fn empty_snapshot_despawns_everyone() {
    let mut client = ClientContext::new();
    client.apply_snapshot(&vec![(A, state(0, 0, 0)), (B, state(1, 1, 0))]);
    let ops = client.apply_snapshot(&Vec::new());
    assert_eq!(ops.len(), 2);
    assert!(ops.contains(&ReconcileOp::Despawn(A)));
    assert!(ops.contains(&ReconcileOp::Despawn(B)));
    assert_eq!(client.known_count(), 0);
    let dangling = client.render_tick(SCALE);
    assert!(dangling.is_empty());
}

#[test]
fn empty_snapshot_on_empty_client_is_a_no_op() {
    let mut client = ClientContext::new();
    let ops = client.apply_snapshot(&Vec::new());
    assert!(ops.is_empty());
    assert_eq!(client.known_count(), 0);
}

#[test]
fn connected_event_spawns_once() {
    let mut client = ClientContext::new();
    let op = client.apply_connected(A, &state(7, 8, 9));
    assert_eq!(op, ReconcileOp::Spawn(A));
    assert_eq!(client.known_state(A), Some(state(7, 8, 9)));

    let op = client.apply_connected(A, &state(1, 1, 1));
    assert_eq!(op, ReconcileOp::Update(A));
    assert_eq!(client.known_state(A), Some(state(1, 1, 1)));
    assert_eq!(client.known_count(), 1);
}

#[test]
fn disconnected_event_despawns_entity_and_renderer() {
    let mut client = ClientContext::new();
    client.apply_connected(A, &state(0, 0, 0));
    client.apply_connected(B, &state(1, 1, 0));

    let op = client.apply_disconnected(A);
    assert_eq!(op, Some(ReconcileOp::Despawn(A)));
    assert!(!client.is_known(A));
    assert!(client.is_known(B));
    assert!(client.renderer_of(B).is_some());

    let op = client.apply_disconnected(A);
    assert_eq!(op, None);
}

#[test]
fn spawned_entity_gets_renderer_at_authoritative_transform() {
    let mut client = ClientContext::new();
    client.apply_snapshot(&vec![(A, state(100, 200, 300))]);
    let renderer = client.renderer_of(A).unwrap();
    assert_eq!(renderer.transform.position, Vec2i { x: 100, y: 200 });
    assert_eq!(renderer.transform.angle, 300);
}

#[test]
fn update_leaves_renderer_untouched() {
    let mut client = ClientContext::new();
    client.apply_snapshot(&vec![(A, state(0, 0, 0))]);
    let before = client.renderer_of(A).unwrap();
    client.apply_snapshot(&vec![(A, state(9999, 9999, 500))]);
    let after = client.renderer_of(A).unwrap();
    assert_eq!(before, after);
}

#[test]
fn render_tick_full_factor_snaps_to_target() {
    let mut client = ClientContext::new();
    client.apply_snapshot(&vec![(A, state(0, 0, 0))]);
    client.apply_snapshot(&vec![(A, state(4000, -4000, 100))]);
    let dangling = client.render_tick(SCALE);
    assert!(dangling.is_empty());
    let renderer = client.renderer_of(A).unwrap();
    assert_eq!(renderer.transform.position, Vec2i { x: 4000, y: -4000 });
    assert_eq!(renderer.transform.angle, 100);
}

#[test]
fn render_tick_moves_partway() {
    let mut client = ClientContext::new();
    client.apply_snapshot(&vec![(A, state(0, 0, 0))]);
    client.apply_snapshot(&vec![(A, state(1000, 0, 0))]);
    client.render_tick(500);
    let renderer = client.renderer_of(A).unwrap();
    assert_eq!(renderer.transform.position, Vec2i { x: 500, y: 0 });
    client.render_tick(500);
    let renderer = client.renderer_of(A).unwrap();
    assert_eq!(renderer.transform.position, Vec2i { x: 750, y: 0 });
}
