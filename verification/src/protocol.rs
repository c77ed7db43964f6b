//! End-to-end replication laws: what the server's broadcast contracts and the
//! client's reconciliation contracts give together.
//!
//! Each lemma's hypotheses are exactly what the respective functions ensure,
//! so a caller who ran them has the hypotheses at hand; the conclusions are
//! the protocol-level guarantees.

use vstd::prelude::*;
use crate::client::{ClientContext, ReconcileOp, has_op};
use crate::idtable::{distinct_ids, has_id, id_set, val_of};
use crate::messages::RemotePlayerState;
use crate::server::{ServerPlayer, lemma_snap_of_ids, snap_of};

verus! {

/// Convergence: a client that has applied the server's latest snapshot
/// broadcast — whatever connect and disconnect events produced the lobby, and
/// whatever the client knew before — knows exactly the server's authoritative
/// identity set, with exactly the server's replicated states.
pub proof fn lemma_convergence(lobby: Seq<(u64, ServerPlayer)>, client: ClientContext)
    requires
        distinct_ids(lobby),
        forall|k: u64|
            #[trigger] has_id(client.map_seq(), k) == has_id(snap_of(lobby), k),
        forall|k: u64|
            #[trigger] has_id(snap_of(lobby), k) ==> client.state_of(k) == val_of(
                snap_of(lobby),
                k,
            ),
    ensures
        client.known_ids() == id_set(lobby),
        forall|k: u64|
            #[trigger] has_id(lobby, k) ==> client.knows(k) && client.state_of(k) == val_of(
                lobby,
                k,
            ).state,
{
    lemma_snap_of_ids(lobby);
    assert(client.known_ids() =~= id_set(lobby));
}

/// Idempotence of duplicate snapshots: applying the same snapshot twice in a
/// row spawns and despawns nothing the second time, and leaves every
/// identity's entity and replicated state exactly as the first application
/// left them.
///
/// `c1` is the client right after the first application; `c2` and `ops2` are
/// the client and the diff after the second, as `apply_snapshot` ensures
/// them.
pub proof fn lemma_idempotence(
    snap: Seq<(u64, RemotePlayerState)>,
    c1: ClientContext,
    c2: ClientContext,
    ops2: Seq<ReconcileOp>,
)
    requires
        forall|k: u64| #[trigger] has_id(c1.map_seq(), k) == has_id(snap, k),
        forall|k: u64| #[trigger] has_id(snap, k) ==> c1.state_of(k) == val_of(snap, k),
        forall|k: u64| #[trigger] has_id(c2.map_seq(), k) == has_id(snap, k),
        forall|k: u64| #[trigger] has_id(snap, k) ==> c2.state_of(k) == val_of(snap, k),
        forall|k: u64|
            has_id(snap, k) && #[trigger] has_id(c1.map_seq(), k) ==> c2.entity_of(k)
                == c1.entity_of(k),
        forall|k: u64|
            #[trigger] has_op(ops2, ReconcileOp::Spawn(k)) == (has_id(snap, k) && !has_id(
                c1.map_seq(),
                k,
            )),
        forall|k: u64|
            #[trigger] has_op(ops2, ReconcileOp::Despawn(k)) == (!has_id(snap, k) && has_id(
                c1.map_seq(),
                k,
            )),
    ensures
        forall|k: u64| !(#[trigger] has_op(ops2, ReconcileOp::Spawn(k))),
        forall|k: u64| !(#[trigger] has_op(ops2, ReconcileOp::Despawn(k))),
        c2.known_ids() == c1.known_ids(),
        forall|k: u64|
            #[trigger] has_id(c1.map_seq(), k) ==> c2.entity_of(k) == c1.entity_of(k)
                && c2.state_of(k) == c1.state_of(k),
{
    assert(c2.known_ids() =~= c1.known_ids());
}

/// Loss tolerance: dropping any number of unreliable-channel packets leaves
/// no permanent divergence. Two clients with arbitrary, different histories —
/// one of them missed packets the other saw — that both apply the server's
/// next delivered snapshot end up with identical membership and states, equal
/// to the server's.
pub proof fn lemma_loss_tolerance(
    lobby: Seq<(u64, ServerPlayer)>,
    ca: ClientContext,
    cb: ClientContext,
)
    requires
        distinct_ids(lobby),
        forall|k: u64|
            #[trigger] has_id(ca.map_seq(), k) == has_id(snap_of(lobby), k),
        forall|k: u64|
            #[trigger] has_id(snap_of(lobby), k) ==> ca.state_of(k) == val_of(snap_of(lobby), k),
        forall|k: u64|
            #[trigger] has_id(cb.map_seq(), k) == has_id(snap_of(lobby), k),
        forall|k: u64|
            #[trigger] has_id(snap_of(lobby), k) ==> cb.state_of(k) == val_of(snap_of(lobby), k),
    ensures
        ca.known_ids() == cb.known_ids(),
        ca.known_ids() == id_set(lobby),
        forall|k: u64|
            #[trigger] has_id(lobby, k) ==> ca.state_of(k) == val_of(lobby, k).state
                && cb.state_of(k) == ca.state_of(k),
{
    lemma_convergence(lobby, ca);
    lemma_convergence(lobby, cb);
    assert(ca.known_ids() =~= cb.known_ids());
}

} // verus!
