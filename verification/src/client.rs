//! Client reconciliation: align the locally known entities with the latest
//! snapshot or control message by spawning, updating and despawning, keeping
//! the client a pure follower of server membership.
//!
//! Both reconciliation policies of the protocol live here: despawn-by-absence
//! (the server-authoritative diff of [`ClientContext::apply_snapshot`]) and
//! despawn-by-explicit-event ([`ClientContext::apply_disconnected`]).

use vstd::prelude::*;
use crate::arena::{Arena, Entity};
use crate::fixed::SCALE;
use crate::idtable::{
    IdTable, distinct_ids, has_id, id_set, idx_of, lemma_idx_of_unique, lemma_take_has_id, val_of,
};
use crate::messages::{
    ClientId, ClientMessage, PlayerController, RemotePlayerState, ServerMessage, ServerMessageView,
};
use crate::render::{
    Renderer, interpolate_spec, interpolate_transform, state_transform, transform_of_state,
};

verus! {

/// One action the reconciliation diff took.
#[derive(Clone, Copy, PartialEq, Eq, Structural, Debug)]
pub enum ReconcileOp {
    /// The identity was in the snapshot but unknown locally: a simulated
    /// entity and its renderer were created.
    Spawn(ClientId),
    /// The identity was known: its authoritative fields were overwritten,
    /// its renderer left untouched.
    Update(ClientId),
    /// The identity was known but absent from the snapshot: the entity and
    /// any renderer bound to it were removed.
    Despawn(ClientId),
}

/// `ops` records `op`.
pub open spec fn has_op(ops: Seq<ReconcileOp>, op: ReconcileOp) -> bool {
    ops.contains(op)
}

/// Recording one more action extends what `ops` records by exactly it.
proof fn lemma_has_op_push(ops: Seq<ReconcileOp>, x: ReconcileOp)
    ensures
        forall|y: ReconcileOp| #[trigger] has_op(ops.push(x), y) == (has_op(ops, y) || y == x),
{
    assert forall|y: ReconcileOp|
        #[trigger] has_op(ops.push(x), y) == (has_op(ops, y) || y == x) by {
        if has_op(ops.push(x), y) {
            let w = choose|w: int| 0 <= w < ops.push(x).len() && ops.push(x)[w] == y;
            if w < ops.len() {
                assert(ops[w] == y);
            }
        }
        if has_op(ops, y) {
            let w = choose|w: int| 0 <= w < ops.len() && ops[w] == y;
            assert(ops.push(x)[w] == y);
        }
        assert(ops.push(x)[ops.len() as int] == x);
    }
}

/// Whether a snapshot payload carries an identity.
fn snap_has(snap: &Vec<(ClientId, RemotePlayerState)>, id: u64) -> (r: bool)
    ensures
        r == has_id(snap@, id),
{
    let n = snap.len();
    let mut i: usize = 0;
    while i < n
        invariant
            i <= n,
            n == snap@.len(),
            forall|j: int| 0 <= j < i ==> (#[trigger] snap@[j]).0 != id,
        decreases n - i,
    {
        if snap[i].0 == id {
            proof {
                assert(has_id(snap@, id));
            }
            return true;
        }
        i = i + 1;
    }
    false
}

/// The client-side replication context: the arena of simulated entities, the
/// identity-to-entity map, and the renderer proxies.
pub struct ClientContext {
    sim: Arena<RemotePlayerState>,
    client_map: IdTable<Entity>,
    renderers: Vec<Renderer>,
}

impl ClientContext {
    /// The identity-to-entity rows, in insertion order.
    pub closed spec fn map_seq(&self) -> Seq<(u64, Entity)> {
        self.client_map@
    }

    /// Live simulated entities and their replicated states.
    pub closed spec fn sim_map(&self) -> Map<Entity, RemotePlayerState> {
        self.sim@
    }

    /// The renderer proxies.
    pub closed spec fn renderers_seq(&self) -> Seq<Renderer> {
        self.renderers@
    }

    /// The locally known identities.
    pub open spec fn known_ids(&self) -> Set<u64> {
        id_set(self.map_seq())
    }

    /// The identity is known locally.
    pub open spec fn knows(&self, k: u64) -> bool {
        has_id(self.map_seq(), k)
    }

    /// The local entity an identity resolves to.
    pub open spec fn entity_of(&self, k: u64) -> Entity {
        val_of(self.map_seq(), k)
    }

    /// The replicated state held for an identity.
    pub open spec fn state_of(&self, k: u64) -> RemotePlayerState {
        self.sim_map()[self.entity_of(k)]
    }

    /// The entity bookkeeping invariant: identities unique, each resolving to
    /// exactly one live entity, no two sharing one, and replicated states in
    /// range.
    pub open spec fn core_wf(&self) -> bool {
        &&& distinct_ids(self.map_seq())
        &&& forall|k: u64|
            #[trigger] has_id(self.map_seq(), k) ==> self.sim_map().dom().contains(
                val_of(self.map_seq(), k),
            )
        &&& forall|k1: u64, k2: u64|
            has_id(self.map_seq(), k1) && has_id(self.map_seq(), k2) && k1 != k2
                ==> #[trigger] val_of(self.map_seq(), k1) != #[trigger] val_of(self.map_seq(), k2)
        &&& forall|e: Entity|
            #[trigger] self.sim_map().dom().contains(e) ==> self.sim_map()[e].ok()
    }

    /// The renderer invariant: every renderer bound to a live entity, at an
    /// in-range transform.
    pub open spec fn renderers_wf(&self) -> bool {
        &&& forall|i: int|
            0 <= i < self.renderers_seq().len() ==> self.sim_map().dom().contains(
                (#[trigger] self.renderers_seq()[i]).target,
            )
        &&& forall|i: int|
            0 <= i < self.renderers_seq().len() ==> (
            #[trigger] self.renderers_seq()[i]).transform.ok()
    }

    /// The context invariant.
    pub open spec fn wf(&self) -> bool {
        self.core_wf() && self.renderers_wf()
    }

    /// A fresh client that knows nothing yet.
    pub fn new() -> (r: ClientContext)
        ensures
            r.map_seq() == Seq::<(u64, Entity)>::empty(),
            r.sim_map() == Map::<Entity, RemotePlayerState>::empty(),
            r.renderers_seq() == Seq::<Renderer>::empty(),
            r.wf(),
    {
        ClientContext { sim: Arena::new(), client_map: IdTable::new(), renderers: Vec::new() }
    }

    /// Number of locally known identities.
    pub fn known_count(&self) -> (n: usize)
        ensures
            n == self.map_seq().len(),
    {
        self.client_map.len()
    }

    /// Whether an identity is known locally.
    pub fn is_known(&self, client_id: ClientId) -> (r: bool)
        ensures
            r == self.knows(client_id),
    {
        self.client_map.contains_id(client_id)
    }

    /// The replicated state held for an identity, if known.
    pub fn known_state(&self, client_id: ClientId) -> (r: Option<RemotePlayerState>)
        requires
            self.wf(),
        ensures
            match r {
                Some(st) => self.knows(client_id) && st == self.state_of(client_id),
                None => !self.knows(client_id),
            },
    {
        match self.client_map.get(client_id) {
            Some(e) => {
                match self.sim.get(*e) {
                    Some(st) => Some(*st),
                    None => None,
                }
            },
            None => None,
        }
    }

    /// The renderer bound to an identity's entity, if any.
    pub fn renderer_of(&self, client_id: ClientId) -> (r: Option<Renderer>)
        requires
            self.wf(),
        ensures
            match r {
                Some(rr) => self.knows(client_id) && self.renderers_seq().contains(rr)
                    && rr.target == self.entity_of(client_id),
                None => self.knows(client_id) ==> forall|i: int|
                    0 <= i < self.renderers_seq().len() ==> (
                    #[trigger] self.renderers_seq()[i]).target != self.entity_of(client_id),
            },
    {
        let e = match self.client_map.get(client_id) {
            Some(e) => *e,
            None => {
                return None;
            },
        };
        let n = self.renderers.len();
        let mut i: usize = 0;
        while i < n
            invariant
                i <= n,
                n == self.renderers_seq().len(),
                forall|j: int|
                    0 <= j < i ==> (#[trigger] self.renderers_seq()[j]).target != e,
                self.knows(client_id),
                e == self.entity_of(client_id),
            decreases n - i,
        {
            if self.renderers[i].target == e {
                return Some(self.renderers[i]);
            }
            i = i + 1;
        }
        None
    }

    /// Drop every renderer whose simulated entity is gone: a dangling
    /// renderer is detected and removed, never silently rendered at a stale
    /// position.
    fn prune_renderers(&mut self)
        ensures
            final(self).sim_map() == old(self).sim_map(),
            final(self).map_seq() == old(self).map_seq(),
            forall|j: int|
                0 <= j < final(self).renderers_seq().len() ==> old(self).renderers_seq().contains(
                    #[trigger] final(self).renderers_seq()[j],
                ) && final(self).sim_map().dom().contains(
                    final(self).renderers_seq()[j].target,
                ),
            forall|j: int|
                0 <= j < old(self).renderers_seq().len() && old(self).sim_map().dom().contains(
                    (#[trigger] old(self).renderers_seq()[j]).target,
                ) ==> final(self).renderers_seq().contains(old(self).renderers_seq()[j]),
    {
        let n = self.renderers.len();
        let mut kept: Vec<Renderer> = Vec::new();
        let mut i: usize = 0;
        while i < n
            invariant
                i <= n,
                n == self.renderers_seq().len(),
                forall|j: int|
                    0 <= j < kept@.len() ==> self.renderers_seq().contains(#[trigger] kept@[j])
                        && self.sim_map().dom().contains(kept@[j].target),
                forall|j: int|
                    0 <= j < i && self.sim_map().dom().contains(
                        (#[trigger] self.renderers_seq()[j]).target,
                    ) ==> kept@.contains(self.renderers_seq()[j]),
            decreases n - i,
        {
            let r = self.renderers[i];
            match self.sim.get(r.target) {
                Some(_) => {
                    let ghost kept0 = kept@;
                    kept.push(r);
                    proof {
                        assert(self.renderers_seq().contains(r)) by {
                            assert(self.renderers_seq()[i as int] == r);
                        }
                        assert forall|j: int|
                            0 <= j < i + 1 && self.sim_map().dom().contains(
                                (#[trigger] self.renderers_seq()[j]).target,
                            ) implies kept@.contains(self.renderers_seq()[j]) by {
                            if j < i {
                                assert(kept0.contains(self.renderers_seq()[j]));
                                let w = choose|w: int|
                                    0 <= w < kept0.len() && kept0[w] == self.renderers_seq()[j];
                                assert(kept@[w] == self.renderers_seq()[j]);
                            } else {
                                assert(kept@.last() == r);
                            }
                        }
                    }
                },
                None => {},
            }
            i = i + 1;
        }
        self.renderers = kept;
    }

    /// Event-driven spawn: a `PlayerConnected` announcement makes the peer
    /// known with its announced state. If a snapshot already made it known,
    /// only its state is overwritten.
    pub fn apply_connected(&mut self, client_id: ClientId, state: &RemotePlayerState) -> (op:
        ReconcileOp)
        requires
            old(self).wf(),
            state.ok(),
        ensures
            final(self).wf(),
            final(self).knows(client_id),
            final(self).state_of(client_id) == *state,
            forall|k: u64|
                k != client_id ==> #[trigger] final(self).knows(k) == old(self).knows(k),
            forall|k: u64|
                k != client_id && old(self).knows(k) ==> #[trigger] final(self).entity_of(k)
                    == old(self).entity_of(k) && final(self).state_of(k) == old(self).state_of(k),
            old(self).knows(client_id) ==> op == ReconcileOp::Update(client_id)
                && final(self).entity_of(client_id) == old(self).entity_of(client_id)
                && final(self).renderers_seq() == old(self).renderers_seq(),
            !old(self).knows(client_id) ==> op == ReconcileOp::Spawn(client_id)
                && final(self).renderers_seq() == old(self).renderers_seq().push(
                Renderer {
                    target: final(self).entity_of(client_id),
                    transform: state_transform(*state),
                },
            ),
    {
        let found = match self.client_map.get(client_id) {
            Some(e) => Some(*e),
            None => None,
        };
        match found {
            Some(e) => {
                self.sim.set(e, *state);
                proof {
                    lemma_state_update_wf(*old(self), *self, client_id, e, *state);
                    assert(self.renderers_wf());
                }
                ReconcileOp::Update(client_id)
            },
            None => {
                let e = self.sim.spawn(*state);
                self.renderers.push(Renderer { target: e, transform: transform_of_state(state) });
                self.client_map.insert(client_id, e);
                proof {
                    lemma_spawn_wf(*old(self), *self, client_id, e, *state);
                }
                ReconcileOp::Spawn(client_id)
            },
        }
    }

    /// Event-driven despawn: a `PlayerDisconnected` announcement removes the
    /// peer's entity and any renderer bound to it, within the same drain
    /// cycle. An unknown identity is a benign race: nothing changes.
    pub fn apply_disconnected(&mut self, client_id: ClientId) -> (op: Option<ReconcileOp>)
        requires
            old(self).wf(),
        ensures
            final(self).wf(),
            !final(self).knows(client_id),
            forall|k: u64|
                k != client_id ==> #[trigger] final(self).knows(k) == old(self).knows(k),
            forall|k: u64|
                k != client_id && old(self).knows(k) ==> #[trigger] final(self).entity_of(k)
                    == old(self).entity_of(k) && final(self).state_of(k) == old(self).state_of(k),
            !old(self).knows(client_id) ==> op is None && *final(self) == *old(self),
            old(self).knows(client_id) ==> {
                &&& op == Some(ReconcileOp::Despawn(client_id))
                &&& !final(self).sim_map().dom().contains(old(self).entity_of(client_id))
                &&& forall|j: int|
                    0 <= j < old(self).renderers_seq().len() && (
                    #[trigger] old(self).renderers_seq()[j]).target != old(self).entity_of(
                        client_id,
                    ) ==> final(self).renderers_seq().contains(old(self).renderers_seq()[j])
                &&& forall|j: int|
                    0 <= j < final(self).renderers_seq().len() ==> old(
                        self,
                    ).renderers_seq().contains(#[trigger] final(self).renderers_seq()[j]) && (
                    final(self).renderers_seq()[j]).target != old(self).entity_of(client_id)
            },
    {
        let e = match self.client_map.get(client_id) {
            Some(e) => *e,
            None => {
                return None;
            },
        };
        self.sim.despawn(e);
        self.client_map.remove(client_id);
        proof {
            lemma_despawn_wf(*old(self), *self, client_id, e);
        }
        let ghost mid = *self;
        self.prune_renderers();
        proof {
            assert forall|j: int|
                0 <= j < old(self).renderers_seq().len() && (
                #[trigger] old(self).renderers_seq()[j]).target != e implies self.renderers_seq(
            ).contains(old(self).renderers_seq()[j]) by {
                assert(old(self).sim_map().dom().contains(old(self).renderers_seq()[j].target));
                assert(mid.sim_map().dom().contains(old(self).renderers_seq()[j].target));
            }
        }
        Some(ReconcileOp::Despawn(client_id))
    }

    /// Reconcile the locally known entities against a full snapshot, the
    /// server-authoritative diff: spawn what is new (with a renderer snapped
    /// to its authoritative transform), overwrite what is kept (leaving its
    /// renderer untouched), despawn what is gone (entity and renderer both).
    /// Afterwards the client's membership and states equal the snapshot's,
    /// whatever they were before.
    pub fn apply_snapshot(&mut self, snap: &Vec<(ClientId, RemotePlayerState)>) -> (ops: Vec<
        ReconcileOp,
    >)
        requires
            old(self).wf(),
            distinct_ids(snap@),
            forall|i: int| 0 <= i < snap@.len() ==> (#[trigger] snap@[i]).1.ok(),
        ensures
            final(self).wf(),
            forall|k: u64|
                #[trigger] has_id(final(self).map_seq(), k) == has_id(snap@, k),
            final(self).known_ids() == id_set(snap@),
            forall|k: u64|
                #[trigger] has_id(snap@, k) ==> final(self).state_of(k) == val_of(snap@, k),
            forall|k: u64|
                has_id(snap@, k) && #[trigger] has_id(old(self).map_seq(), k)
                    ==> final(self).entity_of(k) == old(self).entity_of(k),
            forall|k: u64|
                #[trigger] has_op(ops@, ReconcileOp::Spawn(k)) == (has_id(snap@, k) && !has_id(
                    old(self).map_seq(),
                    k,
                )),
            forall|k: u64|
                #[trigger] has_op(ops@, ReconcileOp::Update(k)) == (has_id(snap@, k) && has_id(
                    old(self).map_seq(),
                    k,
                )),
            forall|k: u64|
                #[trigger] has_op(ops@, ReconcileOp::Despawn(k)) == (!has_id(snap@, k) && has_id(
                    old(self).map_seq(),
                    k,
                )),
            forall|j: int|
                0 <= j < old(self).renderers_seq().len() && final(self).sim_map().dom().contains(
                    (#[trigger] old(self).renderers_seq()[j]).target,
                ) ==> final(self).renderers_seq().contains(old(self).renderers_seq()[j]),
            forall|k: u64|
                has_id(snap@, k) && !(#[trigger] has_id(old(self).map_seq(), k))
                    ==> final(self).renderers_seq().contains(
                    Renderer {
                        target: final(self).entity_of(k),
                        transform: state_transform(val_of(snap@, k)),
                    },
                ),
    {
        let ghost map0 = self.map_seq();
        let ghost sim0 = self.sim_map();
        let ghost ren0 = self.renderers_seq();
        let mut ops: Vec<ReconcileOp> = Vec::new();
        let n = snap.len();
        let mut i: usize = 0;
        while i < n
            invariant
                i <= n,
                n == snap@.len(),
                distinct_ids(snap@),
                forall|w: int| 0 <= w < snap@.len() ==> (#[trigger] snap@[w]).1.ok(),
                self.core_wf(),
                self.renderers_wf(),
                forall|k: u64|
                    #[trigger] has_id(self.map_seq(), k) == (has_id(map0, k) || has_id(
                        snap@.take(i as int),
                        k,
                    )),
                forall|k: u64|
                    #[trigger] has_id(map0, k) ==> val_of(self.map_seq(), k) == val_of(map0, k),
                forall|k: u64|
                    #[trigger] has_id(snap@.take(i as int), k) ==> self.sim_map()[val_of(
                        self.map_seq(),
                        k,
                    )] == val_of(snap@, k),
                forall|k: u64|
                    #![trigger has_id(map0, k), has_id(snap@.take(i as int), k)]
                    has_id(map0, k) && !has_id(snap@.take(i as int), k) ==> self.sim_map()[val_of(
                        map0,
                        k,
                    )] == sim0[val_of(map0, k)],
                forall|e: Entity|
                    #[trigger] sim0.dom().contains(e) ==> self.sim_map().dom().contains(e),
                ren0.len() <= self.renderers_seq().len(),
                forall|j: int|
                    0 <= j < ren0.len() ==> #[trigger] self.renderers_seq()[j] == ren0[j],
                forall|k: u64|
                    #![trigger has_id(snap@.take(i as int), k), has_id(map0, k)]
                    has_id(snap@.take(i as int), k) && !has_id(map0, k)
                        ==> self.renderers_seq().contains(
                        Renderer {
                            target: val_of(self.map_seq(), k),
                            transform: state_transform(val_of(snap@, k)),
                        },
                    ),
                forall|k: u64|
                    #[trigger] has_op(ops@, ReconcileOp::Spawn(k)) == (has_id(
                        snap@.take(i as int),
                        k,
                    ) && !has_id(map0, k)),
                forall|k: u64|
                    #[trigger] has_op(ops@, ReconcileOp::Update(k)) == (has_id(
                        snap@.take(i as int),
                        k,
                    ) && has_id(map0, k)),
                forall|k: u64| !(#[trigger] has_op(ops@, ReconcileOp::Despawn(k))),
            decreases n - i,
        {
            let id = snap[i].0;
            let st = snap[i].1;
            proof {
                lemma_idx_of_unique(snap@, i as int);
                assert(!has_id(snap@.take(i as int), id)) by {
                    if has_id(snap@.take(i as int), id) {
                        let w = idx_of(snap@.take(i as int), id);
                        assert(snap@[w].0 == id);
                        lemma_idx_of_unique(snap@, w);
                    }
                }
                lemma_take_has_id(snap@, i as int);
            }
            let found = match self.client_map.get(id) {
                Some(e) => Some(*e),
                None => None,
            };
            let ghost pre_self = *self;
            let ghost ops0 = ops@;
            match found {
                Some(e) => {
                    self.sim.set(e, st);
                    ops.push(ReconcileOp::Update(id));
                    proof {
                        lemma_state_update_wf(pre_self, *self, id, e, st);
                        lemma_has_op_push(ops0, ReconcileOp::Update(id));
                        assert(has_id(map0, id));
                        assert forall|k: u64|
                            #![trigger has_id(map0, k), has_id(snap@.take(i as int + 1), k)]
                            has_id(map0, k) && !has_id(snap@.take(i as int + 1), k) implies self.sim_map()[val_of(map0, k)] == sim0[val_of(map0, k)] by {
                            assert(k != id);
                            assert(val_of(map0, k) == val_of(self.map_seq(), k));
                            assert(val_of(self.map_seq(), k) != e);
                        }
                        assert forall|k: u64|
                            #[trigger] has_id(snap@.take(i as int + 1), k) implies self.sim_map()[val_of(self.map_seq(), k)] == val_of(snap@, k) by {
                            if k != id {
                                assert(val_of(self.map_seq(), k) != e);
                            }
                        }
                    }
                },
                None => {
                    let e = self.sim.spawn(st);
                    self.renderers.push(
                        Renderer { target: e, transform: transform_of_state(&st) },
                    );
                    self.client_map.insert(id, e);
                    ops.push(ReconcileOp::Spawn(id));
                    proof {
                        lemma_spawn_wf(pre_self, *self, id, e, st);
                        lemma_has_op_push(ops0, ReconcileOp::Spawn(id));
                        assert(!has_id(map0, id));
                        assert forall|k: u64|
                            #![trigger has_id(map0, k), has_id(snap@.take(i as int + 1), k)]
                            has_id(map0, k) && !has_id(snap@.take(i as int + 1), k) implies self.sim_map()[val_of(map0, k)] == sim0[val_of(map0, k)] by {
                            assert(k != id);
                            assert(has_id(pre_self.map_seq(), k));
                            assert(val_of(map0, k) == val_of(pre_self.map_seq(), k));
                            assert(pre_self.sim_map().dom().contains(val_of(pre_self.map_seq(), k)));
                        }
                        assert forall|k: u64|
                            #[trigger] has_id(snap@.take(i as int + 1), k) implies self.sim_map()[val_of(self.map_seq(), k)] == val_of(snap@, k) by {
                            if k != id {
                                assert(has_id(pre_self.map_seq(), k));
                                assert(val_of(self.map_seq(), k) == val_of(
                                    pre_self.map_seq(),
                                    k,
                                ));
                                assert(pre_self.sim_map().dom().contains(
                                    val_of(pre_self.map_seq(), k),
                                ));
                            }
                        }
                        assert forall|k: u64|
                            #![trigger has_id(snap@.take(i as int + 1), k), has_id(map0, k)]
                            has_id(snap@.take(i as int + 1), k) && !has_id(map0, k) implies self.renderers_seq().contains(
                            Renderer {
                                target: val_of(self.map_seq(), k),
                                transform: state_transform(val_of(snap@, k)),
                            },
                        ) by {
                            if k == id {
                                assert(self.renderers_seq().last() == (Renderer {
                                    target: e,
                                    transform: state_transform(st),
                                }));
                            } else {
                                let r = Renderer {
                                    target: val_of(pre_self.map_seq(), k),
                                    transform: state_transform(val_of(snap@, k)),
                                };
                                assert(pre_self.renderers_seq().contains(r));
                                let w = choose|w: int|
                                    0 <= w < pre_self.renderers_seq().len()
                                        && pre_self.renderers_seq()[w] == r;
                                assert(self.renderers_seq()[w] == r);
                            }
                        }
                    }
                },
            }
            i = i + 1;
        }
        proof {
            assert(snap@.take(n as int) =~= snap@);
        }
        let ghost map1 = self.map_seq();
        let ghost sim1 = self.sim_map();
        let ghost ren1 = self.renderers_seq();
        let ids = self.client_map.ids();
        let m = ids.len();
        let mut j: usize = 0;
        while j < m
            invariant
                j <= m,
                m == map1.len(),
                m == ids@.len(),
                distinct_ids(snap@),
                distinct_ids(map1),
                forall|w: int| 0 <= w < m ==> ids@[w] == (#[trigger] map1[w]).0,
                self.core_wf(),
                self.renderers_seq() == ren1,
                forall|k: u64|
                    #[trigger] has_id(self.map_seq(), k) == (has_id(map1, k) && !(
                    ids@.take(j as int).contains(k) && !has_id(snap@, k))),
                forall|k: u64|
                    #[trigger] has_id(self.map_seq(), k) ==> val_of(self.map_seq(), k) == val_of(
                        map1,
                        k,
                    ),
                forall|e: Entity|
                    #[trigger] self.sim_map().dom().contains(e) ==> sim1.dom().contains(e)
                        && self.sim_map()[e] == sim1[e],
                forall|k: u64|
                    #[trigger] has_id(self.map_seq(), k) ==> self.sim_map().dom().contains(
                        val_of(map1, k),
                    ),
                forall|k: u64|
                    #[trigger] has_op(ops@, ReconcileOp::Spawn(k)) == (has_id(snap@, k)
                        && !has_id(map0, k)),
                forall|k: u64|
                    #[trigger] has_op(ops@, ReconcileOp::Update(k)) == (has_id(snap@, k)
                        && has_id(map0, k)),
                forall|k: u64|
                    #[trigger] has_op(ops@, ReconcileOp::Despawn(k)) == (ids@.take(
                        j as int,
                    ).contains(k) && !has_id(snap@, k)),
            decreases m - j,
        {
            let id = ids[j];
            proof {
                assert(map1[j as int].0 == id);
                lemma_idx_of_unique(map1, j as int);
                assert(!ids@.take(j as int).contains(id)) by {
                    if ids@.take(j as int).contains(id) {
                        let w = choose|w: int|
                            0 <= w < j && ids@.take(j as int)[w] == id;
                        assert(map1[w].0 == id);
                    }
                }
                assert(ids@.take(j as int + 1) =~= ids@.take(j as int).push(id));
                assert forall|k: u64|
                    #[trigger] ids@.take(j as int + 1).contains(k) == (ids@.take(
                        j as int,
                    ).contains(k) || k == id) by {
                    if ids@.take(j as int + 1).contains(k) {
                        let w = choose|w: int|
                            0 <= w < j + 1 && #[trigger] ids@.take(j as int + 1)[w] == k;
                        if w < j {
                            assert(ids@.take(j as int)[w] == k);
                        }
                    }
                    if ids@.take(j as int).contains(k) {
                        let w = choose|w: int|
                            0 <= w < j && #[trigger] ids@.take(j as int)[w] == k;
                        assert(ids@.take(j as int + 1)[w] == k);
                    }
                    if k == id {
                        assert(ids@.take(j as int + 1)[j as int] == k);
                    }
                }
            }
            if !snap_has(snap, id) {
                proof {
                    assert(has_id(self.map_seq(), id));
                }
                let e = match self.client_map.get(id) {
                    Some(e) => *e,
                    None => Entity { index: 0, generation: 0 },
                };
                let ghost pre_self = *self;
                let ghost ops0 = ops@;
                self.sim.despawn(e);
                self.client_map.remove(id);
                ops.push(ReconcileOp::Despawn(id));
                proof {
                    lemma_despawn_wf(pre_self, *self, id, e);
                    lemma_has_op_push(ops0, ReconcileOp::Despawn(id));
                    assert forall|k: u64|
                        #[trigger] has_id(self.map_seq(), k) implies val_of(self.map_seq(), k)
                        == val_of(map1, k) && self.sim_map().dom().contains(val_of(map1, k)) by {
                        assert(k != id);
                        assert(has_id(pre_self.map_seq(), k));
                        assert(val_of(self.map_seq(), k) == val_of(pre_self.map_seq(), k));
                        assert(val_of(pre_self.map_seq(), k) != e);
                    }
                }
            }
            j = j + 1;
        }
        proof {
            assert(ids@.take(m as int) =~= ids@);
            assert forall|k: u64| #[trigger] ids@.contains(k) == has_id(map1, k) by {
                if ids@.contains(k) {
                    let w = choose|w: int| 0 <= w < m && ids@[w] == k;
                    assert(map1[w].0 == k);
                }
                if has_id(map1, k) {
                    let w = idx_of(map1, k);
                    assert(ids@[w] == k);
                }
            }
            assert forall|k: u64| #[trigger] has_id(self.map_seq(), k) == has_id(snap@, k) by {
                if has_id(snap@, k) {
                    assert(has_id(map1, k));
                }
            }
        }
        let ghost pre_prune = *self;
        self.prune_renderers();
        proof {
            assert forall|w: int|
                0 <= w < self.renderers_seq().len() implies (
            #[trigger] self.renderers_seq()[w]).transform.ok() by {
                assert(ren1.contains(self.renderers_seq()[w]));
                let v = choose|v: int|
                    0 <= v < ren1.len() && ren1[v] == self.renderers_seq()[w];
            }
            assert forall|j2: int|
                0 <= j2 < ren0.len() && self.sim_map().dom().contains(
                    (#[trigger] ren0[j2]).target,
                ) implies self.renderers_seq().contains(ren0[j2]) by {
                assert(ren1[j2] == ren0[j2]);
                assert(pre_prune.renderers_seq()[j2] == ren0[j2]);
            }
            assert forall|k: u64|
                has_id(snap@, k) && !(#[trigger] has_id(map0, k)) implies self.renderers_seq(
            ).contains(
                Renderer { target: val_of(self.map_seq(), k), transform: state_transform(val_of(snap@, k)) },
            ) by {
                let r = Renderer {
                    target: val_of(map1, k),
                    transform: state_transform(val_of(snap@, k)),
                };
                assert(has_id(snap@.take(n as int), k));
                assert(ren1.contains(r));
                assert(has_id(self.map_seq(), k));
                assert(val_of(self.map_seq(), k) == val_of(map1, k));
                assert(self.sim_map().dom().contains(val_of(map1, k)));
                let w = choose|w: int| 0 <= w < ren1.len() && ren1[w] == r;
                assert(pre_prune.renderers_seq()[w] == r);
                assert(pre_prune.sim_map().dom().contains(r.target));
            }
            assert forall|k: u64| #[trigger] has_id(snap@, k) implies self.state_of(k) == val_of(
                snap@,
                k,
            ) by {
                assert(has_id(snap@.take(n as int), k));
                assert(has_id(self.map_seq(), k));
                assert(val_of(self.map_seq(), k) == val_of(map1, k));
                assert(self.sim_map().dom().contains(val_of(map1, k)));
            }
            assert forall|k: u64|
                has_id(snap@, k) && #[trigger] has_id(map0, k) implies val_of(self.map_seq(), k)
                == val_of(map0, k) by {
                assert(has_id(self.map_seq(), k));
                assert(val_of(self.map_seq(), k) == val_of(map1, k));
                assert(val_of(map1, k) == val_of(map0, k));
            }
            assert(self.known_ids() =~= id_set(snap@));
        }
        ops
    }

    /// Drain-cycle entry point: dispatch one received server message to the
    /// reconciliation it calls for.
    pub fn apply_message(&mut self, msg: &ServerMessage) -> (ops: Vec<ReconcileOp>)
        requires
            old(self).wf(),
            msg.ok(),
        ensures
            final(self).wf(),
            match msg@ {
                ServerMessageView::PlayerConnected { client_id, state } => {
                    &&& final(self).knows(client_id)
                    &&& final(self).state_of(client_id) == state
                    &&& forall|k: u64|
                        k != client_id ==> #[trigger] final(self).knows(k) == old(self).knows(k)
                    &&& ops@.len() == 1
                },
                ServerMessageView::PlayerDisconnected { client_id } => {
                    &&& !final(self).knows(client_id)
                    &&& forall|k: u64|
                        k != client_id ==> #[trigger] final(self).knows(k) == old(self).knows(k)
                },
                ServerMessageView::Players(snap) => {
                    &&& forall|k: u64|
                        #[trigger] has_id(final(self).map_seq(), k) == has_id(snap, k)
                    &&& forall|k: u64|
                        #[trigger] has_id(snap, k) ==> final(self).state_of(k) == val_of(snap, k)
                },
            },
    {
        match msg {
            ServerMessage::PlayerConnected { client_id, state } => {
                let op = self.apply_connected(*client_id, state);
                let mut ops: Vec<ReconcileOp> = Vec::new();
                ops.push(op);
                ops
            },
            ServerMessage::PlayerDisconnected { client_id } => {
                let op = self.apply_disconnected(*client_id);
                let mut ops: Vec<ReconcileOp> = Vec::new();
                match op {
                    Some(op) => {
                        ops.push(op);
                    },
                    None => {},
                }
                ops
            },
            ServerMessage::Players(players) => self.apply_snapshot(players),
        }
    }

    /// What the render tick needs: in-range transforms and states. Weaker
    /// than [`ClientContext::wf`]: renderers may dangle and are then skipped.
    pub open spec fn render_ready(&self) -> bool {
        &&& forall|i: int|
            0 <= i < self.renderers_seq().len() ==> (
            #[trigger] self.renderers_seq()[i]).transform.ok()
        &&& forall|e: Entity|
            #[trigger] self.sim_map().dom().contains(e) ==> self.sim_map()[e].ok()
    }

    /// One render tick, decoupled from the simulation tick: interpolate every
    /// renderer toward the authoritative transform of its bound entity by
    /// `factor` thousandths of the gap. A renderer whose bound entity is
    /// missing is skipped — never rendered at a stale target — and its index
    /// is reported for cleanup.
    pub fn render_tick(&mut self, factor: i64) -> (dangling: Vec<usize>)
        requires
            old(self).render_ready(),
            0 <= factor <= SCALE,
        ensures
            final(self).map_seq() == old(self).map_seq(),
            final(self).sim_map() == old(self).sim_map(),
            final(self).renderers_seq().len() == old(self).renderers_seq().len(),
            forall|j: int|
                0 <= j < old(self).renderers_seq().len() && old(self).sim_map().dom().contains(
                    (#[trigger] old(self).renderers_seq()[j]).target,
                ) ==> final(self).renderers_seq()[j] == (Renderer {
                    target: old(self).renderers_seq()[j].target,
                    transform: interpolate_spec(
                        old(self).renderers_seq()[j].transform,
                        state_transform(old(self).sim_map()[old(self).renderers_seq()[j].target]),
                        factor,
                    ),
                }),
            forall|j: int|
                0 <= j < old(self).renderers_seq().len() && !old(self).sim_map().dom().contains(
                    (#[trigger] old(self).renderers_seq()[j]).target,
                ) ==> final(self).renderers_seq()[j] == old(self).renderers_seq()[j],
            forall|x: usize|
                #[trigger] dangling@.contains(x) == (x < old(self).renderers_seq().len() && !old(
                    self,
                ).sim_map().dom().contains(old(self).renderers_seq()[x as int].target)),
            final(self).render_ready(),
            old(self).wf() ==> final(self).wf(),
    {
        let n = self.renderers.len();
        let mut dangling: Vec<usize> = Vec::new();
        let mut i: usize = 0;
        while i < n
            invariant
                i <= n,
                n == self.renderers_seq().len(),
                n == old(self).renderers_seq().len(),
                self.map_seq() == old(self).map_seq(),
                self.sim_map() == old(self).sim_map(),
                old(self).render_ready(),
                0 <= factor <= SCALE,
                forall|j: int|
                    i <= j < n ==> #[trigger] self.renderers_seq()[j] == old(
                        self,
                    ).renderers_seq()[j],
                forall|j: int|
                    0 <= j < i && old(self).sim_map().dom().contains(
                        (#[trigger] old(self).renderers_seq()[j]).target,
                    ) ==> self.renderers_seq()[j] == (Renderer {
                        target: old(self).renderers_seq()[j].target,
                        transform: interpolate_spec(
                            old(self).renderers_seq()[j].transform,
                            state_transform(
                                old(self).sim_map()[old(self).renderers_seq()[j].target],
                            ),
                            factor,
                        ),
                    }),
                forall|j: int|
                    0 <= j < i && !old(self).sim_map().dom().contains(
                        (#[trigger] old(self).renderers_seq()[j]).target,
                    ) ==> self.renderers_seq()[j] == old(self).renderers_seq()[j],
                forall|j: int|
                    0 <= j < n ==> (#[trigger] self.renderers_seq()[j]).transform.ok(),
                forall|x: usize|
                    #[trigger] dangling@.contains(x) == (x < i && !old(self).sim_map(
                    ).dom().contains(old(self).renderers_seq()[x as int].target)),
            decreases n - i,
        {
            let target = self.renderers[i].target;
            let ghost dangling0 = dangling@;
            let found = match self.sim.get(target) {
                Some(st) => Some(*st),
                None => None,
            };
            match found {
                Some(st) => {
                    let goal = transform_of_state(&st);
                    let mut moved = self.renderers[i].transform;
                    interpolate_transform(&mut moved, &goal, factor);
                    self.renderers[i] = Renderer { target, transform: moved };
                },
                None => {
                    dangling.push(i);
                },
            }
            proof {
                assert forall|x: usize|
                    #[trigger] dangling@.contains(x) == (x < i + 1 && !old(self).sim_map(
                    ).dom().contains(old(self).renderers_seq()[x as int].target)) by {
                    if dangling@.contains(x) {
                        let w = choose|w: int|
                            0 <= w < dangling@.len() && #[trigger] dangling@[w] == x;
                        if w < dangling0.len() {
                            assert(dangling0[w] == x);
                            assert(dangling0.contains(x));
                        }
                    }
                    if x < i + 1 && !old(self).sim_map().dom().contains(
                        old(self).renderers_seq()[x as int].target,
                    ) {
                        if x < i {
                            assert(dangling0.contains(x));
                            let w = choose|w: int|
                                0 <= w < dangling0.len() && #[trigger] dangling0[w] == x;
                            assert(dangling@[w] == x);
                        } else {
                            assert(dangling@.last() == x);
                        }
                    }
                }
            }
            i = i + 1;
        }
        proof {
            if old(self).wf() {
                assert forall|j: int|
                    0 <= j < self.renderers_seq().len() implies self.sim_map().dom().contains(
                    (#[trigger] self.renderers_seq()[j]).target,
                ) by {
                    assert(old(self).sim_map().dom().contains(
                        (old(self).renderers_seq()[j]).target,
                    ));
                }
            }
        }
        dangling
    }

    /// Receive one raw packet from the server: decode and reconcile. A
    /// payload that does not decode to a valid message is dropped — the
    /// client keeps its state and keeps going — and `None` reports the drop.
    pub fn apply_packet(&mut self, bytes: &Vec<u8>) -> (r: Option<Vec<ReconcileOp>>)
        requires
            old(self).wf(),
        ensures
            final(self).wf(),
            r is None <==> crate::codec::dec_server(bytes@) is None,
            r is None ==> *final(self) == *old(self),
            crate::codec::dec_server(bytes@) matches Some(mv) ==> match mv {
                ServerMessageView::PlayerConnected { client_id, state } => {
                    &&& final(self).knows(client_id)
                    &&& final(self).state_of(client_id) == state
                    &&& forall|k: u64|
                        k != client_id ==> #[trigger] final(self).knows(k) == old(self).knows(k)
                },
                ServerMessageView::PlayerDisconnected { client_id } => {
                    &&& !final(self).knows(client_id)
                    &&& forall|k: u64|
                        k != client_id ==> #[trigger] final(self).knows(k) == old(self).knows(k)
                },
                ServerMessageView::Players(snap) => {
                    &&& forall|k: u64|
                        #[trigger] has_id(final(self).map_seq(), k) == has_id(snap, k)
                    &&& forall|k: u64|
                        #[trigger] has_id(snap, k) ==> final(self).state_of(k) == val_of(snap, k)
                },
            },
    {
        let message = match crate::codec::decode_server_message(bytes) {
            Some(m) => m,
            None => {
                return None;
            },
        };
        Some(self.apply_message(&message))
    }

    /// Build the input message a client sends every frame: its latest
    /// controller state, latest-state-wins.
    pub fn make_input_message(controller: &PlayerController) -> (m: ClientMessage)
        requires
            controller.ok(),
        ensures
            m == ClientMessage::Controller(*controller),
            m.ok(),
    {
        ClientMessage::Controller(*controller)
    }
}

/// After overwriting the state of one live entity, the context invariant and
/// the other identities' views are intact.
proof fn lemma_state_update_wf(
    pre: ClientContext,
    post: ClientContext,
    id: u64,
    e: Entity,
    st: RemotePlayerState,
)
    requires
        pre.core_wf(),
        st.ok(),
        has_id(pre.map_seq(), id),
        e == val_of(pre.map_seq(), id),
        post.map_seq() == pre.map_seq(),
        post.renderers_seq() == pre.renderers_seq(),
        post.sim_map() == pre.sim_map().insert(e, st),
    ensures
        post.core_wf(),
        post.sim_map().dom() == pre.sim_map().dom(),
        post.knows(id),
        post.state_of(id) == st,
        forall|k: u64| k != id ==> #[trigger] post.knows(k) == pre.knows(k),
        forall|k: u64|
            k != id && pre.knows(k) ==> #[trigger] post.entity_of(k) == pre.entity_of(k)
                && post.state_of(k) == pre.state_of(k),
{
    assert(post.sim_map().dom() =~= pre.sim_map().dom());
    assert forall|k: u64|
        k != id && pre.knows(k) implies #[trigger] post.entity_of(k) == pre.entity_of(k)
        && post.state_of(k) == pre.state_of(k) by {
        assert(val_of(pre.map_seq(), k) != e);
    }
}

/// After spawning a fresh entity for a new identity, the context invariant
/// and the other identities' views are intact.
proof fn lemma_spawn_wf(
    pre: ClientContext,
    post: ClientContext,
    id: u64,
    e: Entity,
    st: RemotePlayerState,
)
    requires
        pre.core_wf(),
        pre.renderers_wf(),
        st.ok(),
        !has_id(pre.map_seq(), id),
        !pre.sim_map().dom().contains(e),
        post.sim_map() == pre.sim_map().insert(e, st),
        post.map_seq() == pre.map_seq().push((id, e)),
        post.renderers_seq() == pre.renderers_seq().push(
            Renderer { target: e, transform: state_transform(st) },
        ),
    ensures
        post.wf(),
        post.knows(id),
        post.entity_of(id) == e,
        post.state_of(id) == st,
        forall|k: u64| k != id ==> #[trigger] post.knows(k) == pre.knows(k),
        forall|k: u64|
            k != id && pre.knows(k) ==> #[trigger] post.entity_of(k) == pre.entity_of(k)
                && post.state_of(k) == pre.state_of(k),
{
    let s0 = pre.map_seq();
    let s1 = post.map_seq();
    let n = s0.len() as int;
    assert forall|i: int, j: int| 0 <= i < j < s1.len() implies (#[trigger] s1[i]).0 != (
    #[trigger] s1[j]).0 by {
        if j < n {
            assert(s1[i] == s0[i] && s1[j] == s0[j]);
        } else {
            assert(s1[i] == s0[i]);
            if s0[i].0 == id {
                assert(has_id(s0, id));
            }
        }
    }
    lemma_idx_of_unique(s1, n);
    assert forall|k: u64| k != id implies #[trigger] has_id(s1, k) == has_id(s0, k) by {
        if has_id(s0, k) {
            let i = idx_of(s0, k);
            assert(s1[i].0 == k);
        }
        if has_id(s1, k) {
            let i = idx_of(s1, k);
            assert(i < n);
            assert(s0[i].0 == k);
        }
    }
    assert forall|k: u64| k != id && has_id(s0, k) implies #[trigger] val_of(s1, k) == val_of(
        s0,
        k,
    ) by {
        let i = idx_of(s0, k);
        assert(s1[i] == s0[i]);
        lemma_idx_of_unique(s1, i);
        lemma_idx_of_unique(s0, i);
    }
    assert forall|k: u64| #[trigger] has_id(s1, k) implies post.sim_map().dom().contains(
        val_of(s1, k),
    ) by {
        if k != id {
            assert(val_of(s1, k) == val_of(s0, k));
        }
    }
    assert forall|k1: u64, k2: u64|
        has_id(s1, k1) && has_id(s1, k2) && k1 != k2 implies #[trigger] val_of(s1, k1)
        != #[trigger] val_of(s1, k2) by {
        if k1 != id && k2 != id {
            assert(val_of(s1, k1) == val_of(s0, k1) && val_of(s1, k2) == val_of(s0, k2));
        } else if k1 == id {
            assert(val_of(s1, k2) == val_of(s0, k2));
            assert(pre.sim_map().dom().contains(val_of(s0, k2)));
        } else {
            assert(val_of(s1, k1) == val_of(s0, k1));
            assert(pre.sim_map().dom().contains(val_of(s0, k1)));
        }
    }
    assert forall|i: int| 0 <= i < post.renderers_seq().len() implies post.sim_map(
    ).dom().contains((#[trigger] post.renderers_seq()[i]).target) && (
    #[trigger] post.renderers_seq()[i]).transform.ok() by {
        if i < pre.renderers_seq().len() {
            assert(post.renderers_seq()[i] == pre.renderers_seq()[i]);
        } else {
            assert(post.renderers_seq()[i] == (Renderer {
                target: e,
                transform: state_transform(st),
            }));
        }
    }
}

/// After despawning one identity's entity and dropping its row, the context
/// invariant (renderers aside) and the other identities' views are intact.
proof fn lemma_despawn_wf(pre: ClientContext, post: ClientContext, id: u64, e: Entity)
    requires
        pre.core_wf(),
        has_id(pre.map_seq(), id),
        e == val_of(pre.map_seq(), id),
        post.sim_map() == pre.sim_map().remove(e),
        post.renderers_seq() == pre.renderers_seq(),
        distinct_ids(post.map_seq()),
        !has_id(post.map_seq(), id),
        forall|k: u64| k != id ==> #[trigger] has_id(post.map_seq(), k) == has_id(pre.map_seq(), k),
        forall|k: u64|
            k != id && has_id(pre.map_seq(), k) ==> #[trigger] val_of(post.map_seq(), k) == val_of(
                pre.map_seq(),
                k,
            ),
    ensures
        distinct_ids(post.map_seq()),
        !post.knows(id),
        !post.sim_map().dom().contains(e),
        forall|k: u64|
            #[trigger] has_id(post.map_seq(), k) ==> post.sim_map().dom().contains(
                val_of(post.map_seq(), k),
            ),
        forall|k1: u64, k2: u64|
            has_id(post.map_seq(), k1) && has_id(post.map_seq(), k2) && k1 != k2
                ==> #[trigger] val_of(post.map_seq(), k1) != #[trigger] val_of(post.map_seq(), k2),
        forall|e2: Entity|
            #[trigger] post.sim_map().dom().contains(e2) ==> post.sim_map()[e2].ok(),
        forall|k: u64| k != id ==> #[trigger] post.knows(k) == pre.knows(k),
        forall|k: u64|
            k != id && pre.knows(k) ==> #[trigger] post.entity_of(k) == pre.entity_of(k)
                && post.state_of(k) == pre.state_of(k),
{
    assert forall|k: u64| #[trigger] has_id(post.map_seq(), k) implies post.sim_map(
    ).dom().contains(val_of(post.map_seq(), k)) by {
        assert(k != id);
        assert(val_of(post.map_seq(), k) == val_of(pre.map_seq(), k));
        assert(val_of(pre.map_seq(), k) != e);
    }
    assert forall|k1: u64, k2: u64|
        has_id(post.map_seq(), k1) && has_id(post.map_seq(), k2) && k1 != k2 implies #[trigger] val_of(
        post.map_seq(),
        k1,
    ) != #[trigger] val_of(post.map_seq(), k2) by {
        assert(val_of(post.map_seq(), k1) == val_of(pre.map_seq(), k1));
        assert(val_of(post.map_seq(), k2) == val_of(pre.map_seq(), k2));
    }
    assert forall|k: u64|
        k != id && pre.knows(k) implies #[trigger] post.entity_of(k) == pre.entity_of(k)
        && post.state_of(k) == pre.state_of(k) by {
        assert(val_of(pre.map_seq(), k) != e);
    }
}

} // verus!
