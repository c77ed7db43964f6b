//! An arena of entities keyed by a generation-checked index: the explicit
//! replacement for an engine-managed entity store.
//!
//! A handle pairs a slot index with the generation the slot had when the
//! entity was spawned. Despawning frees the slot; a later occupant gets a
//! higher generation, so a stale handle is detected instead of silently
//! resolving to the new occupant.

use vstd::prelude::*;
use vstd::map::*;

verus! {

/// Handle to an entity in an [`Arena`].
#[derive(Clone, Copy, PartialEq, Eq, Structural, Hash, Debug)]
pub struct Entity {
    pub index: usize,
    pub generation: u64,
}

struct Slot<T> {
    generation: u64,
    value: Option<T>,
}

/// A store of entities, viewed as the map from live handles to their values.
pub struct Arena<T> {
    slots: Vec<Slot<T>>,
}

impl<T> View for Arena<T> {
    type V = Map<Entity, T>;

    closed spec fn view(&self) -> Map<Entity, T> {
        Map::new(
            |e: Entity|
                e.index < self.slots@.len() && self.slots@[e.index as int].generation
                    == e.generation && self.slots@[e.index as int].value is Some,
            |e: Entity| self.slots@[e.index as int].value->0,
        )
    }
}

impl<T> Arena<T> {
    /// `e` currently resolves to a value.
    pub open spec fn live(&self, e: Entity) -> bool {
        self@.dom().contains(e)
    }

    /// An empty arena.
    pub fn new() -> (r: Arena<T>)
        ensures
            r@ == Map::<Entity, T>::empty(),
    {
        let r = Arena { slots: Vec::new() };
        proof {
            assert_maps_equal!(r@, Map::<Entity, T>::empty());
        }
        r
    }

    /// Store `v` in a fresh entity and return its handle. No other entity is
    /// touched, and the handle was not live before.
    pub fn spawn(&mut self, v: T) -> (e: Entity)
        ensures
            !old(self).live(e),
            final(self)@ == old(self)@.insert(e, v),
    {
        let ghost m0 = self@;
        let n = self.slots.len();
        let mut i: usize = 0;
        while i < n
            invariant
                i <= n,
                n == self.slots@.len(),
                self.slots@ == old(self).slots@,
                self@ == m0,
            decreases n - i,
        {
            let free = match &self.slots[i].value {
                Option::None => self.slots[i].generation < u64::MAX,
                Option::Some(_) => false,
            };
            if free {
                let next_gen = self.slots[i].generation + 1;
                let e = Entity { index: i, generation: next_gen };
                self.slots[i] = Slot { generation: next_gen, value: Some(v) };
                proof {
                    assert(!m0.dom().contains(e));
                    assert_maps_equal!(self@, m0.insert(e, v), k => {
                        if k.index == i as int {
                        } else {
                            if k.index < self.slots@.len() {
                                assert(self.slots@[k.index as int]
                                    == old(self).slots@[k.index as int]);
                            }
                        }
                    });
                }
                return e;
            }
            i = i + 1;
        }
        let e = Entity { index: n, generation: 0 };
        self.slots.push(Slot { generation: 0, value: Some(v) });
        proof {
            assert(!m0.dom().contains(e));
            assert_maps_equal!(self@, m0.insert(e, v), k => {
                if k.index == n as int {
                } else {
                    if k.index < n {
                        assert(self.slots@[k.index as int] == old(self).slots@[k.index as int]);
                    }
                }
            });
        }
        e
    }

    /// Remove the entity behind `e`, if the handle is still live. A stale or
    /// out-of-range handle is reported, not confused with a live entity.
    pub fn despawn(&mut self, e: Entity) -> (hit: bool)
        ensures
            hit == old(self).live(e),
            final(self)@ == old(self)@.remove(e),
    {
        let ghost m0 = self@;
        if e.index < self.slots.len() && self.slots[e.index].generation == e.generation {
            let live = match &self.slots[e.index].value {
                Option::Some(_) => true,
                Option::None => false,
            };
            if live {
                self.slots[e.index] = Slot { generation: e.generation, value: None };
                proof {
                    assert_maps_equal!(self@, m0.remove(e), k => {
                        if k.index == e.index as int {
                        } else {
                            if k.index < self.slots@.len() {
                                assert(self.slots@[k.index as int]
                                    == old(self).slots@[k.index as int]);
                            }
                        }
                    });
                }
                return true;
            }
        }
        proof {
            assert(!m0.dom().contains(e));
            assert_maps_equal!(self@, m0.remove(e));
        }
        false
    }

    /// The value behind `e`: `Some` exactly when the handle is live.
    pub fn get(&self, e: Entity) -> (r: Option<&T>)
        ensures
            match r {
                Some(v) => self.live(e) && *v == self@[e],
                None => !self.live(e),
            },
    {
        if e.index < self.slots.len() && self.slots[e.index].generation == e.generation {
            match &self.slots[e.index].value {
                Option::Some(v) => Some(v),
                Option::None => None,
            }
        } else {
            None
        }
    }

    /// Overwrite the value behind `e`, if the handle is live. No other
    /// entity is touched.
    pub fn set(&mut self, e: Entity, v: T) -> (hit: bool)
        ensures
            hit == old(self).live(e),
            hit ==> final(self)@ == old(self)@.insert(e, v),
            !hit ==> final(self)@ == old(self)@,
    {
        let ghost m0 = self@;
        if e.index < self.slots.len() && self.slots[e.index].generation == e.generation {
            let live = match &self.slots[e.index].value {
                Option::Some(_) => true,
                Option::None => false,
            };
            if live {
                self.slots[e.index] = Slot { generation: e.generation, value: Some(v) };
                proof {
                    assert_maps_equal!(self@, m0.insert(e, v), k => {
                        if k.index == e.index as int {
                        } else {
                            if k.index < self.slots@.len() {
                                assert(self.slots@[k.index as int]
                                    == old(self).slots@[k.index as int]);
                            }
                        }
                    });
                }
                return true;
            }
        }
        proof {
            assert(!m0.dom().contains(e));
        }
        false
    }
}

} // verus!
