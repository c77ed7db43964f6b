//! Render decoupling layer: a visual-only renderer entity per simulated
//! entity, whose transform is interpolated toward the authoritative transform
//! each render tick, isolating visual smoothness from simulation tick rate
//! and network jitter.

use vstd::prelude::*;
use crate::arena::Entity;
use crate::fixed::{Vec2i, coord_ok, lerp, lerp_spec, SCALE};
use crate::messages::RemotePlayerState;

verus! {

/// A spatial transform: position and scale interpolate linearly, the angle
/// along its numeric value.
#[derive(Clone, Copy, PartialEq, Eq, Structural, Debug)]
pub struct Transform2 {
    pub position: Vec2i,
    pub angle: i64,
    pub scale: Vec2i,
}

impl Transform2 {
    /// All components in range.
    pub open spec fn ok(self) -> bool {
        self.position.ok() && coord_ok(self.angle) && self.scale.ok()
    }

    /// The identity transform: the origin, angle zero, unit scale.
    pub fn identity() -> (r: Transform2)
        ensures
            r == (Transform2 {
                position: Vec2i { x: 0, y: 0 },
                angle: 0,
                scale: Vec2i { x: SCALE, y: SCALE },
            }),
            r.ok(),
    {
        Transform2 { position: Vec2i { x: 0, y: 0 }, angle: 0, scale: Vec2i { x: SCALE, y: SCALE } }
    }
}

/// `c` lies between `a` and `b` (inclusive, either orientation).
pub open spec fn between(a: i64, b: i64, c: i64) -> bool {
    (a <= c <= b) || (b <= c <= a)
}

/// The transform a replicated state stands for: its position and facing, at
/// unit scale.
pub open spec fn state_transform(s: RemotePlayerState) -> Transform2 {
    Transform2 { position: s.position, angle: s.angle, scale: Vec2i { x: SCALE, y: SCALE } }
}

/// Executable [`state_transform`].
pub fn transform_of_state(s: &RemotePlayerState) -> (r: Transform2)
    ensures
        r == state_transform(*s),
        s.ok() ==> r.ok(),
{
    Transform2 { position: s.position, angle: s.angle, scale: Vec2i { x: SCALE, y: SCALE } }
}

/// The transform interpolation leaves behind: every component stepped from
/// `original` toward `target` by `factor` thousandths.
pub open spec fn interpolate_spec(original: Transform2, target: Transform2, factor: i64)
    -> Transform2 {
    Transform2 {
        position: Vec2i {
            x: lerp_spec(original.position.x, target.position.x, factor) as i64,
            y: lerp_spec(original.position.y, target.position.y, factor) as i64,
        },
        angle: lerp_spec(original.angle, target.angle, factor) as i64,
        scale: Vec2i {
            x: lerp_spec(original.scale.x, target.scale.x, factor) as i64,
            y: lerp_spec(original.scale.y, target.scale.y, factor) as i64,
        },
    }
}

/// Move `original` toward `target` by `factor` thousandths of the remaining
/// gap. Every component lands between its previous and target values; the
/// full factor lands exactly on the target, and a zero factor changes
/// nothing.
pub fn interpolate_transform(original: &mut Transform2, target: &Transform2, factor: i64)
    requires
        old(original).ok(),
        target.ok(),
        0 <= factor <= SCALE,
    ensures
        *final(original) == interpolate_spec(*old(original), *target, factor),
        final(original).ok(),
        between(old(original).position.x, target.position.x, final(original).position.x),
        between(old(original).position.y, target.position.y, final(original).position.y),
        between(old(original).angle, target.angle, final(original).angle),
        between(old(original).scale.x, target.scale.x, final(original).scale.x),
        between(old(original).scale.y, target.scale.y, final(original).scale.y),
        factor == SCALE ==> *final(original) == *target,
        factor == 0 ==> *final(original) == *old(original),
{
    original.position.x = lerp(original.position.x, target.position.x, factor);
    original.position.y = lerp(original.position.y, target.position.y, factor);
    original.angle = lerp(original.angle, target.angle, factor);
    original.scale.x = lerp(original.scale.x, target.scale.x, factor);
    original.scale.y = lerp(original.scale.y, target.scale.y, factor);
}

/// A visual-only proxy entity: a back-reference to the simulated entity it
/// tracks, and the transform it is rendered at.
#[derive(Clone, Copy, PartialEq, Eq, Structural, Debug)]
pub struct Renderer {
    /// The simulated entity this renderer follows.
    pub target: Entity,
    /// Where this renderer currently draws.
    pub transform: Transform2,
}

} // verus!
