//! The mutable target of an animation tree: anything with a position,
//! an angle and an alpha value that the leaf animations can set.

use vstd::prelude::*;

verus! {

/// The observable state of an animation target: position, rotation
/// angle (milli-degrees) and alpha, as unbounded integers.
pub ghost struct Pose {
    pub x: int,
    pub y: int,
    pub angle: int,
    pub alpha: int,
}

/// A type the animation driver can mutate.  Each setter changes exactly
/// one observable property, leaves the rest of the pose alone, and
/// never touches anything outside the pose.
pub trait Animate: Sized {
    /// The type of the target's state outside the pose.
    type Rest;

    /// The target's animated observable state.
    spec fn pose(&self) -> Pose;

    /// Everything observable about the target that animation must
    /// never touch — for a sprite, its texture identity.
    spec fn rest(&self) -> Self::Rest;

    fn set_position(&mut self, x: i64, y: i64)
        ensures
            final(self).pose() == (Pose {
                x: x as int,
                y: y as int,
                ..old(self).pose()
            }),
            final(self).rest() == old(self).rest(),
    ;

    fn set_angle(&mut self, angle: i64)
        ensures
            final(self).pose() == (Pose { angle: angle as int, ..old(self).pose() }),
            final(self).rest() == old(self).rest(),
    ;

    fn set_alpha(&mut self, alpha: i64)
        ensures
            final(self).pose() == (Pose { alpha: alpha as int, ..old(self).pose() }),
            final(self).rest() == old(self).rest(),
    ;
}

/// A minimal sprite: the integer model of a drawable object's
/// animatable fields, plus its texture identity.
#[derive(Clone, Copy, Debug)]
pub struct Sprite {
    pub x: i64,
    pub y: i64,
    pub angle: i64,
    pub alpha: i64,
    pub texture: u64,
}

impl Sprite {
    /// A fully opaque, unrotated sprite at the origin.
    pub fn new(texture: u64) -> (s: Sprite)
        ensures
            s.pose() == (Pose { x: 0, y: 0, angle: 0, alpha: crate::animate::ALPHA_ONE as int }),
            s.texture == texture,
    {
        Sprite { x: 0, y: 0, angle: 0, alpha: crate::animate::ALPHA_ONE, texture }
    }
}

impl Animate for Sprite {
    type Rest = u64;

    open spec fn pose(&self) -> Pose {
        Pose { x: self.x as int, y: self.y as int, angle: self.angle as int, alpha: self.alpha as int }
    }

    open spec fn rest(&self) -> u64 {
        self.texture
    }

    fn set_position(&mut self, x: i64, y: i64) {
        self.x = x;
        self.y = y;
    }

    fn set_angle(&mut self, angle: i64) {
        self.angle = angle;
    }

    fn set_alpha(&mut self, alpha: i64) {
        self.alpha = alpha;
    }
}

} // verus!

