//! Exact integer-coordinate geometry for command code.
//!
//! Coordinates are integer counts of a fixed length unit and rotations are
//! axis-angle triples in integer counts of a fixed angle unit. Composition
//! is componentwise and exact: transforms add their offsets, inversion
//! negates them, and a transform between two poses is their componentwise
//! difference. Every operation states its result exactly and is proved
//! free of overflow under its stated bounds.

use vstd::prelude::*;

verus! {

/// The sum of two coordinates stays in range.
pub open spec fn sum_fits(a: int, b: int) -> bool {
    i64::MIN <= a + b <= i64::MAX
}

/// The difference of two coordinates stays in range.
pub open spec fn diff_fits(a: int, b: int) -> bool {
    i64::MIN <= a - b <= i64::MAX
}

/// An offset in space: integer coordinates along the three axes.
#[derive(Clone, Copy, Debug, PartialEq, Eq, Structural)]
pub struct Translation3d {
    pub x: i64,
    pub y: i64,
    pub z: i64,
}

impl Translation3d {
    /// Whether `self + o` stays in range, componentwise.
    pub open spec fn sum_in_range(self, o: Translation3d) -> bool {
        sum_fits(self.x as int, o.x as int) && sum_fits(self.y as int, o.y as int) && sum_fits(
            self.z as int,
            o.z as int,
        )
    }

    /// Whether `self - o` stays in range, componentwise.
    pub open spec fn diff_in_range(self, o: Translation3d) -> bool {
        diff_fits(self.x as int, o.x as int) && diff_fits(self.y as int, o.y as int) && diff_fits(
            self.z as int,
            o.z as int,
        )
    }

    /// Whether `-self` stays in range, componentwise.
    pub open spec fn neg_in_range(self) -> bool {
        self.x > i64::MIN && self.y > i64::MIN && self.z > i64::MIN
    }

    /// The zero offset.
    pub fn new() -> (t: Self)
        ensures
            t == (Translation3d { x: 0, y: 0, z: 0 }),
    {
        Translation3d { x: 0, y: 0, z: 0 }
    }

    /// An offset from its coordinates.
    pub fn new_xyz(x: i64, y: i64, z: i64) -> (t: Self)
        ensures
            t == (Translation3d { x, y, z }),
    {
        Translation3d { x, y, z }
    }

    /// Componentwise sum.
    pub fn plus(&self, other: &Self) -> (t: Self)
        requires
            self.sum_in_range(*other),
        ensures
            t == (Translation3d {
                x: (self.x + other.x) as i64,
                y: (self.y + other.y) as i64,
                z: (self.z + other.z) as i64,
            }),
    {
        Translation3d { x: self.x + other.x, y: self.y + other.y, z: self.z + other.z }
    }

    /// Componentwise difference.
    pub fn minus(&self, other: &Self) -> (t: Self)
        requires
            self.diff_in_range(*other),
        ensures
            t == (Translation3d {
                x: (self.x - other.x) as i64,
                y: (self.y - other.y) as i64,
                z: (self.z - other.z) as i64,
            }),
    {
        Translation3d { x: self.x - other.x, y: self.y - other.y, z: self.z - other.z }
    }

    /// Componentwise negation.
    pub fn unary_minus(&self) -> (t: Self)
        requires
            self.neg_in_range(),
        ensures
            t == (Translation3d { x: (-self.x) as i64, y: (-self.y) as i64, z: (-self.z) as i64 }),
    {
        Translation3d { x: -self.x, y: -self.y, z: -self.z }
    }
}

/// An orientation change: integer angle counts about the three axes,
/// composing by componentwise addition.
#[derive(Clone, Copy, Debug, PartialEq, Eq, Structural)]
pub struct Rotation3d {
    pub roll: i64,
    pub pitch: i64,
    pub yaw: i64,
}

impl Rotation3d {
    /// Whether `self + o` stays in range, componentwise.
    pub open spec fn sum_in_range(self, o: Rotation3d) -> bool {
        sum_fits(self.roll as int, o.roll as int) && sum_fits(self.pitch as int, o.pitch as int)
            && sum_fits(self.yaw as int, o.yaw as int)
    }

    /// Whether `self - o` stays in range, componentwise.
    pub open spec fn diff_in_range(self, o: Rotation3d) -> bool {
        diff_fits(self.roll as int, o.roll as int) && diff_fits(self.pitch as int, o.pitch as int)
            && diff_fits(self.yaw as int, o.yaw as int)
    }

    /// Whether `-self` stays in range, componentwise.
    pub open spec fn neg_in_range(self) -> bool {
        self.roll > i64::MIN && self.pitch > i64::MIN && self.yaw > i64::MIN
    }

    /// The identity rotation.
    pub fn new() -> (r: Self)
        ensures
            r == (Rotation3d { roll: 0, pitch: 0, yaw: 0 }),
    {
        Rotation3d { roll: 0, pitch: 0, yaw: 0 }
    }

    /// A rotation from its axis angles.
    pub fn new_angles(roll: i64, pitch: i64, yaw: i64) -> (r: Self)
        ensures
            r == (Rotation3d { roll, pitch, yaw }),
    {
        Rotation3d { roll, pitch, yaw }
    }

    /// Composition: componentwise sum.
    pub fn plus(&self, other: &Self) -> (r: Self)
        requires
            self.sum_in_range(*other),
        ensures
            r == (Rotation3d {
                roll: (self.roll + other.roll) as i64,
                pitch: (self.pitch + other.pitch) as i64,
                yaw: (self.yaw + other.yaw) as i64,
            }),
    {
        Rotation3d {
            roll: self.roll + other.roll,
            pitch: self.pitch + other.pitch,
            yaw: self.yaw + other.yaw,
        }
    }

    /// Relative rotation: componentwise difference.
    pub fn minus(&self, other: &Self) -> (r: Self)
        requires
            self.diff_in_range(*other),
        ensures
            r == (Rotation3d {
                roll: (self.roll - other.roll) as i64,
                pitch: (self.pitch - other.pitch) as i64,
                yaw: (self.yaw - other.yaw) as i64,
            }),
    {
        Rotation3d {
            roll: self.roll - other.roll,
            pitch: self.pitch - other.pitch,
            yaw: self.yaw - other.yaw,
        }
    }

    /// Componentwise negation.
    pub fn unary_minus(&self) -> (r: Self)
        requires
            self.neg_in_range(),
        ensures
            r == (Rotation3d {
                roll: (-self.roll) as i64,
                pitch: (-self.pitch) as i64,
                yaw: (-self.yaw) as i64,
            }),
    {
        Rotation3d { roll: -self.roll, pitch: -self.pitch, yaw: -self.yaw }
    }
}

/// A position and orientation.
#[derive(Clone, Copy, Debug, PartialEq, Eq, Structural)]
pub struct Pose3d {
    pub translation: Translation3d,
    pub rotation: Rotation3d,
}

impl Pose3d {
    /// The origin pose.
    pub fn new() -> (p: Self)
        ensures
            p == (Pose3d {
                translation: Translation3d { x: 0, y: 0, z: 0 },
                rotation: Rotation3d { roll: 0, pitch: 0, yaw: 0 },
            }),
    {
        Pose3d { translation: Translation3d::new(), rotation: Rotation3d::new() }
    }

    /// A pose from its parts.
    pub fn new_trans_rot(translation: Translation3d, rotation: Rotation3d) -> (p: Self)
        ensures
            p == (Pose3d { translation, rotation }),
    {
        Pose3d { translation, rotation }
    }

    /// The pose moved by a transform: both parts add componentwise.
    pub fn transform_by(&self, t: Transform3d) -> (p: Self)
        requires
            self.translation.sum_in_range(t.translation),
            self.rotation.sum_in_range(t.rotation),
        ensures
            p.translation == (Translation3d {
                x: (self.translation.x + t.translation.x) as i64,
                y: (self.translation.y + t.translation.y) as i64,
                z: (self.translation.z + t.translation.z) as i64,
            }),
            p.rotation == (Rotation3d {
                roll: (self.rotation.roll + t.rotation.roll) as i64,
                pitch: (self.rotation.pitch + t.rotation.pitch) as i64,
                yaw: (self.rotation.yaw + t.rotation.yaw) as i64,
            }),
    {
        Pose3d {
            translation: self.translation.plus(&t.translation),
            rotation: self.rotation.plus(&t.rotation),
        }
    }
}

/// A rigid motion between poses: an offset in space paired with an
/// orientation change.
#[derive(Clone, Copy, Debug, PartialEq, Eq, Structural)]
pub struct Transform3d {
    pub translation: Translation3d,
    pub rotation: Rotation3d,
}

impl Transform3d {
    /// The identity transform.
    pub fn new() -> (t: Self)
        ensures
            t == (Transform3d {
                translation: Translation3d { x: 0, y: 0, z: 0 },
                rotation: Rotation3d { roll: 0, pitch: 0, yaw: 0 },
            }),
    {
        Transform3d { translation: Translation3d::new(), rotation: Rotation3d::new() }
    }

    /// The transform that moves `initial` to `last`: the componentwise
    /// difference of the two poses.
    pub fn new_pose_pose(initial: Pose3d, last: Pose3d) -> (t: Self)
        requires
            last.translation.diff_in_range(initial.translation),
            last.rotation.diff_in_range(initial.rotation),
        ensures
            t.translation == (Translation3d {
                x: (last.translation.x - initial.translation.x) as i64,
                y: (last.translation.y - initial.translation.y) as i64,
                z: (last.translation.z - initial.translation.z) as i64,
            }),
            t.rotation == (Rotation3d {
                roll: (last.rotation.roll - initial.rotation.roll) as i64,
                pitch: (last.rotation.pitch - initial.rotation.pitch) as i64,
                yaw: (last.rotation.yaw - initial.rotation.yaw) as i64,
            }),
    {
        Transform3d {
            translation: last.translation.minus(&initial.translation),
            rotation: last.rotation.minus(&initial.rotation),
        }
    }

    /// A transform from its parts.
    pub fn new_trans_rot(translation: Translation3d, rotation: Rotation3d) -> (t: Self)
        ensures
            t == (Transform3d { translation, rotation }),
    {
        Transform3d { translation, rotation }
    }

    /// Composition of two transforms: apply `self`, then `other`; the
    /// offsets add componentwise.
    pub fn plus(&self, other: &Self) -> (t: Self)
        requires
            self.translation.sum_in_range(other.translation),
            self.rotation.sum_in_range(other.rotation),
        ensures
            t.translation == (Translation3d {
                x: (self.translation.x + other.translation.x) as i64,
                y: (self.translation.y + other.translation.y) as i64,
                z: (self.translation.z + other.translation.z) as i64,
            }),
            t.rotation == (Rotation3d {
                roll: (self.rotation.roll + other.rotation.roll) as i64,
                pitch: (self.rotation.pitch + other.rotation.pitch) as i64,
                yaw: (self.rotation.yaw + other.rotation.yaw) as i64,
            }),
    {
        let moved = Pose3d::new().transform_by(*self).transform_by(*other);
        Self::new_pose_pose(Pose3d::new(), moved)
    }

    /// The inverse transform: composing a transform with its inverse gives
    /// the identity; both parts negate componentwise.
    pub fn inverse(&self) -> (t: Self)
        requires
            self.translation.neg_in_range(),
            self.rotation.neg_in_range(),
        ensures
            t.translation == (Translation3d {
                x: (-self.translation.x) as i64,
                y: (-self.translation.y) as i64,
                z: (-self.translation.z) as i64,
            }),
            t.rotation == (Rotation3d {
                roll: (-self.rotation.roll) as i64,
                pitch: (-self.rotation.pitch) as i64,
                yaw: (-self.rotation.yaw) as i64,
            }),
    {
        Self::new_trans_rot(self.translation.unary_minus(), self.rotation.unary_minus())
    }
}

impl Default for Transform3d {
    /// The identity transform.
    fn default() -> (t: Self)
        ensures
            t == (Transform3d {
                translation: Translation3d { x: 0, y: 0, z: 0 },
                rotation: Rotation3d { roll: 0, pitch: 0, yaw: 0 },
            }),
    {
        Transform3d::new()
    }
}

} // verus!
