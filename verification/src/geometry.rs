//! The rectangle primitive shared by hit and hurt regions.
//!
//! A region is a rectangle given by its extent (`size`) and the position of
//! its center relative to the owning entity's origin (`offset`).  Regions are
//! authored in unscaled sprite-pixel coordinates; [`HitBox::scaled`] and
//! [`HurtBox::scaled`] map them into the scale at which an entity is rendered.

use vstd::prelude::*;

verus! {

/// Every coordinate stored in a catalog stays within this bound, so that a
/// component-wise product of two bounded vectors always fits in an `i64`.
pub const COORD_LIMIT: i64 = 2147483648;

/// A two-component integer vector, used for both extents and offsets.
#[derive(Clone, Copy, Debug, PartialEq, Eq, Structural)]
pub struct Vec2i {
    pub x: i64,
    pub y: i64,
}

/// A rectangle marking offensive collision for one frame.
#[derive(Clone, Copy, Debug, PartialEq, Eq, Structural)]
pub struct HitBox {
    pub size: Vec2i,
    pub offset: Vec2i,
}

/// A rectangle marking vulnerable collision for one frame.
#[derive(Clone, Copy, Debug, PartialEq, Eq, Structural)]
pub struct HurtBox {
    pub size: Vec2i,
    pub offset: Vec2i,
}

/// Whether both components of `v` lie within [`COORD_LIMIT`].
pub open spec fn vec2_in_range(v: Vec2i) -> bool {
    -COORD_LIMIT <= v.x <= COORD_LIMIT && -COORD_LIMIT <= v.y <= COORD_LIMIT
}

/// Whether a rectangle's extent and offset are both within range.
pub open spec fn rect_in_range(size: Vec2i, offset: Vec2i) -> bool {
    vec2_in_range(size) && vec2_in_range(offset)
}

/// The component-wise product of two vectors.
pub open spec fn vec2_scaled(v: Vec2i, factor: Vec2i) -> Vec2i {
    Vec2i { x: (v.x * factor.x) as i64, y: (v.y * factor.y) as i64 }
}

impl Vec2i {
    /// Multiplies the two vectors component-wise.
    pub fn component_mul(self, factor: Vec2i) -> (r: Vec2i)
        requires
            vec2_in_range(self),
            vec2_in_range(factor),
        ensures
            r == vec2_scaled(self, factor),
            r.x == self.x * factor.x,
            r.y == self.y * factor.y,
    {
        proof {
            lemma_bounded_product(self.x as int, factor.x as int);
            lemma_bounded_product(self.y as int, factor.y as int);
        }
        Vec2i { x: self.x * factor.x, y: self.y * factor.y }
    }
}

impl HitBox {
    /// Maps a region authored in sprite-pixel space into the screen scale at
    /// which the owning entity is rendered, multiplying both the extent and
    /// the offset component-wise by `factor`.  Scaling by zero yields a
    /// degenerate (invisible) region, which is valid.
    pub fn scaled(&self, factor: Vec2i) -> (r: HitBox)
        requires
            rect_in_range(self.size, self.offset),
            vec2_in_range(factor),
        ensures
            r.size == vec2_scaled(self.size, factor),
            r.offset == vec2_scaled(self.offset, factor),
    {
        HitBox { size: self.size.component_mul(factor), offset: self.offset.component_mul(factor) }
    }
}

impl HurtBox {
    /// Maps a region authored in sprite-pixel space into the screen scale at
    /// which the owning entity is rendered, multiplying both the extent and
    /// the offset component-wise by `factor`.  Scaling by zero yields a
    /// degenerate (invisible) region, which is valid.
    pub fn scaled(&self, factor: Vec2i) -> (r: HurtBox)
        requires
            rect_in_range(self.size, self.offset),
            vec2_in_range(factor),
        ensures
            r.size == vec2_scaled(self.size, factor),
            r.offset == vec2_scaled(self.offset, factor),
    {
        HurtBox { size: self.size.component_mul(factor), offset: self.offset.component_mul(factor) }
    }
}

/// A product of two factors bounded by [`COORD_LIMIT`] fits in an `i64`.
proof fn lemma_bounded_product(a: int, b: int)
    requires
        -COORD_LIMIT <= a <= COORD_LIMIT,
        -COORD_LIMIT <= b <= COORD_LIMIT,
    ensures
        i64::MIN <= a * b <= i64::MAX,
{
    assert(a * b <= COORD_LIMIT * COORD_LIMIT && -(COORD_LIMIT * COORD_LIMIT) <= a * b)
        by (nonlinear_arith)
        requires
            -COORD_LIMIT <= a <= COORD_LIMIT,
            -COORD_LIMIT <= b <= COORD_LIMIT,
    ;
}

} // verus!
