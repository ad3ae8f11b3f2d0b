//! Plane transforms, as the first two columns of a matrix that row vectors are
//! multiplied with.

use crate::float::Float;
use crate::float::ONE;
use crate::float::ZERO;
use crate::types::Point;
use vstd::prelude::*;

verus! {

#[derive(Clone, Copy, PartialEq, Eq, Structural, Debug)]
pub struct Transform {
    pub m11: Float,
    pub m12: Float,
    pub m21: Float,
    pub m22: Float,
    pub m31: Float,
    pub m32: Float,
}

impl Transform {
    /// The transform that moves every point by `x` and `y`.
    pub open spec fn translation(x: Float, y: Float) -> Transform {
        Transform {
            m11: Float { bits: ONE },
            m12: Float { bits: ZERO },
            m21: Float { bits: ZERO },
            m22: Float { bits: ONE },
            m31: x,
            m32: y,
        }
    }

    /// The transform that moves nothing.
    pub open spec fn neutral() -> Transform {
        Transform::translation(Float { bits: ZERO }, Float { bits: ZERO })
    }

    /// First `self`, then `next`: the product of the two matrices.
    pub open spec fn then_apply(self, next: Transform) -> Transform {
        Transform {
            m11: self.m11.times(next.m11).plus(self.m12.times(next.m21)),
            m12: self.m11.times(next.m12).plus(self.m12.times(next.m22)),
            m21: self.m21.times(next.m11).plus(self.m22.times(next.m21)),
            m22: self.m21.times(next.m12).plus(self.m22.times(next.m22)),
            m31: self.m31.times(next.m11).plus(self.m32.times(next.m21)).plus(next.m31),
            m32: self.m31.times(next.m12).plus(self.m32.times(next.m22)).plus(next.m32),
        }
    }

    /// Where the transform takes the point `(x, y)`.
    pub open spec fn image(self, x: Float, y: Float) -> Point {
        Point {
            x: x.times(self.m11).plus(y.times(self.m21)).plus(self.m31),
            y: x.times(self.m12).plus(y.times(self.m22)).plus(self.m32),
        }
    }

    pub fn identity() -> (r: Transform)
        ensures
            r == Transform::neutral(),
    {
        Transform::create_translation(Float { bits: ZERO }, Float { bits: ZERO })
    }

    pub fn create_translation(x: Float, y: Float) -> (r: Transform)
        ensures
            r == Transform::translation(x, y),
    {
        Transform {
            m11: Float { bits: ONE },
            m12: Float { bits: ZERO },
            m21: Float { bits: ZERO },
            m22: Float { bits: ONE },
            m31: x,
            m32: y,
        }
    }

    /// First `self`, then `next`.
    pub fn post_transform(self, next: Transform) -> (r: Transform)
        ensures
            r == self.then_apply(next),
    {
        Transform {
            m11: self.m11.mul(next.m11).add(self.m12.mul(next.m21)),
            m12: self.m11.mul(next.m12).add(self.m12.mul(next.m22)),
            m21: self.m21.mul(next.m11).add(self.m22.mul(next.m21)),
            m22: self.m21.mul(next.m12).add(self.m22.mul(next.m22)),
            m31: self.m31.mul(next.m11).add(self.m32.mul(next.m21)).add(next.m31),
            m32: self.m31.mul(next.m12).add(self.m32.mul(next.m22)).add(next.m32),
        }
    }

    /// First `first`, then `self`.
    pub fn pre_transform(self, first: Transform) -> (r: Transform)
        ensures
            r == first.then_apply(self),
    {
        first.post_transform(self)
    }

    pub fn transform_point(self, x: Float, y: Float) -> (r: Point)
        ensures
            r == self.image(x, y),
    {
        Point {
            x: x.mul(self.m11).add(y.mul(self.m21)).add(self.m31),
            y: x.mul(self.m12).add(y.mul(self.m22)).add(self.m32),
        }
    }
}

} // verus!
