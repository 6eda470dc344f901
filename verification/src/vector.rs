//! A three-dimensional vector with integer components.
//!
//! Dot product, cross product and squared magnitude are exact in integer
//! arithmetic for bounded components.  Quantities that are irrational in
//! general (the magnitude, a normalised direction) have no place here.

use vstd::prelude::*;
use crate::domain::COORD_MAX;

verus! {

/// A three-dimensional vector.
#[derive(Clone, Copy, PartialEq, Eq, Structural, Debug)]
pub struct Vector3 {
    pub x: i64,
    pub y: i64,
    pub z: i64,
}

/// Are all three components within `[-COORD_MAX, COORD_MAX]`?
pub open spec fn vec3_bounded(v: Vector3) -> bool {
    &&& -(COORD_MAX as int) <= v.x as int <= COORD_MAX as int
    &&& -(COORD_MAX as int) <= v.y as int <= COORD_MAX as int
    &&& -(COORD_MAX as int) <= v.z as int <= COORD_MAX as int
}

impl Vector3 {
    /// The dot product of two vectors.
    pub fn dot(vec1: Vector3, vec2: Vector3) -> (r: i64)
        requires
            vec3_bounded(vec1),
            vec3_bounded(vec2),
        ensures
            r as int == vec1.x as int * vec2.x as int + vec1.y as int * vec2.y as int
                + vec1.z as int * vec2.z as int,
    {
        proof {
            lemma_product_bound(vec1.x as int, vec2.x as int);
            lemma_product_bound(vec1.y as int, vec2.y as int);
            lemma_product_bound(vec1.z as int, vec2.z as int);
        }
        vec1.x * vec2.x + vec1.y * vec2.y + vec1.z * vec2.z
    }

    /// The cross product of two vectors.
    pub fn cross(u: Vector3, v: Vector3) -> (r: Vector3)
        requires
            vec3_bounded(u),
            vec3_bounded(v),
        ensures
            r.x as int == u.y as int * v.z as int - u.z as int * v.y as int,
            r.y as int == u.z as int * v.x as int - u.x as int * v.z as int,
            r.z as int == u.x as int * v.y as int - u.y as int * v.x as int,
    {
        proof {
            lemma_product_bound(u.y as int, v.z as int);
            lemma_product_bound(u.z as int, v.y as int);
            lemma_product_bound(u.z as int, v.x as int);
            lemma_product_bound(u.x as int, v.z as int);
            lemma_product_bound(u.x as int, v.y as int);
            lemma_product_bound(u.y as int, v.x as int);
        }
        Vector3 {
            x: u.y * v.z - u.z * v.y,
            y: u.z * v.x - u.x * v.z,
            z: u.x * v.y - u.y * v.x,
        }
    }

    /// The squared magnitude: the dot product of the vector with itself.
    pub fn square_magnitude(&self) -> (r: i64)
        requires
            vec3_bounded(*self),
        ensures
            r as int == self.x as int * self.x as int + self.y as int * self.y as int
                + self.z as int * self.z as int,
            r >= 0,
    {
        proof {
            lemma_product_bound(self.x as int, self.x as int);
            lemma_product_bound(self.y as int, self.y as int);
            lemma_product_bound(self.z as int, self.z as int);
            lemma_square_nonneg(self.x as int);
            lemma_square_nonneg(self.y as int);
            lemma_square_nonneg(self.z as int);
        }
        self.x * self.x + self.y * self.y + self.z * self.z
    }

    /// The unit vector along the first axis.
    pub fn x_hat() -> (r: Vector3)
        ensures
            r == (Vector3 { x: 1i64, y: 0i64, z: 0i64 }),
    {
        Vector3 { x: 1, y: 0, z: 0 }
    }

    /// The unit vector along the second axis.
    pub fn y_hat() -> (r: Vector3)
        ensures
            r == (Vector3 { x: 0i64, y: 1i64, z: 0i64 }),
    {
        Vector3 { x: 0, y: 1, z: 0 }
    }

    /// The unit vector along the third axis.
    pub fn z_hat() -> (r: Vector3)
        ensures
            r == (Vector3 { x: 0i64, y: 0i64, z: 1i64 }),
    {
        Vector3 { x: 0, y: 0, z: 1 }
    }

    /// The zero vector.
    pub fn zero() -> (r: Vector3)
        ensures
            r == (Vector3 { x: 0i64, y: 0i64, z: 0i64 }),
    {
        Vector3 { x: 0, y: 0, z: 0 }
    }
}

/// The product of two bounded components is bounded.
proof fn lemma_product_bound(a: int, b: int)
    requires
        -(COORD_MAX as int) <= a <= COORD_MAX as int,
        -(COORD_MAX as int) <= b <= COORD_MAX as int,
    ensures
        -(1048576int * 1048576int) <= a * b <= 1048576int * 1048576int,
{
    assert(-(1048576int * 1048576int) <= a * b <= 1048576int * 1048576int) by (nonlinear_arith)
        requires
            -1048576int <= a <= 1048576int,
            -1048576int <= b <= 1048576int,
    ;
}

/// A square is non-negative.
proof fn lemma_square_nonneg(a: int)
    ensures
        a * a >= 0,
{
    assert(a * a >= 0) by (nonlinear_arith);
}

} // verus!
