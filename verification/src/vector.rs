//! Vectors of the plane with binary64 components.
use crate::ieee::arith::{add_spec, div_spec, fadd, fdiv, fmul, fsub, mul_spec, sub_spec};
use crate::ieee::format::Format;
use crate::ieee::root::{fsqrt, sqrt_spec};
use vstd::prelude::*;

verus! {

/// A vector whose components are binary64 patterns.
#[derive(Clone, Copy, Debug, PartialEq, Eq, Structural)]
pub struct Vector2 {
    pub x: u64,
    pub y: u64,
}

/// The mathematical view of a `Vector2`: a pair of patterns as numbers.
pub struct Pair {
    pub x: nat,
    pub y: nat,
}

impl View for Vector2 {
    type V = Pair;

    open spec fn view(&self) -> Pair {
        Pair { x: self.x as nat, y: self.y as nat }
    }
}

impl Pair {
    /// The vector of two positive zeros.
    pub open spec fn zero() -> Pair {
        Pair { x: 0, y: 0 }
    }

    /// Componentwise sum.
    pub open spec fn plus(self, o: Pair) -> Pair {
        Pair {
            x: add_spec(Format::Binary64, self.x, o.x),
            y: add_spec(Format::Binary64, self.y, o.y),
        }
    }

    /// Componentwise difference.
    pub open spec fn minus(self, o: Pair) -> Pair {
        Pair {
            x: sub_spec(Format::Binary64, self.x, o.x),
            y: sub_spec(Format::Binary64, self.y, o.y),
        }
    }

    /// Each component multiplied by `k`.
    pub open spec fn times(self, k: nat) -> Pair {
        Pair {
            x: mul_spec(Format::Binary64, self.x, k),
            y: mul_spec(Format::Binary64, self.y, k),
        }
    }

    /// Each component divided by `k`.
    pub open spec fn over(self, k: nat) -> Pair {
        Pair {
            x: div_spec(Format::Binary64, self.x, k),
            y: div_spec(Format::Binary64, self.y, k),
        }
    }

    /// The Euclidean length: the root of the sum of the squared components,
    /// each of the three operations rounded.
    pub open spec fn norm(self) -> nat {
        sqrt_spec(
            Format::Binary64,
            add_spec(
                Format::Binary64,
                mul_spec(Format::Binary64, self.x, self.x),
                mul_spec(Format::Binary64, self.y, self.y),
            ),
        )
    }

    /// The vector divided by its length.
    pub open spec fn unit(self) -> Pair {
        self.over(self.norm())
    }
}

impl Vector2 {
    /// The vector of two positive zeros.
    pub fn zero() -> (r: Vector2)
        ensures
            r@ == Pair::zero(),
    {
        Vector2 { x: 0, y: 0 }
    }

    /// Componentwise sum.
    pub fn plus(self, o: Vector2) -> (r: Vector2)
        ensures
            r@ == self@.plus(o@),
    {
        Vector2 {
            x: fadd(Format::Binary64, self.x, o.x),
            y: fadd(Format::Binary64, self.y, o.y),
        }
    }

    /// Componentwise difference.
    pub fn minus(self, o: Vector2) -> (r: Vector2)
        ensures
            r@ == self@.minus(o@),
    {
        Vector2 {
            x: fsub(Format::Binary64, self.x, o.x),
            y: fsub(Format::Binary64, self.y, o.y),
        }
    }

    /// Each component multiplied by `k`.
    pub fn times(self, k: u64) -> (r: Vector2)
        ensures
            r@ == self@.times(k as nat),
    {
        Vector2 {
            x: fmul(Format::Binary64, self.x, k),
            y: fmul(Format::Binary64, self.y, k),
        }
    }

    /// Each component divided by `k`.
    pub fn over(self, k: u64) -> (r: Vector2)
        ensures
            r@ == self@.over(k as nat),
    {
        Vector2 {
            x: fdiv(Format::Binary64, self.x, k),
            y: fdiv(Format::Binary64, self.y, k),
        }
    }

    /// The Euclidean length.
    pub fn norm(self) -> (r: u64)
        ensures
            r == self@.norm(),
    {
        let xx = fmul(Format::Binary64, self.x, self.x);
        let yy = fmul(Format::Binary64, self.y, self.y);
        fsqrt(Format::Binary64, fadd(Format::Binary64, xx, yy))
    }

    /// The vector divided by its length.
    pub fn unit(self) -> (r: Vector2)
        ensures
            r@ == self@.unit(),
    {
        let n = self.norm();
        self.over(n)
    }
}

} // verus!
