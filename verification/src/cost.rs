//! Accumulated alignment costs and caller-supplied distance functions.
//!
//! A cost is either a finite non-negative number or infinity.  Infinity marks
//! dynamic-programming cells that no alignment path can reach; it absorbs
//! addition, so an unreachable cell can never turn into a large-but-finite
//! score.  Finite accumulation saturates at `u64::MAX` instead of wrapping.

use vstd::math::abs;
use vstd::prelude::*;

verus! {

/// An accumulated alignment cost: a finite value or positive infinity.
#[derive(Debug, Clone, Copy, PartialEq, Eq, Structural)]
pub enum Cost {
    /// A finite accumulated cost.
    Fin(u64),
    /// The cost of an unreachable cell; absorbs addition.
    Inf,
}

/// `a <= b` in the order where `Inf` is above every finite value.
pub open spec fn cost_le(a: Cost, b: Cost) -> bool {
    match b {
        Cost::Inf => true,
        Cost::Fin(vb) => match a {
            Cost::Inf => false,
            Cost::Fin(va) => va <= vb,
        },
    }
}

/// `a < b` in the order where `Inf` is above every finite value.
pub open spec fn cost_lt(a: Cost, b: Cost) -> bool {
    cost_le(a, b) && a != b
}

/// `a + d`, where infinity absorbs and finite addition saturates.
pub open spec fn cost_add(a: Cost, d: u64) -> Cost {
    match a {
        Cost::Inf => Cost::Inf,
        Cost::Fin(v) => if v + d > u64::MAX {
            Cost::Fin(u64::MAX)
        } else {
            Cost::Fin((v + d) as u64)
        },
    }
}

/// The smaller of two costs.
pub open spec fn cost_min(a: Cost, b: Cost) -> Cost {
    if cost_le(a, b) {
        a
    } else {
        b
    }
}

/// The smallest of three costs.
pub open spec fn cost_min3(a: Cost, b: Cost, c: Cost) -> Cost {
    cost_min(a, cost_min(b, c))
}

impl Cost {
    /// Whether the cost is finite.
    pub open spec fn spec_is_fin(self) -> bool {
        self is Fin
    }

    /// Whether the cost is finite.
    pub fn is_fin(&self) -> (r: bool)
        ensures
            r == self.spec_is_fin(),
    {
        match self {
            Cost::Fin(_) => true,
            Cost::Inf => false,
        }
    }

    /// `self <= other` in the order where `Inf` is the top element.
    pub fn le(&self, other: &Cost) -> (r: bool)
        ensures
            r == cost_le(*self, *other),
    {
        match (self, other) {
            (_, Cost::Inf) => true,
            (Cost::Inf, Cost::Fin(_)) => false,
            (Cost::Fin(a), Cost::Fin(b)) => a <= b,
        }
    }

    /// `self < other` in the order where `Inf` is the top element.
    pub fn lt(&self, other: &Cost) -> (r: bool)
        ensures
            r == cost_lt(*self, *other),
    {
        match (self, other) {
            (Cost::Inf, _) => false,
            (Cost::Fin(a), Cost::Inf) => true,
            (Cost::Fin(a), Cost::Fin(b)) => a < b,
        }
    }

    /// Adds a finite distance; infinity absorbs, finite addition saturates.
    pub fn add(&self, d: u64) -> (r: Cost)
        ensures
            r == cost_add(*self, d),
    {
        match self {
            Cost::Inf => Cost::Inf,
            Cost::Fin(v) => if *v > u64::MAX - d {
                Cost::Fin(u64::MAX)
            } else {
                Cost::Fin(*v + d)
            },
        }
    }

    /// The smaller of two costs.
    pub fn min(&self, other: &Cost) -> (r: Cost)
        ensures
            r == cost_min(*self, *other),
    {
        if self.le(other) {
            *self
        } else {
            *other
        }
    }
}

/// A caller-supplied distance on samples.  Implementations must be pure: the
/// executable method agrees with the spec-level function on every input, so
/// repeated calls on the same pair return the same non-negative cost.
pub trait Dist {
    /// The mathematical distance the implementation computes.
    spec fn d(a: i32, b: i32) -> u64;

    /// Computes the distance between two samples.
    fn dist(&self, a: i32, b: i32) -> (r: u64)
        ensures
            r == Self::d(a, b),
    ;
}

/// Whether a distance never shrinks when a pair of samples is pulled
/// further apart, whichever way round its arguments are given.  Every
/// distance of the form `f(|a - b|)` with `f` non-decreasing has this
/// property.  It is what envelope-based lower bounds assume: a sample
/// outside an envelope is at least as far from everything the envelope
/// covers as from the envelope edge itself.
pub open spec fn dist_monotone<D: Dist>() -> bool {
    &&& forall|a: i32, b: i32, c: i32|
        #![trigger D::d(a, b), D::d(a, c)]
        a <= b <= c ==> D::d(a, b) <= D::d(a, c)
    &&& forall|a: i32, b: i32, c: i32|
        #![trigger D::d(c, b), D::d(c, a)]
        a <= b <= c ==> D::d(c, b) <= D::d(c, a)
    &&& forall|a: i32, b: i32, c: i32|
        #![trigger D::d(a, b), D::d(c, a)]
        a <= b <= c ==> D::d(a, b) <= D::d(c, a)
    &&& forall|a: i32, b: i32, c: i32|
        #![trigger D::d(c, b), D::d(a, c)]
        a <= b <= c ==> D::d(c, b) <= D::d(a, c)
}

/// The squared difference of two samples.
pub struct SqDist;

impl Dist for SqDist {
    open spec fn d(a: i32, b: i32) -> u64 {
        ((a - b) * (a - b)) as u64
    }

    fn dist(&self, a: i32, b: i32) -> (r: u64) {
        let diff: i64 = a as i64 - b as i64;
        let mag: u64 = if diff < 0 {
            (-diff) as u64
        } else {
            diff as u64
        };
        assert(mag == abs(a - b));
        assert(mag * mag == (a - b) * (a - b) && mag * mag <= u64::MAX) by (nonlinear_arith)
            requires
                mag == abs(a - b),
                mag <= u32::MAX as u64 + 1,
        ;
        mag * mag
    }
}

/// One unit of the fixed-point hill metric: the value the metric saturates
/// towards as the squared difference grows.
pub const HILL_UNIT: u64 = 1000000;

/// A saturating "hill" distance in fixed point: the squared difference `d`
/// mapped to `d * HILL_UNIT / (d + 1)`, so distances level off below one
/// unit instead of growing without bound; very large squared differences
/// are clamped first, where the metric has already flattened out.
pub struct HillDist;

impl Dist for HillDist {
    open spec fn d(a: i32, b: i32) -> u64 {
        let sq = (a - b) * (a - b);
        let dc: int = if sq > 0x1_0000_0000 {
            0x1_0000_0000
        } else {
            sq
        };
        ((dc * HILL_UNIT) / (dc + 1)) as u64
    }

    fn dist(&self, a: i32, b: i32) -> (r: u64) {
        let diff: i64 = a as i64 - b as i64;
        let mag: u64 = if diff < 0 {
            (-diff) as u64
        } else {
            diff as u64
        };
        assert(mag == abs(a - b));
        assert(mag * mag == (a - b) * (a - b) && mag * mag <= u64::MAX) by (nonlinear_arith)
            requires
                mag == abs(a - b),
                mag <= u32::MAX as u64 + 1,
        ;
        let sq = mag * mag;
        let dc: u64 = if sq > 0x1_0000_0000 {
            0x1_0000_0000
        } else {
            sq
        };
        assert(dc * HILL_UNIT <= u64::MAX) by (nonlinear_arith)
            requires
                0 <= dc <= 0x1_0000_0000u64,
        ;
        (dc * HILL_UNIT) / (dc + 1)
    }
}

/// The squared difference never shrinks when a pair of samples is pulled
/// further apart, so envelope lower bounds are sound for it.
pub proof fn lemma_sqdist_monotone()
    ensures
        dist_monotone::<SqDist>(),
{
    assert forall|a: i32, b: i32, c: i32| a <= b <= c implies {
        &&& SqDist::d(a, b) <= SqDist::d(a, c)
        &&& SqDist::d(c, b) <= SqDist::d(c, a)
        &&& SqDist::d(a, b) <= SqDist::d(c, a)
        &&& SqDist::d(c, b) <= SqDist::d(a, c)
    } by {
        assert(0 <= (a - b) * (a - b) <= (a - c) * (a - c) && 0 <= (c - b) * (c - b) <= (a - c) * (
        a - c) && (a - c) * (a - c) == (c - a) * (c - a) && (a - c) * (a - c) < u64::MAX)
            by (nonlinear_arith)
            requires
                a <= b <= c,
                -0x8000_0000 <= a <= 0x7fff_ffff,
                -0x8000_0000 <= b <= 0x7fff_ffff,
                -0x8000_0000 <= c <= 0x7fff_ffff,
        ;
    }
}

/// The absolute difference never shrinks when a pair of samples is pulled
/// further apart, so envelope lower bounds are sound for it.
pub proof fn lemma_absdist_monotone()
    ensures
        dist_monotone::<AbsDist>(),
{
    assert forall|a: i32, b: i32, c: i32| a <= b <= c implies {
        &&& AbsDist::d(a, b) <= AbsDist::d(a, c)
        &&& AbsDist::d(c, b) <= AbsDist::d(c, a)
        &&& AbsDist::d(a, b) <= AbsDist::d(c, a)
        &&& AbsDist::d(c, b) <= AbsDist::d(a, c)
    } by {
        assert(abs(a - b) == b - a && abs(c - b) == c - b && abs(a - c) == c - a && abs(c - a) == c
            - a);
    }
}

/// The absolute difference of two samples.
pub struct AbsDist;

impl Dist for AbsDist {
    open spec fn d(a: i32, b: i32) -> u64 {
        abs(a - b) as u64
    }

    fn dist(&self, a: i32, b: i32) -> (r: u64) {
        let diff: i64 = a as i64 - b as i64;
        if diff < 0 {
            (-diff) as u64
        } else {
            diff as u64
        }
    }
}

} // verus!
