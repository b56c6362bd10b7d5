//! The rank of a search hit: its token score plus the closeness of the query
//! to the stored text, a value between 0 and 1. The closeness is one minus
//! the edit distance over the longer of the two lengths, so a rank is a
//! fraction, and ranks are compared exactly, in whole numbers.

use crate::sort::SortKey;
use vstd::prelude::*;

verus! {

/// A rank: `score + 1 - distance / span`.
#[derive(Clone, Copy, Debug)]
pub struct Rank {
    pub score: u64,
    pub distance: usize,
    pub span: usize,
}

impl Rank {
    /// The span is positive and the distance does not exceed it.
    pub open spec fn wf(self) -> bool {
        1 <= self.span && self.distance <= self.span
    }

    /// The rank times its span.
    pub open spec fn scaled(self) -> int {
        (self.score + 1) * self.span - self.distance
    }

    /// Whether this rank is greater than `other`.
    pub open spec fn outranks(self, other: Rank) -> bool {
        self.scaled() * other.span > other.scaled() * self.span
    }

    /// Whether this rank is greater than half of `top`.
    pub open spec fn above_half_of(self, top: Rank) -> bool {
        2 * self.scaled() * top.span > top.scaled() * self.span
    }

    /// The whole part of the rank.
    pub open spec fn whole(self) -> int {
        if self.distance == 0 {
            self.score + 1
        } else {
            self.score as int
        }
    }

    /// The rest of the rank above its whole part, times the span.
    pub open spec fn rest(self) -> int {
        if self.distance == 0 {
            0
        } else {
            self.span - self.distance
        }
    }

    /// The whole part of the rank.
    fn whole_part(&self) -> (out: u128)
        ensures
            out == self.whole(),
    {
        if self.distance == 0 {
            self.score as u128 + 1
        } else {
            self.score as u128
        }
    }

    /// The rest of the rank above its whole part, times the span.
    fn rest_part(&self) -> (out: u128)
        requires
            self.wf(),
        ensures
            out == self.rest(),
    {
        if self.distance == 0 {
            0
        } else {
            (self.span - self.distance) as u128
        }
    }

    /// Decides `outranks`.
    pub fn is_above(&self, other: &Rank) -> (out: bool)
        requires
            self.wf(),
            other.wf(),
        ensures
            out == self.outranks(*other),
    {
        let wa = self.whole_part();
        let wb = other.whole_part();
        let ra = self.rest_part();
        let rb = other.rest_part();
        let da = self.span as u128;
        let db = other.span as u128;
        proof {
            lemma_mixed_order(wa as int, ra as int, da as int, wb as int, rb as int, db as int);
            lemma_scaled(*self);
            lemma_scaled(*other);
            lemma_product_fits(ra as int, db as int);
            lemma_product_fits(rb as int, da as int);
        }
        wa > wb || (wa == wb && ra * db > rb * da)
    }

    /// Decides `above_half_of`.
    pub fn is_above_half_of(&self, top: &Rank) -> (out: bool)
        requires
            self.wf(),
            top.wf(),
        ensures
            out == self.above_half_of(*top),
    {
        let wa = self.whole_part();
        let ra = self.rest_part();
        let da = self.span as u128;
        let wt = top.whole_part();
        let rt = top.rest_part();
        let dt = top.span as u128;
        let carry = 2 * ra >= da;
        let w2: u128 = if carry {
            2 * wa + 1
        } else {
            2 * wa
        };
        let r2: u128 = if carry {
            2 * ra - da
        } else {
            2 * ra
        };
        proof {
            lemma_mixed_order(w2 as int, r2 as int, da as int, wt as int, rt as int, dt as int);
            lemma_scaled(*self);
            lemma_scaled(*top);
            lemma_product_fits(r2 as int, dt as int);
            lemma_product_fits(rt as int, da as int);
            lemma_doubled(wa as int, ra as int, da as int, top.scaled(), dt as int);
        }
        w2 > wt || (w2 == wt && r2 * dt > rt * da)
    }
}

/// The scaled rank is the whole part times the span plus the rest, and the
/// rest is less than the span.
pub proof fn lemma_scaled(r: Rank)
    requires
        r.wf(),
    ensures
        r.scaled() == r.whole() * r.span + r.rest(),
        0 <= r.rest() < r.span,
        0 <= r.whole(),
{
    assert((r.score + 1) * r.span == r.score * r.span + r.span) by (nonlinear_arith);
}

/// The product of two numbers below 2^64 fits 128 bits.
pub proof fn lemma_product_fits(a: int, b: int)
    requires
        0 <= a <= u64::MAX,
        0 <= b <= u64::MAX,
    ensures
        0 <= a * b <= u128::MAX,
{
    assert(0 <= a * b <= 0xffff_ffff_ffff_ffff * 0xffff_ffff_ffff_ffff) by (nonlinear_arith)
        requires
            0 <= a <= 0xffff_ffff_ffff_ffff,
            0 <= b <= 0xffff_ffff_ffff_ffff,
    ;
}

/// Two mixed fractions compare by their whole parts first, then by the
/// fractions that are left.
pub proof fn lemma_mixed_order(wa: int, ra: int, da: int, wb: int, rb: int, db: int)
    requires
        0 <= ra < da,
        0 <= rb < db,
    ensures
        ((wa * da + ra) * db > (wb * db + rb) * da) == (wa > wb || (wa == wb && ra * db > rb
            * da)),
{
    assert((wa * da + ra) * db == wa * (da * db) + ra * db) by (nonlinear_arith);
    assert((wb * db + rb) * da == wb * (da * db) + rb * da) by (nonlinear_arith);
    assert(0 <= ra * db < da * db) by (nonlinear_arith)
        requires
            0 <= ra < da,
            0 < db,
    ;
    assert(0 <= rb * da < da * db) by (nonlinear_arith)
        requires
            0 <= rb < db,
            0 < da,
    ;
    let unit = da * db;
    if wa > wb {
        assert(wa * unit >= wb * unit + unit) by (nonlinear_arith)
            requires
                wa >= wb + 1,
                unit > 0,
        ;
    } else if wa < wb {
        assert(wb * unit >= wa * unit + unit) by (nonlinear_arith)
            requires
                wb >= wa + 1,
                unit > 0,
        ;
    }
}

/// Twice a mixed fraction, against another scaled value.
pub proof fn lemma_doubled(wa: int, ra: int, da: int, other: int, dt: int)
    requires
        0 <= ra < da,
    ensures
        (2 * (wa * da + ra) * dt > other * da) == (if 2 * ra >= da {
            ((2 * wa + 1) * da + (2 * ra - da)) * dt > other * da
        } else {
            ((2 * wa) * da + 2 * ra) * dt > other * da
        }),
{
    assert((2 * wa + 1) * da + (2 * ra - da) == 2 * (wa * da + ra)) by (nonlinear_arith);
    assert((2 * wa) * da + 2 * ra == 2 * (wa * da + ra)) by (nonlinear_arith);
}

/// No rank is greater than itself, and of two ranks at most one is greater
/// than the other.
pub proof fn lemma_outranks_asymmetric(a: Rank, b: Rank)
    ensures
        !(a.outranks(b) && b.outranks(a)),
        !a.outranks(a),
{
}

/// A rank that is greater than one that is greater than a third is greater
/// than the third.
pub proof fn lemma_outranks_transitive(a: Rank, b: Rank, c: Rank)
    requires
        a.wf(),
        b.wf(),
        c.wf(),
        a.outranks(b),
        b.outranks(c),
    ensures
        a.outranks(c),
{
    let (na, da) = (a.scaled(), a.span as int);
    let (nb, db) = (b.scaled(), b.span as int);
    let (nc, dc) = (c.scaled(), c.span as int);
    assert(na * dc > nc * da) by (nonlinear_arith)
        requires
            na * db > nb * da,
            nb * dc > nc * db,
            da > 0,
            db > 0,
            dc > 0,
    {
        assert((na * db) * dc > (nb * da) * dc);
        assert((nb * dc) * da > (nc * db) * da);
        assert((na * dc) * db == (na * db) * dc);
        assert((nb * da) * dc == (nb * dc) * da);
        assert((nc * db) * da == (nc * da) * db);
        assert((na * dc) * db > (nc * da) * db);
    }
}

/// Two ranks of which neither is greater than the other are the same
/// number: a third rank is above half of both or of neither.
pub proof fn lemma_above_half_of_equals(x: Rank, a: Rank, b: Rank)
    requires
        x.wf(),
        a.wf(),
        b.wf(),
        !a.outranks(b),
        !b.outranks(a),
    ensures
        x.above_half_of(a) == x.above_half_of(b),
{
    let (nx, dx) = (x.scaled(), x.span as int);
    let (na, da) = (a.scaled(), a.span as int);
    let (nb, db) = (b.scaled(), b.span as int);
    assert(na * db == nb * da);
    assert((2 * nx * da > na * dx) == (2 * nx * db > nb * dx)) by (nonlinear_arith)
        requires
            na * db == nb * da,
            da > 0,
            db > 0,
            dx > 0,
    {
        assert((2 * nx * da) * db == (2 * nx * db) * da);
        assert((na * dx) * db == (nb * dx) * da);
        if 2 * nx * da > na * dx {
            assert((2 * nx * da) * db > (na * dx) * db);
            assert((2 * nx * db) * da > (nb * dx) * da);
        }
        if 2 * nx * db > nb * dx {
            assert((2 * nx * db) * da > (nb * dx) * da);
            assert((2 * nx * da) * db > (na * dx) * db);
        }
    }
}

impl SortKey for Rank {
    open spec fn comparable(&self) -> bool {
        self.wf()
    }

    open spec fn before(&self, other: &Self) -> bool {
        self.outranks(*other)
    }

    fn is_before(&self, other: &Self) -> (out: bool) {
        self.is_above(other)
    }
}

} // verus!
