//! Match scores as exact rationals.
//!
//! The ranking rules produce scores such as `87.0` (in tenths) or
//! `30 * (m - d) / m` (from the edit-distance fallback). To keep ranking
//! exact, a score is kept as an integer fraction `num / den` and compared by
//! cross-multiplication rather than rounded to a machine float.

use vstd::prelude::*;
use vstd::arithmetic::div_mod::{lemma_fundamental_div_mod, lemma_mod_bound};

verus! {

/// A positive rational score: `num / den` points out of 100.
#[derive(Clone, Copy, PartialEq, Eq, Structural, Debug)]
pub struct Score {
    pub num: u128,
    pub den: u128,
}

impl Score {
    /// Scores are positive, and denominators are small enough that the
    /// remainders in a comparison can be cross-multiplied without overflow.
    pub open spec fn valid(self) -> bool {
        &&& 1 <= self.num
        &&& 1 <= self.den <= 0xffff_ffff_ffff_ffff
    }
}

/// `a` is strictly below `b` as a rational number.
pub open spec fn rat_lt(a: Score, b: Score) -> bool {
    (a.num as int) * (b.den as int) < (b.num as int) * (a.den as int)
}

/// `a` and `b` are the same rational number (possibly in different terms).
pub open spec fn rat_eq(a: Score, b: Score) -> bool {
    (a.num as int) * (b.den as int) == (b.num as int) * (a.den as int)
}

/// The rational order is transitive.
pub proof fn lemma_rat_lt_trans(a: Score, b: Score, c: Score)
    requires
        a.valid(),
        b.valid(),
        c.valid(),
        rat_lt(a, b),
        rat_lt(b, c),
    ensures
        rat_lt(a, c),
{
    let (an, ad) = (a.num as int, a.den as int);
    let (bn, bd) = (b.num as int, b.den as int);
    let (cn, cd) = (c.num as int, c.den as int);
    assert(an * bd * cd < bn * ad * cd) by (nonlinear_arith)
        requires an * bd < bn * ad, cd > 0,
    ;
    assert(bn * cd * ad < cn * bd * ad) by (nonlinear_arith)
        requires bn * cd < cn * bd, ad > 0,
    ;
    assert(an * bd * cd == an * cd * bd && bn * ad * cd == bn * cd * ad && cn * bd * ad == cn * ad
        * bd) by (nonlinear_arith);
    assert(an * cd < cn * ad) by (nonlinear_arith)
        requires an * cd * bd < cn * ad * bd, bd > 0,
    ;
}

/// Equal rationals sit strictly below the same things.
pub proof fn lemma_rat_eq_lt(a: Score, b: Score, c: Score)
    requires
        a.valid(),
        b.valid(),
        c.valid(),
        rat_eq(a, b),
    ensures
        rat_lt(a, c) == rat_lt(b, c),
        rat_lt(c, a) == rat_lt(c, b),
{
    let (an, ad) = (a.num as int, a.den as int);
    let (bn, bd) = (b.num as int, b.den as int);
    let (cn, cd) = (c.num as int, c.den as int);
    assert((an * cd < cn * ad) == (bn * cd < cn * bd)) by (nonlinear_arith)
        requires an * bd == bn * ad, ad > 0, bd > 0, cd > 0,
    ;
    assert((cn * ad < an * cd) == (cn * bd < bn * cd)) by (nonlinear_arith)
        requires an * bd == bn * ad, ad > 0, bd > 0, cd > 0,
    ;
}

/// Comparing fractions by cross-multiplication is the same as comparing
/// their integer parts first and then the remainders, again by
/// cross-multiplication. This is what lets the executable comparison stay
/// within fixed-width arithmetic.
proof fn lemma_rat_cmp_parts(a: int, b: int, c: int, d: int)
    requires
        a >= 0,
        b >= 1,
        c >= 0,
        d >= 1,
    ensures
        (a * d < c * b) <==> (a / b < c / d || (a / b == c / d && (a % b) * d < (c % d) * b)),
{
    let qa = a / b;
    let ra = a % b;
    let qc = c / d;
    let rc = c % d;
    lemma_fundamental_div_mod(a, b);
    lemma_fundamental_div_mod(c, d);
    lemma_mod_bound(a, b);
    lemma_mod_bound(c, d);
    assert(qa >= 0 && qc >= 0) by (nonlinear_arith)
        requires
            a >= 0,
            b >= 1,
            c >= 0,
            d >= 1,
            a == b * qa + ra,
            c == d * qc + rc,
            0 <= ra < b,
            0 <= rc < d,
    ;
    assert(a * d == qa * (b * d) + ra * d && c * b == qc * (b * d) + rc * b) by (nonlinear_arith)
        requires a == b * qa + ra, c == d * qc + rc,
    ;
    if qa < qc {
        assert(qa * (b * d) + ra * d < qc * (b * d) + rc * b) by (nonlinear_arith)
            requires qa < qc, 0 <= ra < b, 0 <= rc, d >= 1, b >= 1,
        ;
    } else if qa > qc {
        assert(qa * (b * d) + ra * d >= qc * (b * d) + rc * b) by (nonlinear_arith)
            requires qa > qc, 0 <= rc < d, 0 <= ra, d >= 1, b >= 1,
        ;
    } else {
        assert((qa * (b * d) + ra * d < qc * (b * d) + rc * b) == (ra * d < rc * b))
            by (nonlinear_arith)
            requires qa == qc,
        ;
    }
}

/// Strict comparison of two scores as rationals.
pub fn score_lt(a: &Score, b: &Score) -> (r: bool)
    requires
        a.valid(),
        b.valid(),
    ensures
        r == rat_lt(*a, *b),
{
    let qa = a.num / a.den;
    let ra = a.num % a.den;
    let qb = b.num / b.den;
    let rb = b.num % b.den;
    proof {
        lemma_rat_cmp_parts(a.num as int, a.den as int, b.num as int, b.den as int);
        assert(ra * (b.den as int) < 0x1_0000_0000_0000_0000 * 0x1_0000_0000_0000_0000)
            by (nonlinear_arith)
            requires
                0 <= ra < 0x1_0000_0000_0000_0000,
                0 <= (b.den as int) < 0x1_0000_0000_0000_0000,
        ;
        assert(rb * (a.den as int) < 0x1_0000_0000_0000_0000 * 0x1_0000_0000_0000_0000)
            by (nonlinear_arith)
            requires
                0 <= rb < 0x1_0000_0000_0000_0000,
                0 <= (a.den as int) < 0x1_0000_0000_0000_0000,
        ;
        lemma_mod_bound(a.num as int, a.den as int);
        lemma_mod_bound(b.num as int, b.den as int);
    }
    if qa != qb {
        qa < qb
    } else {
        ra * b.den < rb * a.den
    }
}

} // verus!
