//! Fixed-point helpers shared by the similarity and layout stages.

use vstd::prelude::*;

verus! {

/// The integer square root as a mathematical function: the unique `r >= 0`
/// with `r * r <= x < (r + 1) * (r + 1)`.
pub open spec fn sqrt_nat(x: int) -> int {
    choose|r: int| #![trigger r * r] r >= 0 && r * r <= x && x < (r + 1) * (r + 1)
}

/// Any value with the square-root property is the square root.
pub proof fn lemma_sqrt_nat_unique(x: int, r: int)
    requires
        r >= 0,
        r * r <= x,
        x < (r + 1) * (r + 1),
    ensures
        sqrt_nat(x) == r,
{
    assert(exists|w: int| #![trigger w * w] w >= 0 && w * w <= x && x < (w + 1) * (w + 1)) by {
        assert(r >= 0 && r * r <= x && x < (r + 1) * (r + 1));
    }
    let s = sqrt_nat(x);
    assert(s >= 0 && s * s <= x && x < (s + 1) * (s + 1));
    assert(s == r) by (nonlinear_arith)
        requires
            r >= 0,
            r * r <= x,
            x < (r + 1) * (r + 1),
            s >= 0,
            s * s <= x,
            x < (s + 1) * (s + 1),
    ;
}

/// Integer square root: the largest `r` with `r * r <= x`.
///
/// Used to take vector norms and geometric means of fixed-point scores.
pub fn isqrt(x: u128) -> (r: u128)
    ensures
        r * r <= x,
        x < (r + 1) * (r + 1),
        r as int == sqrt_nat(x as int),
{
    if x == 0 {
        proof {
            lemma_sqrt_nat_unique(0, 0);
        }
        return 0;
    }
    let mut lo: u128 = 0;
    let mut hi: u128 = x;
    if hi > 0xffff_ffff_ffff_ffff {
        hi = 0xffff_ffff_ffff_ffff;
    }
    proof {
        assert(x < (hi + 1) * (hi + 1)) by (nonlinear_arith)
            requires
                hi == if x > 0xffff_ffff_ffff_ffffu128 {
                    0xffff_ffff_ffff_ffffu128
                } else {
                    x
                },
                0 < x <= u128::MAX,
        ;
    }
    while lo < hi
        invariant
            lo <= hi <= 0xffff_ffff_ffff_ffff,
            lo * lo <= x,
            x < (hi + 1) * (hi + 1),
        decreases hi - lo,
    {
        let mid = lo + (hi - lo + 1) / 2;
        proof {
            assert(mid * mid < u128::MAX) by (nonlinear_arith)
                requires
                    mid <= 0xffff_ffff_ffff_ffffu128,
            ;
        }
        if mid * mid <= x {
            lo = mid;
        } else {
            hi = mid - 1;
        }
    }
    proof {
        lemma_sqrt_nat_unique(x as int, lo as int);
    }
    lo
}

} // verus!
