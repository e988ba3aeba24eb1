//! Fixed-point embedding vectors and cosine similarity.
//!
//! Components are stored in thousandths (milli-units); a cosine similarity
//! is likewise a milli-value, clamped to `[-1000, 1000]`.

use vstd::prelude::*;

use crate::numeric::isqrt;
use crate::numeric::sqrt_nat;

verus! {

/// Largest magnitude a vector component may carry (a thousand units, in
/// milli-units).
pub const EMB_LIMIT: i64 = 1_000_000;

/// Largest embedding dimensionality the pipeline accepts.
pub const MAX_DIM: usize = 8192;

/// A well-formed embedding vector: bounded dimensionality and bounded
/// components, so that no similarity computation can overflow.
pub open spec fn emb_wf(v: Seq<i64>) -> bool {
    &&& v.len() <= MAX_DIM
    &&& forall|i: int| 0 <= i < v.len() ==> -EMB_LIMIT <= #[trigger] v[i] <= EMB_LIMIT
}

/// The dot product of the first `n` components.
pub open spec fn dot_to(a: Seq<i64>, b: Seq<i64>, n: int) -> int
    decreases n,
{
    if n <= 0 {
        0
    } else {
        dot_to(a, b, n - 1) + a[n - 1] * b[n - 1]
    }
}

/// The dot product of two equally long vectors.
pub open spec fn dot(a: Seq<i64>, b: Seq<i64>) -> int {
    dot_to(a, b, a.len() as int)
}

/// The dot product is symmetric.
pub proof fn lemma_dot_comm(a: Seq<i64>, b: Seq<i64>, n: int)
    ensures
        dot_to(a, b, n) == dot_to(b, a, n),
    decreases n,
{
    if n > 0 {
        lemma_dot_comm(a, b, n - 1);
        assert(a[n - 1] * b[n - 1] == b[n - 1] * a[n - 1]) by (nonlinear_arith);
    }
}

/// The dot product of bounded vectors is bounded.
pub proof fn lemma_dot_bound(a: Seq<i64>, b: Seq<i64>, n: int)
    requires
        emb_wf(a),
        emb_wf(b),
        0 <= n <= a.len(),
        n <= b.len(),
    ensures
        -(n * EMB_LIMIT * EMB_LIMIT) <= dot_to(a, b, n) <= n * EMB_LIMIT * EMB_LIMIT,
    decreases n,
{
    if n <= 0 {
        assert(n * EMB_LIMIT * EMB_LIMIT == 0) by (nonlinear_arith)
            requires
                n == 0,
        ;
    } else {
        lemma_dot_bound(a, b, n - 1);
        assert(-(EMB_LIMIT * EMB_LIMIT) <= a[n - 1] * b[n - 1] <= EMB_LIMIT * EMB_LIMIT)
            by (nonlinear_arith)
            requires
                -EMB_LIMIT <= a[n - 1] <= EMB_LIMIT,
                -EMB_LIMIT <= b[n - 1] <= EMB_LIMIT,
        ;
        assert(n * EMB_LIMIT * EMB_LIMIT == (n - 1) * EMB_LIMIT * EMB_LIMIT + EMB_LIMIT * EMB_LIMIT)
            by (nonlinear_arith);
    }
}

/// A vector's dot product with itself is never negative.
pub proof fn lemma_norm2_nonneg(a: Seq<i64>, n: int)
    ensures
        dot_to(a, a, n) >= 0,
    decreases n,
{
    if n > 0 {
        lemma_norm2_nonneg(a, n - 1);
        assert(a[n - 1] * a[n - 1] >= 0) by (nonlinear_arith);
    }
}

/// The cosine similarity of two vectors, in milli-units: the dot product
/// scaled by both norms.  Zero-norm vectors have similarity 0 to
/// everything; the magnitude is clamped to 1000.
pub open spec fn spec_cosine_milli(a: Seq<i64>, b: Seq<i64>) -> int {
    let na = dot(a, a);
    let nb = dot(b, b);
    if na == 0 || nb == 0 {
        0
    } else {
        let d = dot_to(a, b, a.len() as int);
        let ad: int = if d < 0 {
            -d
        } else {
            d
        };
        let m = ad * 1000 / sqrt_nat(na * nb);
        let mc = if m > 1000 {
            1000int
        } else {
            m
        };
        if d < 0 {
            -mc
        } else {
            mc
        }
    }
}

/// The similarity is symmetric in its arguments.
pub proof fn lemma_cosine_symmetric(a: Seq<i64>, b: Seq<i64>)
    requires
        a.len() == b.len(),
    ensures
        spec_cosine_milli(a, b) == spec_cosine_milli(b, a),
{
    lemma_dot_comm(a, b, a.len() as int);
    assert(dot(a, a) * dot(b, b) == dot(b, b) * dot(a, a)) by (nonlinear_arith);
}

/// A vector with a positive norm has similarity 1000 with itself.
pub proof fn lemma_cosine_self(a: Seq<i64>)
    requires
        dot(a, a) > 0,
    ensures
        spec_cosine_milli(a, a) == 1000,
{
    let na = dot(a, a);
    assert(na * na < (na + 1) * (na + 1)) by (nonlinear_arith)
        requires
            na > 0,
    ;
    assert(na * na >= 0) by (nonlinear_arith)
        requires
            na > 0,
    ;
    crate::numeric::lemma_sqrt_nat_unique(na * na, na);
    assert(na * 1000 / na == 1000) by (nonlinear_arith)
        requires
            na > 0,
    ;
}

/// The exec dot product, accumulated exactly in 128 bits.
fn dot_exec(a: &Vec<i64>, b: &Vec<i64>) -> (r: i128)
    requires
        emb_wf(a@),
        emb_wf(b@),
        a@.len() == b@.len(),
    ensures
        r as int == dot(a@, b@),
{
    let n = a.len();
    let mut acc: i128 = 0;
    let mut i: usize = 0;
    while i < n
        invariant
            i <= n == a@.len(),
            n == b@.len(),
            emb_wf(a@),
            emb_wf(b@),
            acc as int == dot_to(a@, b@, i as int),
        decreases n - i,
    {
        proof {
            lemma_dot_bound(a@, b@, i as int);
            lemma_dot_bound(a@, b@, i + 1);
            assert(i * EMB_LIMIT * EMB_LIMIT <= MAX_DIM * EMB_LIMIT * EMB_LIMIT)
                by (nonlinear_arith)
                requires
                    0 <= i <= MAX_DIM,
                    EMB_LIMIT * EMB_LIMIT >= 0,
            ;
            assert((i + 1) * EMB_LIMIT * EMB_LIMIT <= (MAX_DIM as int) * EMB_LIMIT * EMB_LIMIT)
                by (nonlinear_arith)
                requires
                    0 <= i + 1 <= MAX_DIM,
                    EMB_LIMIT * EMB_LIMIT >= 0,
            ;
        }
        let prod: i128 = (a[i] as i128) * (b[i] as i128);
        acc = acc + prod;
        i = i + 1;
    }
    acc
}

/// The exec cosine similarity in milli-units.
pub fn cosine_milli(a: &Vec<i64>, b: &Vec<i64>) -> (r: i64)
    requires
        emb_wf(a@),
        emb_wf(b@),
        a@.len() == b@.len(),
    ensures
        r as int == spec_cosine_milli(a@, b@),
        -1000 <= r <= 1000,
{
    let na = dot_exec(a, a);
    let nb = dot_exec(b, b);
    proof {
        lemma_norm2_nonneg(a@, a@.len() as int);
        lemma_norm2_nonneg(b@, b@.len() as int);
        lemma_dot_bound(a@, a@, a@.len() as int);
        lemma_dot_bound(b@, b@, b@.len() as int);
        lemma_dot_bound(a@, b@, a@.len() as int);
        assert((a@.len() as int) * EMB_LIMIT * EMB_LIMIT <= (MAX_DIM as int) * EMB_LIMIT
            * EMB_LIMIT) by (nonlinear_arith)
            requires
                0 <= a@.len() as int <= MAX_DIM,
                EMB_LIMIT * EMB_LIMIT >= 0,
        ;
        assert((b@.len() as int) * EMB_LIMIT * EMB_LIMIT <= (MAX_DIM as int) * EMB_LIMIT
            * EMB_LIMIT) by (nonlinear_arith)
            requires
                0 <= b@.len() as int <= MAX_DIM,
                EMB_LIMIT * EMB_LIMIT >= 0,
        ;
    }
    if na == 0 || nb == 0 {
        return 0;
    }
    let d = dot_exec(a, b);
    proof {
        assert((MAX_DIM as int) * EMB_LIMIT * EMB_LIMIT == 8192000000000000int)
            by (nonlinear_arith);
        assert((na as int) * (nb as int) < 0x1_0000_0000_0000_0000_0000_0000_0000_0000int
            && (na as int) * (nb as int) >= 1) by (nonlinear_arith)
            requires
                1 <= na as int <= 8192000000000000int,
                1 <= nb as int <= 8192000000000000int,
        ;
    }
    let prod: u128 = (na as u128) * (nb as u128);
    let denom = isqrt(prod);
    proof {
        assert(prod >= 1);
        assert(denom >= 1) by {
            if denom == 0 {
                assert(prod < 1);
            }
        }
    }
    let mag: u128 = if d < 0 {
        (-d) as u128
    } else {
        d as u128
    };
    let m: u128 = mag * 1000 / denom;
    let mc: u128 = if m > 1000 {
        1000
    } else {
        m
    };
    if d < 0 {
        -(mc as i64)
    } else {
        mc as i64
    }
}

} // verus!
