//! Fixed-point vector arithmetic: the exact inner product that every
//! similarity score in this crate is defined from.

use vstd::prelude::*;
use vstd::arithmetic::mul::lemma_mul_inequality;

verus! {

/// Largest magnitude allowed for one fixed-point vector component (2^31).
pub const COORD_LIMIT: i64 = 0x8000_0000;

/// Largest vector dimension the index accepts (2^20).
pub const DIM_LIMIT: usize = 0x10_0000;

/// Largest magnitude of one product of two bounded components (2^62).
pub const TERM_LIMIT: i128 = 0x4000_0000_0000_0000;

/// Largest magnitude of an inner product of bounded vectors (2^82).
pub const SIM_LIMIT: i128 = 0x40000_0000_0000_0000_0000;

/// Inner product of the first `n` components of `a` and `b`.
pub open spec fn dot_prefix(a: Seq<i64>, b: Seq<i64>, n: int) -> int
    decreases n,
{
    if n <= 0 {
        0
    } else {
        dot_prefix(a, b, n - 1) + a[n - 1] * b[n - 1]
    }
}

/// Inner product of two equal-length component sequences.
pub open spec fn dot(a: Seq<i64>, b: Seq<i64>) -> int {
    dot_prefix(a, b, a.len() as int)
}

/// Every component of `s` has magnitude at most `COORD_LIMIT`.
pub open spec fn coords_bounded(s: Seq<i64>) -> bool {
    forall|i: int| 0 <= i < s.len() ==> -COORD_LIMIT <= #[trigger] s[i] <= COORD_LIMIT
}

/// A prefix inner product of bounded components is itself bounded.
pub proof fn lemma_dot_prefix_bound(a: Seq<i64>, b: Seq<i64>, n: int)
    requires
        0 <= n <= a.len(),
        n <= b.len(),
        coords_bounded(a),
        coords_bounded(b),
    ensures
        -n * (TERM_LIMIT as int) <= dot_prefix(a, b, n) <= n * (TERM_LIMIT as int),
    decreases n,
{
    if n > 0 {
        lemma_dot_prefix_bound(a, b, n - 1);
        assert(-0x4000_0000_0000_0000 <= a[n - 1] * b[n - 1] <= 0x4000_0000_0000_0000)
            by (nonlinear_arith)
            requires
                -0x8000_0000 <= a[n - 1] <= 0x8000_0000,
                -0x8000_0000 <= b[n - 1] <= 0x8000_0000,
        {}
    }
}

/// The inner product of two bounded vectors of dimension at most
/// `DIM_LIMIT` has magnitude at most `SIM_LIMIT`.
pub proof fn lemma_dot_bound(a: Seq<i64>, b: Seq<i64>)
    requires
        a.len() == b.len(),
        a.len() <= DIM_LIMIT,
        coords_bounded(a),
        coords_bounded(b),
    ensures
        -SIM_LIMIT <= dot(a, b) <= SIM_LIMIT,
{
    lemma_dot_prefix_bound(a, b, a.len() as int);
    lemma_mul_inequality(a.len() as int, DIM_LIMIT as int, TERM_LIMIT as int);
}

/// Exact inner product of two fixed-point vectors; `None` exactly when
/// the dimensions disagree.
pub fn compute_dot_product(vec_a: &Vec<i64>, vec_b: &Vec<i64>) -> (r: Option<i128>)
    requires
        vec_a@.len() <= DIM_LIMIT,
        coords_bounded(vec_a@),
        coords_bounded(vec_b@),
    ensures
        match r {
            Some(d) => vec_a@.len() == vec_b@.len() && d == dot(vec_a@, vec_b@),
            None => vec_a@.len() != vec_b@.len(),
        },
{
    if vec_a.len() != vec_b.len() {
        return None;
    }
    let mut acc: i128 = 0;
    let mut i: usize = 0;
    while i < vec_a.len()
        invariant
            0 <= i <= vec_a@.len(),
            vec_a@.len() == vec_b@.len(),
            vec_a@.len() <= DIM_LIMIT,
            coords_bounded(vec_a@),
            coords_bounded(vec_b@),
            acc == dot_prefix(vec_a@, vec_b@, i as int),
            -(i as int) * (TERM_LIMIT as int) <= acc <= (i as int) * (TERM_LIMIT as int),
        decreases vec_a@.len() - i,
    {
        let va = vec_a[i];
        let vb = vec_b[i];
        proof {
            assert(-0x4000_0000_0000_0000 <= va as int * vb as int <= 0x4000_0000_0000_0000)
                by (nonlinear_arith)
                requires
                    -0x8000_0000 <= va as int <= 0x8000_0000,
                    -0x8000_0000 <= vb as int <= 0x8000_0000,
            {}
            lemma_mul_inequality(i as int, DIM_LIMIT as int, TERM_LIMIT as int);
        }
        acc = acc + (va as i128) * (vb as i128);
        i = i + 1;
    }
    Some(acc)
}

/// Sum of two machine integers, exact by precondition.
pub fn add(a: i32, b: i32) -> (r: i32)
    requires
        i32::MIN <= a + b <= i32::MAX,
    ensures
        r == a + b,
{
    a + b
}

} // verus!
