//! Cosine similarity over fixed-point embeddings.
//!
//! Embeddings are integer-quantized vectors: each component is a scaled
//! sample of the real-valued embedding. Cosine similarity is invariant under
//! uniform scaling, so the quantization scale is the caller's choice and the
//! similarity comes out in milli-units (`1000` stands for `1.0`).

use vstd::prelude::*;
use crate::arith::{spec_isqrt, lemma_isqrt_bounds, lemma_isqrt_unique, lemma_isqrt_pos, isqrt_u128};

verus! {

/// The largest magnitude an embedding component may carry.
pub const EMBEDDING_COMPONENT_LIMIT: i64 = 1_000_000;

/// The largest embedding dimension the similarity math admits.
pub const EMBEDDING_LENGTH_LIMIT: usize = 65536;

/// The inner product of two equally long vectors (zero padding applies to
/// nothing: sequences of unequal length only meet through their common part,
/// but callers only apply this to equal lengths).
pub open spec fn spec_dot(a: Seq<i64>, b: Seq<i64>) -> int
    decreases a.len(),
{
    if a.len() == 0 || b.len() == 0 {
        0
    } else {
        spec_dot(a.drop_last(), b.drop_last()) + a.last() * b.last()
    }
}

/// Every component of the vector is within `limit` in magnitude.
pub open spec fn components_bounded(a: Seq<i64>, limit: int) -> bool {
    forall|i: int| 0 <= i < a.len() ==> -limit <= #[trigger] a[i] <= limit
}

/// A vector's inner product with itself is never negative.
pub proof fn lemma_dot_self_nonneg(a: Seq<i64>)
    ensures
        spec_dot(a, a) >= 0,
    decreases a.len(),
{
    if a.len() > 0 {
        lemma_dot_self_nonneg(a.drop_last());
        assert(a.last() * a.last() >= 0) by (nonlinear_arith);
    }
}

/// A vector with a nonzero component has a positive inner product with itself.
pub proof fn lemma_dot_self_pos(a: Seq<i64>, i: int)
    requires
        0 <= i < a.len(),
        a[i] != 0,
    ensures
        spec_dot(a, a) > 0,
    decreases a.len(),
{
    lemma_dot_self_nonneg(a.drop_last());
    if i == a.len() - 1 {
        assert(a.last() * a.last() > 0) by (nonlinear_arith)
            requires
                a.last() != 0,
        ;
    } else {
        lemma_dot_self_pos(a.drop_last(), i);
        assert(a.last() * a.last() >= 0) by (nonlinear_arith);
    }
}

/// With all components within `m`, the inner product is within `len * m * m`.
pub proof fn lemma_dot_bounded(a: Seq<i64>, b: Seq<i64>, m: int)
    requires
        a.len() == b.len(),
        m >= 0,
        components_bounded(a, m),
        components_bounded(b, m),
    ensures
        -(a.len() as int) * m * m <= spec_dot(a, b) <= (a.len() as int) * m * m,
    decreases a.len(),
{
    if a.len() > 0 {
        assert(components_bounded(a.drop_last(), m));
        assert(components_bounded(b.drop_last(), m));
        lemma_dot_bounded(a.drop_last(), b.drop_last(), m);
        let n = a.len() as int;
        assert(-(m * m) <= a.last() * b.last() <= m * m) by (nonlinear_arith)
            requires
                -m <= a.last() <= m,
                -m <= b.last() <= m,
                m >= 0,
        ;
        assert((n - 1) * m * m + m * m == n * m * m) by (nonlinear_arith);
        assert(-(n - 1) * m * m - m * m == -n * m * m) by (nonlinear_arith);
    }
}

/// Fixed-point cosine similarity, in milli-units.
///
/// Equal-length vectors with nonzero norms get
/// `dot(a, b) * 1000 / (|a| * |b|)`, rounded toward zero and clamped to
/// `[-1000, 1000]`; vectors of unequal length, and vectors with an all-zero
/// partner, get `0`.
pub open spec fn spec_cosine(a: Seq<i64>, b: Seq<i64>) -> int {
    if a.len() != b.len() {
        0
    } else if spec_dot(a, a) == 0 || spec_dot(b, b) == 0 {
        0
    } else {
        let d = spec_dot(a, b);
        let dabs = if d < 0 { -d } else { d };
        let den = spec_isqrt((spec_dot(a, a) * spec_dot(b, b)) as nat) as int;
        let m = if dabs * 1000 / den > 1000 { 1000int } else { dabs * 1000 / den };
        if d < 0 { -m } else { m }
    }
}

/// The similarity of any vector with itself is exactly `1.0`,
/// provided the vector is not all zero.
pub proof fn lemma_cosine_self(v: Seq<i64>)
    requires
        spec_dot(v, v) != 0,
    ensures
        spec_cosine(v, v) == 1000,
{
    lemma_dot_self_nonneg(v);
    let s = spec_dot(v, v);
    assert(s > 0);
    assert(s * s >= 0 && s * s < (s + 1) * (s + 1)) by (nonlinear_arith)
        requires
            s > 0,
    ;
    lemma_isqrt_unique((s * s) as nat, s as nat);
    assert(s * 1000 / s == 1000) by {
        vstd::arithmetic::div_mod::lemma_div_multiples_vanish(1000, s);
    }
}

/// Orthogonal vectors have similarity exactly `0`.
pub proof fn lemma_cosine_orthogonal(a: Seq<i64>, b: Seq<i64>)
    requires
        spec_dot(a, b) == 0,
    ensures
        spec_cosine(a, b) == 0,
{
    if a.len() == b.len() && spec_dot(a, a) != 0 && spec_dot(b, b) != 0 {
        lemma_dot_self_nonneg(a);
        lemma_dot_self_nonneg(b);
        assert(spec_dot(a, a) * spec_dot(b, b) >= 1) by (nonlinear_arith)
            requires
                spec_dot(a, a) > 0,
                spec_dot(b, b) > 0,
        ;
        let p = spec_dot(a, a) * spec_dot(b, b);
        lemma_isqrt_pos(p as nat);
        let den = spec_isqrt(p as nat) as int;
        assert(0int * 1000 / den == 0) by {
            vstd::arithmetic::div_mod::lemma_div_of0(den);
        }
    }
}

/// A vector paired with its negation has similarity exactly `-1.0`,
/// provided the vector is not all zero.
pub proof fn lemma_cosine_opposite(a: Seq<i64>, b: Seq<i64>)
    requires
        a.len() == b.len(),
        forall|i: int| 0 <= i < a.len() ==> #[trigger] b[i] == -a[i],
        spec_dot(a, a) != 0,
    ensures
        spec_cosine(a, b) == -1000,
{
    lemma_dot_negated(a, b);
    lemma_dot_self_nonneg(a);
    let s = spec_dot(a, a);
    assert(s > 0);
    assert(spec_dot(a, b) == -s);
    assert(spec_dot(b, b) == s);
    assert(s * s >= 0 && s * s < (s + 1) * (s + 1)) by (nonlinear_arith)
        requires
            s > 0,
    ;
    lemma_isqrt_unique((s * s) as nat, s as nat);
    assert(s * 1000 / s == 1000) by {
        vstd::arithmetic::div_mod::lemma_div_multiples_vanish(1000, s);
    }
}

/// Negating one side negates the inner product; negating both restores it.
proof fn lemma_dot_negated(a: Seq<i64>, b: Seq<i64>)
    requires
        a.len() == b.len(),
        forall|i: int| 0 <= i < a.len() ==> #[trigger] b[i] == -a[i],
    ensures
        spec_dot(a, b) == -spec_dot(a, a),
        spec_dot(b, b) == spec_dot(a, a),
    decreases a.len(),
{
    if a.len() > 0 {
        assert(forall|i: int| 0 <= i < a.drop_last().len()
            ==> #[trigger] b.drop_last()[i] == -a.drop_last()[i]);
        lemma_dot_negated(a.drop_last(), b.drop_last());
        assert(a.last() * b.last() == -(a.last() * a.last())) by (nonlinear_arith)
            requires
                b.last() == -a.last(),
        ;
        assert(b.last() * b.last() == a.last() * a.last()) by (nonlinear_arith)
            requires
                b.last() == -a.last(),
        ;
    }
}

/// Similarity of vectors of unequal length, or with an all-zero partner,
/// is `0` by definition — such inputs are answered, not rejected.
pub proof fn lemma_cosine_degenerate(a: Seq<i64>, b: Seq<i64>)
    requires
        a.len() != b.len() || spec_dot(a, a) == 0 || spec_dot(b, b) == 0,
    ensures
        spec_cosine(a, b) == 0,
{
}

/// The inner product of two bounded vectors, accumulated without overflow.
fn dot_i64(a: &[i64], b: &[i64]) -> (d: i64)
    requires
        a@.len() == b@.len(),
        a@.len() <= EMBEDDING_LENGTH_LIMIT,
        components_bounded(a@, EMBEDDING_COMPONENT_LIMIT as int),
        components_bounded(b@, EMBEDDING_COMPONENT_LIMIT as int),
    ensures
        d == spec_dot(a@, b@),
        -(a@.len() as int) * 1_000_000_000_000 <= d <= (a@.len() as int) * 1_000_000_000_000,
{
    let n = a.len();
    let mut acc: i64 = 0;
    let mut i: usize = 0;
    while i < n
        invariant
            0 <= i <= n,
            n == a@.len() == b@.len(),
            n <= EMBEDDING_LENGTH_LIMIT,
            components_bounded(a@, EMBEDDING_COMPONENT_LIMIT as int),
            components_bounded(b@, EMBEDDING_COMPONENT_LIMIT as int),
            acc == spec_dot(a@.take(i as int), b@.take(i as int)),
            -(i as int) * 1_000_000_000_000 <= acc <= (i as int) * 1_000_000_000_000,
        decreases n - i,
    {
        proof {
            assert(-1_000_000_000_000 <= a@[i as int] * b@[i as int] <= 1_000_000_000_000)
                by (nonlinear_arith)
                requires
                    -1_000_000 <= a@[i as int] <= 1_000_000,
                    -1_000_000 <= b@[i as int] <= 1_000_000,
            ;
            assert((i as int) * 1_000_000_000_000 + 1_000_000_000_000
                == (i as int + 1) * 1_000_000_000_000) by (nonlinear_arith);
            assert((i as int + 1) * 1_000_000_000_000
                <= (n as int) * 1_000_000_000_000) by (nonlinear_arith)
                requires
                    i as int + 1 <= n as int,
            ;
            assert((n as int) * 1_000_000_000_000 <= 65536int * 1_000_000_000_000)
                by (nonlinear_arith)
                requires
                    n as int <= 65536,
            ;
        }
        acc = acc + a[i] * b[i];
        proof {
            let ai = a@.take(i as int + 1);
            let bi = b@.take(i as int + 1);
            assert(ai.drop_last() =~= a@.take(i as int));
            assert(bi.drop_last() =~= b@.take(i as int));
        }
        i = i + 1;
    }
    proof {
        assert(a@.take(n as int) =~= a@);
        assert(b@.take(n as int) =~= b@);
    }
    acc
}

/// Cosine similarity of two fixed-point embeddings, in milli-units.
///
/// Returns exactly `spec_cosine` of the two vectors: `0` for unequal lengths
/// or an all-zero vector, otherwise the fixed-point cosine in `[-1000, 1000]`.
/// No input within the stated component and length limits is an error.
pub fn cosine_similarity(a: &[i64], b: &[i64]) -> (s: i64)
    requires
        a@.len() <= EMBEDDING_LENGTH_LIMIT,
        b@.len() <= EMBEDDING_LENGTH_LIMIT,
        components_bounded(a@, EMBEDDING_COMPONENT_LIMIT as int),
        components_bounded(b@, EMBEDDING_COMPONENT_LIMIT as int),
    ensures
        s == spec_cosine(a@, b@),
        -1000 <= s <= 1000,
{
    if a.len() != b.len() {
        return 0;
    }
    let qq = dot_i64(a, a);
    let ee = dot_i64(b, b);
    proof {
        lemma_dot_self_nonneg(a@);
        lemma_dot_self_nonneg(b@);
    }
    if qq == 0 || ee == 0 {
        return 0;
    }
    let d = dot_i64(a, b);
    proof {
        assert((a@.len() as int) * 1_000_000_000_000 <= 65536int * 1_000_000_000_000)
            by (nonlinear_arith)
            requires
                a@.len() as int <= 65536,
        ;
        assert((b@.len() as int) * 1_000_000_000_000 <= 65536int * 1_000_000_000_000)
            by (nonlinear_arith)
            requires
                b@.len() as int <= 65536,
        ;
        assert(1 <= (qq as int) * (ee as int)
            < 0x4000_0000_0000_0000_0000_0000_0000_0000)
            by (nonlinear_arith)
            requires
                0 < qq as int <= 65536int * 1_000_000_000_000,
                0 < ee as int <= 65536int * 1_000_000_000_000,
        ;
    }
    let prod: u128 = (qq as u128) * (ee as u128);
    let den = isqrt_u128(prod);
    proof {
        lemma_isqrt_pos(prod as nat);
    }
    let dabs: u128 = if d < 0 { (-d) as u128 } else { d as u128 };
    let num: u128 = dabs * 1000;
    let mut m: u128 = num / den;
    if m > 1000 {
        m = 1000;
    }
    let mi = m as i64;
    if d < 0 {
        -mi
    } else {
        mi
    }
}

} // verus!
