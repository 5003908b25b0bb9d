use vstd::prelude::*;

verus! {

/// Relies on `u128::isqrt`: the floor of the square root of `v`.
#[verifier::external_body]
pub(crate) fn floor_sqrt(v: u128) -> (r: u128)
    ensures
        r * r <= v,
        v < (r + 1) * (r + 1),
{
    v.isqrt()
}

/// `v` is the square of a positive integer.
pub open spec fn is_perfect_square(v: int) -> bool {
    v != 0 && exists|k: int| #![trigger k * k] k * k == v
}

/// `v` is the product of two consecutive non-negative integers.
pub open spec fn is_pronic_number(v: int) -> bool {
    exists|k: int| 0 <= k && #[trigger] (k * (k + 1)) == v
}

/// The classification flags of one value: divisibility by each factor and squareness.
#[derive(Clone, Copy, Debug, PartialEq, Eq, Structural)]
pub struct Classes {
    pub div_p: bool,
    pub div_q: bool,
    pub square: bool,
}

/// The flags that a value `v` carries with respect to the factors `p` and `q`.
pub open spec fn classes_of(v: int, p: int, q: int) -> Classes {
    Classes {
        div_p: p > 1 && v % p == 0,
        div_q: q > 1 && v % q == 0,
        square: is_perfect_square(v),
    }
}

/// Every square root bound fits in half the width of `v`.
proof fn lemma_root_bound(v: int, s: int)
    requires
        0 <= s,
        s * s <= v,
        v <= u128::MAX,
    ensures
        s <= u64::MAX,
        s * (s + 1) <= u128::MAX,
{
    if s > u64::MAX {
        assert(s * s > u128::MAX) by (nonlinear_arith)
            requires s >= 0x1_0000_0000_0000_0000int;
    }
    assert(s * (s + 1) <= u64::MAX * (u64::MAX + 1)) by (nonlinear_arith)
        requires 0 <= s <= u64::MAX;
}

/// A square root, when one exists, is the floor square root.
proof fn lemma_square_root_unique(v: int, s: int)
    requires
        0 <= s,
        s * s <= v,
        v < (s + 1) * (s + 1),
    ensures
        forall|k: int| #![trigger k * k] k * k == v ==> s * s == v,
{
    assert forall|k: int| #![trigger k * k] k * k == v implies s * s == v by {
        let j = if k >= 0 { k } else { -k };
        assert(j * j == k * k) by (nonlinear_arith)
            requires j == k || j == -k;
        if j < s {
            assert(j * j < s * s) by (nonlinear_arith)
                requires 0 <= j < s;
        } else if j > s {
            assert(j * j >= (s + 1) * (s + 1)) by (nonlinear_arith)
                requires j >= s + 1, s >= 0;
        }
    }
}

/// A pronic root, when one exists, is the floor square root.
proof fn lemma_pronic_root_unique(v: int, s: int)
    requires
        0 <= s,
        s * s <= v,
        v < (s + 1) * (s + 1),
    ensures
        forall|k: int| 0 <= k && #[trigger] (k * (k + 1)) == v ==> s * (s + 1) == v,
{
    assert forall|k: int| 0 <= k && #[trigger] (k * (k + 1)) == v implies s * (s + 1) == v by {
        if k < s {
            assert(k * (k + 1) < s * s) by (nonlinear_arith)
                requires 0 <= k, k + 1 <= s;
        } else if k > s {
            assert(k * (k + 1) >= (s + 1) * (s + 1)) by (nonlinear_arith)
                requires k >= s + 1, s >= 0;
        }
    }
}

/// Tells whether `v` is a non-zero perfect square.
pub fn is_full_sqr(v: u128) -> (r: bool)
    ensures
        r == is_perfect_square(v as int),
{
    if v == 0 {
        return false;
    }
    let s = floor_sqrt(v);
    proof {
        lemma_square_root_unique(v as int, s as int);
        assert((s as int) * (s as int) == s * s);
    }
    s * s == v
}

/// Tells whether `v` is pronic (oblong): `k * (k + 1)` for some `k >= 0`.
pub fn is_pronic(v: u128) -> (r: bool)
    ensures
        r == is_pronic_number(v as int),
{
    let s = floor_sqrt(v);
    proof {
        lemma_root_bound(v as int, s as int);
        lemma_pronic_root_unique(v as int, s as int);
        assert((s as int) * ((s as int) + 1) == s * (s + 1));
    }
    s * (s + 1) == v
}

/// Divisibility of `v` by `p` and by `q`, each flag counted only for a factor above one.
pub fn is_pq_div(v: u128, p: u64, q: u64) -> (r: (bool, bool))
    ensures
        r.0 == (p > 1 && (v as int) % (p as int) == 0),
        r.1 == (q > 1 && (v as int) % (q as int) == 0),
{
    let by_p = p > 1 && v % (p as u128) == 0;
    let by_q = q > 1 && v % (q as u128) == 0;
    (by_p, by_q)
}

/// All classification flags of `v`.
pub fn classify(v: u128, p: u64, q: u64) -> (r: Classes)
    ensures
        r == classes_of(v as int, p as int, q as int),
{
    let (div_p, div_q) = is_pq_div(v, p, q);
    Classes { div_p, div_q, square: is_full_sqr(v) }
}

/// Squares are marked, and the neighbours of a positive square are not.
pub proof fn lemma_square_classification(k: int)
    requires
        k >= 1,
    ensures
        is_perfect_square(k * k),
        !is_perfect_square(k * k + 1),
        !is_perfect_square(k * k - 1),
{
    assert(k * k >= 1) by (nonlinear_arith)
        requires k >= 1;
    assert(k * k < (k + 1) * (k + 1)) by (nonlinear_arith)
        requires k >= 1;
    assert(k * k + 1 < (k + 1) * (k + 1)) by (nonlinear_arith)
        requires k >= 1;
    lemma_square_root_unique(k * k + 1, k);
    if k == 1 {
        assert(k * k - 1 == 0);
    } else {
        assert((k - 1) * (k - 1) <= k * k - 1) by (nonlinear_arith)
            requires k >= 2;
        assert(k * k - 1 < k * k && (k - 1) * (k - 1) != k * k - 1) by (nonlinear_arith)
            requires k >= 2;
        assert((k - 1 + 1) * (k - 1 + 1) == k * k);
        lemma_square_root_unique(k * k - 1, k - 1);
    }
}

} // verus!
