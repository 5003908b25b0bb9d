use vstd::prelude::*;
use vstd::arithmetic::div_mod::{
    lemma_fundamental_div_mod,
    lemma_mod_multiples_basic,
    lemma_div_multiples_vanish,
};
use crate::arith::floor_sqrt;

verus! {

/// `n` is prime: at least two, and no integer strictly between one and `n` divides it.
pub open spec fn is_prime_number(n: int) -> bool {
    n >= 2 && forall|d: int| 2 <= d < n ==> #[trigger] (n % d) != 0
}

/// `p` is the least prime of at least three, with `p * p <= n`, that divides `n`.
pub open spec fn is_least_odd_prime_factor(n: int, p: int) -> bool {
    &&& 3 <= p
    &&& p * p <= n
    &&& is_prime_number(p)
    &&& n % p == 0
    &&& forall|r: int| 3 <= r < p && is_prime_number(r) ==> #[trigger] (n % r) != 0
}

/// The pair that factoring `n` yields: the least odd prime factor `p` up to the square root
/// with its cofactor, or `(n, 1)` when `n` is prime or has no such factor.
pub open spec fn factor_pair(n: int) -> (int, int) {
    if !is_prime_number(n) && exists|p: int| is_least_odd_prime_factor(n, p) {
        let p = choose|p: int| is_least_odd_prime_factor(n, p);
        (p, n / p)
    } else {
        (n, 1)
    }
}

/// `n == p * q` with `p <= q`, both odd primes.
pub open spec fn is_odd_semiprime_pair(n: int, p: int, q: int) -> bool {
    &&& is_prime_number(p)
    &&& is_prime_number(q)
    &&& 3 <= p <= q
    &&& p * q == n
}

/// Why an analysis cannot go on.
#[derive(Clone, Copy, Debug, PartialEq, Eq, Structural)]
pub enum AnalysisError {
    /// The number is not the product of two odd primes.
    InvalidSemiprime,
    /// The requested row range has its lower bound at or above its upper bound.
    InvalidRange,
}

proof fn lemma_least_factor_unique(n: int, p1: int, p2: int)
    requires
        is_least_odd_prime_factor(n, p1),
        is_least_odd_prime_factor(n, p2),
    ensures
        p1 == p2,
{
    if p1 < p2 {
        assert(n % p1 != 0);
    } else if p2 < p1 {
        assert(n % p2 != 0);
    }
}

proof fn lemma_factor_pair_of_least(n: int, p: int)
    requires
        !is_prime_number(n),
        is_least_odd_prime_factor(n, p),
    ensures
        factor_pair(n) == (p, n / p),
{
    let c = choose|c: int| is_least_odd_prime_factor(n, c);
    lemma_least_factor_unique(n, p, c);
}

/// With no divisor in `[2, s]`, where `s` is the floor square root, `n >= 2` is prime.
proof fn lemma_no_small_divisor(n: int, s: int)
    requires
        n >= 2,
        0 <= s,
        s * s <= n,
        n < (s + 1) * (s + 1),
        forall|d: int| 2 <= d <= s ==> #[trigger] (n % d) != 0,
    ensures
        is_prime_number(n),
{
    assert forall|d: int| 2 <= d < n implies #[trigger] (n % d) != 0 by {
        if d > s && n % d == 0 {
            let e = n / d;
            lemma_fundamental_div_mod(n, d);
            assert(n == d * e);
            assert(e >= 2) by (nonlinear_arith)
                requires n == d * e, 2 <= d < n;
            assert(e <= s) by (nonlinear_arith)
                requires n == d * e, d >= s + 1, n < (s + 1) * (s + 1), e >= 0, s >= 0;
            lemma_mod_multiples_basic(d, e);
            assert(n == d * e);
            assert((d * e) % e == 0);
            assert(n % e == 0);
        }
    }
}

/// A prime that divides a product divides one of its factors.
proof fn lemma_prime_divides_product(r: int, a: int, b: int)
    requires
        is_prime_number(r),
        a >= 0,
        b >= 0,
        (a * b) % r == 0,
    ensures
        a % r == 0 || b % r == 0,
    decreases a,
{
    lemma_fundamental_div_mod(a * b, r);
    let m = (a * b) / r;
    assert(a * b == r * m);
    if a == 0 {
    } else if a >= r {
        assert((a - r) * b == (m - b) * r) by (nonlinear_arith)
            requires a * b == r * m;
        lemma_mod_multiples_basic(m - b, r);
        assert((a - r) * b >= 0) by (nonlinear_arith)
            requires a - r >= 0, b >= 0;
        lemma_prime_divides_product(r, a - r, b);
        if (a - r) % r == 0 {
            lemma_fundamental_div_mod(a - r, r);
            lemma_mod_multiples_basic((a - r) / r + 1, r);
            assert(a == ((a - r) / r + 1) * r) by (nonlinear_arith)
                requires a - r == r * ((a - r) / r);
        }
    } else if a == 1 {
        assert(a * b == b);
    } else {
        let k = r / a;
        let s = r % a;
        lemma_fundamental_div_mod(r, a);
        assert(r % a != 0);
        assert(s * b == (b - k * m) * r) by (nonlinear_arith)
            requires r == a * k + s, a * b == r * m;
        lemma_mod_multiples_basic(b - k * m, r);
        assert(s * b >= 0) by (nonlinear_arith)
            requires s >= 0, b >= 0;
        lemma_prime_divides_product(r, s, b);
        assert(s % r == s) by {
            vstd::arithmetic::div_mod::lemma_small_mod(s as nat, r as nat);
        }
    }
}

/// Tells whether `num` is prime by trial division up to its square root; zero and one are
/// not prime.
pub fn is_prime(number: &u64) -> (r: bool)
    ensures
        r == is_prime_number(*number as int),
{
    let num = *number;
    if num < 2 {
        return false;
    }
    let s128 = floor_sqrt(num as u128);
    assert(s128 < 0x1_0000_0000) by (nonlinear_arith)
        requires s128 * s128 <= num, num <= u64::MAX, s128 >= 0;
    let s = s128 as u64;
    let mut c: u64 = 2;
    while c <= s
        invariant
            num == *number,
            2 <= c <= s + 1,
            s < 0x1_0000_0000,
            s * s <= num,
            num < (s + 1) * (s + 1),
            forall|d: int| 2 <= d < c ==> #[trigger] ((num as int) % d) != 0,
        decreases s + 1 - c,
    {
        if num % c == 0 {
            assert(c < num) by (nonlinear_arith)
                requires 2 <= c <= s, s * s <= num;
            assert((num as int) % (c as int) == 0);
            return false;
        }
        c = c + 1;
    }
    proof {
        lemma_no_small_divisor(num as int, s as int);
    }
    true
}

/// Factors `num`: the least prime `p >= 3` with `p * p <= num` that divides it, paired with
/// `num / p`; `(num, 1)` when `num` is prime or has no such factor.
pub fn get_pq(num: u64) -> (r: (u64, u64))
    ensures
        (r.0 as int, r.1 as int) == factor_pair(num as int),
{
    if is_prime(&num) {
        return (num, 1);
    }
    let s128 = floor_sqrt(num as u128);
    assert(s128 < 0x1_0000_0000) by (nonlinear_arith)
        requires s128 * s128 <= num, num <= u64::MAX, s128 >= 0;
    let s = s128 as u64;
    let mut p: u64 = 3;
    while p <= s
        invariant
            3 <= p,
            p <= s + 1 || p == 3,
            s < 0x1_0000_0000,
            s * s <= num,
            num < (s + 1) * (s + 1),
            !is_prime_number(num as int),
            forall|r: int| 3 <= r < p && is_prime_number(r) ==> #[trigger] ((num as int) % r) != 0,
        decreases s + 1 - p,
    {
        if is_prime(&p) && num % p == 0 {
            proof {
                assert(p * p <= num) by (nonlinear_arith)
                    requires 3 <= p <= s, s * s <= num;
                lemma_factor_pair_of_least(num as int, p as int);
            }
            return (p, num / p);
        }
        p = p + 1;
    }
    proof {
        if exists|c: int| is_least_odd_prime_factor(num as int, c) {
            let c = choose|c: int| is_least_odd_prime_factor(num as int, c);
            if c > s {
                assert(c * c >= (s + 1) * (s + 1)) by (nonlinear_arith)
                    requires c >= s + 1, s >= 0;
            }
            assert((num as int) % c != 0);
        }
    }
    (num, 1)
}

/// Factoring a prime yields the number itself with cofactor one.
pub proof fn lemma_factor_of_prime(n: int)
    requires
        is_prime_number(n),
    ensures
        factor_pair(n) == (n, 1int),
{
}

/// Factoring an odd semiprime `p * q`, `p <= q` both prime, yields exactly `(p, q)`.
pub proof fn lemma_factor_of_odd_semiprime(p: int, q: int)
    requires
        is_prime_number(p),
        is_prime_number(q),
        p <= q,
        (p * q) % 2 == 1,
    ensures
        factor_pair(p * q) == (p, q),
{
    let n = p * q;
    lemma_mod_multiples_basic(p, 2);
    if p == 2 {
        assert(n == q * 2) by (nonlinear_arith)
            requires p == 2, n == p * q;
    }
    assert(p < n && p * p <= n) by (nonlinear_arith)
        requires 2 <= p <= q, n == p * q;
    lemma_mod_multiples_basic(q, p);
    assert(n == q * p) by (nonlinear_arith)
        requires n == p * q;
    assert(n % p == 0);
    assert forall|r: int| 3 <= r < p && is_prime_number(r) implies #[trigger] (n % r) != 0 by {
        if n % r == 0 {
            lemma_prime_divides_product(r, p, q);
            assert(p % r != 0);
            assert(q % r != 0);
        }
    }
    assert(is_least_odd_prime_factor(n, p));
    assert(!is_prime_number(n)) by {
        assert(n % p == 0);
    }
    lemma_factor_pair_of_least(n, p);
    lemma_div_multiples_vanish(q, p);
}

/// The product of two odd numbers is odd.
proof fn lemma_odd_product(p: int, q: int)
    requires
        p >= 0,
        q >= 0,
        p % 2 == 1,
        q % 2 == 1,
    ensures
        (p * q) % 2 == 1,
{
    lemma_fundamental_div_mod(p, 2);
    lemma_fundamental_div_mod(q, 2);
    let a = p / 2;
    let b = q / 2;
    assert(p * q == (2 * a * b + a + b) * 2 + 1) by (nonlinear_arith)
        requires p == 2 * a + 1, q == 2 * b + 1;
    vstd::arithmetic::div_mod::lemma_fundamental_div_mod_converse_mod(p * q, 2, 2 * a * b + a + b, 1);
}

/// Accepts `n` when it is the product of two odd primes and gives them as `(p, q)` with
/// `p <= q`; any other `n` is an invalid semiprime.
pub fn odd_semiprime(n: u64) -> (r: Result<(u64, u64), AnalysisError>)
    ensures
        match r {
            Ok((p, q)) => is_odd_semiprime_pair(n as int, p as int, q as int),
            Err(e) => e == AnalysisError::InvalidSemiprime && forall|p: int, q: int|
                !#[trigger] is_odd_semiprime_pair(n as int, p, q),
        },
{
    let (p, q) = get_pq(n);
    if p == n || !is_prime(&q) {
        proof {
            assert forall|a: int, b: int| !#[trigger] is_odd_semiprime_pair(n as int, a, b) by {
                if is_odd_semiprime_pair(n as int, a, b) {
                    assert(a % 2 != 0);
                    assert(b % 2 != 0);
                    lemma_odd_product(a, b);
                    lemma_factor_of_odd_semiprime(a, b);
                    assert(a < n) by (nonlinear_arith)
                        requires 3 <= a <= b, a * b == n;
                }
            }
        }
        return Err(AnalysisError::InvalidSemiprime);
    }
    proof {
        assert(is_least_odd_prime_factor(n as int, p as int));
        lemma_fundamental_div_mod(n as int, p as int);
        assert(p <= q) by (nonlinear_arith)
            requires p * p <= n, n == p * q, p >= 3, q >= 0;
    }
    Ok((p, q))
}

} // verus!
