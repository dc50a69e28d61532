use vstd::prelude::*;
use vstd::arithmetic::power::pow;
use vstd::arithmetic::div_mod::{
    lemma_add_mod_noop,
    lemma_fundamental_div_mod,
    lemma_mod_multiples_basic,
    lemma_mul_mod_noop_left,
    lemma_small_mod,
    lemma_sub_mod_noop,
};

verus! {

/// `p` is a prime number: greater than one, with no divisor strictly between 1 and `p`.
pub open spec fn is_prime(p: nat) -> bool {
    &&& p > 1
    &&& forall|d: nat| 1 < d < p ==> #[trigger] (p % d) != 0
}

/// Euclid's lemma: a prime that divides `a * b` and not `a` divides `b`.
pub proof fn lemma_euclid(p: nat, a: nat, b: int)
    requires
        is_prime(p),
        0 < a < p,
        (a * b) % (p as int) == 0,
    ensures
        b % (p as int) == 0,
    decreases a,
{
    let pi = p as int;
    let ai = a as int;
    if a == 1 {
        assert(ai * b == b) by (nonlinear_arith)
            requires
                ai == 1,
        ;
    } else {
        let q = pi / ai;
        let r = pi % ai;
        lemma_fundamental_div_mod(pi, ai);
        assert(p % a != 0);
        lemma_fundamental_div_mod(ai * b, pi);
        let t = (ai * b) / pi;
        assert(r * b == pi * (b - q * t)) by (nonlinear_arith)
            requires
                pi == ai * q + r,
                ai * b == pi * t + 0,
        ;
        lemma_mod_multiples_basic(b - q * t, pi);
        assert((b - q * t) * pi == r * b) by (nonlinear_arith)
            requires
                r * b == pi * (b - q * t),
        ;
        assert((r * b) % pi == 0);
        assert(0 < r < ai);
        lemma_euclid(p, r as nat, b);
    }
}

/// Binomial coefficient `n choose k`, by Pascal's rule.
pub open spec fn binom(n: nat, k: nat) -> nat
    decreases n, k,
{
    if k == 0 {
        1
    } else if n == 0 {
        0
    } else {
        binom((n - 1) as nat, (k - 1) as nat) + binom((n - 1) as nat, k)
    }
}

proof fn lemma_binom_above(n: nat, k: nat)
    requires
        k > n,
    ensures
        binom(n, k) == 0,
    decreases n,
{
    if n > 0 {
        lemma_binom_above((n - 1) as nat, (k - 1) as nat);
        lemma_binom_above((n - 1) as nat, k);
    }
}

proof fn lemma_binom_diagonal(n: nat)
    ensures
        binom(n, n) == 1,
    decreases n,
{
    if n > 0 {
        lemma_binom_diagonal((n - 1) as nat);
        lemma_binom_above((n - 1) as nat, n);
    }
}

/// `k * C(n, k) == n * C(n - 1, k - 1)`.
proof fn lemma_absorption(n: nat, k: nat)
    requires
        n >= 1,
        k >= 1,
    ensures
        k * binom(n, k) == n * binom((n - 1) as nat, (k - 1) as nat),
    decreases n,
{
    let n1 = (n - 1) as nat;
    let k1 = (k - 1) as nat;
    if n == 1 {
        lemma_binom_above(0, k);
        if k > 1 {
            lemma_binom_above(0, k1);
            assert(binom(1, k) == 0);
            assert(binom(0, k1) == 0);
            assert(k * binom(n, k) == n * binom(n1, k1)) by (nonlinear_arith)
                requires
                    binom(n, k) == 0,
                    binom(n1, k1) == 0,
            ;
        } else {
            assert(binom(1, 1) == 1);
            assert(k * binom(n, k) == n * binom(n1, k1)) by (nonlinear_arith)
                requires
                    binom(n, k) == 1,
                    binom(n1, k1) == 1,
                    k == 1,
                    n == 1,
            ;
        }
    } else {
        let n2 = (n - 2) as nat;
        lemma_absorption(n1, k);
        let c1 = binom(n1, k1);
        let c2 = binom(n1, k);
        assert(binom(n, k) == c1 + c2);
        if k == 1 {
            assert(c1 == 1);
            assert(k * binom(n, k) == 1 + c2);
            assert(1 * c2 == n1 * binom(n2, 0));
            assert(binom(n2, 0) == 1);
            assert(c2 == n1) by (nonlinear_arith)
                requires
                    1 * c2 == n1 * binom(n2, 0),
                    binom(n2, 0) == 1,
            ;
            assert(k * binom(n, k) == n * binom(n1, k1)) by (nonlinear_arith)
                requires
                    k == 1,
                    binom(n, k) == 1 + c2,
                    c2 == n1,
                    n1 == n - 1,
                    binom(n1, k1) == 1,
            ;
        } else {
            let k2 = (k - 2) as nat;
            lemma_absorption(n1, k1);
            assert(c1 == binom(n2, k2) + binom(n2, k1));
            let ki = k as int;
            let ni = n as int;
            let d1 = binom(n2, k2) as int;
            let d2 = binom(n2, k1) as int;
            assert(ki * c2 == (ni - 1) * d2);
            assert((ki - 1) * c1 == (ni - 1) * d1);
            assert(ki * (c1 + c2) == ni * c1) by (nonlinear_arith)
                requires
                    ki * c2 == (ni - 1) * d2,
                    (ki - 1) * c1 == (ni - 1) * d1,
                    c1 == d1 + d2,
            ;
            assert(k * binom(n, k) == ki * (c1 + c2));
            assert(n * binom(n1, k1) == ni * c1);
        }
    }
}

/// A prime divides every binomial coefficient `C(p, k)` with `0 < k < p`.
proof fn lemma_prime_divides_binom(p: nat, k: nat)
    requires
        is_prime(p),
        0 < k < p,
    ensures
        (binom(p, k) as int) % (p as int) == 0,
{
    lemma_absorption(p, k);
    let c = binom((p - 1) as nat, (k - 1) as nat) as int;
    lemma_mod_multiples_basic(c, p as int);
    assert(c * p == p * c) by (nonlinear_arith);
    lemma_euclid(p, k, binom(p, k) as int);
}

/// `sum_{k <= m} C(n, k) * x^k`.
pub open spec fn binom_sum(n: nat, x: int, m: nat) -> int
    decreases m,
{
    if m == 0 {
        1
    } else {
        binom_sum(n, x, (m - 1) as nat) + binom(n, m) * pow(x, m)
    }
}

proof fn lemma_binom_sum_step(n: nat, x: int, m: nat)
    requires
        m >= 1,
    ensures
        binom_sum(n + 1, x, m) == x * binom_sum(n, x, (m - 1) as nat) + binom_sum(n, x, m),
    decreases m,
{
    reveal(pow);
    let m1 = (m - 1) as nat;
    vstd::arithmetic::power::lemma_pow1(x);
    if m == 1 {
        assert(binom((n + 1) as nat, 1) == binom(n, 0) + binom(n, 1));
        assert(binom_sum(n + 1, x, 0) == 1);
        assert(binom_sum(n, x, 0) == 1);
        assert(binom_sum(n + 1, x, 1) == 1 + binom((n + 1) as nat, 1) * x);
        assert(binom_sum(n, x, 1) == 1 + binom(n, 1) * x);
        let c = binom(n, 1) as int;
        assert((1 + c) * x == x + c * x) by (nonlinear_arith);
    } else {
        lemma_binom_sum_step(n, x, m1);
        let m2 = (m - 2) as nat;
        assert(binom((n + 1) as nat, m) == binom(n, m1) + binom(n, m));
        assert(pow(x, m) == x * pow(x, m1));
        let s2 = binom_sum(n, x, m2);
        let s1 = binom_sum(n, x, m1);
        let c1 = binom(n, m1) as int;
        let c = binom(n, m) as int;
        let pm1 = pow(x, m1);
        let pm = pow(x, m);
        assert(s1 == s2 + c1 * pm1);
        assert((c1 + c) * pm == x * (c1 * pm1) + c * pm) by (nonlinear_arith)
            requires
                pm == x * pm1,
        ;
        assert(x * s2 + x * (c1 * pm1) == x * s1) by (nonlinear_arith)
            requires
                s1 == s2 + c1 * pm1,
        ;
    }
}

/// The binomial theorem for `(x + 1)^n`.
proof fn lemma_binomial(n: nat, x: int)
    ensures
        pow(x + 1, n) == binom_sum(n, x, n),
    decreases n,
{
    reveal(pow);
    if n > 0 {
        let n1 = (n - 1) as nat;
        lemma_binomial(n1, x);
        lemma_binom_sum_step(n1, x, n);
        lemma_binom_above(n1, n);
        let s = binom_sum(n1, x, n1);
        assert(pow(x + 1, n) == (x + 1) * pow(x + 1, n1));
        assert((x + 1) * s == x * s + s) by (nonlinear_arith);
    }
}

/// The partial sums of `(x + 1)^p` below the last term are 1 modulo `p`.
proof fn lemma_binom_sum_mod_prime(p: nat, x: int, m: nat)
    requires
        is_prime(p),
        m < p,
    ensures
        (binom_sum(p, x, m) - 1) % (p as int) == 0,
    decreases m,
{
    let pi = p as int;
    if m > 0 {
        let m1 = (m - 1) as nat;
        lemma_binom_sum_mod_prime(p, x, m1);
        lemma_prime_divides_binom(p, m);
        let u = binom_sum(p, x, m1) - 1;
        let v = binom(p, m) * pow(x, m);
        lemma_mul_mod_noop_left(binom(p, m) as int, pow(x, m), pi);
        assert(((binom(p, m) as int) % pi) * pow(x, m) == 0);
        assert(v % pi == 0);
        assert(u % pi == 0);
        lemma_add_mod_noop(u, v, pi);
        assert((u + v) % pi == 0);
        assert(binom_sum(p, x, m) - 1 == u + v);
    } else {
        assert(binom_sum(p, x, 0) == 1);
        lemma_small_mod(0, p);
    }
}

/// `a^p == a` modulo a prime `p`.
proof fn lemma_pow_prime_mod(p: nat, a: nat)
    requires
        is_prime(p),
    ensures
        pow(a as int, p) % (p as int) == (a as int) % (p as int),
    decreases a,
{
    reveal(pow);
    let pi = p as int;
    if a == 0 {
        assert(pow(0, p) == 0 * pow(0, (p - 1) as nat));
    } else {
        let x = (a - 1) as int;
        lemma_pow_prime_mod(p, (a - 1) as nat);
        lemma_binomial(p, x);
        lemma_binom_sum_mod_prime(p, x, (p - 1) as nat);
        lemma_binom_diagonal(p);
        let u = binom_sum(p, x, (p - 1) as nat) - 1;
        assert(binom_sum(p, x, p) == u + 1 + pow(x, p));
        // (x + 1)^p == u + (x^p + 1) with p | u, and x^p == x modulo p
        lemma_add_mod_noop(u, pow(x, p) + 1, pi);
        lemma_add_mod_noop(pow(x, p), 1, pi);
        lemma_add_mod_noop(x, 1, pi);
        lemma_small_mod(0, p);
        vstd::arithmetic::div_mod::lemma_mod_twice(pow(x, p) + 1, pi);
    }
}

/// Fermat's little theorem: `a^(p-1) == 1` modulo a prime `p` that does not divide `a`.
pub proof fn lemma_fermat(p: nat, a: nat)
    requires
        is_prime(p),
        0 < a < p,
    ensures
        pow(a as int, (p - 1) as nat) % (p as int) == 1,
{
    reveal(pow);
    let pi = p as int;
    let ai = a as int;
    let e = pow(ai, (p - 1) as nat);
    lemma_pow_prime_mod(p, a);
    assert(pow(ai, p) == ai * e);
    lemma_sub_mod_noop(ai * e, ai, pi);
    lemma_small_mod(0, p);
    assert(ai * (e - 1) == ai * e - ai) by (nonlinear_arith);
    assert((ai * e - ai) % pi == 0);
    lemma_euclid(p, a, e - 1);
    lemma_sub_mod_noop(e, 1, pi);
    lemma_small_mod(1, p);
    let y = e % pi - 1;
    assert(y % pi == 0);
    if e % pi == 0 {
        vstd::arithmetic::div_mod::lemma_fundamental_div_mod_converse(-1, pi, -1, pi - 1);
    }
    lemma_small_mod(y as nat, p);
}

/// Multiplying `n * d^(p-2)` by `d` gives back `n`, modulo a prime `p` not dividing `d`.
pub proof fn lemma_inverse_cancels(n: int, d: nat, p: nat)
    requires
        is_prime(p),
        0 < d < p,
    ensures
        (((n * pow(d as int, (p - 2) as nat)) % (p as int)) * d) % (p as int) == n % (p as int),
{
    reveal(pow);
    let pi = p as int;
    let di = d as int;
    let w = pow(di, (p - 2) as nat);
    let f = pow(di, (p - 1) as nat);
    lemma_fermat(p, d);
    assert(f == di * w);
    lemma_mul_mod_noop_left(n * w, di, pi);
    assert(n * w * di == n * f) by (nonlinear_arith)
        requires
            f == di * w,
    ;
    vstd::arithmetic::div_mod::lemma_mul_mod_noop_right(n, f, pi);
    assert(n * 1 == n);
}

/// Two residues below `p` that differ are not congruent modulo `p`.
pub proof fn lemma_distinct_residues(u: int, v: int, p: int)
    requires
        0 <= u < p,
        0 <= v < p,
        u != v,
    ensures
        (u - v) % p != 0,
{
    if u > v {
        vstd::arithmetic::div_mod::lemma_fundamental_div_mod_converse(u - v, p, 0, u - v);
    } else {
        vstd::arithmetic::div_mod::lemma_fundamental_div_mod_converse(u - v, p, -1, u - v + p);
    }
}

/// Multiplication by a residue that a prime `p` does not divide is injective on residues.
pub proof fn lemma_cancel(s: nat, t: nat, d: nat, p: nat)
    requires
        is_prime(p),
        s < p,
        t < p,
        0 < d < p,
        (s as int * d) % (p as int) == (t as int * d) % (p as int),
    ensures
        s == t,
{
    let pi = p as int;
    let si = s as int;
    let ti = t as int;
    let di = d as int;
    lemma_sub_mod_noop(si * di, ti * di, pi);
    lemma_small_mod(0, p);
    assert(di * (si - ti) == si * di - ti * di) by (nonlinear_arith);
    lemma_euclid(p, d, si - ti);
    if s != t {
        lemma_distinct_residues(si, ti, pi);
    }
}

/// `u` and `v` are congruent modulo `p`.
pub open spec fn cong(u: int, v: int, p: int) -> bool {
    u % p == v % p
}

pub proof fn lemma_cong_mod(u: int, p: int)
    requires
        p > 0,
    ensures
        cong(u % p, u, p),
{
    vstd::arithmetic::div_mod::lemma_mod_twice(u, p);
}

pub proof fn lemma_cong_add(u1: int, v1: int, u2: int, v2: int, p: int)
    requires
        p > 0,
        cong(u1, v1, p),
        cong(u2, v2, p),
    ensures
        cong(u1 + u2, v1 + v2, p),
{
    lemma_add_mod_noop(u1, u2, p);
    lemma_add_mod_noop(v1, v2, p);
}

pub proof fn lemma_cong_sub(u1: int, v1: int, u2: int, v2: int, p: int)
    requires
        p > 0,
        cong(u1, v1, p),
        cong(u2, v2, p),
    ensures
        cong(u1 - u2, v1 - v2, p),
{
    lemma_sub_mod_noop(u1, u2, p);
    lemma_sub_mod_noop(v1, v2, p);
}

pub proof fn lemma_cong_mul(u1: int, v1: int, u2: int, v2: int, p: int)
    requires
        p > 0,
        cong(u1, v1, p),
        cong(u2, v2, p),
    ensures
        cong(u1 * u2, v1 * v2, p),
{
    vstd::arithmetic::div_mod::lemma_mul_mod_noop(u1, u2, p);
    vstd::arithmetic::div_mod::lemma_mul_mod_noop(v1, v2, p);
}

/// A prime that divides `d * u` and not `d` divides `u`, stated with congruences.
pub proof fn lemma_cong_cancel_zero(d: int, u: int, p: nat)
    requires
        is_prime(p),
        d % (p as int) != 0,
        cong(d * u, 0, p as int),
    ensures
        cong(u, 0, p as int),
{
    let pi = p as int;
    let dr = d % pi;
    lemma_small_mod(0, p);
    lemma_cong_mod(d, pi);
    assert(cong(u, u, pi));
    lemma_cong_mul(dr, d, u, u, pi);
    lemma_euclid(p, dr as nat, u);
}

/// Modulo a prime `p` not dividing `a`, a power of `a` depends only on the exponent
/// modulo `p - 1`.
pub proof fn lemma_pow_exponent_mod(p: nat, a: nat, n: nat)
    requires
        is_prime(p),
        0 < a < p,
    ensures
        pow(a as int, n) % (p as int) == pow(a as int, ((n as int) % ((p - 1) as int)) as nat) % (p as int),
    decreases n,
{
    let m = (p - 1) as int;
    let pi = p as int;
    let ai = a as int;
    if n < m {
        lemma_small_mod(n, m as nat);
    } else {
        let k = (n - m) as nat;
        lemma_pow_exponent_mod(p, a, k);
        vstd::arithmetic::power::lemma_pow_adds(ai, k, m as nat);
        lemma_fermat(p, a);
        vstd::arithmetic::div_mod::lemma_mul_mod_noop_right(pow(ai, k), pow(ai, m as nat), pi);
        assert(pow(ai, k) * 1 == pow(ai, k));
        vstd::arithmetic::div_mod::lemma_mod_sub_multiples_vanish(n as int, m);
        assert(-m + n == k);
    }
}

} // verus!
