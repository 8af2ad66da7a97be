//! Exact combinatorial probability arithmetic.
//!
//! Probabilities are rationals with an explicit denominator, so every
//! quantity here is a plain integer: the probability mass of `k` losses in
//! `n` games with single-game win probability `p/den` is
//! `binom(n, k) * p^(n-k) * q^k` over the denominator `den^n`, where
//! `q = den - p`.

use vstd::prelude::*;
use vstd::arithmetic::div_mod::lemma_div_multiples_vanish;

verus! {

/// Number of ways to pick `k` items out of `n`, by Pascal's rule.
pub open spec fn binom(n: nat, k: nat) -> nat
    decreases n,
{
    if k == 0 {
        1
    } else if n == 0 {
        0
    } else {
        binom((n - 1) as nat, (k - 1) as nat) + binom((n - 1) as nat, k)
    }
}

/// `n` factorial.
pub open spec fn fact(n: nat) -> nat
    decreases n,
{
    if n == 0 {
        1
    } else {
        n * fact((n - 1) as nat)
    }
}

/// Falling factorial: the product `n * (n-1) * ... * (n-k+1)` of `k` factors.
pub open spec fn falling(n: nat, k: nat) -> nat
    decreases k,
{
    if k == 0 {
        1
    } else if n == 0 {
        0
    } else {
        n * falling((n - 1) as nat, (k - 1) as nat)
    }
}

/// `b` to the power `e`, over the naturals.
pub open spec fn npow(b: nat, e: nat) -> nat
    decreases e,
{
    if e == 0 {
        1
    } else {
        b * npow(b, (e - 1) as nat)
    }
}

proof fn lemma_binom_zero_above(n: nat, k: nat)
    requires
        k > n,
    ensures
        binom(n, k) == 0,
    decreases n,
{
    if n > 0 {
        lemma_binom_zero_above((n - 1) as nat, (k - 1) as nat);
        lemma_binom_zero_above((n - 1) as nat, k);
    }
}

proof fn lemma_binom_self(n: nat)
    ensures
        binom(n, n) == 1,
    decreases n,
{
    if n > 0 {
        lemma_binom_self((n - 1) as nat);
        lemma_binom_zero_above((n - 1) as nat, n);
    }
}

/// Symmetry of the binomial coefficient.
proof fn lemma_binom_symmetry(n: nat, k: nat)
    requires
        k <= n,
    ensures
        binom(n, k) == binom(n, (n - k) as nat),
    decreases n,
{
    if k == 0 || k == n {
        lemma_binom_self(n);
    } else {
        lemma_binom_symmetry((n - 1) as nat, (k - 1) as nat);
        lemma_binom_symmetry((n - 1) as nat, k);
    }
}

/// One more factor extends a falling factorial: `falling(n, k+1) == (n-k) * falling(n, k)`.
proof fn lemma_falling_step(n: nat, k: nat)
    requires
        k < n,
    ensures
        falling(n, (k + 1) as nat) == (n - k) * falling(n, k),
    decreases k,
{
    if k == 0 {
        assert(falling(n, 1) == n * falling((n - 1) as nat, 0));
    } else {
        lemma_falling_step((n - 1) as nat, (k - 1) as nat);
        let x = falling((n - 1) as nat, (k - 1) as nat) as int;
        assert(falling(n, (k + 1) as nat) == n * falling((n - 1) as nat, k));
        assert(falling((n - 1) as nat, k) == (n - k) * x);
        assert(falling(n, k) == n * x);
        // falling(n, k+1) == n * falling(n-1, k) == n * ((n-k) * x)
        // falling(n, k)   == n * x
        assert(n * ((n - k) * x) == (n - k) * (n * x)) by (nonlinear_arith);
    }
}

/// The product-of-range form of the binomial coefficient:
/// `binom(n, k) * k! == n * (n-1) * ... * (n-k+1)`.
proof fn lemma_binom_falling(n: nat, k: nat)
    requires
        k <= n,
    ensures
        binom(n, k) * fact(k) == falling(n, k),
    decreases n,
{
    if k == 0 {
    } else if n == 0 {
    } else {
        let n1 = (n - 1) as nat;
        let k1 = (k - 1) as nat;
        lemma_binom_falling(n1, k1);
        let a = binom(n1, k1) as int;
        let b = binom(n1, k) as int;
        let f = fact(k1) as int;
        let x = falling(n1, k1) as int;
        assert(binom(n, k) == a + b);
        assert(fact(k) == k * f);
        assert(falling(n, k) == n * x);
        assert((a + b) * (k * f) == k * (a * f) + b * (k * f)) by (nonlinear_arith);
        assert(binom(n, k) * fact(k) == (a + b) * (k * f));
        assert(a * f == x);
        if k <= n - 1 {
            lemma_binom_falling(n1, k);
            lemma_falling_step(n1, k1);
            // falling(n1, k) == (n1 - k1) * x == (n - k) * x
            assert(falling(n1, (k1 + 1) as nat) == (n1 - k1) * x);
            assert(b * fact(k) == (n - k) * x);
            assert(b * (k * f) == b * fact(k));
            assert(k * x + (n - k) * x == n * x) by (nonlinear_arith);
        } else {
            // k == n: binom(n1, k) == 0, falling(n, n) == n * x
            lemma_binom_zero_above(n1, k);
            assert(b == 0);
            assert(0 * (k * f) == 0) by (nonlinear_arith);
        }
    }
}

proof fn lemma_fact_monotonic(a: nat, b: nat)
    requires
        a <= b,
    ensures
        fact(a) <= fact(b),
        fact(a) >= 1,
    decreases b,
{
    if b > 0 {
        lemma_fact_monotonic(if a == b { (a - 1) as nat } else { a }, (b - 1) as nat);
        let f = fact((b - 1) as nat) as int;
        assert(b * f >= 1 * f) by (nonlinear_arith)
            requires
                b >= 1,
                f >= 1,
        ;
    }
}

/// A falling factorial of `n` is at most `n!`, and never zero for `k <= n`.
proof fn lemma_falling_le_fact(n: nat, k: nat)
    requires
        k <= n,
    ensures
        falling(n, k) <= fact(n),
        falling(n, k) >= 1,
    decreases k,
{
    if k == 0 {
        lemma_fact_monotonic(0, n);
    } else {
        lemma_falling_le_fact((n - 1) as nat, (k - 1) as nat);
        let x = falling((n - 1) as nat, (k - 1) as nat) as int;
        let f = fact((n - 1) as nat) as int;
        assert(n * x <= n * f && n * x >= 1) by (nonlinear_arith)
            requires
                n >= 1,
                1 <= x <= f,
        ;
    }
}

proof fn lemma_fact_20_bound()
    ensures
        fact(20) == 2432902008176640000,
{
    reveal_with_fuel(fact, 21);
}

/// Exact binomial coefficient, computed as a product of `k` consecutive
/// integers divided by `k!`, exactly as the quotient is known to be integral.
pub fn binomial(n: u64, k: u64) -> (r: u64)
    requires
        k <= n,
        n <= 20,
    ensures
        r == binom(n as nat, k as nat),
{
    proof {
        lemma_fact_20_bound();
        lemma_fact_monotonic(n as nat, 20);
    }
    let mut num: u64 = 1;
    let mut j: u64 = 0;
    while j < k
        invariant
            j <= k <= n <= 20,
            num == falling((n - k + j) as nat, j as nat),
            fact(n as nat) <= 2432902008176640000,
        decreases k - j,
    {
        let f = n - k + j + 1;
        proof {
            let m = f as nat;
            assert(falling(m, (j + 1) as nat) == m * falling((m - 1) as nat, j as nat));
            lemma_falling_le_fact(m, (j + 1) as nat);
            lemma_fact_monotonic(m, n as nat);
            assert(num * f == f * num) by (nonlinear_arith);
        }
        num = num * f;
        j = j + 1;
    }
    let mut den: u64 = 1;
    let mut i: u64 = 0;
    while i < k
        invariant
            i <= k <= n <= 20,
            den == fact(i as nat),
            fact(n as nat) <= 2432902008176640000,
        decreases k - i,
    {
        proof {
            lemma_fact_monotonic((i + 1) as nat, n as nat);
            assert(fact((i + 1) as nat) == (i + 1) * fact(i as nat));
        }
        den = (i + 1) * den;
        i = i + 1;
    }
    proof {
        lemma_binom_falling(n as nat, k as nat);
        lemma_fact_monotonic(0, k as nat);
        let c = binom(n as nat, k as nat) as int;
        assert(den * c == c * den) by (nonlinear_arith);
        lemma_div_multiples_vanish(c, den as int);
    }
    num / den
}

/// Probability mass numerator: `binom(n, k) * p^(n-k) * q^k`, the chance of
/// exactly `k` losses in `n` games, over the denominator `(p+q)^n`.
pub open spec fn mass(p: nat, q: nat, n: nat, k: nat) -> nat {
    binom(n, k) * npow(p, (n - k) as nat) * npow(q, k)
}

/// Lower tail numerator: the sum of `mass(p, q, n, k)` for `k = 0..=t`,
/// the chance of at most `t` losses in `n` games, over `(p+q)^n`.
pub open spec fn tail(p: nat, q: nat, n: nat, t: nat) -> nat
    decreases t,
{
    if t == 0 {
        mass(p, q, n, 0)
    } else {
        tail(p, q, n, (t - 1) as nat) + mass(p, q, n, t)
    }
}

/// Upper remainder: the sum of `mass(p, q, n, k)` for `k = s..=n`.
spec fn upper(p: nat, q: nat, n: nat, s: nat) -> nat
    decreases n - s,
{
    if s >= n {
        mass(p, q, n, n)
    } else {
        mass(p, q, n, s) + upper(p, q, n, (s + 1) as nat)
    }
}

proof fn lemma_mass_zero_above(p: nat, q: nat, n: nat, k: nat)
    requires
        k > n,
    ensures
        mass(p, q, n, k) == 0,
{
    lemma_binom_zero_above(n, k);
    let x = npow(p, (n - k) as nat) as int;
    let y = npow(q, k) as int;
    assert(0 * x * y == 0) by (nonlinear_arith);
}

/// Pascal's rule on one mass term, `1 <= k <= n`:
/// `mass(p, q, n, k) == p * mass(p, q, n-1, k) + q * mass(p, q, n-1, k-1)`.
proof fn lemma_mass_split(p: nat, q: nat, n: nat, k: nat)
    requires
        1 <= k <= n,
    ensures
        mass(p, q, n, k) == p * mass(p, q, (n - 1) as nat, k) + q * mass(
            p,
            q,
            (n - 1) as nat,
            (k - 1) as nat,
        ),
{
    let n1 = (n - 1) as nat;
    let k1 = (k - 1) as nat;
    let c1 = binom(n1, k) as int;
    let c2 = binom(n1, k1) as int;
    let qq = npow(q, k1) as int;
    assert(binom(n, k) == c2 + c1);
    assert(npow(q, k) == q * qq);
    if k == n {
        lemma_binom_zero_above(n1, k);
        lemma_mass_zero_above(p, q, n1, k);
        // mass(n, n) == (c2 + 0) * 1 * (q * qq); mass(n1, k1) == c2 * 1 * qq
        assert(mass(p, q, n, k) == (c2 + 0) * npow(p, 0) * ((q * qq) as nat));
        assert(mass(p, q, n1, k1) == c2 * npow(p, 0) * qq);
        assert((c2 + 0) * 1 * (q * qq) == q * (c2 * 1 * qq)) by (nonlinear_arith);
    } else {
        // n - k >= 1: p^(n-k) == p * p^(n-1-k)
        let pp1 = npow(p, (n - 1 - k) as nat) as int;
        assert(npow(p, (n - k) as nat) == p * pp1);
        assert(mass(p, q, n, k) == ((c2 + c1) * ((p * pp1) as nat) * ((q * qq) as nat)) as nat);
        assert(mass(p, q, n1, k) == c1 * pp1 * ((q * qq) as nat));
        assert(mass(p, q, n1, k1) == c2 * ((p * pp1) as nat) * qq);
        assert((c2 + c1) * (p * pp1) * (q * qq) == p * (c1 * pp1 * (q * qq)) + q * (c2 * (p * pp1)
            * qq)) by (nonlinear_arith);
    }
}

/// Pascal's rule lifted to partial sums:
/// `tail(p, q, n, t) == p * tail(p, q, n-1, t) + q * tail(p, q, n-1, t-1)`.
proof fn lemma_tail_pascal(p: nat, q: nat, n: nat, t: nat)
    requires
        1 <= t <= n,
    ensures
        tail(p, q, n, t) == p * tail(p, q, (n - 1) as nat, t) + q * tail(
            p,
            q,
            (n - 1) as nat,
            (t - 1) as nat,
        ),
    decreases t,
{
    let n1 = (n - 1) as nat;
    lemma_mass_split(p, q, n, t);
    if t == 1 {
        // mass(n, 0) == p * mass(n1, 0)
        let pp1 = npow(p, n1) as int;
        assert(npow(p, n) == p * pp1);
        assert(mass(p, q, n, 0) == binom(n, 0) * ((p * pp1) as nat) * npow(q, 0));
        assert(mass(p, q, n1, 0) == binom(n1, 0) * pp1 * npow(q, 0));
        assert(binom(n, 0) == 1 && binom(n1, 0) == 1 && npow(q, 0) == 1);
        assert(1 * (p * pp1) * 1 == p * (1 * pp1 * 1)) by (nonlinear_arith);
        assert(mass(p, q, n, 0) == p * mass(p, q, n1, 0));
        // tail(n, 1) == mass(n, 0) + mass(n, 1)
        let m0 = mass(p, q, n1, 0) as int;
        let m1 = mass(p, q, n1, 1) as int;
        assert(tail(p, q, n, 1) == tail(p, q, n, 0) + mass(p, q, n, 1));
        assert(tail(p, q, n, 0) == mass(p, q, n, 0));
        assert(tail(p, q, n1, 1) == tail(p, q, n1, 0) + mass(p, q, n1, 1));
        assert(tail(p, q, n1, 0) == mass(p, q, n1, 0));
        assert(p * (m0 + m1) == p * m0 + p * m1) by (nonlinear_arith);
    } else {
        lemma_tail_pascal(p, q, n, (t - 1) as nat);
        let t1 = (t - 1) as nat;
        let t2 = (t - 2) as nat;
        let a = tail(p, q, n1, t1) as int;
        let b = mass(p, q, n1, t) as int;
        assert(tail(p, q, n, t) == tail(p, q, n, t1) + mass(p, q, n, t));
        assert(tail(p, q, n1, t) == a + b);
        assert(p * (a + b) == p * a + p * b) by (nonlinear_arith);
        let c = tail(p, q, n1, t2) as int;
        let d = mass(p, q, n1, t1) as int;
        assert(tail(p, q, n1, t1) == c + d);
        assert(q * (c + d) == q * c + q * d) by (nonlinear_arith);
    }
}

/// Beyond `t == n` the partial sums stop growing.
proof fn lemma_tail_flat(p: nat, q: nat, n: nat, t: nat)
    requires
        t >= n,
    ensures
        tail(p, q, n, t) == tail(p, q, n, n),
    decreases t,
{
    if t > n {
        lemma_tail_flat(p, q, n, (t - 1) as nat);
        lemma_mass_zero_above(p, q, n, t);
    }
}

/// The binomial theorem: the full sum of mass terms is `(p+q)^n`.
pub proof fn lemma_binomial_theorem(p: nat, q: nat, n: nat)
    ensures
        tail(p, q, n, n) == npow((p + q) as nat, n),
    decreases n,
{
    if n == 0 {
        assert(tail(p, q, 0, 0) == mass(p, q, 0, 0));
        assert(mass(p, q, 0, 0) == binom(0, 0) * npow(p, 0) * npow(q, 0));
        assert(binom(0, 0) == 1 && npow(p, 0) == 1 && npow(q, 0) == 1);
        assert(binom(0, 0) * npow(p, 0) * npow(q, 0) == 1) by (nonlinear_arith)
            requires
                binom(0, 0) == 1 && npow(p, 0) == 1 && npow(q, 0) == 1,
        ;
        assert(npow((p + q) as nat, 0) == 1);
    } else {
        let n1 = (n - 1) as nat;
        lemma_binomial_theorem(p, q, n1);
        lemma_tail_pascal(p, q, n, n);
        // tail(p, q, n1, n) == tail(p, q, n1, n1) since the top term vanishes
        lemma_tail_flat(p, q, n1, n);
        let s = tail(p, q, n1, n1) as int;
        let t1n = tail(p, q, n1, n) as int;
        assert(tail(p, q, n, n) == p * t1n + q * s);
        assert(t1n == s);
        assert(p * t1n + q * s == (p + q) * s) by (nonlinear_arith)
            requires
                t1n == s,
        ;
        assert(tail(p, q, n, n) == (p + q) * s);
        assert(npow((p + q) as nat, n) == (p + q) * npow((p + q) as nat, n1));
        assert(npow((p + q) as nat, n1) == s);
        assert((p + q) * npow((p + q) as nat, n1) == (p + q) * s);
    }
}

/// Splitting the full sum at `t`: everything is the lower tail plus the rest.
proof fn lemma_tail_split(p: nat, q: nat, n: nat, t: nat)
    requires
        t < n,
    ensures
        tail(p, q, n, n) == tail(p, q, n, t) + upper(p, q, n, (t + 1) as nat),
    decreases n - t,
{
    if t + 1 == n {
        assert(upper(p, q, n, n) == mass(p, q, n, n));
    } else {
        lemma_tail_split(p, q, n, (t + 1) as nat);
        assert(upper(p, q, n, (t + 1) as nat) == mass(p, q, n, (t + 1) as nat) + upper(
            p,
            q,
            n,
            (t + 2) as nat,
        ));
    }
}

/// Reflection: summing the top of the distribution for `(p, q)` is summing
/// the bottom for `(q, p)`.
proof fn lemma_upper_reflect(p: nat, q: nat, n: nat, s: nat)
    requires
        s <= n,
    ensures
        upper(p, q, n, s) == tail(q, p, n, (n - s) as nat),
    decreases n - s,
{
    if s == n {
        lemma_binom_self(n);
        assert(mass(p, q, n, n) == 1 * npow(p, 0) * npow(q, n));
        assert(tail(q, p, n, 0) == mass(q, p, n, 0));
        assert(mass(q, p, n, 0) == binom(n, 0) * npow(q, n) * npow(p, 0));
        let y = npow(q, n) as int;
        assert(1 * 1 * y == 1 * y * 1) by (nonlinear_arith);
    } else {
        lemma_upper_reflect(p, q, n, (s + 1) as nat);
        // mass(p, q, n, s) == mass(q, p, n, n - s)
        lemma_binom_symmetry(n, s);
        let c = binom(n, s) as int;
        let x = npow(p, (n - s) as nat) as int;
        let y = npow(q, s) as int;
        assert(mass(p, q, n, s) == c * x * y);
        assert(mass(q, p, n, (n - s) as nat) == binom(n, (n - s) as nat) * npow(
            q,
            (n - (n - s)) as nat,
        ) * npow(p, (n - s) as nat));
        assert(c * x * y == c * y * x) by (nonlinear_arith);
        assert(tail(q, p, n, (n - s) as nat) == tail(q, p, n, (n - s - 1) as nat) + mass(
            q,
            p,
            n,
            (n - s) as nat,
        ));
    }
}

/// Symmetry of majority outcomes in an odd-length series: the chance that
/// one side loses at most `(n-1)/2` games plus the chance that the other
/// side loses at most `(n-1)/2` games is exactly one, as numerators over
/// the common denominator `(p+q)^n`.
pub proof fn lemma_majority_symmetry(p: nat, q: nat, n: nat)
    requires
        n >= 1,
        n % 2 == 1,
    ensures
        tail(p, q, n, ((n - 1) / 2) as nat) + tail(q, p, n, ((n - 1) / 2) as nat) == npow(
            (p + q) as nat,
            n,
        ),
{
    let t = ((n - 1) / 2) as nat;
    assert(t < n);
    lemma_tail_split(p, q, n, t);
    lemma_upper_reflect(p, q, n, (t + 1) as nat);
    assert(n - (t + 1) == t);
    lemma_binomial_theorem(p, q, n);
}

/// Partial sums only grow.
proof fn lemma_tail_monotonic(p: nat, q: nat, n: nat, t1: nat, t2: nat)
    requires
        t1 <= t2,
    ensures
        tail(p, q, n, t1) <= tail(p, q, n, t2),
    decreases t2,
{
    if t1 < t2 {
        lemma_tail_monotonic(p, q, n, t1, (t2 - 1) as nat);
    }
}

/// Each mass term is bounded by any partial sum that includes it.
proof fn lemma_mass_le_tail(p: nat, q: nat, n: nat, k: nat, t: nat)
    requires
        k <= t,
    ensures
        mass(p, q, n, k) <= tail(p, q, n, t),
    decreases t,
{
    if k < t {
        lemma_mass_le_tail(p, q, n, k, (t - 1) as nat);
    }
}

/// A lower tail never exceeds the full denominator `(p+q)^n`.
pub proof fn lemma_tail_le_npow(p: nat, q: nat, n: nat, t: nat)
    ensures
        tail(p, q, n, t) <= npow((p + q) as nat, n),
{
    lemma_binomial_theorem(p, q, n);
    if t <= n {
        lemma_tail_monotonic(p, q, n, t, n);
    } else {
        lemma_tail_flat(p, q, n, t);
    }
}

/// Powers of a positive base are positive.
pub proof fn lemma_npow_pos(b: nat, e: nat)
    requires
        b >= 1,
    ensures
        npow(b, e) >= 1,
    decreases e,
{
    if e > 0 {
        lemma_npow_pos(b, (e - 1) as nat);
        let x = npow(b, (e - 1) as nat) as int;
        assert(b * x >= 1) by (nonlinear_arith)
            requires
                b >= 1,
                x >= 1,
        ;
    }
}

/// Exponent-monotonicity of powers with base at least one.
pub proof fn lemma_npow_exp_le(b: nat, e1: nat, e2: nat)
    requires
        b >= 1,
        e1 <= e2,
    ensures
        npow(b, e1) <= npow(b, e2),
    decreases e2,
{
    if e1 < e2 {
        lemma_npow_exp_le(b, e1, (e2 - 1) as nat);
        lemma_npow_pos(b, (e2 - 1) as nat);
        let x = npow(b, (e2 - 1) as nat) as int;
        assert(b * x >= x) by (nonlinear_arith)
            requires
                b >= 1,
                x >= 0,
        ;
    }
}

/// Base-monotonicity of powers.
proof fn lemma_npow_base_le(a: nat, b: nat, e: nat)
    requires
        a <= b,
    ensures
        npow(a, e) <= npow(b, e),
    decreases e,
{
    if e > 0 {
        lemma_npow_base_le(a, b, (e - 1) as nat);
        let x = npow(a, (e - 1) as nat) as int;
        let y = npow(b, (e - 1) as nat) as int;
        assert(a * x <= b * y) by (nonlinear_arith)
            requires
                0 <= a <= b,
                0 <= x <= y,
        ;
    }
}

/// A power of zero vanishes.
proof fn lemma_npow_zero_base(e: nat)
    requires
        e >= 1,
    ensures
        npow(0, e) == 0,
    decreases e,
{
    if e > 1 {
        lemma_npow_zero_base((e - 1) as nat);
    }
}

/// Exact exponentiation.
pub fn pow_u64(b: u64, e: u64) -> (r: u64)
    requires
        npow(b as nat, e as nat) <= u64::MAX,
    ensures
        r == npow(b as nat, e as nat),
{
    if b == 0 {
        if e == 0 {
            1
        } else {
            proof {
                lemma_npow_zero_base(e as nat);
            }
            0
        }
    } else {
        let mut r: u64 = 1;
        let mut i: u64 = 0;
        while i < e
            invariant
                i <= e,
                b >= 1,
                r == npow(b as nat, i as nat),
                npow(b as nat, e as nat) <= u64::MAX,
            decreases e - i,
        {
            proof {
                lemma_npow_exp_le(b as nat, (i + 1) as nat, e as nat);
                assert(npow(b as nat, (i + 1) as nat) == b * npow(b as nat, i as nat));
                assert(r * b == b * r) by (nonlinear_arith);
            }
            r = r * b;
            i = i + 1;
        }
        r
    }
}

/// Numerator of the probability that the favored side loses at most
/// `threshold` of `n` games, when it wins each game with probability
/// `p_num / den`; the denominator of the result is `den^n`.
pub fn binomial_tail_num(p_num: u64, den: u64, n: u64, threshold: u64) -> (r: u64)
    requires
        1 <= den,
        p_num <= den,
        1 <= n <= 20,
        threshold < n,
        npow(den as nat, n as nat) <= u64::MAX,
    ensures
        r == tail(p_num as nat, (den - p_num) as nat, n as nat, threshold as nat),
        r <= npow(den as nat, n as nat),
{
    let q_num: u64 = den - p_num;
    proof {
        lemma_tail_le_npow(p_num as nat, q_num as nat, n as nat, threshold as nat);
    }
    if p_num == 0 {
        proof {
            lemma_tail_zero_p(q_num as nat, n as nat, threshold as nat);
        }
        return 0;
    }
    if q_num == 0 {
        proof {
            lemma_tail_zero_q(p_num as nat, n as nat, threshold as nat);
        }
        return pow_u64(den, n);
    }
    let mut acc: u64 = 0;
    let mut k: u64 = 0;
    while k <= threshold
        invariant
            k <= threshold + 1,
            threshold < n <= 20,
            1 <= p_num,
            1 <= q_num,
            p_num + q_num == den,
            npow(den as nat, n as nat) <= u64::MAX,
            k == 0 ==> acc == 0,
            k >= 1 ==> acc == tail(p_num as nat, q_num as nat, n as nat, (k - 1) as nat),
        decreases threshold + 1 - k,
    {
        let c = binomial(n, k);
        proof {
            lemma_term_bounds(p_num as nat, q_num as nat, den as nat, n as nat, k as nat);
        }
        let pp = pow_u64(p_num, n - k);
        let qq = pow_u64(q_num, k);
        let term = c * pp * qq;
        proof {
            lemma_tail_le_npow(p_num as nat, q_num as nat, n as nat, k as nat);
            if k >= 1 {
                assert(tail(p_num as nat, q_num as nat, n as nat, k as nat) == tail(
                    p_num as nat,
                    q_num as nat,
                    n as nat,
                    (k - 1) as nat,
                ) + mass(p_num as nat, q_num as nat, n as nat, k as nat));
            }
        }
        acc = acc + term;
        k = k + 1;
    }
    acc
}

/// For the intermediate products of one mass term: with both numerators
/// positive every prefix of the product is bounded by the full term, which
/// itself is bounded by `den^n`.
proof fn lemma_term_bounds(p: nat, q: nat, den: nat, n: nat, k: nat)
    requires
        1 <= p,
        1 <= q,
        p + q == den,
        k <= n,
    ensures
        npow(p, (n - k) as nat) <= npow(den, n),
        npow(q, k) <= npow(den, n),
        binom(n, k) * npow(p, (n - k) as nat) <= mass(p, q, n, k),
        binom(n, k) * npow(p, (n - k) as nat) * npow(q, k) == mass(p, q, n, k),
        mass(p, q, n, k) <= npow(den, n),
{
    lemma_npow_pos(p, (n - k) as nat);
    lemma_npow_pos(q, k);
    lemma_npow_base_le(p, den, (n - k) as nat);
    lemma_npow_base_le(q, den, k);
    lemma_npow_pos(den, (n - k) as nat);
    lemma_npow_pos(den, k);
    lemma_npow_exp_le(den, (n - k) as nat, n);
    lemma_npow_exp_le(den, k, n);
    let pp = npow(p, (n - k) as nat) as int;
    let qq = npow(q, k) as int;
    let c = binom(n, k) as int;
    assert(c * pp <= c * pp * qq) by (nonlinear_arith)
        requires
            pp >= 1,
            qq >= 1,
            c >= 0,
    ;
    lemma_mass_le_tail(p, q, n, k, k);
    lemma_tail_le_npow(p, q, n, k);
}

/// With a zero win numerator, any strict lower tail is empty.
pub proof fn lemma_tail_zero_p(q: nat, n: nat, t: nat)
    requires
        t < n,
    ensures
        tail(0, q, n, t) == 0,
    decreases t,
{
    lemma_npow_zero_base((n - t) as nat);
    let c = binom(n, t) as int;
    let y = npow(q, t) as int;
    assert(c * 0 * y == 0) by (nonlinear_arith);
    if t == 0 {
        assert(mass(0, q, n, 0) == binom(n, 0) * npow(0, (n - t) as nat) * npow(q, 0));
    } else {
        lemma_tail_zero_p(q, n, (t - 1) as nat);
        assert(mass(0, q, n, t) == (c * 0 * y) as nat);
    }
}

/// With a zero loss numerator, every lower tail is the whole denominator.
pub proof fn lemma_tail_zero_q(p: nat, n: nat, t: nat)
    ensures
        tail(p, 0, n, t) == npow(p, n),
    decreases t,
{
    if t == 0 {
        assert(mass(p, 0, n, 0) == binom(n, 0) * npow(p, n) * npow(0, 0));
        let x = npow(p, n) as int;
        assert(1 * x * 1 == x) by (nonlinear_arith);
    } else {
        lemma_tail_zero_q(p, n, (t - 1) as nat);
        lemma_npow_zero_base(t);
        let c = binom(n, t) as int;
        let x = npow(p, (n - t) as nat) as int;
        assert(c * x * 0 == 0) by (nonlinear_arith);
        assert(mass(p, 0, n, t) == (c * x * 0) as nat);
    }
}

/// The single-game series closed form: with one game, the favored side
/// takes the series with exactly its single-game win probability.
pub proof fn lemma_single_game_tail(p: nat, q: nat)
    ensures
        tail(p, q, 1, 0) == p,
{
    assert(tail(p, q, 1, 0) == mass(p, q, 1, 0));
    assert(mass(p, q, 1, 0) == binom(1, 0) * npow(p, 1) * npow(q, 0));
    assert(binom(1, 0) == 1 && npow(p, 1) == p * npow(p, 0) && npow(p, 0) == 1 && npow(q, 0) == 1);
    assert(1 * (p * 1) * 1 == p) by (nonlinear_arith);
}

/// Whether `b^e` fits in 64 bits, decided without overflowing.
pub fn npow_fits_u64(b: u64, e: u64) -> (r: bool)
    requires
        b >= 1,
    ensures
        r == (npow(b as nat, e as nat) <= u64::MAX),
{
    let mut acc: u128 = 1;
    let mut i: u64 = 0;
    while i < e
        invariant
            i <= e,
            b >= 1,
            acc == npow(b as nat, i as nat),
            acc <= u64::MAX as u128,
        decreases e - i,
    {
        proof {
            assert(npow(b as nat, (i + 1) as nat) == b * npow(b as nat, i as nat));
            assert(acc * b <= (u64::MAX as int) * (u64::MAX as int)) by (nonlinear_arith)
                requires
                    0 <= acc <= u64::MAX,
                    0 <= b <= u64::MAX,
            ;
            assert((u64::MAX as int) * (u64::MAX as int) <= u128::MAX) by (nonlinear_arith);
            assert(acc * b == b * acc) by (nonlinear_arith);
        }
        let next = acc * (b as u128);
        if next > u64::MAX as u128 {
            proof {
                lemma_npow_exp_le(b as nat, (i + 1) as nat, e as nat);
            }
            return false;
        }
        acc = next;
        i = i + 1;
    }
    true
}

} // verus!
