//! Elementary number theory: Euclid's lemma, Fermat's little theorem, and a
//! certificate that the field modulus is prime.

use vstd::arithmetic::div_mod::*;
use vstd::arithmetic::mul::*;
use vstd::arithmetic::power::*;
use vstd::arithmetic::power2::*;
use vstd::prelude::*;

verus! {

/// `n` is a prime number.
pub open spec fn is_prime(n: nat) -> bool {
    &&& n > 1
    &&& forall|d: nat| 1 < d < n ==> #[trigger] (n % d) != 0
}

/// Euclid's lemma for a factor already reduced below the prime.
proof fn lemma_euclid_reduced(a: nat, b: nat, p: nat)
    requires
        is_prime(p),
        0 < a < p,
        (a * b) % p == 0,
    ensures
        b % p == 0,
    decreases a,
{
    if a == 1 {
        lemma_mul_basics(b as int);
    } else {
        let q = p / a;
        let r = p % a;
        assert(p % a != 0);
        lemma_fundamental_div_mod(p as int, a as int);
        lemma_mod_bound(p as int, a as int);
        let t = (a * b) / p;
        lemma_fundamental_div_mod((a * b) as int, p as int);
        assert(a * b == p * t);
        assert(r * b == p * (b - q * t)) by (nonlinear_arith)
            requires
                p == a * q + r,
                a * b == p * t,
        ;
        assert(b - q * t >= 0) by (nonlinear_arith)
            requires
                r * b == p * (b - q * t),
                r > 0,
                p > 0,
                b >= 0,
        ;
        lemma_mod_multiples_basic(b - q * t, p as int);
        lemma_mul_is_commutative(b - q * t, p as int);
        lemma_euclid_reduced(r, b, p);
    }
}

/// Euclid's lemma: a prime that divides a product divides one of its factors.
pub proof fn lemma_euclid(a: nat, b: nat, p: nat)
    requires
        is_prime(p),
        (a * b) % p == 0,
    ensures
        a % p == 0 || b % p == 0,
{
    if a % p != 0 {
        lemma_mul_mod_noop_left(a as int, b as int, p as int);
        lemma_mod_bound(a as int, p as int);
        lemma_euclid_reduced(a % p, b, p);
    }
}

/// The binomial coefficient `n choose k`, by Pascal's rule.
pub open spec fn binom(n: nat, k: nat) -> nat
    decreases n, k,
{
    if k == 0 {
        1
    } else if n == 0 {
        0
    } else {
        binom((n - 1) as nat, (k - 1) as nat) + binom((n - 1) as nat, k)
    }
}

proof fn lemma_binom_above(n: nat, k: nat)
    requires
        k > n,
    ensures
        binom(n, k) == 0,
    decreases n,
{
    if n > 0 {
        lemma_binom_above((n - 1) as nat, (k - 1) as nat);
        lemma_binom_above((n - 1) as nat, k);
    }
}

proof fn lemma_binom_one(n: nat)
    ensures
        binom(n, 1) == n,
    decreases n,
{
    if n > 0 {
        let m = (n - 1) as nat;
        lemma_binom_one(m);
        assert(binom(n, 1) == binom(m, 0) + binom(m, 1));
        assert(binom(m, 0) == 1);
    }
}

/// The absorption identity `k * C(n, k) == n * C(n - 1, k - 1)`.
proof fn lemma_binom_absorption(n: nat, k: nat)
    requires
        n >= 1,
        k >= 1,
    ensures
        k * binom(n, k) == n * binom((n - 1) as nat, (k - 1) as nat),
    decreases n,
{
    if k == 1 {
        lemma_binom_one(n);
        assert(binom((n - 1) as nat, 0) == 1);
        assert(k * binom(n, k) == n);
        assert(n * binom((n - 1) as nat, (k - 1) as nat) == n);
    } else if n == 1 {
        lemma_binom_above(1, k);
        lemma_binom_above(0, (k - 1) as nat);
        assert(k * binom(n, k) == 0);
        assert(n * binom((n - 1) as nat, (k - 1) as nat) == 0);
    } else {
        let a = binom((n - 1) as nat, (k - 1) as nat);
        let b = binom((n - 1) as nat, k);
        let c = binom((n - 2) as nat, (k - 2) as nat);
        let d = binom((n - 2) as nat, (k - 1) as nat);
        lemma_binom_absorption((n - 1) as nat, k);
        lemma_binom_absorption((n - 1) as nat, (k - 1) as nat);
        assert(binom(n, k) == a + b);
        assert(a == c + d) by {
            assert((k - 1) as nat >= 1);
            assert(((k - 1) as nat - 1) as nat == (k - 2) as nat);
        }
        assert(k * b == (n - 1) * d);
        assert((k - 1) * a == (n - 1) * c);
        assert(k * (a + b) == n * a) by (nonlinear_arith)
            requires
                a == c + d,
                k * b == (n - 1) * d,
                (k - 1) * a == (n - 1) * c,
        ;
    }
}

/// A prime divides every binomial coefficient `C(p, k)` with `0 < k < p`.
proof fn lemma_prime_divides_binom(p: nat, k: nat)
    requires
        is_prime(p),
        0 < k < p,
    ensures
        binom(p, k) % p == 0,
{
    lemma_binom_absorption(p, k);
    let c = binom((p - 1) as nat, (k - 1) as nat);
    lemma_mod_multiples_basic(c as int, p as int);
    lemma_mul_is_commutative(c as int, p as int);
    lemma_small_mod(k, p);
    lemma_euclid(k, binom(p, k), p);
}

/// `sum_{j <= m} C(n, j) * x^j`.
pub open spec fn binom_sum(x: int, n: nat, m: nat) -> int
    decreases m,
{
    if m == 0 {
        binom(n, 0) * pow(x, 0)
    } else {
        binom_sum(x, n, (m - 1) as nat) + binom(n, m) * pow(x, m)
    }
}

/// Pascal's rule lifted to the partial sums.
proof fn lemma_binom_sum_step(x: int, n: nat, m: nat)
    requires
        m >= 1,
    ensures
        binom_sum(x, n + 1, m) == x * binom_sum(x, n, (m - 1) as nat) + binom_sum(x, n, m),
    decreases m,
{
    let cm = binom(n, (m - 1) as nat);
    let dm = binom(n, m);
    assert(binom(n + 1, m) == cm + dm);
    lemma_pow_adds(x, 1, (m - 1) as nat);
    lemma_pow1(x);
    assert(pow(x, m) == x * pow(x, (m - 1) as nat));
    if m == 1 {
        lemma_pow0(x);
        assert(binom(n + 1, 0) == 1);
        assert(binom(n, 0) == 1);
        assert(binom_sum(x, n + 1, 0) == 1);
        assert(binom_sum(x, n, 0) == 1);
        assert(binom_sum(x, n + 1, 1) == 1 + (cm + dm) * pow(x, 1));
        assert(binom_sum(x, n, 1) == 1 + dm * pow(x, 1));
        assert(binom_sum(x, n, 0) == 1);
        assert(binom_sum(x, n + 1, 1) == x * binom_sum(x, n, 0) + binom_sum(x, n, 1)) by (nonlinear_arith)
            requires
                binom_sum(x, n + 1, 1) == 1 + (cm + dm) * pow(x, 1),
                binom_sum(x, n, 1) == 1 + dm * pow(x, 1),
                binom_sum(x, n, 0) == 1,
                cm == 1,
                pow(x, 1) == x,
        ;
    } else {
        lemma_binom_sum_step(x, n, (m - 1) as nat);
        let s2 = binom_sum(x, n, (m - 2) as nat);
        let s1 = binom_sum(x, n, (m - 1) as nat);
        let s0 = binom_sum(x, n, m);
        let pm = pow(x, (m - 1) as nat);
        assert(s1 == s2 + cm * pm);
        assert(s0 == s1 + dm * pow(x, m));
        assert(binom_sum(x, n + 1, m) == binom_sum(x, n + 1, (m - 1) as nat) + (cm + dm) * pow(x, m));
        assert(binom_sum(x, n + 1, (m - 1) as nat) == x * s2 + s1);
        assert(binom_sum(x, n + 1, m) == x * s1 + s0) by (nonlinear_arith)
            requires
                binom_sum(x, n + 1, m) == binom_sum(x, n + 1, (m - 1) as nat) + (cm + dm) * pow(x, m),
                binom_sum(x, n + 1, (m - 1) as nat) == x * s2 + s1,
                s1 == s2 + cm * pm,
                s0 == s1 + dm * pow(x, m),
                pow(x, m) == x * pm,
        ;
    }
}

/// The binomial theorem for `(x + 1)^n`.
proof fn lemma_binomial_theorem(x: int, n: nat)
    ensures
        pow(x + 1, n) == binom_sum(x, n, n),
    decreases n,
{
    if n == 0 {
        lemma_pow0(x + 1);
        lemma_pow0(x);
    } else {
        let k = (n - 1) as nat;
        lemma_binomial_theorem(x, k);
        lemma_binom_sum_step(x, k, n);
        lemma_binom_above(k, n);
        assert(binom_sum(x, k, n) == binom_sum(x, k, k));
        lemma_pow_adds(x + 1, 1, k);
        lemma_pow1(x + 1);
        assert(pow(x + 1, n) == (x + 1) * pow(x + 1, k));
        assert(pow(x + 1, n) == x * binom_sum(x, k, k) + binom_sum(x, k, k)) by (nonlinear_arith)
            requires
                pow(x + 1, n) == (x + 1) * pow(x + 1, k),
                pow(x + 1, k) == binom_sum(x, k, k),
        ;
    }
}

/// Modulo a prime, the inner terms of the binomial expansion of `(x + 1)^p` vanish.
proof fn lemma_binom_sum_mod_prime(x: int, p: nat, m: nat)
    requires
        is_prime(p),
        m < p,
    ensures
        binom_sum(x, p, m) % (p as int) == 1,
    decreases m,
{
    if m == 0 {
        lemma_pow0(x);
        lemma_small_mod(1, p);
        assert(binom(p, 0) == 1);
        assert(binom_sum(x, p, 0) == 1);
    } else {
        lemma_binom_sum_mod_prime(x, p, (m - 1) as nat);
        lemma_prime_divides_binom(p, m);
        let c = binom(p, m);
        let t = pow(x, m);
        assert((c * t) % (p as int) == 0) by {
            lemma_mul_mod_noop_left(c as int, t, p as int);
            assert((c as int) % (p as int) == 0);
            assert(((c as int) % (p as int)) * t == 0);
        }
        lemma_add_mod_noop(binom_sum(x, p, (m - 1) as nat), c * pow(x, m), p as int);
        lemma_small_mod(1, p);
        assert(binom_sum(x, p, m) == binom_sum(x, p, (m - 1) as nat) + c * pow(x, m));
    }
}

/// The freshman's dream: `(x + 1)^p == x^p + 1` modulo a prime `p`.
proof fn lemma_freshman(x: int, p: nat)
    requires
        is_prime(p),
    ensures
        pow(x + 1, p) % (p as int) == (pow(x, p) + 1) % (p as int),
{
    lemma_binomial_theorem(x, p);
    let k = (p - 1) as nat;
    lemma_binom_sum_mod_prime(x, p, k);
    assert(binom(p, p) == 1) by {
        lemma_binom_absorption(p, p);
        assert(binom(k, k) == 1) by {
            lemma_binom_diag(k);
        }
        lemma_mul_is_commutative(p as int, binom(p, p) as int);
        assert(p * binom(p, p) == p * 1);
        lemma_mul_equality_converse(p as int, binom(p, p) as int, 1);
    }
    assert(binom_sum(x, p, p) == binom_sum(x, p, k) + pow(x, p));
    lemma_add_mod_noop(binom_sum(x, p, k), pow(x, p), p as int);
    lemma_add_mod_noop(1, pow(x, p), p as int);
    lemma_small_mod(1, p);
}

proof fn lemma_binom_diag(n: nat)
    ensures
        binom(n, n) == 1,
    decreases n,
{
    if n > 0 {
        lemma_binom_diag((n - 1) as nat);
        lemma_binom_above((n - 1) as nat, n);
    }
}

/// `x^p == x` modulo a prime `p`.
proof fn lemma_pow_prime_fixed(x: nat, p: nat)
    requires
        is_prime(p),
    ensures
        pow(x as int, p) % (p as int) == (x as int) % (p as int),
    decreases x,
{
    if x == 0 {
        lemma0_pow(p);
    } else {
        let y = (x - 1) as nat;
        lemma_pow_prime_fixed(y, p);
        lemma_freshman(y as int, p);
        lemma_add_mod_noop(pow(y as int, p), 1, p as int);
        lemma_add_mod_noop(y as int, 1, p as int);
    }
}

/// Fermat's little theorem.
pub proof fn lemma_fermat(a: nat, p: nat)
    requires
        is_prime(p),
        a % p != 0,
    ensures
        pow(a as int, (p - 1) as nat) % (p as int) == 1,
{
    let e = pow(a as int, (p - 1) as nat);
    lemma_pow_prime_fixed(a, p);
    lemma_pow_adds(a as int, 1, (p - 1) as nat);
    lemma_pow1(a as int);
    assert(pow(a as int, p) == a * e);
    if a == 0 {
        assert(a % p == 0);
    }
    lemma_pow_positive(a as int, (p - 1) as nat);
    assert((a * (e - 1)) % (p as int) == 0) by {
        lemma_mul_is_distributive_sub(a as int, e, 1);
        lemma_sub_mod_noop(a * e, a as int, p as int);
        lemma_mod_self_0(p as int);
        lemma_mod_twice(a as int, p as int);
    }
    lemma_euclid(a, (e - 1) as nat, p);
    lemma_mod_adds(e - 1, 1, p as int);
    lemma_small_mod(1, p);
}

/// The greatest common divisor, by Euclid's algorithm.
pub open spec fn gcd(a: nat, b: nat) -> nat
    decreases b,
{
    if b == 0 {
        a
    } else {
        gcd(b, a % b)
    }
}

/// A common divisor of `b` and `r` divides `b * k + r`.
proof fn lemma_divides_combination(b: nat, k: nat, r: nat, g: nat)
    requires
        g > 0,
        b % g == 0,
        r % g == 0,
    ensures
        (b * k + r) % g == 0,
{
    lemma_mul_mod_noop_left(b as int, k as int, g as int);
    assert(((b as int) % (g as int)) * k == 0);
    lemma_small_mod(0, g);
    assert((((b as int) % (g as int)) * (k as int)) % (g as int) == 0);
    assert(((b as int) * (k as int)) % (g as int) == 0);
    lemma_add_mod_noop((b * k) as int, r as int, g as int);
}

/// `gcd(a, b)` is a positive common divisor of `a` and `b`.
proof fn lemma_gcd_divides(a: nat, b: nat)
    requires
        a > 0,
    ensures
        gcd(a, b) > 0,
        a % gcd(a, b) == 0,
        b % gcd(a, b) == 0,
    decreases b,
{
    if b == 0 {
        lemma_mod_self_0(a as int);
    } else {
        let g = gcd(b, a % b);
        lemma_gcd_divides(b, a % b);
        lemma_fundamental_div_mod(a as int, b as int);
        lemma_divides_combination(b, a / b, a % b, g);
    }
}

/// If `c^x` and `c^y` are both 1 modulo `q`, so is `c^(x % y)`.
proof fn lemma_pow_one_mod_exponent(c: int, x: nat, y: nat, q: nat)
    requires
        q > 1,
        y > 0,
        pow(c, x) % (q as int) == 1,
        pow(c, y) % (q as int) == 1,
    ensures
        pow(c, x % y) % (q as int) == 1,
{
    let t = x / y;
    lemma_fundamental_div_mod(x as int, y as int);
    lemma_mul_nonnegative(y as int, t as int);
    lemma_pow_adds(c, y * t, x % y);
    lemma_pow_multiplies(c, y, t);
    lemma_pow_mod_noop(pow(c, y), t, q as int);
    lemma1_pow(t);
    lemma_small_mod(1, q);
    let a = pow(c, y * t);
    let b = pow(c, x % y);
    assert(a % (q as int) == 1);
    lemma_mul_mod_noop(a, b, q as int);
    lemma_mod_twice(b, q as int);
}

/// If `c^a` and `c^b` are both 1 modulo `q`, so is `c^gcd(a, b)`.
proof fn lemma_pow_one_gcd(c: int, a: nat, b: nat, q: nat)
    requires
        q > 1,
        pow(c, a) % (q as int) == 1,
        pow(c, b) % (q as int) == 1,
    ensures
        pow(c, gcd(a, b)) % (q as int) == 1,
    decreases b,
{
    if b > 0 {
        lemma_pow_one_mod_exponent(c, a, b, q);
        lemma_pow_one_gcd(c, b, a % b, q);
    }
}

/// The only odd divisor of a power of two is 1.
proof fn lemma_odd_divisor_of_pow2(m: nat, k: nat)
    requires
        m % 2 == 1,
        pow2(k) % m == 0,
    ensures
        m == 1,
    decreases k,
{
    lemma_pow2_pos(k);
    lemma_fundamental_div_mod(pow2(k) as int, m as int);
    let t = pow2(k) / m;
    assert(pow2(k) == m * t);
    if k == 0 {
        lemma2_to64();
        assert(m == 1) by (nonlinear_arith)
            requires
                m * t == 1,
        ;
    } else {
        lemma_pow2_unfold(k);
        let h = pow2((k - 1) as nat);
        if t % 2 == 1 {
            lemma_mul_mod_noop(m as int, t as int, 2);
            assert((2 * h) % 2 == 0) by {
                lemma_mod_multiples_basic(h as int, 2);
                lemma_mul_is_commutative(h as int, 2);
            }
        }
        assert(h == m * (t / 2)) by (nonlinear_arith)
            requires
                2 * h == m * t,
                t % 2 == 0,
        ;
        lemma_mod_multiples_basic((t / 2) as int, m as int);
        lemma_mul_is_commutative((t / 2) as int, m as int);
        lemma_odd_divisor_of_pow2(m, (k - 1) as nat);
    }
}

/// A divisor of `2^k` other than `2^k` itself divides `2^(k - 1)`.
proof fn lemma_proper_divisor_of_pow2(g: nat, k: nat)
    requires
        k > 0,
        g > 0,
        pow2(k) % g == 0,
        g != pow2(k),
    ensures
        pow2((k - 1) as nat) % g == 0,
{
    lemma_pow2_unfold(k);
    lemma_fundamental_div_mod(pow2(k) as int, g as int);
    let u = pow2(k) / g;
    let h = pow2((k - 1) as nat);
    assert(pow2(k) == g * u);
    if u % 2 == 1 {
        lemma_mod_multiples_basic(g as int, u as int);
        assert(pow2(k) % u == 0);
        lemma_odd_divisor_of_pow2(u, k);
        lemma_mul_basics(g as int);
        assert(g * u == g);
        assert(false);
    }
    assert(h == g * (u / 2)) by (nonlinear_arith)
        requires
            2 * h == g * u,
            u % 2 == 0,
    ;
    lemma_mod_multiples_basic((u / 2) as int, g as int);
    lemma_mul_is_commutative((u / 2) as int, g as int);
}

/// Reducing modulo `p` and then modulo a divisor `q` of `p` is reducing modulo `q`.
proof fn lemma_mod_divisor(x: int, p: nat, q: nat)
    requires
        q > 0,
        p > 0,
        p % q == 0,
    ensures
        (x % (p as int)) % (q as int) == x % (q as int),
{
    lemma_fundamental_div_mod(p as int, q as int);
    let s = p / q;
    assert(p == q * s);
    lemma_mul_strictly_positive(q as int, s as int);
    if s == 0 {
        assert(false);
    }
    lemma_mod_mod(x, q as int, s as int);
}

/// `n` has a prime factor.
proof fn lemma_prime_factor(n: nat) -> (q: nat)
    requires
        n > 1,
    ensures
        is_prime(q),
        n % q == 0,
        q <= n,
    decreases n,
{
    if is_prime(n) {
        lemma_mod_self_0(n as int);
        n
    } else {
        let d = choose|d: nat| 1 < d < n && #[trigger] (n % d) == 0;
        let q = lemma_prime_factor(d);
        lemma_divides_transitive(n, d, q);
        q
    }
}

/// A prime factor of a modulus `p` with a root of unity `c` of order `2^k`
/// is 1 more than a multiple of `2^k`.
proof fn lemma_factor_of_certified(p: nat, c: nat, k: nat, q: nat)
    requires
        k > 0,
        p > 2,
        p % 2 == 1,
        pow(c as int, pow2(k)) % (p as int) == 1,
        pow(c as int, pow2((k - 1) as nat)) % (p as int) == p - 1,
        is_prime(q),
        p % q == 0,
    ensures
        (q - 1) % (pow2(k) as int) == 0,
{
    let t = pow2(k);
    let h = pow2((k - 1) as nat);
    lemma_pow2_pos(k);
    lemma_mod_divisor(pow(c as int, t), p, q);
    lemma_mod_divisor(pow(c as int, h), p, q);
    lemma_small_mod(1, q);
    assert(pow(c as int, t) % (q as int) == 1);
    // `p - 1` is `q - 1` modulo `q`
    lemma_fundamental_div_mod(p as int, q as int);
    lemma_mod_multiples_vanish(p / q - 1, q - 1, q as int);
    assert((p - 1) as int == q * (p / q - 1) + (q - 1)) by (nonlinear_arith)
        requires
            p == q * (p / q),
    ;
    lemma_small_mod((q - 1) as nat, q);
    lemma_mul_is_commutative(q as int, p / q - 1);
    assert(pow(c as int, h) % (q as int) == q - 1);
    if q == 2 {
        assert(p % 2 == 0);
    }
    // `c` is not a multiple of `q`
    if c % q == 0 {
        lemma_pow_mod_noop(c as int, t, q as int);
        lemma0_pow(t);
        assert((c as int) % (q as int) == 0);
        assert(pow((c as int) % (q as int), t) == 0);
        lemma_small_mod(0, q);
        assert(pow((c as int) % (q as int), t) % (q as int) == 0);
        assert(pow(c as int, t) % (q as int) == 0);
        assert(false);
    }
    lemma_fermat(c, q);
    let g = gcd(t, (q - 1) as nat);
    lemma_gcd_divides(t, (q - 1) as nat);
    lemma_pow_one_gcd(c as int, t, (q - 1) as nat, q);
    if g != t {
        lemma_proper_divisor_of_pow2(g, k);
        lemma_fundamental_div_mod(h as int, g as int);
        let u = h / g;
        assert(h == g * u);
        lemma_pow_multiplies(c as int, g, u);
        lemma_pow_mod_noop(pow(c as int, g), u, q as int);
        lemma1_pow(u);
        assert(pow(c as int, h) % (q as int) == 1);
        assert(false);
    }
}

/// Divisibility is transitive.
proof fn lemma_divides_transitive(n: nat, d: nat, q: nat)
    requires
        d > 0,
        q > 0,
        n % d == 0,
        d % q == 0,
    ensures
        n % q == 0,
{
    lemma_fundamental_div_mod(n as int, d as int);
    lemma_fundamental_div_mod(d as int, q as int);
    let s = n / d;
    let t = d / q;
    assert(n == q * (t * s)) by (nonlinear_arith)
        requires
            n == d * s,
            d == q * t,
    ;
    lemma_mod_multiples_basic((t * s) as int, q as int);
    lemma_mul_is_commutative((t * s) as int, q as int);
}

/// A positive multiple of `t` is at least `t`.
proof fn lemma_multiple_at_least(x: nat, t: nat)
    requires
        t > 0,
        x > 0,
        x % t == 0,
    ensures
        x >= t,
{
    lemma_fundamental_div_mod(x as int, t as int);
    let u = x / t;
    assert(x == t * u);
    assert(x >= t) by (nonlinear_arith)
        requires
            x == t * u,
            x > 0,
            t > 0,
    ;
}

/// Pocklington's criterion for `p - 1` divisible by a large power of two: an
/// odd `p` with an element `c` of multiplicative order exactly `2^k`, where
/// `(2^k + 1)^2 > p`, is prime.
pub proof fn lemma_prime_from_root_of_unity(p: nat, c: nat, k: nat)
    requires
        k > 0,
        p > 2,
        p % 2 == 1,
        pow(c as int, pow2(k)) % (p as int) == 1,
        pow(c as int, pow2((k - 1) as nat)) % (p as int) == p - 1,
        p < (pow2(k) + 1) * (pow2(k) + 1),
    ensures
        is_prime(p),
{
    let t = pow2(k);
    lemma_pow2_pos(k);
    assert forall|d: nat| 1 < d < p implies #[trigger] (p % d) != 0 by {
        if p % d == 0 {
            lemma_fundamental_div_mod(p as int, d as int);
            let e = p / d;
            assert(p == d * e);
            assert(1 < e) by (nonlinear_arith)
                requires
                    p == d * e,
                    d < p,
            ;
            lemma_mod_multiples_basic(d as int, e as int);
            let q1 = lemma_prime_factor(d);
            let q2 = lemma_prime_factor(e);
            lemma_divides_transitive(p, d, q1);
            lemma_divides_transitive(p, e, q2);
            lemma_factor_of_certified(p, c, k, q1);
            lemma_factor_of_certified(p, c, k, q2);
            lemma_multiple_at_least((q1 - 1) as nat, t);
            lemma_multiple_at_least((q2 - 1) as nat, t);
            assert(false) by (nonlinear_arith)
                requires
                    p == d * e,
                    q1 <= d,
                    q2 <= e,
                    q1 >= t + 1,
                    q2 >= t + 1,
                    t > 0,
                    p < (t + 1) * (t + 1),
            ;
        }
    }
}

} // verus!
