//! Multilinear extensions of tables over the boolean hypercube.

use crate::field::{lemma_add_congruent, lemma_mod_twice_int, lemma_mul_congruent, modulus, reduce, values, Fp};
use vstd::arithmetic::div_mod::*;
use vstd::arithmetic::mul::*;
use vstd::arithmetic::power2::*;
use vstd::prelude::*;

verus! {

/// `n` is `2^k` for some `k`.
pub open spec fn is_power_of_two(n: nat) -> bool {
    exists|k: nat| pow2(k) == n
}

/// `floor(log2(n))` for `n >= 1`.
pub open spec fn log2_floor(n: nat) -> nat
    decreases n,
{
    if n <= 1 {
        0
    } else {
        1 + log2_floor(n / 2)
    }
}

/// `log2_floor(n)` is the `r` with `2^r <= n < 2^(r + 1)`.
pub proof fn lemma_log2_floor(n: nat, r: nat)
    requires
        pow2(r) <= n < pow2(r + 1),
    ensures
        log2_floor(n) == r,
    decreases r,
{
    lemma_pow2_unfold(r + 1);
    if r == 0 {
        lemma2_to64();
    } else {
        lemma_pow2_unfold(r);
        lemma_log2_floor(n / 2, (r - 1) as nat);
    }
}

/// A table of between `2^m` and `2^(m + 1)` entries whose half is a power
/// of two has `2^(m - 1)` entries in its half.
pub proof fn lemma_half_is_pow2(len: nat, m: nat)
    requires
        m >= 1,
        pow2(m) <= len < pow2(m + 1),
        is_power_of_two(len / 2),
    ensures
        len / 2 == pow2((m - 1) as nat),
{
    lemma_pow2_unfold(m);
    lemma_pow2_unfold(m + 1);
    let j = choose|j: nat| pow2(j) == len / 2;
    if j < m - 1 {
        lemma_pow2_strictly_increases(j, (m - 1) as nat);
    } else if j > m - 1 {
        lemma_pow2_strictly_increases((m - 1) as nat, j);
        if j > m {
            lemma_pow2_strictly_increases(m, j);
        }
    }
}

/// The half of a table where the first variable is 0.
pub open spec fn top_half(t: Seq<int>) -> Seq<int> {
    t.subrange(0, (t.len() / 2) as int)
}

/// The half of a table where the first variable is 1.
pub open spec fn bottom_half(t: Seq<int>) -> Seq<int> {
    t.subrange((t.len() / 2) as int, t.len() as int)
}

/// The multilinear extension of the table `t` over `{0,1}^k` at the point
/// `r`, where the first variable selects the top (0) or bottom (1) half.
pub open spec fn mle(t: Seq<int>, r: Seq<int>) -> int
    decreases r.len(),
{
    if r.len() == 0 {
        t[0]
    } else {
        (1 - r[0]) * mle(top_half(t), r.drop_first()) + r[0] * mle(bottom_half(t), r.drop_first())
    }
}

/// The entry `i` of the table left by fixing the first variable of `t` to `r`.
pub open spec fn folded(t: Seq<int>, r: int, i: int) -> nat {
    reduce(t[i] + r * (t[t.len() / 2 + i] - t[i]))
}

/// The index of a boolean point, first coordinate most significant.
pub open spec fn point_index(bits: Seq<int>) -> int
    decreases bits.len(),
{
    if bits.len() == 0 {
        0
    } else {
        bits[0] * pow2((bits.len() - 1) as nat) + point_index(bits.drop_first())
    }
}

/// A point all of whose coordinates are 0 or 1.
pub open spec fn is_boolean(bits: Seq<int>) -> bool {
    forall|j: int| 0 <= j < bits.len() ==> #[trigger] bits[j] == 0 || bits[j] == 1
}

/// The multilinear extension is linear in the table, modulo the prime.
pub proof fn lemma_mle_linear(x: Seq<int>, y: Seq<int>, z: Seq<int>, a: int, b: int, s: Seq<int>)
    requires
        x.len() == pow2(s.len()),
        y.len() == x.len(),
        z.len() == x.len(),
        forall|j: int| 0 <= j < x.len() ==> #[trigger] (x[j] % modulus()) == (a * y[j] + b * z[j]) % modulus(),
    ensures
        mle(x, s) % modulus() == (a * mle(y, s) + b * mle(z, s)) % modulus(),
    decreases s.len(),
{
    lemma_pow2_pos(s.len());
    if s.len() > 0 {
        let s0 = s[0];
        let rest = s.drop_first();
        lemma_pow2_unfold(s.len());
        let h = x.len() / 2;
        assert forall|j: int| 0 <= j < h implies #[trigger] (top_half(x)[j] % modulus()) == (a * top_half(y)[j]
            + b * top_half(z)[j]) % modulus() by {
            assert(x[j] % modulus() == (a * y[j] + b * z[j]) % modulus());
        }
        assert forall|j: int| 0 <= j < h implies #[trigger] (bottom_half(x)[j] % modulus()) == (a
            * bottom_half(y)[j] + b * bottom_half(z)[j]) % modulus() by {
            assert(x[h + j] % modulus() == (a * y[h + j] + b * z[h + j]) % modulus());
        }
        lemma_mle_linear(top_half(x), top_half(y), top_half(z), a, b, rest);
        lemma_mle_linear(bottom_half(x), bottom_half(y), bottom_half(z), a, b, rest);
        let x1 = mle(top_half(x), rest);
        let x2 = mle(bottom_half(x), rest);
        let y1 = mle(top_half(y), rest);
        let y2 = mle(bottom_half(y), rest);
        let z1 = mle(top_half(z), rest);
        let z2 = mle(bottom_half(z), rest);
        lemma_mul_congruent(1 - s0, x1, 1 - s0, a * y1 + b * z1);
        lemma_mul_congruent(s0, x2, s0, a * y2 + b * z2);
        lemma_add_congruent((1 - s0) * x1, s0 * x2, (1 - s0) * (a * y1 + b * z1), s0 * (a * y2 + b * z2));
        lemma_regroup(1 - s0, s0, a, b, y1, y2, z1, z2);
    }
}

proof fn lemma_regroup(u: int, s0: int, a: int, b: int, y1: int, y2: int, z1: int, z2: int)
    ensures
        u * (a * y1 + b * z1) + s0 * (a * y2 + b * z2) == a * (u * y1 + s0 * y2) + b * (u * z1 + s0
            * z2),
{
    lemma_mul_is_distributive_add(u, a * y1, b * z1);
    lemma_mul_is_distributive_add(s0, a * y2, b * z2);
    lemma_mul_is_distributive_add(a, u * y1, s0 * y2);
    lemma_mul_is_distributive_add(b, u * z1, s0 * z2);
    lemma_swap(u, a, y1);
    lemma_swap(u, b, z1);
    lemma_swap(s0, a, y2);
    lemma_swap(s0, b, z2);
}

proof fn lemma_swap(u: int, a: int, y: int)
    ensures
        u * (a * y) == a * (u * y),
{
    lemma_mul_is_associative(u, a, y);
    lemma_mul_is_associative(a, u, y);
    lemma_mul_is_commutative(u, a);
}

/// `2^k` exceeds `k`.
proof fn lemma_pow2_exceeds(k: nat)
    ensures
        pow2(k) > k,
    decreases k,
{
    if k == 0 {
        lemma2_to64();
    } else {
        lemma_pow2_exceeds((k - 1) as nat);
        lemma_pow2_unfold(k);
        lemma_pow2_pos((k - 1) as nat);
    }
}

/// Fixing the first variable commutes with evaluating the extension, modulo the prime.
pub proof fn lemma_mle_fold(cur: Seq<int>, next: Seq<int>, r: int, s: Seq<int>)
    requires
        cur.len() == pow2(s.len() + 1),
        next.len() == cur.len() / 2,
        forall|j: int| 0 <= j < next.len() ==> #[trigger] next[j] == folded(cur, r, j),
    ensures
        mle(next, s) % modulus() == mle(cur, seq![r] + s) % modulus(),
{
    lemma_pow2_unfold(s.len() + 1);
    let y = top_half(cur);
    let z = bottom_half(cur);
    assert forall|j: int| 0 <= j < next.len() implies #[trigger] (next[j] % modulus()) == ((1 - r) * y[j] + r
        * z[j]) % modulus() by {
        let h = cur.len() / 2;
        lemma_mod_twice_int(cur[j] + r * (cur[h + j] - cur[j]));
        assert(cur[j] + r * (cur[h + j] - cur[j]) == (1 - r) * cur[j] + r * cur[h + j]) by (nonlinear_arith);
    }
    lemma_mle_linear(next, y, z, 1 - r, r, s);
    let rs = seq![r] + s;
    assert(rs.drop_first() =~= s);
    assert(rs[0] == r);
}

/// At a boolean point the extension agrees with the table.
pub proof fn lemma_mle_at_boolean_point(t: Seq<int>, bits: Seq<int>)
    requires
        t.len() == pow2(bits.len()),
        is_boolean(bits),
    ensures
        0 <= point_index(bits) < t.len(),
        mle(t, bits) == t[point_index(bits)],
    decreases bits.len(),
{
    lemma_pow2_pos(bits.len());
    if bits.len() > 0 {
        let rest = bits.drop_first();
        let h = pow2(rest.len());
        lemma_pow2_unfold(bits.len());
        assert(is_boolean(rest)) by {
            assert forall|j: int| 0 <= j < rest.len() implies #[trigger] rest[j] == 0 || rest[j] == 1 by {
                assert(rest[j] == bits[j + 1]);
            }
        }
        assert(bits[0] == 0 || bits[0] == 1);
        assert(top_half(t).len() == h);
        assert(bottom_half(t).len() == h);
        lemma_mle_at_boolean_point(top_half(t), rest);
        lemma_mle_at_boolean_point(bottom_half(t), rest);
        let i = point_index(rest);
        if bits[0] == 0 {
            assert(point_index(bits) == i);
            assert(mle(t, bits) == mle(top_half(t), rest));
            assert(top_half(t)[i] == t[i]);
        } else {
            assert(point_index(bits) == h + i);
            assert(mle(t, bits) == mle(bottom_half(t), rest));
            assert(bottom_half(t)[i] == t[h + i]);
        }
    }
}

/// The weight of hypercube point number `b` (first coordinate most
/// significant) at `r`: the product over the coordinates of `r[j]` where the
/// point's coordinate is 1 and `1 - r[j]` where it is 0.
pub open spec fn basis_weight(b: int, r: Seq<int>) -> int
    decreases r.len(),
{
    if r.len() == 0 {
        1
    } else {
        let h = pow2((r.len() - 1) as nat) as int;
        if b < h {
            (1 - r[0]) * basis_weight(b, r.drop_first())
        } else {
            r[0] * basis_weight(b - h, r.drop_first())
        }
    }
}

/// `sum_i t[i] * basis_weight(offset + i, r)`.
pub open spec fn weighted_sum(t: Seq<int>, r: Seq<int>, offset: int) -> int
    decreases t.len(),
{
    if t.len() == 0 {
        0
    } else {
        weighted_sum(t.drop_last(), r, offset) + t.last() * basis_weight(offset + t.len() - 1, r)
    }
}

proof fn lemma_weighted_sum_concat(u: Seq<int>, v: Seq<int>, r: Seq<int>, offset: int)
    ensures
        weighted_sum(u + v, r, offset) == weighted_sum(u, r, offset) + weighted_sum(v, r, offset + u.len()),
    decreases v.len(),
{
    if v.len() == 0 {
        assert(u + v =~= u);
    } else {
        lemma_weighted_sum_concat(u, v.drop_last(), r, offset);
        assert((u + v).drop_last() =~= u + v.drop_last());
    }
}

/// On the half where the first coordinate is `lower ? 0 : 1`, the weight
/// factors into the first coordinate's factor and the weight of the rest.
proof fn lemma_weighted_sum_half(t: Seq<int>, r: Seq<int>, offset: int, lower: bool)
    requires
        r.len() > 0,
        0 <= offset,
        offset + t.len() <= pow2((r.len() - 1) as nat),
    ensures
        weighted_sum(t, r, if lower { offset } else { offset + pow2((r.len() - 1) as nat) }) == (if lower {
            1 - r[0]
        } else {
            r[0]
        }) * weighted_sum(t, r.drop_first(), offset),
    decreases t.len(),
{
    let f = if lower { 1 - r[0] } else { r[0] };
    let h = pow2((r.len() - 1) as nat) as int;
    let start = if lower { offset } else { offset + h };
    if t.len() > 0 {
        lemma_weighted_sum_half(t.drop_last(), r, offset, lower);
        let w = basis_weight(offset + t.len() - 1, r.drop_first());
        assert(basis_weight(start + t.len() - 1, r) == f * w);
        let a = weighted_sum(t.drop_last(), r.drop_first(), offset);
        assert(f * a + t.last() * (f * w) == f * (a + t.last() * w)) by (nonlinear_arith);
    }
}

/// The multilinear extension is the weighted sum of the table over the
/// hypercube: `mle(t, r) == sum_b t[b] * prod_j (b_j ? r_j : 1 - r_j)`.
pub proof fn lemma_mle_is_weighted_sum(t: Seq<int>, r: Seq<int>)
    requires
        t.len() == pow2(r.len()),
    ensures
        mle(t, r) == weighted_sum(t, r, 0),
    decreases r.len(),
{
    lemma_pow2_pos(r.len());
    if r.len() == 0 {
        lemma2_to64();
        assert(t.drop_last().len() == 0);
        assert(weighted_sum(t.drop_last(), r, 0) == 0);
        assert(basis_weight(0, r) == 1);
        assert(t.last() == t[0]);
        assert(weighted_sum(t, r, 0) == weighted_sum(t.drop_last(), r, 0) + t.last() * basis_weight(0, r));
    } else {
        let rest = r.drop_first();
        let h = pow2(rest.len());
        lemma_pow2_unfold(r.len());
        lemma_mle_is_weighted_sum(top_half(t), rest);
        lemma_mle_is_weighted_sum(bottom_half(t), rest);
        assert(top_half(t) + bottom_half(t) =~= t);
        lemma_weighted_sum_concat(top_half(t), bottom_half(t), r, 0);
        lemma_weighted_sum_half(top_half(t), r, 0, true);
        lemma_weighted_sum_half(bottom_half(t), r, 0, false);
        assert(top_half(t).len() == h);
        assert(weighted_sum(t, r, 0) == weighted_sum(top_half(t), r, 0) + weighted_sum(bottom_half(t), r, h as int));
        assert(weighted_sum(top_half(t), r, 0) == (1 - r[0]) * weighted_sum(top_half(t), rest, 0));
        assert(weighted_sum(bottom_half(t), r, h as int) == r[0] * weighted_sum(bottom_half(t), rest, 0));
    }
}

/// An entry past the first `2^k` does not affect the extension at a point
/// of `k` coordinates.
pub proof fn lemma_mle_prefix(t: Seq<int>, s: Seq<int>)
    requires
        t.len() == pow2(s.len()) + 1,
    ensures
        mle(t, s) == mle(t.subrange(0, pow2(s.len()) as int), s),
    decreases s.len(),
{
    if s.len() > 0 {
        let rest = s.drop_first();
        let prefix = t.subrange(0, pow2(s.len()) as int);
        lemma_pow2_unfold(s.len());
        lemma_pow2_pos(rest.len());
        let h = pow2(rest.len());
        assert(t.len() / 2 == h);
        assert(prefix.len() / 2 == h);
        assert(top_half(t) =~= top_half(prefix));
        assert(bottom_half(t).len() == h + 1);
        lemma_mle_prefix(bottom_half(t), rest);
        assert(bottom_half(t).subrange(0, h as int) =~= bottom_half(prefix));
        assert(mle(prefix, s) == (1 - s[0]) * mle(top_half(prefix), rest) + s[0] * mle(bottom_half(prefix), rest));
    } else {
        lemma2_to64();
    }
}

/// A multilinear polynomial given by its values on the boolean hypercube.
#[derive(Clone, Debug, PartialEq, Eq)]
pub struct MultilinearExtension {
    pub evaluations: Vec<Fp>,
}

impl MultilinearExtension {
    /// The table has `2^k` entries for some `k`; `new` establishes this.
    pub open spec fn wf(self) -> bool {
        is_power_of_two(self.evaluations.len() as nat)
    }

    /// The number of variables: `floor(log2(len))` for `len` table entries.
    pub open spec fn num_vars(self) -> nat {
        log2_floor(self.evaluations.len() as nat)
    }

    /// The table's entries as integers.
    pub open spec fn table(self) -> Seq<int> {
        values(self.evaluations@)
    }

    /// Builds an extension from a table whose length is a power of two.
    pub fn new(evaluations: Vec<Fp>) -> (r: MultilinearExtension)
        requires
            is_power_of_two(evaluations.len() as nat),
        ensures
            r.evaluations@ == evaluations@,
            r.wf(),
    {
        MultilinearExtension { evaluations }
    }

    /// The number of variables: `floor(log2(len))` for a table of `len`
    /// entries, which is `n` for a table of `2^n` entries.
    pub fn variable_count(&self) -> (r: usize)
        requires
            self.evaluations.len() > 0,
        ensures
            pow2(r as nat) <= self.evaluations.len() < pow2(r as nat + 1),
            r == self.num_vars(),
    {
        let len = self.evaluations.len();
        let mut m = len;
        let mut k: usize = 0;
        proof {
            lemma2_to64();
        }
        while m > 1
            invariant
                len == self.evaluations.len(),
                m >= 1,
                m as nat == len as nat / pow2(k as nat),
                pow2(k as nat) <= len,
            decreases m,
        {
            proof {
                lemma_pow2_exceeds(k as nat);
                lemma_pow2_pos(k as nat);
                lemma_pow2_unfold(k as nat + 1);
                lemma_div_denominator(len as int, pow2(k as nat) as int, 2);
                let d: int = pow2((k + 1) as nat) as int;
                let x: int = len as int;
                lemma_fundamental_div_mod(x, d);
                lemma_mod_pos_bound(x, d);
                assert(d <= x) by (nonlinear_arith)
                    requires
                        x == d * (x / d) + x % d,
                        x / d >= 1,
                        x % d >= 0,
                        d > 0,
                ;
            }
            m = m / 2;
            k = k + 1;
        }
        proof {
            lemma_pow2_pos(k as nat);
            lemma_pow2_unfold(k as nat + 1);
            let d: int = pow2(k as nat) as int;
            let x: int = len as int;
            lemma_fundamental_div_mod(x, d);
            lemma_mod_pos_bound(x, d);
            assert(x < 2 * d) by (nonlinear_arith)
                requires
                    x == d * (x / d) + x % d,
                    x / d == 1,
                    x % d < d,
            ;
            lemma_log2_floor(len as nat, k as nat);
        }
        k
    }

    /// Fixes the first variable to `r`, halving the table.
    pub fn fix_variable(&self, r: Fp) -> (res: MultilinearExtension)
        requires
            self.evaluations.len() > 1,
            is_power_of_two(self.evaluations.len() as nat / 2),
        ensures
            res.wf(),
            res.evaluations.len() == self.evaluations.len() / 2,
            forall|i: int|
                0 <= i < res.evaluations.len() ==> #[trigger] res.evaluations@[i]@ == folded(
                    self.table(),
                    r@ as int,
                    i,
                ),
    {
        let mid = self.evaluations.len() / 2;
        let ghost t = self.table();
        let mut new_evaluations: Vec<Fp> = Vec::with_capacity(mid);
        let mut i: usize = 0;
        while i < mid
            invariant
                mid == self.evaluations.len() / 2,
                t == self.table(),
                i <= mid,
                new_evaluations.len() == i,
                forall|k: int| 0 <= k < i ==> #[trigger] new_evaluations@[k]@ == folded(t, r@ as int, k),
            decreases mid - i,
        {
            let top = self.evaluations[i];
            let bottom = self.evaluations[mid + i];
            let v = top + r * (bottom - top);
            proof {
                let d = bottom@ - top@;
                lemma_mod_twice_int(d);
                lemma_mul_congruent(r@ as int, reduce(d) as int, r@ as int, d);
                lemma_mod_twice_int(r@ * d);
                lemma_add_congruent(top@ as int, reduce(r@ * reduce(d) as int) as int, top@ as int, r@ * d);
                assert(t[i as int] == top@);
                assert(t[mid + i] == bottom@);
            }
            new_evaluations.push(v);
            i = i + 1;
        }
        MultilinearExtension::new(new_evaluations)
    }

    /// Evaluates the extension at `point`, one coordinate per variable.
    pub fn evaluate(&self, point: &[Fp]) -> (r: Fp)
        requires
            pow2(point.len() as nat) <= self.evaluations.len() < pow2(point.len() as nat + 1),
            point.len() == 0 || is_power_of_two(self.evaluations.len() as nat / 2),
        ensures
            r@ == reduce(mle(self.table(), values(point@))),
    {
        let n = point.len();
        let ghost p = values(point@);
        proof {
            lemma2_to64();
        }
        if n == 0 {
            let v = self.evaluations[0];
            proof {
                use_type_invariant(v);
                Fp::lemma_canonical(v);
                vstd::arithmetic::div_mod::lemma_small_mod(v@, modulus() as nat);
            }
            return v;
        }
        let ghost t = self.table();
        let ghost full = pow2(n as nat);
        proof {
            lemma_pow2_unfold(n as nat);
            lemma_pow2_unfold(n as nat + 1);
            lemma_pow2_pos((n - 1) as nat);
            lemma_half_is_pow2(self.evaluations.len() as nat, n as nat);
            assert(self.evaluations.len() / 2 == pow2((n - 1) as nat));
        }
        let mut cur = self.fix_variable(point[0]);
        let mut i: usize = 1;
        proof {
            let prefix = t.subrange(0, full as int);
            assert(cur.table().len() == prefix.len() / 2);
            assert forall|j: int| 0 <= j < cur.table().len() implies #[trigger] cur.table()[j] == folded(
                prefix,
                point[0]@ as int,
                j,
            ) by {
                assert(cur.table()[j] == folded(t, point[0]@ as int, j));
            }
            lemma_mle_fold(prefix, cur.table(), point[0]@ as int, p.subrange(1, n as int));
            assert(seq![point[0]@ as int] + p.subrange(1, n as int) =~= p);
            if t.len() == full {
                assert(prefix =~= t);
            } else {
                lemma_mle_prefix(t, p);
            }
        }
        while i < n
            invariant
                1 <= i <= n,
                n == point@.len(),
                p == values(point@),
                cur.wf(),
                cur.evaluations.len() == pow2((n - i) as nat),
                mle(cur.table(), p.subrange(i as int, n as int)) % modulus() == mle(self.table(), p)
                    % modulus(),
            decreases n - i,
        {
            proof {
                lemma_pow2_unfold((n - i) as nat);
                lemma_pow2_pos((n - i - 1) as nat);
            }
            let next = cur.fix_variable(point[i]);
            proof {
                lemma_mle_fold(cur.table(), next.table(), point[i as int]@ as int, p.subrange(i + 1, n as int));
                assert(seq![point[i as int]@ as int] + p.subrange(i + 1, n as int) =~= p.subrange(i as int, n as int));
            }
            cur = next;
            i = i + 1;
        }
        let v = cur.evaluations[0];
        proof {
            use_type_invariant(v);
            Fp::lemma_canonical(v);
            vstd::arithmetic::div_mod::lemma_small_mod(v@, modulus() as nat);
            assert(p.subrange(n as int, n as int).len() == 0);
        }
        v
    }
}

} // verus!
