//! Lagrange interpolation: the polynomial of least degree through given
//! points, as coefficients of the powers of its variable.

use crate::bigint::big_from_u64;
use crate::error::ZkError;
use crate::field::{
    field_add, field_inv, field_mul, field_neg, field_sub, invertible, is_inverse, FieldElement,
    FIELD_PRIME,
};
use crate::qap::{
    abscissas_apart, all_wf, coefficient, field_values, keys_below, point_pairs, points_wf,
    poly_eval, weighted_total, Polynomial,
};
use num_bigint::BigInt;
use vstd::arithmetic::div_mod::{
    lemma_add_mod_noop, lemma_mod_multiples_basic, lemma_mod_twice, lemma_mul_mod_noop_general,
    lemma_small_mod,
};
use vstd::prelude::*;

verus! {

/// The `k`-th power of `x`, in the field.
pub open spec fn power(x: int, k: nat) -> int
    decreases k,
{
    if k == 0 {
        1
    } else {
        field_mul(power(x, (k - 1) as nat), x)
    }
}

/// The first `n` powers of `x`: `1, x, .., x^(n-1)`.
pub open spec fn powers(x: int, n: nat) -> Seq<int> {
    Seq::new(n, |k: int| power(x, k as nat))
}

/// The integer sum of `c[k] * x^k` over a sequence of coefficients.
pub open spec fn dense_total(c: Seq<int>, x: int) -> int
    decreases c.len(),
{
    if c.len() == 0 {
        0
    } else {
        dense_total(c.drop_last(), x) + c.last() * power(x, (c.len() - 1) as nat)
    }
}

/// The coefficient of `x^k`, zero beyond the sequence.
pub open spec fn coefficient_at(c: Seq<int>, k: int) -> int {
    if 0 <= k < c.len() {
        c[k]
    } else {
        0
    }
}

/// The coefficients of a polynomial times `s * x + t`.
pub open spec fn times_linear(c: Seq<int>, s: int, t: int) -> Seq<int> {
    Seq::new(
        c.len() + 1,
        |k: int|
            field_add(field_mul(s, coefficient_at(c, k - 1)), field_mul(t, coefficient_at(c, k))),
    )
}

/// The coefficients of one polynomial plus `y` times another of the same length.
pub open spec fn plus_scaled(c: Seq<int>, d: Seq<int>, y: int) -> Seq<int> {
    Seq::new(c.len(), |k: int| field_add(c[k], field_mul(y, d[k])))
}

/// The coefficient map that holds a sequence of coefficients, index by index.
pub open spec fn dense_map(c: Seq<int>) -> Map<usize, int> {
    Map::new(|k: usize| k < c.len(), |k: usize| c[k as int])
}

/// Congruent summands give congruent sums.
proof fn lemma_sum_congruent(a: int, a2: int, b: int, b2: int)
    requires
        a % (FIELD_PRIME as int) == a2 % (FIELD_PRIME as int),
        b % (FIELD_PRIME as int) == b2 % (FIELD_PRIME as int),
    ensures
        (a + b) % (FIELD_PRIME as int) == (a2 + b2) % (FIELD_PRIME as int),
{
    lemma_add_mod_noop(a, b, FIELD_PRIME as int);
    lemma_add_mod_noop(a2, b2, FIELD_PRIME as int);
}

/// Congruent factors give congruent products.
proof fn lemma_product_congruent(a: int, a2: int, b: int, b2: int)
    requires
        a % (FIELD_PRIME as int) == a2 % (FIELD_PRIME as int),
        b % (FIELD_PRIME as int) == b2 % (FIELD_PRIME as int),
    ensures
        (a * b) % (FIELD_PRIME as int) == (a2 * b2) % (FIELD_PRIME as int),
{
    lemma_mul_mod_noop_general(a, b, FIELD_PRIME as int);
    lemma_mul_mod_noop_general(a2, b2, FIELD_PRIME as int);
}

/// A field sum of two field products is congruent to the plain sum of the
/// plain products.
proof fn lemma_linear_congruent(s: int, u: int, t: int, v: int)
    ensures
        field_add(field_mul(s, u), field_mul(t, v)) % (FIELD_PRIME as int) == (s * u + t * v) % (
        FIELD_PRIME as int),
{
    let p = FIELD_PRIME as int;
    lemma_mod_twice(field_mul(s, u) + field_mul(t, v), p);
    lemma_mod_twice(s * u, p);
    lemma_mod_twice(t * v, p);
    lemma_sum_congruent(field_mul(s, u), s * u, field_mul(t, v), t * v);
}

/// Multiplying the coefficients by `s * x + t` multiplies the value at every
/// `x` by that factor.
pub proof fn lemma_times_linear(c: Seq<int>, s: int, t: int, x: int)
    ensures
        dense_total(times_linear(c, s, t), x) % (FIELD_PRIME as int) == ((s * x + t) * dense_total(
            c,
            x,
        )) % (FIELD_PRIME as int),
    decreases c.len(),
{
    let p = FIELD_PRIME as int;
    let b = times_linear(c, s, t);
    if c.len() == 0 {
        assert(b.drop_last() =~= Seq::<int>::empty());
        assert(dense_total(b.drop_last(), x) == 0);
        assert(b.last() == field_add(field_mul(s, 0), field_mul(t, 0)));
        assert(s * 0 == 0 && t * 0 == 0) by (nonlinear_arith);
        lemma_small_mod(0, p as nat);
        assert(b.last() == 0);
        assert(dense_total(b, x) == 0);
        assert((s * x + t) * 0 == 0) by (nonlinear_arith);
    } else {
        let len = c.len() as int;
        let shorter = c.drop_last();
        let lower = times_linear(shorter, s, t);
        lemma_times_linear(shorter, s, t, x);
        let common = lower.drop_last();
        assert(b.drop_last().drop_last() =~= common);
        let q = power(x, (len - 1) as nat);
        let next = power(x, len as nat);
        let last = c.last();
        let before = coefficient_at(c, len - 2);
        let sum = dense_total(common, x);
        let below = dense_total(shorter, x);
        // the three totals, spelled out
        assert(b.drop_last().last() == b[len - 1]);
        assert(dense_total(b.drop_last(), x) == sum + b[len - 1] * q);
        assert(dense_total(b, x) == dense_total(b.drop_last(), x) + b[len] * next);
        assert(dense_total(b, x) == sum + b[len - 1] * q + b[len] * next);
        assert(dense_total(lower, x) == sum + lower[len - 1] * q);
        assert(dense_total(c, x) == below + last * q);
        // the coefficients that differ, up to congruence
        assert(coefficient_at(shorter, len - 2) == before);
        lemma_linear_congruent(s, before, t, last);
        lemma_linear_congruent(s, before, t, 0);
        lemma_linear_congruent(s, last, t, 0);
        assert(t * 0 == 0) by (nonlinear_arith);
        assert(b[len - 1] % p == (s * before + t * last) % p);
        assert(lower[len - 1] % p == (s * before) % p);
        assert(b[len] % p == (s * last) % p);
        lemma_mod_twice(q * x, p);
        assert(next % p == (q * x) % p);
        lemma_product_congruent(b[len - 1], s * before + t * last, q, q);
        lemma_product_congruent(b[len], s * last, next, q * x);
        lemma_product_congruent(lower[len - 1], s * before, q, q);
        // total of the product, up to congruence
        lemma_sum_congruent(sum, sum, b[len - 1] * q, (s * before + t * last) * q);
        lemma_sum_congruent(
            sum + b[len - 1] * q,
            sum + (s * before + t * last) * q,
            b[len] * next,
            (s * last) * (q * x),
        );
        lemma_sum_congruent(sum, sum, lower[len - 1] * q, (s * before) * q);
        let extra = (last * q) * (s * x + t);
        let lq = last * q;
        let f = s * x + t;
        assert((s * before + t * last) * q == (s * before) * q + (t * last) * q)
            by (nonlinear_arith);
        assert((t * last) * q == lq * t) by (nonlinear_arith)
            requires
                lq == last * q,
        ;
        assert((s * last) * (q * x) == lq * (s * x)) by (nonlinear_arith)
            requires
                lq == last * q,
        ;
        assert(lq * f == lq * (s * x) + lq * t) by (nonlinear_arith)
            requires
                f == s * x + t,
        ;
        assert(sum + (s * before + t * last) * q + (s * last) * (q * x) == (sum + (s * before) * q)
            + extra);
        lemma_sum_congruent(sum + (s * before) * q, (s * x + t) * below, extra, extra);
        assert(f * below + lq * f == f * (below + lq)) by (nonlinear_arith);
        assert((s * x + t) * below + extra == (s * x + t) * (below + last * q));
    }
}

/// Adding `y` times one polynomial to another adds `y` times its value at
/// every `x`.
pub proof fn lemma_plus_scaled(c: Seq<int>, d: Seq<int>, y: int, x: int)
    requires
        c.len() == d.len(),
    ensures
        dense_total(plus_scaled(c, d, y), x) % (FIELD_PRIME as int) == (dense_total(c, x) + y
            * dense_total(d, x)) % (FIELD_PRIME as int),
    decreases c.len(),
{
    let p = FIELD_PRIME as int;
    let r = plus_scaled(c, d, y);
    if c.len() == 0 {
        assert(y * 0 == 0) by (nonlinear_arith);
    } else {
        let len = c.len() as int;
        lemma_plus_scaled(c.drop_last(), d.drop_last(), y, x);
        assert(r.drop_last() =~= plus_scaled(c.drop_last(), d.drop_last(), y));
        let q = power(x, (len - 1) as nat);
        let low_c = dense_total(c.drop_last(), x);
        let low_d = dense_total(d.drop_last(), x);
        let low_r = dense_total(r.drop_last(), x);
        lemma_mod_twice(c.last() + field_mul(y, d.last()), p);
        lemma_mod_twice(y * d.last(), p);
        lemma_sum_congruent(c.last(), c.last(), field_mul(y, d.last()), y * d.last());
        assert(r.last() % p == (c.last() + y * d.last()) % p);
        lemma_product_congruent(r.last(), c.last() + y * d.last(), q, q);
        lemma_sum_congruent(
            low_r,
            low_c + y * low_d,
            r.last() * q,
            (c.last() + y * d.last()) * q,
        );
        assert((low_c + y * low_d) + (c.last() + y * d.last()) * q == (low_c + c.last() * q) + y
            * (low_d + d.last() * q)) by (nonlinear_arith);
    }
}

/// Coefficients that are all zero total zero.
pub proof fn lemma_zero_total(c: Seq<int>, x: int)
    requires
        forall|k: int| 0 <= k < c.len() ==> c[k] == 0,
    ensures
        dense_total(c, x) == 0,
    decreases c.len(),
{
    if c.len() > 0 {
        lemma_zero_total(c.drop_last(), x);
        assert(0 * power(x, (c.len() - 1) as nat) == 0) by (nonlinear_arith);
    }
}

/// The total of a coefficient map over the powers of `x` is the total of the
/// coefficients it holds.
pub proof fn lemma_dense_map_total(c: Seq<int>, x: int, n: nat, k: nat)
    requires
        k <= c.len(),
        c.len() <= n,
        n <= usize::MAX,
    ensures
        weighted_total(dense_map(c), powers(x, n), k) == dense_total(c.take(k as int), x),
    decreases k,
{
    if k > 0 {
        lemma_dense_map_total(c, x, n, (k - 1) as nat);
        assert(c.take(k as int).drop_last() =~= c.take(k - 1));
        assert(coefficient(dense_map(c), (k - 1) as usize) == c[k - 1]);
    }
}

/// With `s` the inverse of `x_i - x_j` and `t = s * (-x_j)`, the factor
/// `s * x + t` is one at `x_i` and zero at `x_j`.
pub proof fn lemma_basis_factor(xi: int, xj: int)
    requires
        0 <= xi < FIELD_PRIME,
        0 <= xj < FIELD_PRIME,
        is_inverse(field_inv(field_sub(xi, xj)), field_sub(xi, xj)),
    ensures
        ({
            let s = field_inv(field_sub(xi, xj));
            let t = field_mul(s, field_neg(xj));
            &&& (s * xi + t) % (FIELD_PRIME as int) == 1
            &&& (s * xj + t) % (FIELD_PRIME as int) == 0
        }),
{
    let p = FIELD_PRIME as int;
    let s = field_inv(field_sub(xi, xj));
    let t = field_mul(s, field_neg(xj));
    // t is congruent to s * (p - xj)
    lemma_mod_twice(s * field_neg(xj), p);
    lemma_mod_twice(p - xj, p);
    lemma_product_congruent(s, s, field_neg(xj), p - xj);
    assert(t % p == (s * (p - xj)) % p);
    // at xj the factor is s * p
    lemma_sum_congruent(s * xj, s * xj, t, s * (p - xj));
    assert(s * xj + s * (p - xj) == s * p) by (nonlinear_arith);
    lemma_mod_multiples_basic(s, p);
    // at xi the factor is s * (xi - xj) + s * p
    lemma_sum_congruent(s * xi, s * xi, t, s * (p - xj));
    assert(s * xi + s * (p - xj) == s * (xi - xj) + s * p) by (nonlinear_arith);
    lemma_sum_congruent(s * (xi - xj), s * (xi - xj), s * p, 0);
    lemma_mod_twice(xi - xj, p);
    lemma_product_congruent(s, s, xi - xj, field_sub(xi, xj));
    lemma_small_mod(1, p as nat);
}

/// The first `n` powers of `x`, the assignment on which a polynomial in
/// coefficient form takes its value at `x`.
pub fn power_sequence(x: &FieldElement, n: usize) -> (r: Vec<FieldElement>)
    requires
        x.wf(),
    ensures
        all_wf(r@),
        field_values(r@) == powers(x@, n as nat),
{
    let mut r: Vec<FieldElement> = Vec::new();
    let mut current = FieldElement::new(big_from_u64(1));
    proof {
        lemma_small_mod(1, FIELD_PRIME as nat);
    }
    let mut k: usize = 0;
    while k < n
        invariant
            k <= n,
            x.wf(),
            current.wf(),
            current@ == power(x@, k as nat),
            r@.len() == k,
            all_wf(r@),
            forall|m: int| 0 <= m < k ==> (#[trigger] r@[m])@ == power(x@, m as nat),
        decreases n - k,
    {
        r.push(current.clone());
        current = current.mul(x);
        k += 1;
    }
    proof {
        assert(field_values(r@) =~= powers(x@, n as nat));
    }
    r
}

/// The coefficients of a polynomial times `s * x + t`.
fn multiply_linear(c: &Vec<FieldElement>, s: &FieldElement, t: &FieldElement) -> (r: Vec<
    FieldElement,
>)
    requires
        all_wf(c@),
        s.wf(),
        t.wf(),
        c@.len() < usize::MAX,
    ensures
        all_wf(r@),
        r@.len() == c@.len() + 1,
        field_values(r@) == times_linear(field_values(c@), s@, t@),
{
    let zero = FieldElement::new(big_from_u64(0));
    proof {
        lemma_small_mod(0, FIELD_PRIME as nat);
    }
    let ghost wanted = times_linear(field_values(c@), s@, t@);
    let mut r: Vec<FieldElement> = Vec::new();
    let mut k: usize = 0;
    while k <= c.len()
        invariant
            k <= c.len() + 1,
            c@.len() < usize::MAX,
            all_wf(c@),
            s.wf(),
            t.wf(),
            zero.wf(),
            zero@ == 0,
            wanted == times_linear(field_values(c@), s@, t@),
            r@.len() == k,
            all_wf(r@),
            forall|m: int| 0 <= m < k ==> (#[trigger] r@[m])@ == wanted[m],
        decreases c.len() + 1 - k,
    {
        let lower = if k >= 1 {
            s.mul(&c[k - 1])
        } else {
            s.mul(&zero)
        };
        let same = if k < c.len() {
            t.mul(&c[k])
        } else {
            t.mul(&zero)
        };
        r.push(lower.add(&same));
        k += 1;
    }
    proof {
        assert(field_values(r@) =~= wanted);
    }
    r
}

/// The coefficients of one polynomial plus `y` times another of the same length.
fn add_scaled(c: &Vec<FieldElement>, d: &Vec<FieldElement>, y: &FieldElement) -> (r: Vec<
    FieldElement,
>)
    requires
        all_wf(c@),
        all_wf(d@),
        y.wf(),
        c@.len() == d@.len(),
    ensures
        all_wf(r@),
        r@.len() == c@.len(),
        field_values(r@) == plus_scaled(field_values(c@), field_values(d@), y@),
{
    let ghost wanted = plus_scaled(field_values(c@), field_values(d@), y@);
    let mut r: Vec<FieldElement> = Vec::new();
    let mut k: usize = 0;
    while k < c.len()
        invariant
            k <= c.len(),
            c@.len() == d@.len(),
            all_wf(c@),
            all_wf(d@),
            y.wf(),
            wanted == plus_scaled(field_values(c@), field_values(d@), y@),
            r@.len() == k,
            all_wf(r@),
            forall|m: int| 0 <= m < k ==> (#[trigger] r@[m])@ == wanted[m],
        decreases c.len() - k,
    {
        r.push(c[k].add(&y.mul(&d[k])));
        k += 1;
    }
    proof {
        assert(field_values(r@) =~= wanted);
    }
    r
}

impl Polynomial {
    /// The polynomial of degree below the number of points that passes
    /// through all of them: its coefficient at index `k` belongs to the
    /// `k`-th power of the variable. It is the sum, over the points, of each
    /// ordinate times the product of `(x - x_j) / (x_i - x_j)` over the other
    /// points. Two points whose abscissas are not an invertible distance
    /// apart make this fail.
    pub fn interpolate(points: &[(FieldElement, FieldElement)], _modulus: &BigInt) -> (r: Result<
        Polynomial,
        ZkError,
    >)
        requires
            points_wf(points@),
        ensures
            match r {
                Ok(p) => {
                    &&& abscissas_apart(point_pairs(points@))
                    &&& p.wf()
                    &&& keys_below(p@, points@.len())
                    &&& forall|k: usize| k < points@.len() ==> p@.contains_key(k)
                    &&& forall|i: int|
                        0 <= i < points@.len() ==> poly_eval(
                            p@,
                            powers((#[trigger] point_pairs(points@)[i]).0, points@.len()),
                        ) == point_pairs(points@)[i].1
                },
                Err(err) => !abscissas_apart(point_pairs(points@)) && err
                    == ZkError::NonInvertibleElement,
            },
    {
        let n = points.len();
        let ghost pairs = point_pairs(points@);
        let ghost p = FIELD_PRIME as int;
        let zero = FieldElement::new(big_from_u64(0));
        let one = FieldElement::new(big_from_u64(1));
        proof {
            lemma_small_mod(0, FIELD_PRIME as nat);
            lemma_small_mod(1, FIELD_PRIME as nat);
        }
        let mut total: Vec<FieldElement> = Vec::new();
        let mut z: usize = 0;
        while z < n
            invariant
                z <= n,
                zero.wf(),
                zero@ == 0,
                total@.len() == z,
                all_wf(total@),
                forall|k: int| 0 <= k < z ==> (#[trigger] total@[k])@ == 0,
            decreases n - z,
        {
            total.push(zero.clone());
            z += 1;
        }
        proof {
            assert forall|m: int| 0 <= m < n implies dense_total(
                field_values(total@),
                (#[trigger] pairs[m]).0,
            ) % p == 0 by {
                lemma_zero_total(field_values(total@), pairs[m].0);
            }
        }
        let mut i: usize = 0;
        while i < n
            invariant
                i <= n,
                n == points@.len(),
                p == FIELD_PRIME as int,
                points_wf(points@),
                pairs == point_pairs(points@),
                one.wf(),
                one@ == 1,
                total@.len() == n,
                all_wf(total@),
                forall|m: int|
                    0 <= m < n ==> dense_total(field_values(total@), (#[trigger] pairs[m]).0) % p
                        == if m < i {
                        pairs[m].1
                    } else {
                        0
                    },
                forall|a: int, b: int|
                    0 <= a < i && 0 <= b < n && a != b ==> invertible(
                        #[trigger] field_sub(pairs[a].0, pairs[b].0),
                    ),
            decreases n - i,
        {
            let ghost xi = pairs[i as int].0;
            let mut basis: Vec<FieldElement> = Vec::new();
            basis.push(one.clone());
            proof {
                let start = field_values(basis@);
                assert(start.drop_last() =~= Seq::<int>::empty());
                assert(dense_total(start.drop_last(), xi) == 0);
                assert(start.last() == 1);
                assert(dense_total(start, xi) == 1);
            }
            let mut j: usize = 0;
            while j < n
                invariant
                    i < n,
                    j <= n,
                    n == points@.len(),
                    p == FIELD_PRIME as int,
                    points_wf(points@),
                    pairs == point_pairs(points@),
                    xi == pairs[i as int].0,
                    basis@.len() == if i < j {
                        j as int
                    } else {
                        j + 1
                    },
                    all_wf(basis@),
                    dense_total(field_values(basis@), xi) % p == 1,
                    forall|m: int|
                        0 <= m < j && m != i ==> dense_total(
                            field_values(basis@),
                            (#[trigger] pairs[m]).0,
                        ) % p == 0,
                    forall|b: int|
                        0 <= b < j && b != i ==> invertible(
                            #[trigger] field_sub(xi, pairs[b].0),
                        ),
                decreases n - j,
            {
                if i != j {
                    let ghost xj = pairs[j as int].0;
                    let denom = match points[i].0.sub(&points[j].0).inv() {
                        Ok(denom) => denom,
                        Err(err) => {
                            proof {
                                assert(!invertible(
                                    field_sub(pairs[i as int].0, pairs[j as int].0),
                                ));
                            }
                            return Err(err);
                        },
                    };
                    let negated = points[j].0.negate();
                    let coeff = denom.mul(&negated);
                    let ghost before = field_values(basis@);
                    basis = multiply_linear(&basis, &denom, &coeff);
                    proof {
                        let s = denom@;
                        let t = coeff@;
                        let after = field_values(basis@);
                        assert(points@[i as int].0.wf() && points@[j as int].0.wf());
                        lemma_basis_factor(xi, xj);
                        lemma_times_linear(before, s, t, xi);
                        lemma_product_congruent(s * xi + t, 1, dense_total(before, xi), 1);
                        lemma_times_linear(before, s, t, xj);
                        lemma_product_congruent(
                            s * xj + t,
                            0,
                            dense_total(before, xj),
                            dense_total(before, xj),
                        );
                        assert(0 * dense_total(before, xj) == 0) by (nonlinear_arith);
                        assert forall|m: int| 0 <= m < j + 1 && m != i implies dense_total(
                            after,
                            (#[trigger] pairs[m]).0,
                        ) % p == 0 by {
                            if m < j {
                                let xm = pairs[m].0;
                                lemma_times_linear(before, s, t, xm);
                                lemma_product_congruent(
                                    s * xm + t,
                                    s * xm + t,
                                    dense_total(before, xm),
                                    0,
                                );
                                assert((s * xm + t) * 0 == 0) by (nonlinear_arith);
                            }
                        }
                    }
                }
                j += 1;
            }
            let ghost earlier = field_values(total@);
            let ghost weights = field_values(basis@);
            total = add_scaled(&total, &basis, &points[i].1);
            proof {
                let yi = pairs[i as int].1;
                let now = field_values(total@);
                assert(points@[i as int].1.wf());
                assert forall|m: int| 0 <= m < n implies dense_total(now, (#[trigger] pairs[m]).0)
                    % p == if m < i + 1 {
                    pairs[m].1
                } else {
                    0
                } by {
                    let xm = pairs[m].0;
                    let share: int = if m == i {
                        1
                    } else {
                        0
                    };
                    let had: int = if m < i {
                        pairs[m].1
                    } else {
                        0
                    };
                    lemma_plus_scaled(earlier, weights, yi, xm);
                    lemma_product_congruent(yi, yi, dense_total(weights, xm), share);
                    lemma_sum_congruent(
                        dense_total(earlier, xm),
                        had,
                        yi * dense_total(weights, xm),
                        yi * share,
                    );
                    assert(yi * 1 == yi && yi * 0 == 0) by (nonlinear_arith);
                    assert(points@[m].1.wf());
                    lemma_small_mod(pairs[m].1 as nat, FIELD_PRIME as nat);
                }
                assert forall|a: int, b: int| 0 <= a < i + 1 && 0 <= b < n && a != b implies
                    invertible(#[trigger] field_sub(pairs[a].0, pairs[b].0)) by {
                    if a == i {
                        assert(invertible(field_sub(xi, pairs[b].0)));
                    }
                }
            }
            i += 1;
        }
        let ghost coefficients = field_values(total@);
        let mut result = Polynomial::new();
        let mut k: usize = 0;
        while k < n
            invariant
                k <= n,
                total@.len() == n,
                all_wf(total@),
                coefficients == field_values(total@),
                result.wf(),
                forall|t: usize| result@.contains_key(t) <==> t < k,
                forall|t: usize| t < k ==> result@[t] == coefficients[t as int],
            decreases n - k,
        {
            result.add_term(k, total[k].clone());
            k += 1;
        }
        proof {
            assert(result@ =~= dense_map(coefficients));
            assert(coefficients.take(n as int) =~= coefficients);
            assert forall|i: int| 0 <= i < n implies poly_eval(
                result@,
                powers((#[trigger] pairs[i]).0, n as nat),
            ) == pairs[i].1 by {
                lemma_dense_map_total(coefficients, pairs[i].0, n as nat, n as nat);
            }
        }
        Ok(result)
    }
}

} // verus!
