//! The forward and inverse transforms undo each other on a power-of-two subgroup of a
//! prime field whose generator generates the multiplicative group.
use crate::field::{Field, is_inverse_mod, lemma_inv_spec, lemma_inverses_agree};
use crate::laws::lemma_two_adicity_divides;
use crate::poly::{eval_int, fft_spec, ifft_spec};
use vstd::arithmetic::div_mod::*;
use vstd::arithmetic::mul::*;
use vstd::arithmetic::power::*;
use vstd::arithmetic::power2::*;
use vstd::prelude::*;

verus! {

/// `sum_{i < n} t(i)`.
pub open spec fn psum(n: nat, t: spec_fn(int) -> int) -> int
    decreases n,
{
    if n == 0 {
        0
    } else {
        psum((n - 1) as nat, t) + t(n - 1)
    }
}

/// Sums of pointwise equal terms are equal.
proof fn lemma_psum_ext(n: nat, t1: spec_fn(int) -> int, t2: spec_fn(int) -> int)
    requires
        forall|i: int| 0 <= i < n ==> #[trigger] t1(i) == t2(i),
    ensures
        psum(n, t1) == psum(n, t2),
    decreases n,
{
    if n > 0 {
        lemma_psum_ext((n - 1) as nat, t1, t2);
    }
}

/// Sums of pointwise congruent terms are congruent.
proof fn lemma_psum_mod(n: nat, t1: spec_fn(int) -> int, t2: spec_fn(int) -> int, p: int)
    requires
        p > 0,
        forall|i: int| 0 <= i < n ==> #[trigger] t1(i) % p == t2(i) % p,
    ensures
        psum(n, t1) % p == psum(n, t2) % p,
    decreases n,
{
    if n > 0 {
        lemma_psum_mod((n - 1) as nat, t1, t2, p);
        lemma_add_mod_noop(psum((n - 1) as nat, t1), t1(n - 1), p);
        lemma_add_mod_noop(psum((n - 1) as nat, t2), t2(n - 1), p);
    }
}

/// The sum of a pointwise sum.
proof fn lemma_psum_add(n: nat, t1: spec_fn(int) -> int, t2: spec_fn(int) -> int)
    ensures
        psum(n, |i: int| t1(i) + t2(i)) == psum(n, t1) + psum(n, t2),
    decreases n,
{
    if n > 0 {
        lemma_psum_add((n - 1) as nat, t1, t2);
    }
}

/// A constant factor comes out of a sum.
proof fn lemma_psum_scale(n: nat, c: int, t: spec_fn(int) -> int)
    ensures
        psum(n, |i: int| c * t(i)) == c * psum(n, t),
    decreases n,
{
    if n > 0 {
        lemma_psum_scale((n - 1) as nat, c, t);
        lemma_mul_is_distributive_add(c, psum((n - 1) as nat, t), t(n - 1));
    }
}

/// The order of a double sum can be exchanged.
proof fn lemma_psum_swap(n: nat, m: nat, a: spec_fn(int, int) -> int)
    ensures
        psum(n, |i: int| psum(m, |k: int| a(i, k))) == psum(m, |k: int| psum(n, |i: int| a(i, k))),
    decreases n,
{
    let outer = |i: int| psum(m, |k: int| a(i, k));
    let whole = |k: int| psum(n, |i: int| a(i, k));
    if n == 0 {
        assert forall|k: int| 0 <= k < m implies #[trigger] whole(k) == 0 by {}
        lemma_psum_ext(m, whole, |k: int| 0);
        lemma_psum_const_zero(m);
    } else {
        lemma_psum_swap((n - 1) as nat, m, a);
        let prev = |k: int| psum((n - 1) as nat, |i: int| a(i, k));
        let last = |k: int| a(n - 1, k);
        assert(psum((n - 1) as nat, outer) == psum(m, prev));
        assert(psum(n, outer) == psum((n - 1) as nat, outer) + outer(n - 1));
        assert(outer(n - 1) == psum(m, last));
        lemma_psum_add(m, prev, last);
        assert forall|k: int| 0 <= k < m implies #[trigger] whole(k) == prev(k) + last(k) by {
            assert(psum(n, |i: int| a(i, k)) == psum((n - 1) as nat, |i: int| a(i, k)) + a(n - 1, k));
        }
        lemma_psum_ext(m, whole, |k: int| prev(k) + last(k));
    }
}

/// The sum of zeros.
proof fn lemma_psum_const_zero(n: nat)
    ensures
        psum(n, |k: int| 0) == 0,
    decreases n,
{
    if n > 0 {
        lemma_psum_const_zero((n - 1) as nat);
    }
}

/// A sum whose terms vanish modulo `p` except at `m` is congruent to the term at `m`.
proof fn lemma_psum_single(n: nat, t: spec_fn(int) -> int, m: int, p: int)
    requires
        p > 0,
        0 <= m < n,
        forall|i: int| 0 <= i < n && i != m ==> #[trigger] t(i) % p == 0,
    ensures
        psum(n, t) % p == t(m) % p,
    decreases n,
{
    assert(psum(n, t) == psum((n - 1) as nat, t) + t(n - 1));
    if n - 1 == m {
        lemma_psum_zero((n - 1) as nat, t, p);
        lemma_add_mod_noop(psum((n - 1) as nat, t), t(m), p);
        lemma_small_mod(0, p as nat);
        lemma_mod_twice(t(m), p);
    } else {
        lemma_psum_single((n - 1) as nat, t, m, p);
        assert(t(n - 1) % p == 0);
        lemma_add_mod_noop(psum((n - 1) as nat, t), t(n - 1), p);
        lemma_small_mod(0, p as nat);
        lemma_mod_twice(t(m), p);
        lemma_mod_bound(t(m), p);
        lemma_small_mod((t(m) % p) as nat, p as nat);
    }
}

/// A sum of terms that vanish modulo `p` vanishes.
proof fn lemma_psum_zero(n: nat, t: spec_fn(int) -> int, p: int)
    requires
        p > 0,
        forall|i: int| 0 <= i < n ==> #[trigger] t(i) % p == 0,
    ensures
        psum(n, t) % p == 0,
    decreases n,
{
    lemma_small_mod(0, p as nat);
    if n > 0 {
        lemma_psum_zero((n - 1) as nat, t, p);
        assert(t(n - 1) % p == 0);
        assert(psum(n, t) == psum((n - 1) as nat, t) + t(n - 1));
        lemma_add_mod_noop(psum((n - 1) as nat, t), t(n - 1), p);
        lemma_small_mod(0, p as nat);
    }
}

/// Splitting off the first term.
proof fn lemma_psum_first(n: nat, t: spec_fn(int) -> int)
    requires
        n > 0,
    ensures
        psum(n, t) == t(0) + psum((n - 1) as nat, |j: int| t(j + 1)),
    decreases n,
{
    let tp = |j: int| t(j + 1);
    if n > 1 {
        lemma_psum_first((n - 1) as nat, t);
        assert(psum(n, t) == psum((n - 1) as nat, t) + t(n - 1));
        assert(psum((n - 1) as nat, tp) == psum((n - 2) as nat, tp) + tp(n - 2));
    } else {
        assert(psum(1, t) == psum(0, t) + t(0));
        assert(psum(0, tp) == 0);
    }
}

/// Horner evaluation is the sum of the monomials.
proof fn lemma_eval_psum(c: Seq<u64>, x: int)
    ensures
        eval_int(c, x) == psum(c.len(), |j: int| c[j] * pow(x, j as nat)),
    decreases c.len(),
{
    if c.len() > 0 {
        let rest = c.drop_first();
        lemma_eval_psum(rest, x);
        let t = |j: int| c[j] * pow(x, j as nat);
        let tr = |j: int| rest[j] * pow(x, j as nat);
        let shifted = |j: int| t(j + 1);
        let scaled = |j: int| x * tr(j);
        assert(eval_int(rest, x) == psum(rest.len(), tr));
        lemma_psum_first(c.len(), t);
        assert(psum(c.len(), t) == t(0) + psum(rest.len(), shifted));
        lemma_psum_scale(rest.len(), x, tr);
        assert(psum(rest.len(), scaled) == x * psum(rest.len(), tr));
        assert forall|j: int| 0 <= j < rest.len() implies #[trigger] shifted(j) == scaled(j) by {
            reveal(pow);
            assert(pow(x, (j + 1) as nat) == x * pow(x, j as nat));
            assert(rest[j] == c[j + 1]);
            assert(c[j + 1] * (x * pow(x, j as nat)) == x * (c[j + 1] * pow(x, j as nat))) by (nonlinear_arith);
        }
        lemma_psum_ext(rest.len(), shifted, scaled);
        reveal(pow);
        assert(t(0) == c[0] * 1);
        assert(eval_int(c, x) == c[0] + x * eval_int(rest, x));
    }
}

/// The geometric sum: `(z - 1) * sum_{i < n} z^i = z^n - 1`.
proof fn lemma_geometric(z: int, n: nat)
    ensures
        (z - 1) * psum(n, |i: int| pow(z, i as nat)) == pow(z, n) - 1,
    decreases n,
{
    reveal(pow);
    if n > 0 {
        lemma_geometric(z, (n - 1) as nat);
        let s = psum((n - 1) as nat, |i: int| pow(z, i as nat));
        let q = pow(z, (n - 1) as nat);
        assert(pow(z, n) == z * q);
        assert((z - 1) * (s + q) == (z - 1) * s + z * q - q) by (nonlinear_arith);
    }
}


/// `a` has a multiplicative inverse modulo `p`.
spec fn has_inverse_mod(a: int, p: int) -> bool {
    exists|u: int| is_inverse_mod(a, u, p)
}

/// Products of congruent factors are congruent.
proof fn lemma_mul_cong(a: int, a2: int, b: int, b2: int, p: int)
    requires
        p > 0,
        a % p == a2 % p,
        b % p == b2 % p,
    ensures
        (a * b) % p == (a2 * b2) % p,
{
    lemma_mul_mod_noop_general(a, b, p);
    lemma_mul_mod_noop_general(a2, b2, p);
}

/// The sum of `n` ones.
proof fn lemma_psum_ones(n: nat)
    ensures
        psum(n, |i: int| 1int) == n,
    decreases n,
{
    if n > 0 {
        lemma_psum_ones((n - 1) as nat);
    }
}

/// A geometric sum of `n` terms vanishes modulo `p` when `z^n` is one and `z - 1` is
/// invertible modulo `p`.
proof fn lemma_geometric_vanishes(z: int, n: nat, p: int, u: int)
    requires
        p > 1,
        pow(z, n) % p == 1,
        is_inverse_mod((z - 1) % p, u, p),
    ensures
        psum(n, |i: int| pow(z, i as nat)) % p == 0,
{
    let s = psum(n, |i: int| pow(z, i as nat));
    lemma_geometric(z, n);
    lemma_sub_mod_noop(pow(z, n), 1, p);
    lemma_small_mod(1, p as nat);
    lemma_small_mod(0, p as nat);
    assert(((z - 1) * s) % p == 0);
    // u * (z - 1) is one modulo p
    lemma_mul_mod_noop_general(z - 1, u, p);
    assert(((z - 1) * u) % p == 1);
    // s == s * 1 == s * ((z - 1) * u) == ((z - 1) * s) * u
    lemma_mul_cong(s, s, 1, (z - 1) * u, p);
    assert((s * ((z - 1) * u)) == ((z - 1) * s) * u) by (nonlinear_arith);
    lemma_mul_cong((z - 1) * s, 0, u, u, p);
}


/// Every reduced power of a root of unity of order dividing `n` is again such a root.
proof fn lemma_pow_of_root(w: int, n: nat, d: nat, p: int)
    requires
        p > 1,
        pow(w, n) % p == 1,
    ensures
        pow(pow(w, d) % p, n) % p == 1,
{
    lemma_pow_mod_noop(pow(w, d), n, p);
    lemma_pow_multiplies(w, d, n);
    lemma_pow_multiplies(w, n, d);
    lemma_mul_is_commutative(d as int, n as int);
    lemma_pow_mod_noop(pow(w, n), d, p);
    lemma1_pow(d);
    lemma_small_mod(1, p as nat);
}

/// `(w * wi)^m` is one modulo `p` when `wi` inverts `w`.
proof fn lemma_pow_inverse_pair(w: int, wi: int, m: nat, p: int)
    requires
        p > 1,
        (w * wi) % p == 1,
    ensures
        (pow(w, m) * pow(wi, m)) % p == 1,
{
    lemma_pow_distributes(w, wi, m);
    lemma_pow_mod_noop(w * wi, m, p);
    lemma1_pow(m);
    lemma_small_mod(1, p as nat);
}

/// The twiddle `w^j * wi^k` is one for `j == k` and otherwise the reduced power of `w`
/// at the distance from `k` to `j` around the cycle of length `n`.
proof fn lemma_twiddle(w: int, wi: int, n: nat, j: nat, k: nat, p: int)
    requires
        p > 1,
        j < n,
        k < n,
        pow(w, n) % p == 1,
        (w * wi) % p == 1,
    ensures
        j == k ==> (pow(w, j) * (pow(wi, k) % p)) % p == 1,
        j > k ==> (pow(w, j) * (pow(wi, k) % p)) % p == pow(w, (j - k) as nat) % p,
        j < k ==> (pow(w, j) * (pow(wi, k) % p)) % p == pow(w, (n - (k - j)) as nat) % p,
{
    let z = (pow(w, j) * (pow(wi, k) % p)) % p;
    let t = pow(w, j) * pow(wi, k);
    lemma_small_mod(1, p as nat);
    lemma_mul_mod_noop_general(pow(w, j), pow(wi, k), p);
    assert(z == t % p);
    lemma_pow_inverse_pair(w, wi, k, p);
    let one_k = pow(w, k) * pow(wi, k);
    if j > k {
        let d = (j - k) as nat;
        lemma_pow_adds(w, d, k);
        assert(t == pow(w, d) * one_k) by {
            lemma_mul_is_associative(pow(w, d), pow(w, k), pow(wi, k));
        }
        lemma_mul_cong(pow(w, d), pow(w, d), one_k, 1, p);
    } else if j < k {
        let d = (n - (k - j)) as nat;
        // w^d == w^d * (w^k * wi^k) == w^(n + j) * wi^k == w^n * t
        lemma_mul_cong(pow(w, d), pow(w, d), one_k, 1, p);
        lemma_pow_adds(w, d, k);
        assert(d + k == n + j);
        lemma_pow_adds(w, n, j);
        assert(pow(w, d) * one_k == pow(w, n) * t) by {
            lemma_mul_is_associative(pow(w, d), pow(w, k), pow(wi, k));
            lemma_mul_is_associative(pow(w, n), pow(w, j), pow(wi, k));
        }
        lemma_mul_cong(pow(w, n), 1, t, t, p);
    }
}


/// The inner sum over the evaluation points collapses to a geometric sum in the twiddle
/// `w^j * y`.
proof fn lemma_inner_sum(w: int, y: int, n: nat, j: nat, p: int)
    requires
        p > 1,
    ensures
        psum(n, |i: int| pow(pow(w, i as nat) % p, j) * pow(y, i as nat)) % p == psum(
            n,
            |i: int| pow((pow(w, j) * y) % p, i as nat),
        ) % p,
{
    let t1 = |i: int| pow(pow(w, i as nat) % p, j) * pow(y, i as nat);
    let t2 = |i: int| pow((pow(w, j) * y) % p, i as nat);
    assert forall|i: int| 0 <= i < n implies #[trigger] t1(i) % p == t2(i) % p by {
        let ii = i as nat;
        lemma_pow_mod_noop(pow(w, ii), j, p);
        lemma_pow_multiplies(w, ii, j);
        lemma_pow_multiplies(w, j, ii);
        lemma_mul_is_commutative(ii as int, j as int);
        lemma_pow_distributes(pow(w, j), y, ii);
        lemma_pow_mod_noop(pow(w, j) * y, ii, p);
        lemma_mul_cong(pow(pow(w, ii) % p, j), pow(pow(w, j), ii), pow(y, ii), pow(y, ii), p);
    }
    lemma_psum_mod(n, t1, t2, p);
}

/// Evaluating the evaluations of `c` at `y` is a double sum, taken with the coefficients
/// outside.
proof fn lemma_eval_of_evals(c: Seq<u64>, v: Seq<u64>, w: int, y: int, p: int)
    requires
        p > 1,
        v.len() == c.len(),
        forall|i: int|
            0 <= i < v.len() ==> #[trigger] v[i] as int == eval_int(c, pow(w, i as nat) % p) % p,
    ensures
        eval_int(v, y) % p == psum(
            c.len(),
            |j: int|
                c[j] * psum(
                    c.len(),
                    |i: int| pow(pow(w, i as nat) % p, j as nat) * pow(y, i as nat),
                ),
        ) % p,
{
    let n = c.len();
    let t1 = |i: int| v[i] * pow(y, i as nat);
    let t2 = |i: int|
        psum(n, |j: int| c[j] * pow(pow(w, i as nat) % p, j as nat)) * pow(y, i as nat);
    let a = |i: int, j: int| c[j] * (pow(pow(w, i as nat) % p, j as nat) * pow(y, i as nat));
    let t3 = |i: int| psum(n, |j: int| a(i, j));
    let t4 = |j: int| psum(n, |i: int| a(i, j));
    let t5 = |j: int|
        c[j] * psum(n, |i: int| pow(pow(w, i as nat) % p, j as nat) * pow(y, i as nat));
    lemma_eval_psum(v, y);
    assert(eval_int(v, y) == psum(n, t1));
    assert forall|i: int| 0 <= i < n implies #[trigger] t1(i) % p == t2(i) % p by {
        let xi = pow(w, i as nat) % p;
        lemma_eval_psum(c, xi);
        lemma_mod_twice(eval_int(c, xi), p);
        lemma_mul_cong(v[i] as int, eval_int(c, xi), pow(y, i as nat), pow(y, i as nat), p);
    }
    lemma_psum_mod(n, t1, t2, p);
    assert forall|i: int| 0 <= i < n implies #[trigger] t2(i) == t3(i) by {
        let yi = pow(y, i as nat);
        let g = |j: int| c[j] * pow(pow(w, i as nat) % p, j as nat);
        lemma_psum_scale(n, yi, g);
        let lhs = |j: int| yi * g(j);
        let rhs = |j: int| a(i, j);
        assert forall|j: int| 0 <= j < n implies #[trigger] lhs(j) == rhs(j) by {
            let q = pow(pow(w, i as nat) % p, j as nat);
            assert(yi * (c[j] * q) == c[j] * (q * yi)) by (nonlinear_arith);
        }
        lemma_psum_ext(n, lhs, rhs);
        lemma_mul_is_commutative(psum(n, g), yi);
    }
    lemma_psum_ext(n, t2, t3);
    lemma_psum_swap(n, n, a);
    assert(psum(n, t3) == psum(n, t4));
    assert forall|j: int| 0 <= j < n implies #[trigger] t4(j) == t5(j) by {
        let q = |i: int| pow(pow(w, i as nat) % p, j as nat) * pow(y, i as nat);
        lemma_psum_scale(n, c[j] as int, q);
        lemma_psum_ext(n, |i: int| a(i, j), |i: int| c[j] * q(i));
    }
    lemma_psum_ext(n, t4, t5);
}


/// One entry of the inverse transform of the evaluations of `c` is the coefficient `c[k]`.
proof fn lemma_roundtrip_entry(
    c: Seq<u64>,
    v: Seq<u64>,
    w: int,
    wi: int,
    ninv: int,
    p: int,
    k: int,
)
    requires
        p > 1,
        c.len() > 0,
        v.len() == c.len(),
        0 <= k < c.len(),
        forall|j: int| 0 <= j < c.len() ==> #[trigger] c[j] < p,
        forall|i: int|
            0 <= i < v.len() ==> #[trigger] v[i] as int == eval_int(c, pow(w, i as nat) % p) % p,
        pow(w, c.len()) % p == 1,
        (w * wi) % p == 1,
        forall|d: nat|
            0 < d < c.len() ==> has_inverse_mod((#[trigger] pow(w, d) % p - 1) % p, p),
        ((c.len() as int % p) * ninv) % p == 1,
    ensures
        (ninv * (eval_int(v, pow(wi, k as nat) % p) % p)) % p == c[k],
{
    let n = c.len();
    let y = pow(wi, k as nat) % p;
    let e = eval_int(v, y);
    let q = |j: int| psum(n, |i: int| pow(pow(w, i as nat) % p, j as nat) * pow(y, i as nat));
    let t5 = |j: int| c[j] * q(j);
    lemma_eval_of_evals(c, v, w, y, p);
    let t5_lit = |j: int|
        c[j] * psum(n, |i: int| pow(pow(w, i as nat) % p, j as nat) * pow(y, i as nat));
    assert forall|j: int| 0 <= j < n implies #[trigger] t5_lit(j) == t5(j) by {}
    lemma_psum_ext(n, t5_lit, t5);
    assert(e % p == psum(n, t5) % p);
    lemma_small_mod(0, p as nat);
    lemma_small_mod(1, p as nat);
    // the diagonal term
    assert(q(k) % p == n as int % p) by {
        lemma_inner_sum(w, y, n, k as nat, p);
        lemma_twiddle(w, wi, n, k as nat, k as nat, p);
        let ones = |i: int| pow((pow(w, k as nat) * y) % p, i as nat);
        assert forall|i: int| 0 <= i < n implies #[trigger] ones(i) == (|i: int| 1int)(i) by {
            lemma1_pow(i as nat);
        }
        lemma_psum_ext(n, ones, |i: int| 1int);
        lemma_psum_ones(n);
    }
    // every other term vanishes
    assert forall|j: int| 0 <= j < n && j != k implies #[trigger] t5(j) % p == 0 by {
        lemma_inner_sum(w, y, n, j as nat, p);
        lemma_twiddle(w, wi, n, j as nat, k as nat, p);
        let z = (pow(w, j as nat) * y) % p;
        let d: nat = if j > k {
            (j - k) as nat
        } else {
            (n - (k - j)) as nat
        };
        assert(z == pow(w, d) % p);
        assert(0 < d < n);
        lemma_pow_of_root(w, n, d, p);
        assert(has_inverse_mod((pow(w, d) % p - 1) % p, p));
        let u = choose|u: int| #[trigger] is_inverse_mod((pow(w, d) % p - 1) % p, u, p);
        lemma_geometric_vanishes(z, n, p, u);
        lemma_mul_cong(c[j] as int, c[j] as int, q(j), 0, p);
    }
    lemma_psum_single(n, t5, k, p);
    lemma_mul_cong(c[k] as int, c[k] as int, q(k), n as int, p);
    // e == c[k] * n modulo p, and ninv inverts n
    lemma_mod_twice(e, p);
    lemma_mul_cong(ninv, ninv, e % p, c[k] * n, p);
    lemma_mul_mod_noop_general(n as int, ninv, p);
    assert(ninv * (c[k] * n) == c[k] * (n * ninv)) by (nonlinear_arith);
    lemma_mul_cong(c[k] as int, c[k] as int, n * ninv, 1, p);
    lemma_small_mod(c[k] as nat, p as nat);
}


/// The facts about the subgroup of order `2^e` that both round trips use: its generator
/// has order exactly `2^e`, and it and the order are invertible.
proof fn lemma_subgroup_facts(f: Field, e: nat)
    requires
        f.wf(),
        f.generates_group(),
        e <= f.s_spec(),
    ensures
        pow2(e) < f.p(),
        pow2(e) > 0,
        pow(f.domain_generator(e), pow2(e)) % f.p() == 1,
        forall|d: nat|
            0 < d < pow2(e) ==> has_inverse_mod(
                (#[trigger] pow(f.domain_generator(e), d) % f.p() - 1) % f.p(),
                f.p(),
            ),
        f.invertible(f.domain_generator(e)),
        f.invertible(pow2(e) as int % f.p()),
        is_inverse_mod(f.domain_generator(e), f.inv_spec(f.domain_generator(e)), f.p()),
        is_inverse_mod(pow2(e) as int % f.p(), f.inv_spec(pow2(e) as int % f.p()), f.p()),
        0 <= f.inv_spec(f.domain_generator(e)) < f.p(),
{
    let p = f.p();
    let n = pow2(e);
    let pm1 = (f.modulus - 1) as nat;
    let s = f.s_spec();
    let g = f.generator as int;
    lemma_pow2_pos(e);
    lemma_small_mod(1, p as nat);
    lemma_small_mod(0, p as nat);
    // the subgroup's order divides p - 1
    lemma_two_adicity_divides(pm1);
    lemma_pow2_adds(e, (s - e) as nat);
    let q = pm1 / pow2(s);
    lemma_pow2_pos(s);
    lemma_fundamental_div_mod(pm1 as int, pow2(s) as int);
    let m: nat = (pow2((s - e) as nat) * q) as nat;
    assert(pm1 == n * m) by {
        lemma_mul_is_associative(n as int, pow2((s - e) as nat) as int, q as int);
    }
    lemma_div_multiples_vanish(m as int, n as int);
    lemma_mul_is_commutative(n as int, m as int);
    assert(pm1 / n == m);
    assert(m >= 1) by {
        if m == 0 {
            lemma_mul_basics(n as int);
        }
    }
    assert(n <= pm1) by {
        lemma_mul_inequality(1, m as int, n as int);
    }
    // the subgroup's generator and its powers
    let w = f.domain_generator(e);
    assert(w == pow(g, m) % p);
    assert(pow(w, n) % p == 1) by {
        lemma_pow_mod_noop(pow(g, m), n, p);
        lemma_pow_multiplies(g, m, n);
    }
    assert forall|d: nat| 0 < d < n implies has_inverse_mod((#[trigger] pow(w, d) % p - 1) % p, p) by {
        lemma_pow_mod_noop(pow(g, m), d, p);
        lemma_pow_multiplies(g, m, d);
        lemma_mul_strict_inequality(d as int, n as int, m as int);
        lemma_mul_is_commutative(d as int, m as int);
        lemma_mul_increases(m as int, d as int);
        assert(f.pow_spec(g, (m * d) as nat) != 1);
        let x = pow(w, d) % p;
        lemma_mod_bound(pow(w, d), p);
        let a = (x - 1) % p;
        if x == 0 {
            lemma_mod_add_multiples_vanish(-1, p);
            lemma_small_mod((p - 1) as nat, p as nat);
        } else {
            lemma_small_mod((x - 1) as nat, p as nat);
        }
        assert(0 < a < p);
        assert(f.invertible(a));
    }
    // both inverses exist
    assert(f.invertible(n as int % p)) by {
        lemma_small_mod(n, p as nat);
    }
    assert(f.invertible(w)) by {
        let r = pow(w, (n - 1) as nat) % p;
        lemma_pow_adds(w, 1, (n - 1) as nat);
        lemma_pow1(w);
        lemma_mul_mod_noop_general(w, pow(w, (n - 1) as nat), p);
        assert(is_inverse_mod(w, r, p));
    }
    lemma_inv_spec(f, w);
    lemma_inv_spec(f, n as int % p);
}

/// In a prime field whose generator generates the multiplicative group, the inverse
/// transform undoes the forward one: for `2^e` reduced coefficients, with `e` within the
/// field's two-adic subgroup, taking their evaluations on the subgroup of order `2^e` and
/// transforming those back gives the coefficients again. The two inversions that the
/// inverse transform needs, of the subgroup's generator and of its order, both exist.
pub proof fn lemma_ifft_inverts_fft(f: Field, c: Seq<u64>, e: nat)
    requires
        f.wf(),
        f.generates_group(),
        e <= f.s_spec(),
        c.len() == pow2(e),
        f.all_elems(c),
    ensures
        f.invertible(f.domain_generator(e)),
        f.invertible(c.len() as int % f.p()),
        ifft_spec(f, fft_spec(f, c, e), e) == c,
{
    lemma_subgroup_facts(f, e);
    let p = f.p();
    let n = pow2(e);
    let w = f.domain_generator(e);
    let wi = f.inv_spec(w);
    let ninv = f.inv_spec(n as int % p);
    let v = fft_spec(f, c, e);
    assert forall|i: int| 0 <= i < v.len() implies #[trigger] v[i] as int == eval_int(
        c,
        pow(w, i as nat) % p,
    ) % p by {
        lemma_mod_bound(eval_int(c, pow(w, i as nat) % p), p);
    }
    let r = ifft_spec(f, v, e);
    assert forall|k: int| 0 <= k < n implies #[trigger] r[k] == c[k] by {
        lemma_roundtrip_entry(c, v, w, wi, ninv, p, k);
    }
    assert(r =~= c);
}

/// Scaling every coefficient by `s` scales the value by `s`, modulo `p`.
proof fn lemma_eval_scaled(c2: Seq<u64>, c: Seq<u64>, s: int, x: int, p: int)
    requires
        p > 1,
        c2.len() == c.len(),
        forall|k: int| 0 <= k < c.len() ==> #[trigger] c2[k] as int == (s * c[k]) % p,
    ensures
        eval_int(c2, x) % p == (s * eval_int(c, x)) % p,
{
    let n = c.len();
    let t2 = |j: int| c2[j] * pow(x, j as nat);
    let t1 = |j: int| c[j] * pow(x, j as nat);
    let ts = |j: int| s * t1(j);
    lemma_eval_psum(c2, x);
    lemma_eval_psum(c, x);
    assert forall|j: int| 0 <= j < n implies #[trigger] t2(j) % p == ts(j) % p by {
        lemma_mod_twice(s * c[j], p);
        lemma_mul_cong(c2[j] as int, s * c[j], pow(x, j as nat), pow(x, j as nat), p);
        lemma_mul_is_associative(s, c[j] as int, pow(x, j as nat));
    }
    lemma_psum_mod(n, t2, ts, p);
    lemma_psum_scale(n, s, t1);
}

/// In a prime field whose generator generates the multiplicative group, the forward
/// transform undoes the inverse one: for `2^e` reduced evaluations, with `e` within the
/// field's two-adic subgroup, transforming them to coefficients and evaluating those on the
/// subgroup of order `2^e` gives the evaluations again.
pub proof fn lemma_fft_inverts_ifft(f: Field, v: Seq<u64>, e: nat)
    requires
        f.wf(),
        f.generates_group(),
        e <= f.s_spec(),
        v.len() == pow2(e),
        f.all_elems(v),
    ensures
        f.invertible(f.domain_generator(e)),
        f.invertible(v.len() as int % f.p()),
        fft_spec(f, ifft_spec(f, v, e), e) == v,
{
    lemma_subgroup_facts(f, e);
    let p = f.p();
    let n = pow2(e);
    let w = f.domain_generator(e);
    let wi = f.inv_spec(w);
    let ninv = f.inv_spec(n as int % p);
    lemma_small_mod(1, p as nat);
    // the inverse generator is a root of the same order
    lemma_mul_is_commutative(w, wi);
    assert(pow(wi, n) % p == 1) by {
        lemma_pow_inverse_pair(w, wi, n, p);
        lemma_mul_cong(pow(w, n), 1, pow(wi, n), pow(wi, n), p);
    }
    assert forall|d: nat| 0 < d < n implies has_inverse_mod((#[trigger] pow(wi, d) % p - 1) % p, p) by {
        let a = pow(w, d);
        let d2 = (n - d) as nat;
        lemma_pow_inverse_pair(w, wi, d, p);
        lemma_mul_mod_noop_general(a, pow(wi, d), p);
        lemma_pow_adds(w, d, d2);
        lemma_mul_mod_noop_general(a, pow(w, d2), p);
        lemma_mod_bound(pow(wi, d), p);
        lemma_mod_bound(pow(w, d2), p);
        lemma_inverses_agree(a, pow(wi, d) % p, pow(w, d2) % p, p);
        assert(has_inverse_mod((pow(w, d2) % p - 1) % p, p));
    }
    // the evaluations at the inverse powers
    let vv = Seq::new(n, |i: int| (eval_int(v, pow(wi, i as nat) % p) % p) as u64);
    assert forall|i: int| 0 <= i < vv.len() implies #[trigger] vv[i] as int == eval_int(
        v,
        pow(wi, i as nat) % p,
    ) % p by {
        lemma_mod_bound(eval_int(v, pow(wi, i as nat) % p), p);
    }
    let c = ifft_spec(f, v, e);
    assert forall|k: int| 0 <= k < n implies #[trigger] c[k] as int == (ninv * vv[k]) % p by {
        lemma_mod_bound(ninv * vv[k], p);
    }
    let r = fft_spec(f, c, e);
    assert forall|i: int| 0 <= i < n implies #[trigger] r[i] == v[i] by {
        let x = pow(w, i as nat) % p;
        lemma_roundtrip_entry(v, vv, wi, w, ninv, p, i);
        lemma_eval_scaled(c, vv, ninv, x, p);
        lemma_mul_mod_noop_general(ninv, eval_int(vv, x), p);
        lemma_mod_bound(eval_int(c, x), p);
    }
    assert(r =~= v);
}

} // verus!
