//! Properties that hold across the library's functions.
use crate::constraints::{a_mini_spec, perm_acc, perm_term, z_coeff};
use crate::encoding::{
    be_value, dec_value, decimal, decimal_ok, le_bytes, le_value, lemma_decimal_roundtrip,
    lemma_le_value_le_bytes,
};
use crate::field::{Field, is_inverse_mod, lemma_inv_spec, lemma_inverses_agree, two_adicity};
use crate::interp::{denominators_invertible, lagrange_denom, lagrange_sum, prod_except};
use crate::poly::eval_int;
use crate::utils::be_byte_u32;
use vstd::arithmetic::div_mod::*;
use vstd::arithmetic::mul::*;
use vstd::arithmetic::power::*;
use vstd::arithmetic::power2::*;
use vstd::prelude::*;

verus! {

/// The four big-endian bytes of a word read back big-endian give the word, so the words
/// written by `u32_be_bytes_to_u8_be_bytes` can be recovered from its output.
pub proof fn lemma_u32_be_bytes_roundtrip(v: u32)
    ensures
        be_value(seq![be_byte_u32(v, 0), be_byte_u32(v, 1), be_byte_u32(v, 2), be_byte_u32(v, 3)])
            == v,
{
    reveal_with_fuel(pow, 4);
    let s = seq![be_byte_u32(v, 0), be_byte_u32(v, 1), be_byte_u32(v, 2), be_byte_u32(v, 3)];
    assert(s.drop_last() =~= seq![be_byte_u32(v, 0), be_byte_u32(v, 1), be_byte_u32(v, 2)]);
    assert(s.drop_last().drop_last() =~= seq![be_byte_u32(v, 0), be_byte_u32(v, 1)]);
    assert(s.drop_last().drop_last().drop_last() =~= seq![be_byte_u32(v, 0)]);
    assert(s.drop_last().drop_last().drop_last().drop_last() =~= Seq::<u8>::empty());
    let b0 = (v / 0x100_0000) % 256;
    let b1 = (v / 0x1_0000) % 256;
    let b2 = (v / 0x100) % 256;
    let b3 = v % 256;
    assert(v as int / 1 == v) by (nonlinear_arith);
    assert(be_byte_u32(v, 0) == b0);
    assert(be_byte_u32(v, 1) == b1);
    assert(be_byte_u32(v, 2) == b2);
    assert(be_byte_u32(v, 3) == b3);
    let s1 = s.drop_last().drop_last().drop_last();
    let s2 = s.drop_last().drop_last();
    let s3 = s.drop_last();
    assert(be_value(s1) == be_value(s1.drop_last()) * 256 + b0);
    assert(be_value(s2) == be_value(s1) * 256 + b1);
    assert(be_value(s3) == be_value(s2) * 256 + b2);
    assert(be_value(s) == be_value(s3) * 256 + b3);
    assert(((b0 * 256 + b1) * 256 + b2) * 256 + b3 == v) by (bit_vector)
        requires
            b0 == (v / 0x100_0000) % 256,
            b1 == (v / 0x1_0000) % 256,
            b2 == (v / 0x100) % 256,
            b3 == v % 256,
    ;
}

/// The element encoding reads back: `le_value(to_bytes_le(a)) == a`, so
/// `from_bytes_le(to_bytes_le(a))` returns `a` for every element `a`.
pub proof fn lemma_element_encoding_roundtrip(a: u64)
    ensures
        le_value(le_bytes(a as nat, 32)) == a,
{
    lemma_le_value_le_bytes(a as nat, 32);
    reveal_with_fuel(pow, 9);
    lemma_pow_increases(256, 8, 32);
    lemma_small_mod(a as nat, pow(256, 32) as nat);
}

/// A product containing the factor `t - xs[m]` with `t == xs[m]` vanishes.
proof fn lemma_prod_except_zero(xs: Seq<u64>, i: int, m: int, k: nat)
    requires
        0 <= m < k,
        m != i,
    ensures
        prod_except(xs, i, xs[m] as int, k) == 0,
    decreases k,
{
    if k - 1 == m {
        lemma_mul_basics(prod_except(xs, i, xs[m] as int, (k - 1) as nat));
    } else {
        lemma_prod_except_zero(xs, i, m, (k - 1) as nat);
        if k - 1 != i {
            lemma_mul_basics(xs[m] as int - xs[k - 1]);
        }
    }
}

/// At `xs[m]`, only the `m`-th term of the Lagrange sum survives.
proof fn lemma_lagrange_sum_at_point(f: Field, xs: Seq<u64>, ys: Seq<u64>, m: int, k: nat)
    requires
        0 <= m < xs.len(),
        k <= xs.len(),
    ensures
        lagrange_sum(f, xs, ys, xs[m] as int, k) == if m < k {
            ys[m] * f.inv_spec(lagrange_denom(f, xs, m)) * prod_except(xs, m, xs[m] as int, xs.len())
        } else {
            0
        },
    decreases k,
{
    if k > 0 {
        lemma_lagrange_sum_at_point(f, xs, ys, m, (k - 1) as nat);
        if k - 1 != m {
            lemma_prod_except_zero(xs, k - 1, m, xs.len());
            lemma_mul_basics(ys[k - 1] * f.inv_spec(lagrange_denom(f, xs, k - 1)));
        }
    }
}

/// The Lagrange interpolant passes through its points: where the points are distinct
/// (every denominator invertible), its value at `xs[m]` is `ys[m]`.
pub proof fn lemma_lagrange_interpolates(f: Field, xs: Seq<u64>, ys: Seq<u64>, m: int)
    requires
        f.wf(),
        xs.len() == ys.len(),
        f.all_elems(ys),
        denominators_invertible(f, xs),
        0 <= m < xs.len(),
    ensures
        lagrange_sum(f, xs, ys, xs[m] as int, xs.len()) % f.p() == ys[m],
{
    let p = f.p();
    lemma_lagrange_sum_at_point(f, xs, ys, m, xs.len());
    let d = lagrange_denom(f, xs, m);
    let pr = prod_except(xs, m, xs[m] as int, xs.len());
    let w = f.inv_spec(d);
    let y = ys[m] as int;
    assert(f.invertible(d));
    let w0 = choose|w: int| is_inverse_mod(d, w, p);
    lemma_fundamental_div_mod(w0, p);
    lemma_mul_mod_noop_general(d, w0, p);
    assert(0 <= w0 % p < p && is_inverse_mod(d, w0 % p, p));
    assert(0 <= w < p && is_inverse_mod(d, w, p));
    lemma_mul_is_associative(y, w, pr);
    lemma_mul_mod_noop_general(y * w, pr, p);
    assert(pr % p == d);
    lemma_mul_is_associative(y, w, d);
    lemma_mul_mod_noop_general(y, w * d, p);
    lemma_mul_is_commutative(w, d);
    lemma_small_mod(y as nat, p as nat);
    lemma_mul_basics(y);
}

/// `zeros ++ [1]` with `k` zeros is `X^k`.
proof fn lemma_eval_monomial(c: Seq<u64>, k: nat, x: int)
    requires
        c.len() == k + 1,
        c[k as int] == 1,
        forall|i: int| 0 <= i < k ==> #[trigger] c[i] == 0,
    ensures
        eval_int(c, x) == pow(x, k),
    decreases k,
{
    reveal(pow);
    if k == 0 {
        assert(c.drop_first() =~= Seq::<u64>::empty());
        lemma_mul_basics(x);
        assert(eval_int(c, x) == c[0] + x * eval_int(c.drop_first(), x));
    } else {
        lemma_eval_monomial(c.drop_first(), (k - 1) as nat, x);
        assert(c.drop_first()[(k - 1) as int] == c[k as int]);
        assert forall|i: int| 0 <= i < (k - 1) as nat implies #[trigger] c.drop_first()[i] == 0 by {
            assert(c.drop_first()[i] == c[i + 1]);
        }
        assert(eval_int(c, x) == c[0] + x * eval_int(c.drop_first(), x));
        assert(pow(x, k) == x * pow(x, (k - 1) as nat));
    }
}

/// `Z(X) = X^steps - 1`: the coefficients that `calc_z_polynomial` builds evaluate to
/// `x^steps - 1` at every `x`, for every `steps >= 1` (so `Z` vanishes wherever
/// `x^steps = 1`, on the whole trace domain).
pub proof fn lemma_z_polynomial(f: Field, steps: nat, x: int)
    requires
        f.wf(),
        steps >= 1,
    ensures
        f.poly_eval(Seq::new(steps + 1, |i: int| z_coeff(f, steps, i) as u64), x) == (pow(
            x,
            steps,
        ) - 1) % f.p(),
{
    let p = f.p();
    let c = Seq::new(steps + 1, |i: int| z_coeff(f, steps, i) as u64);
    let rest = c.drop_first();
    assert forall|i: int| 0 <= i < (steps - 1) as nat implies #[trigger] rest[i] == 0 by {
        assert(rest[i] == c[i + 1]);
    }
    assert(rest[(steps - 1) as int] == 1);
    lemma_eval_monomial(rest, (steps - 1) as nat, x);
    reveal(pow);
    assert(pow(x, steps) == x * pow(x, (steps - 1) as nat));
    assert(eval_int(c, x) == (p - 1) + x * pow(x, (steps - 1) as nat));
    lemma_mod_multiples_vanish(1, pow(x, steps) - 1, p);
}

/// The quotients `D = Q * Z^-1` that `calc_d*_evaluations` compute pass the verifier's
/// check `Q = Z * D` at every point: where `Z` has an inverse, and where `Z` and `Q` both
/// vanish.
pub proof fn lemma_quotient_passes_check(f: Field, q: u64, z: u64)
    requires
        f.wf(),
        q < f.modulus,
        z < f.modulus,
        z == 0 ==> q == 0,
        z != 0 ==> f.invertible(z as int),
    ensures
        f.fmul(z as int, f.fmul(q as int, f.inv_or_zero(z as int))) == q,
{
    let p = f.p();
    lemma_small_mod(q as nat, p as nat);
    if z == 0 {
        lemma_mul_basics(f.fmul(q as int, f.inv_or_zero(z as int)));
        lemma_small_mod(0, p as nat);
    } else {
        let w = f.inv_spec(z as int);
        let w0 = choose|w: int| is_inverse_mod(z as int, w, p);
        lemma_fundamental_div_mod(w0, p);
        lemma_mul_mod_noop_general(z as int, w0, p);
        assert(0 <= w0 % p < p && is_inverse_mod(z as int, w0 % p, p));
        assert(0 <= w < p && is_inverse_mod(z as int, w, p));
        lemma_mul_mod_noop_general(z as int, q * w, p);
        lemma_mul_is_associative(z as int, q as int, w);
        lemma_mul_is_commutative(z as int, q as int);
        lemma_mul_is_associative(q as int, z as int, w);
        lemma_mul_mod_noop_general(q as int, z * w, p);
        lemma_mul_basics(q as int);
    }
}

/// The permutation accumulator `A` that `calc_a_mini_evaluations` builds satisfies its
/// recurrence `A(j) * val_dnm(j) = A(j - 1) * val_nmr(j)` wherever the running products
/// over the permuted indices are invertible.
pub proof fn lemma_accumulator_recurrence(
    f: Field,
    wt: Seq<u64>,
    ei: Seq<u64>,
    ep: Seq<u64>,
    r: Seq<u64>,
    skips: nat,
    j: nat,
)
    requires
        f.wf(),
        j >= 1,
        f.invertible(perm_acc(f, wt, ep, r, skips, j)),
        f.invertible(perm_acc(f, wt, ep, r, skips, (j - 1) as nat)),
    ensures
        f.fmul(
            a_mini_spec(f, wt, ei, ep, r, skips, j),
            perm_term(f, r, ep[(j * skips) as int] as int, wt[j as int] as int),
        ) == f.fmul(
            a_mini_spec(f, wt, ei, ep, r, skips, (j - 1) as nat),
            perm_term(f, r, ei[(j * skips) as int] as int, wt[j as int] as int),
        ),
{
    let p = f.p();
    let dj = perm_acc(f, wt, ep, r, skips, j);
    let dk = perm_acc(f, wt, ep, r, skips, (j - 1) as nat);
    let nj = perm_acc(f, wt, ei, r, skips, j);
    let nk = perm_acc(f, wt, ei, r, skips, (j - 1) as nat);
    let td = perm_term(f, r, ep[(j * skips) as int] as int, wt[j as int] as int);
    let tn = perm_term(f, r, ei[(j * skips) as int] as int, wt[j as int] as int);
    lemma_inv_spec(f, dj);
    lemma_inv_spec(f, dk);
    let wj = f.inv_spec(dj);
    let wk = f.inv_spec(dk);
    // dj = td * dk, so td * wj is an inverse of dk, hence equals wk.
    assert(dj == (td * dk) % p);
    let v = (td * wj) % p;
    assert(is_inverse_mod(dk, v, p)) by {
        lemma_mul_mod_noop_general(dk, td * wj, p);
        lemma_mul_is_associative(dk, td, wj);
        lemma_mul_is_commutative(dk, td);
        lemma_mul_mod_noop_general(td * dk, wj, p);
    }
    lemma_mod_bound(td * wj, p);
    lemma_inverses_agree(dk, v, wk, p);
    // dj and nj are nonzero, so A = n * w.
    if dj == 0 {
        lemma_mul_basics(wj);
        lemma_small_mod(0, p as nat);
    }
    if dk == 0 {
        lemma_mul_basics(wk);
        lemma_small_mod(0, p as nat);
    }
    assert(nj == (tn * nk) % p);
    // Left: ((nj * wj) % p * td) % p = (tn * nk * wj * td) % p.
    lemma_mul_mod_noop_general(nj * wj, td, p);
    lemma_mul_mod_noop_general(tn * nk, wj, p);
    lemma_mul_mod_noop_general((tn * nk) * wj, td, p);
    lemma_mul_mod_noop_general(nj, wj, p);
    // Right: ((nk * wk) % p * tn) % p with wk = (td * wj) % p.
    lemma_mul_mod_noop_general(nk * wk, tn, p);
    lemma_mul_mod_noop_general(nk, td * wj, p);
    lemma_mul_mod_noop_general(nk * (td * wj), tn, p);
    assert((tn * nk) * wj * td == nk * (td * wj) * tn) by (nonlinear_arith);
}

/// The two-adicity `s` of `n > 0` is the exponent of the largest power of two dividing
/// it: `2^s` divides `n` and leaves an odd quotient.
pub proof fn lemma_two_adicity_divides(n: nat)
    requires
        n > 0,
    ensures
        n % pow2(two_adicity(n)) == 0,
        (n / pow2(two_adicity(n))) % 2 == 1,
    decreases n,
{
    lemma2_to64();
    if n % 2 == 1 {
        assert(n / 1 == n);
    } else {
        lemma_two_adicity_divides(n / 2);
        let s = two_adicity(n / 2);
        lemma_pow2_unfold(s + 1);
        lemma_pow2_pos(s);
        lemma_fundamental_div_mod((n / 2) as int, pow2(s) as int);
        lemma_div_denominator(n as int, 2, pow2(s) as int);
        assert(n == 2 * (n / 2));
        let q = (n / 2) / pow2(s);
        assert(n / 2 == pow2(s) * q);
        assert(n == pow2(s + 1) * q) by {
            lemma_mul_is_associative(2, pow2(s) as int, q as int);
        }
        lemma_mod_multiples_vanish(q as int, 0, pow2(s + 1) as int);
        lemma_small_mod(0, pow2(s + 1));
        lemma_div_multiples_vanish(q as int, pow2(s + 1) as int);
    }
}

/// Reading back the decimal numeral of `n` gives `n` reduced into the field: `from_str`
/// accepts what `parse_be_bytes_to_decimal` prints and returns the printed value modulo `p`.
pub proof fn lemma_from_str_decimal(f: Field, n: nat)
    ensures
        decimal_ok(decimal(n)),
        dec_value(decimal(n)) % f.p() == n as int % f.p(),
{
    lemma_decimal_roundtrip(n);
}

} // verus!
