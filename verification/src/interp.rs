//! Lagrange interpolation in coefficient form.
use crate::field::Field;
use crate::poly::{eval_int, pad_zeros};
use vstd::arithmetic::div_mod::*;
use vstd::arithmetic::mul::*;
use vstd::prelude::*;

verus! {

/// `prod_{j < k, j != i} (t - xs[j])` over the integers.
pub open spec fn prod_except(xs: Seq<u64>, i: int, t: int, k: nat) -> int
    decreases k,
{
    if k == 0 {
        1
    } else if k - 1 == i {
        prod_except(xs, i, t, (k - 1) as nat)
    } else {
        prod_except(xs, i, t, (k - 1) as nat) * (t - xs[k - 1])
    }
}

/// The Lagrange denominator of point `i`: `prod_{j != i} (xs[i] - xs[j])`, reduced.
pub open spec fn lagrange_denom(f: Field, xs: Seq<u64>, i: int) -> int {
    prod_except(xs, i, xs[i] as int, xs.len()) % f.p()
}

/// `sum_{i < k} ys[i] / denom(i) * prod_{j != i} (t - xs[j])` over the integers, with each
/// inverse taken in the field.
pub open spec fn lagrange_sum(f: Field, xs: Seq<u64>, ys: Seq<u64>, t: int, k: nat) -> int
    decreases k,
{
    if k == 0 {
        0
    } else {
        lagrange_sum(f, xs, ys, t, (k - 1) as nat) + ys[k - 1] * f.inv_spec(
            lagrange_denom(f, xs, k - 1),
        ) * prod_except(xs, k - 1, t, xs.len())
    }
}

/// Every Lagrange denominator has an inverse (the points are distinct modulo `p`).
pub open spec fn denominators_invertible(f: Field, xs: Seq<u64>) -> bool {
    forall|i: int| 0 <= i < xs.len() ==> #[trigger] f.invertible(lagrange_denom(f, xs, i))
}

/// Appending a zero coefficient does not change the value.
pub proof fn lemma_eval_push_zero(c: Seq<u64>, x: int)
    ensures
        eval_int(c.push(0), x) == eval_int(c, x),
    decreases c.len(),
{
    if c.len() == 0 {
        assert(c.push(0).drop_first() =~= Seq::<u64>::empty());
        lemma_mul_basics(x);
        assert(eval_int(c.push(0), x) == 0 + x * eval_int(Seq::<u64>::empty(), x));
    } else {
        assert(c.push(0).drop_first() =~= c.drop_first().push(0));
        lemma_eval_push_zero(c.drop_first(), x);
        assert(eval_int(c.push(0), x) == c[0] + x * eval_int(c.drop_first().push(0), x));
    }
}

/// Padding with zeros does not change the value.
pub proof fn lemma_eval_pad(c: Seq<u64>, n: nat, x: int)
    requires
        c.len() <= n,
    ensures
        eval_int(pad_zeros(c, n), x) == eval_int(c, x),
    decreases n - c.len(),
{
    if n == c.len() {
        assert(pad_zeros(c, n) =~= c);
    } else {
        lemma_eval_pad(c, (n - 1) as nat, x);
        assert(pad_zeros(c, n) =~= pad_zeros(c, (n - 1) as nat).push(0));
        lemma_eval_push_zero(pad_zeros(c, (n - 1) as nat), x);
    }
}

/// A coefficientwise combination `r = u + s * v` (modulo `p`) evaluates to the same
/// combination of values.
pub proof fn lemma_eval_comb(r: Seq<u64>, u: Seq<u64>, v: Seq<u64>, s: int, x: int, p: int)
    requires
        p > 0,
        r.len() == u.len(),
        r.len() == v.len(),
        forall|k: int| 0 <= k < r.len() ==> (#[trigger] r[k] as int) % p == (u[k] + s * v[k]) % p,
    ensures
        eval_int(r, x) % p == (eval_int(u, x) + s * eval_int(v, x)) % p,
    decreases r.len(),
{
    if r.len() == 0 {
        lemma_mul_basics(s);
    } else {
        assert forall|k: int| 0 <= k < r.drop_first().len() implies (#[trigger] r.drop_first()[k] as int) % p == (
        u.drop_first()[k] + s * v.drop_first()[k]) % p by {
            assert(r.drop_first()[k] == r[k + 1]);
        }
        lemma_eval_comb(r.drop_first(), u.drop_first(), v.drop_first(), s, x, p);
        let rr = eval_int(r.drop_first(), x);
        let uu = eval_int(u.drop_first(), x);
        let vv = eval_int(v.drop_first(), x);
        let r0 = r[0] as int;
        let u0 = u[0] as int;
        let v0 = v[0] as int;
        assert(r0 % p == (u0 + s * v0) % p);
        lemma_add_mod_noop(r0, x * rr, p);
        lemma_mul_mod_noop_general(x, rr, p);
        lemma_mul_mod_noop_general(x, uu + s * vv, p);
        lemma_add_mod_noop(u0 + s * v0, x * (uu + s * vv), p);
        assert(u0 + x * uu + s * (v0 + x * vv) == u0 + s * v0 + x * (uu + s * vv)) by (nonlinear_arith);
    }
}

/// The coefficients of `c(X) * (X - a)`.
fn mul_linear(f: &Field, c: &Vec<u64>, a: u64) -> (r: Vec<u64>)
    requires
        f.wf(),
        f.all_elems(c@),
        a < f.modulus,
        c@.len() < usize::MAX,
    ensures
        r@.len() == c@.len() + 1,
        f.all_elems(r@),
        forall|t: int| #[trigger] eval_int(r@, t) % f.p() == (eval_int(c@, t) * (t - a)) % f.p(),
{
    let n = c.len();
    let ghost u = seq![0u64] + c@;
    let ghost v = c@.push(0);
    let mut out: Vec<u64> = Vec::new();
    for k in 0..n + 1
        invariant
            f.wf(),
            a < f.modulus,
            n == c@.len(),
            f.all_elems(c@),
            u == seq![0u64] + c@,
            v == c@.push(0),
            out@.len() == k,
            f.all_elems(out@),
            forall|i: int|
                0 <= i < k ==> (#[trigger] out@[i] as int) % f.p() == (u[i] + (-a) * v[i]) % f.p(),
    {
        let hi: u64 = if k > 0 {
            c[k - 1]
        } else {
            0
        };
        let lo: u64 = if k < n {
            c[k]
        } else {
            0
        };
        let m = f.mul(a, lo);
        let d = f.sub(hi, m);
        proof {
            let p = f.p();
            assert(u[k as int] == hi);
            assert(v[k as int] == lo);
            lemma_sub_mod_noop(hi as int, a * lo, p);
            lemma_small_mod(hi as nat, p as nat);
            lemma_small_mod(d as nat, p as nat);
            assert((-a) * lo == -(a * lo)) by (nonlinear_arith);
        }
        out.push(d);
    }
    proof {
        assert forall|t: int| #[trigger] eval_int(out@, t) % f.p() == (eval_int(c@, t) * (t - a)) % f.p() by {
            lemma_eval_comb(out@, u, v, -a, t, f.p());
            assert(u.drop_first() =~= c@);
            lemma_eval_push_zero(c@, t);
            let e = eval_int(c@, t);
            assert(eval_int(u, t) == 0 + t * e);
            assert(t * e + (-a) * e == e * (t - a)) by (nonlinear_arith);
        }
    }
    out
}

/// `acc + s * l`, coefficientwise.
fn add_scaled(f: &Field, acc: &Vec<u64>, l: &Vec<u64>, s: u64) -> (r: Vec<u64>)
    requires
        f.wf(),
        f.all_elems(acc@),
        f.all_elems(l@),
        acc@.len() == l@.len(),
        s < f.modulus,
    ensures
        r@.len() == acc@.len(),
        f.all_elems(r@),
        forall|t: int| #[trigger] eval_int(r@, t) % f.p() == (eval_int(acc@, t) + s * eval_int(l@, t)) % f.p(),
{
    let mut out: Vec<u64> = Vec::new();
    for k in 0..acc.len()
        invariant
            f.wf(),
            f.all_elems(acc@),
            f.all_elems(l@),
            acc@.len() == l@.len(),
            s < f.modulus,
            out@.len() == k,
            f.all_elems(out@),
            forall|i: int|
                0 <= i < k ==> (#[trigger] out@[i] as int) % f.p() == (acc@[i] + s * l@[i]) % f.p(),
    {
        let m = f.mul(s, l[k]);
        let v = f.add(acc[k], m);
        proof {
            let p = f.p();
            lemma_add_mod_noop(acc@[k as int] as int, s * l@[k as int], p);
            lemma_small_mod(acc@[k as int] as nat, p as nat);
            lemma_small_mod(v as nat, p as nat);
        }
        out.push(v);
    }
    proof {
        assert forall|t: int| #[trigger] eval_int(out@, t) % f.p() == (eval_int(acc@, t) + s * eval_int(l@, t)) % f.p() by {
            lemma_eval_comb(out@, acc@, l@, s as int, t, f.p());
        }
    }
    out
}

/// The coefficients of the polynomial through the points `(xs[i], ys[i])`, of one
/// coefficient per point: its value at any `t` is the Lagrange sum. Fails when two points
/// coincide modulo `p` (a denominator has no inverse).
pub fn lagrange_interp(f: &Field, xs: &[u64], ys: &[u64]) -> (r: Result<Vec<u64>, crate::poly::SynthesisError>)
    requires
        f.wf(),
        xs@.len() == ys@.len(),
        f.all_elems(xs@),
        f.all_elems(ys@),
    ensures
        r is Ok <==> denominators_invertible(*f, xs@),
        r matches Err(e) ==> e == crate::poly::SynthesisError::DivisionByZero,
        r matches Ok(c) ==> {
            &&& c@.len() == xs@.len()
            &&& f.all_elems(c@)
            &&& forall|t: int| #[trigger] f.poly_eval(c@, t) == lagrange_sum(*f, xs@, ys@, t, xs@.len()) % f.p()
        },
{
    let n = xs.len();
    let mut acc: Vec<u64> = Vec::new();
    for k in 0..n
        invariant
            acc@.len() == k,
            forall|i: int| 0 <= i < k ==> #[trigger] acc@[i] == 0,
    {
        acc.push(0);
    }
    proof {
        assert forall|t: int| #[trigger] eval_int(acc@, t) % f.p() == lagrange_sum(*f, xs@, ys@, t, 0) % f.p() by {
            lemma_eval_zeros(acc@, t);
        }
    }
    for i in 0..n
        invariant
            f.wf(),
            n == xs@.len(),
            xs@.len() == ys@.len(),
            f.all_elems(xs@),
            f.all_elems(ys@),
            acc@.len() == n,
            f.all_elems(acc@),
            forall|t: int| #[trigger] eval_int(acc@, t) % f.p() == lagrange_sum(*f, xs@, ys@, t, i as nat) % f.p(),
            forall|k: int| 0 <= k < i ==> #[trigger] f.invertible(lagrange_denom(*f, xs@, k)),
    {
        let xi = xs[i];
        let mut d: u64 = 1;
        let mut l: Vec<u64> = Vec::new();
        l.push(1);
        proof {
            lemma_small_mod(1, f.p() as nat);
            assert forall|t: int| #[trigger] eval_int(l@, t) % f.p() == prod_except(xs@, i as int, t, 0) % f.p() by {
                assert(l@.drop_first() =~= Seq::<u64>::empty());
                lemma_mul_basics(t);
                assert(eval_int(l@, t) == 1 + t * eval_int(Seq::<u64>::empty(), t));
            }
        }
        for j in 0..n
            invariant
                f.wf(),
                n == xs@.len(),
                i < n,
                xi == xs@[i as int],
                f.all_elems(xs@),
                d < f.modulus,
                d == prod_except(xs@, i as int, xi as int, j as nat) % f.p(),
                l@.len() == if i < j { j as int } else { j + 1 },
                f.all_elems(l@),
                forall|t: int| #[trigger] eval_int(l@, t) % f.p() == prod_except(xs@, i as int, t, j as nat) % f.p(),
        {
            if j != i {
                let diff = f.sub(xi, xs[j]);
                let d2 = f.mul(d, diff);
                let l2 = mul_linear(f, &l, xs[j]);
                proof {
                    let p = f.p();
                    let pe = prod_except(xs@, i as int, xi as int, j as nat);
                    lemma_mul_mod_noop_general(pe, xi - xs@[j as int], p);
                    assert forall|t: int| #[trigger] eval_int(l2@, t) % f.p() == prod_except(xs@, i as int, t, j as nat + 1) % f.p() by {
                        let e = eval_int(l@, t);
                        let q = prod_except(xs@, i as int, t, j as nat);
                        lemma_mul_mod_noop_general(e, t - xs@[j as int], p);
                        lemma_mul_mod_noop_general(q, t - xs@[j as int], p);
                    }
                }
                d = d2;
                l = l2;
            }
        }
        let inv = match f.inverse(d) {
            Some(w) => w,
            None => {
                proof {
                    assert(!f.invertible(lagrange_denom(*f, xs@, i as int)));
                }
                return Err(crate::poly::SynthesisError::DivisionByZero);
            },
        };
        let s = f.mul(ys[i], inv);
        let acc2 = add_scaled(f, &acc, &l, s);
        proof {
            let p = f.p();
            assert(d == lagrange_denom(*f, xs@, i as int));
            assert forall|t: int| #[trigger] eval_int(acc2@, t) % f.p() == lagrange_sum(*f, xs@, ys@, t, i as nat + 1) % f.p() by {
                let ea = eval_int(acc@, t);
                let el = eval_int(l@, t);
                let ls = lagrange_sum(*f, xs@, ys@, t, i as nat);
                let pr = prod_except(xs@, i as int, t, n as nat);
                let y = ys@[i as int] as int;
                lemma_add_mod_noop(ea, s * el, p);
                lemma_mul_mod_noop_general(s as int, el, p);
                lemma_mul_mod_noop_general(s as int, pr, p);
                lemma_mul_mod_noop_general(y * inv, pr, p);
                lemma_add_mod_noop(ls, s * pr, p);
                assert((s * pr) % p == (y * inv * pr) % p);
                assert(lagrange_sum(*f, xs@, ys@, t, i as nat + 1) == ls + y * inv * pr);
                lemma_add_mod_noop(ls, y * inv * pr, p);
            }
        }
        acc = acc2;
    }
    proof {
        assert forall|t: int| #[trigger] f.poly_eval(acc@, t) == lagrange_sum(*f, xs@, ys@, t, xs@.len()) % f.p() by {
            assert(eval_int(acc@, t) % f.p() == lagrange_sum(*f, xs@, ys@, t, n as nat) % f.p());
        }
    }
    Ok(acc)
}

/// An all-zero coefficient sequence evaluates to zero.
proof fn lemma_eval_zeros(c: Seq<u64>, x: int)
    requires
        forall|i: int| 0 <= i < c.len() ==> #[trigger] c[i] == 0,
    ensures
        eval_int(c, x) == 0,
    decreases c.len(),
{
    if c.len() > 0 {
        lemma_eval_zeros(c.drop_first(), x);
        lemma_mul_basics(x);
    }
}

} // verus!
