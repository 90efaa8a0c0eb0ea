//! The computational trace of an R1CS instance and the constraint polynomials built
//! from it.
use crate::field::{Field, lemma_inverse_unique};
use crate::interp::{
    denominators_invertible, lagrange_denom, lagrange_interp, lagrange_sum, lemma_eval_pad, prod_except,
};
use crate::poly::eval_int;
use crate::poly::{
    Coefficients, Polynomial, SynthesisError, Values, fits_domain, lemma_pad_pow2, multi_inv,
    next_pow2_exp, pad_zeros, zero_padded,
};
use vstd::arithmetic::div_mod::*;
use vstd::arithmetic::mul::*;
use vstd::arithmetic::power::*;
use vstd::arithmetic::power2::*;
use vstd::prelude::*;

verus! {

/// Entry `i` of the accumulated half of the trace: within each group of `w.len()`
/// coefficients, the first entry is the bare coefficient and each later one adds
/// `c[i] * w[i mod w.len()]` to the entry before it.
pub open spec fn trace_acc(f: Field, c: Seq<u64>, w: Seq<u64>, i: nat) -> int
    decreases i,
{
    if i == 0 || i % w.len() == 0 {
        c[i as int] as int
    } else {
        f.fadd(
            f.fmul(c[i as int] as int, w[(i % w.len()) as int] as int),
            trace_acc(f, c, w, (i - 1) as nat),
        )
    }
}

/// The computational trace of an R1CS instance: the witness repeated to the number of
/// coefficients, followed by the running sums of coefficient times wire value, restarted
/// at the first wire of each row.
pub fn r1cs_computational_trace(f: &Field, coefficients: &[u64], witness: &[u64]) -> (r: Vec<u64>)
    requires
        f.wf(),
        witness.len() > 0,
        coefficients.len() == 3 * (coefficients.len() / witness.len() / 3) * witness.len(),
        f.all_elems(coefficients@),
        f.all_elems(witness@),
    ensures
        r@.len() == 2 * coefficients.len(),
        f.all_elems(r@),
        forall|i: int|
            0 <= i < coefficients.len() ==> #[trigger] r@[i] == witness@[i % witness.len() as int],
        forall|i: int|
            0 <= i < coefficients.len() ==> #[trigger] r@[coefficients.len() + i] == trace_acc(
                *f,
                coefficients@,
                witness@,
                i as nat,
            ),
        forall|i: int|
            0 <= i < coefficients.len() && i % witness.len() as int == 0 ==> #[trigger] r@[coefficients.len()
                + i] == coefficients@[i],
        forall|i: int|
            0 <= i < coefficients.len() && i % witness.len() as int != 0 ==> #[trigger] r@[
                coefficients.len() + i] as int == ((coefficients@[i] as int * witness@[i
                % witness.len() as int] as int) % f.p() + r@[coefficients.len() + i - 1] as int)
                % f.p(),
{
    let n_wires = witness.len();
    let total = coefficients.len();
    let mut trace: Vec<u64> = Vec::new();
    for i in 0..total
        invariant
            n_wires == witness.len(),
            n_wires > 0,
            total == coefficients.len(),
            f.all_elems(witness@),
            trace@.len() == i,
            forall|j: int| 0 <= j < i ==> #[trigger] trace@[j] == witness@[j % n_wires as int],
            forall|j: int| 0 <= j < i ==> #[trigger] trace@[j] < f.modulus,
    {
        trace.push(witness[i % n_wires]);
    }
    for i in 0..total
        invariant
            f.wf(),
            n_wires == witness.len(),
            n_wires > 0,
            total == coefficients.len(),
            f.all_elems(witness@),
            f.all_elems(coefficients@),
            trace@.len() == total + i,
            forall|j: int| 0 <= j < total ==> #[trigger] trace@[j] == witness@[j % n_wires as int],
            forall|j: int| 0 <= j < total + i ==> #[trigger] trace@[j] < f.modulus,
            forall|j: int|
                0 <= j < i ==> #[trigger] trace@[total + j] == trace_acc(
                    *f,
                    coefficients@,
                    witness@,
                    j as nat,
                ),
    {
        let coeff = coefficients[i];
        if i % n_wires == 0 {
            trace.push(coeff);
        } else {
            let last = trace[trace.len() - 1];
            proof {
                lemma_small_mod(0, n_wires as nat);
            }
            assert(i > 0);
            assert(last == trace_acc(*f, coefficients@, witness@, (i - 1) as nat)) by {
                assert(trace@[total + (i - 1)] == trace_acc(*f, coefficients@, witness@, (i - 1) as nat));
            }
            let m = f.mul(coeff, witness[i % n_wires]);
            let v = f.add(m, last);
            trace.push(v);
            assert(v == trace_acc(*f, coefficients@, witness@, i as nat));
        }
    }
    proof {
        assert forall|i: int|
            0 <= i < coefficients.len() && i % witness.len() as int != 0 implies #[trigger] trace@[coefficients.len() + i] as int == ((coefficients@[i] as int
                * witness@[i % witness.len() as int] as int) % f.p() + trace@[coefficients.len() + i
                - 1] as int) % f.p() by {
            crate::constraint_laws::lemma_trace_restarts_every_row(*f, coefficients@, witness@, i as nat);
            assert(trace@[total + i] as int == trace_acc(*f, coefficients@, witness@, i as nat));
            assert(i >= 1) by {
                if i == 0 {
                    lemma_small_mod(0, n_wires as nat);
                }
            }
            assert(trace@[total + (i - 1)] as int == trace_acc(*f, coefficients@, witness@, (i - 1) as nat));
            assert(total + (i - 1) == total + i - 1);
        }
        assert forall|i: int|
            0 <= i < coefficients.len() && i % witness.len() as int == 0 implies #[trigger] trace@[
                coefficients.len() + i] == coefficients@[i] by {
            crate::constraint_laws::lemma_trace_restarts_every_row(*f, coefficients@, witness@, i as nat);
            assert(trace@[total + i] as int == trace_acc(*f, coefficients@, witness@, i as nat));
        }
    }
    trace
}

/// The index `skips` steps before `j` on a cyclic domain of `precision` points.
pub open spec fn prev_index(j: int, precision: int, skips: int) -> int {
    (j + precision - skips) % precision
}

/// `Q1(j) = F0(j) * (P(j) - F1(j) * P(j - skips) - K(j) * S(j))`.
pub open spec fn q1_spec(
    f: Field,
    s: Seq<u64>,
    k: Seq<u64>,
    p: Seq<u64>,
    f0: Seq<u64>,
    f1: Seq<u64>,
    precision: int,
    skips: int,
    j: int,
) -> int {
    f.fmul(
        f0[j] as int,
        f.fsub(
            f.fsub(p[j] as int, f.fmul(f1[j] as int, p[prev_index(j, precision, skips)] as int)),
            f.fmul(k[j] as int, s[j] as int),
        ),
    )
}

/// Evaluations of the first transition constraint,
/// `Q1(j) = F0(j) * (P(j) - F1(j) * P(j - skips) - K(j) * S(j))`, on `precision` points.
pub fn calc_q1_evaluations(
    f: &Field,
    s_evaluations: &Polynomial<Values>,
    k_evaluations: &Polynomial<Values>,
    p_evaluations: &Polynomial<Values>,
    f0_evaluations: &Polynomial<Values>,
    f1_evaluations: &Polynomial<Values>,
    precision: usize,
    skips: usize,
) -> (r: Result<Polynomial<Values>, SynthesisError>)
    requires
        f.wf(),
        skips <= precision,
        2 * precision <= usize::MAX,
        s_evaluations@.len() >= precision,
        k_evaluations@.len() >= precision,
        p_evaluations@.len() >= precision,
        f0_evaluations@.len() >= precision,
        f1_evaluations@.len() >= precision,
        f.all_elems(s_evaluations@),
        f.all_elems(k_evaluations@),
        f.all_elems(p_evaluations@),
        f.all_elems(f0_evaluations@),
        f.all_elems(f1_evaluations@),
    ensures
        r is Ok <==> fits_domain(*f, precision as nat),
        r matches Err(e) ==> e == SynthesisError::PolynomialDegreeTooLarge,
        r matches Ok(q) ==> {
            &&& zero_padded(q@, precision as nat)
            &&& f.all_elems(q@)
            &&& forall|j: int|
                0 <= j < precision ==> #[trigger] q@[j] == q1_spec(
                    *f,
                    s_evaluations@,
                    k_evaluations@,
                    p_evaluations@,
                    f0_evaluations@,
                    f1_evaluations@,
                    precision as int,
                    skips as int,
                    j,
                )
        },
{
    let s = s_evaluations.as_ref();
    let k = k_evaluations.as_ref();
    let p = p_evaluations.as_ref();
    let f0 = f0_evaluations.as_ref();
    let f1 = f1_evaluations.as_ref();
    let mut out: Vec<u64> = Vec::new();
    for j in 0..precision
        invariant
            f.wf(),
            skips <= precision,
            2 * precision <= usize::MAX,
            s@ == s_evaluations@,
            k@ == k_evaluations@,
            p@ == p_evaluations@,
            f0@ == f0_evaluations@,
            f1@ == f1_evaluations@,
            s@.len() >= precision,
            k@.len() >= precision,
            p@.len() >= precision,
            f0@.len() >= precision,
            f1@.len() >= precision,
            f.all_elems(s@),
            f.all_elems(k@),
            f.all_elems(p@),
            f.all_elems(f0@),
            f.all_elems(f1@),
            out@.len() == j,
            f.all_elems(out@),
            forall|i: int|
                0 <= i < j ==> #[trigger] out@[i] == q1_spec(
                    *f,
                    s@,
                    k@,
                    p@,
                    f0@,
                    f1@,
                    precision as int,
                    skips as int,
                    i,
                ),
    {
        let prev = (j + precision - skips) % precision;
        let t = f.mul(f1[j], p[prev]);
        let u = f.sub(p[j], t);
        let v = f.mul(k[j], s[j]);
        let w = f.sub(u, v);
        let q = f.mul(f0[j], w);
        out.push(q);
    }
    let ghost vals = out@;
    let r = Polynomial::from_values(f, out);
    proof {
        lemma_pad_pow2(vals);
    }
    r
}

/// `Q2(j) = F2(j) * (P(j + 2k) - P(j) * P(j + k))`, with `k = unpadded_steps / 3 * skips`
/// and indices taken modulo `precision`.
pub open spec fn q2_spec(
    f: Field,
    p: Seq<u64>,
    f2: Seq<u64>,
    precision: int,
    skips: int,
    unpadded_steps: int,
    j: int,
) -> int {
    let j2 = (j + unpadded_steps / 3 * skips) % precision;
    let j3 = (j + unpadded_steps / 3 * 2 * skips) % precision;
    f.fmul(f2[j] as int, f.fsub(p[j3] as int, f.fmul(p[j] as int, p[j2] as int)))
}

/// Evaluations of the second transition constraint,
/// `Q2(j) = F2(j) * (P(j + 2k) - P(j) * P(j + k))` with `k = unpadded_steps / 3 * skips`.
pub fn calc_q2_evaluations(
    f: &Field,
    p_evaluations: &Polynomial<Values>,
    f2_evaluations: &Polynomial<Values>,
    precision: usize,
    skips: usize,
    unpadded_steps: usize,
) -> (r: Result<Polynomial<Values>, SynthesisError>)
    requires
        f.wf(),
        precision + unpadded_steps / 3 * 2 * skips <= usize::MAX,
        p_evaluations@.len() >= precision,
        f2_evaluations@.len() >= precision,
        f.all_elems(p_evaluations@),
        f.all_elems(f2_evaluations@),
    ensures
        r is Ok <==> fits_domain(*f, precision as nat),
        r matches Err(e) ==> e == SynthesisError::PolynomialDegreeTooLarge,
        r matches Ok(q) ==> {
            &&& zero_padded(q@, precision as nat)
            &&& f.all_elems(q@)
            &&& forall|j: int|
                0 <= j < precision ==> #[trigger] q@[j] == q2_spec(
                    *f,
                    p_evaluations@,
                    f2_evaluations@,
                    precision as int,
                    skips as int,
                    unpadded_steps as int,
                    j,
                )
        },
{
    let p = p_evaluations.as_ref();
    let f2 = f2_evaluations.as_ref();
    let third = unpadded_steps / 3;
    assert((third * 2) * skips == 2 * (third * skips) && third * skips >= 0) by (nonlinear_arith);
    let shift1 = third * skips;
    let shift2 = third * 2 * skips;
    let mut out: Vec<u64> = Vec::new();
    for j in 0..precision
        invariant
            f.wf(),
            shift1 == unpadded_steps / 3 * skips,
            shift2 == unpadded_steps / 3 * 2 * skips,
            shift1 <= shift2,
            precision + shift2 <= usize::MAX,
            p@ == p_evaluations@,
            f2@ == f2_evaluations@,
            p@.len() >= precision,
            f2@.len() >= precision,
            f.all_elems(p@),
            f.all_elems(f2@),
            out@.len() == j,
            f.all_elems(out@),
            forall|i: int|
                0 <= i < j ==> #[trigger] out@[i] == q2_spec(
                    *f,
                    p@,
                    f2@,
                    precision as int,
                    skips as int,
                    unpadded_steps as int,
                    i,
                ),
    {
        let j2 = (j + shift1) % precision;
        let j3 = (j + shift2) % precision;
        let ab = f.mul(p[j], p[j2]);
        let d = f.sub(p[j3], ab);
        let q = f.mul(f2[j], d);
        out.push(q);
    }
    let ghost vals = out@;
    let r = Polynomial::from_values(f, out);
    proof {
        lemma_pad_pow2(vals);
    }
    r
}

/// The permutation term `r0 + r1 * index + r2 * value`.
pub open spec fn perm_term(f: Field, r: Seq<u64>, index: int, value: int) -> int {
    f.fadd(f.fadd(r[0] as int, f.fmul(r[1] as int, index)), f.fmul(r[2] as int, value))
}

/// `r0 + r1 * index + r2 * value` in the field.
pub fn perm_value(f: &Field, r: &[u64], index: u64, value: u64) -> (v: u64)
    requires
        f.wf(),
        r@.len() >= 3,
        f.all_elems(r@),
        index < f.modulus,
        value < f.modulus,
    ensures
        v < f.modulus,
        v == perm_term(*f, r@, index as int, value as int),
{
    let a = f.mul(r[1], index);
    let b = f.add(r[0], a);
    let c = f.mul(r[2], value);
    f.add(b, c)
}

/// `Q3(j) = A(j) * val_dnm(j) - A(j - skips) * val_nmr(j)`, where
/// `val_nmr(j) = r0 + r1 * ext_indices[j] + r2 * S(j)` and `val_dnm` takes the permuted
/// indices in place of `ext_indices`.
pub open spec fn q3_spec(
    f: Field,
    s: Seq<u64>,
    a: Seq<u64>,
    ei: Seq<u64>,
    ep: Seq<u64>,
    r: Seq<u64>,
    precision: int,
    skips: int,
    j: int,
) -> int {
    let val_nmr = perm_term(f, r, ei[j] as int, s[j] as int);
    let val_dnm = perm_term(f, r, ep[j] as int, s[j] as int);
    f.fsub(
        f.fmul(a[j] as int, val_dnm),
        f.fmul(a[prev_index(j, precision, skips)] as int, val_nmr),
    )
}

/// Evaluations of the permutation constraint,
/// `Q3(j) = A(j) * val_dnm(j) - A(j - skips) * val_nmr(j)`.
pub fn calc_q3_evaluations(
    f: &Field,
    s_evaluations: &Polynomial<Values>,
    a_evaluations: &Polynomial<Values>,
    ext_indices: &Polynomial<Values>,
    ext_permuted_indices: &Polynomial<Values>,
    random_values: &[u64],
    precision: usize,
    skips: usize,
) -> (r: Result<Polynomial<Values>, SynthesisError>)
    requires
        f.wf(),
        random_values@.len() >= 3,
        f.all_elems(random_values@),
        skips <= precision,
        2 * precision <= usize::MAX,
        s_evaluations@.len() >= precision,
        a_evaluations@.len() >= precision,
        ext_indices@.len() >= precision,
        ext_permuted_indices@.len() >= precision,
        f.all_elems(s_evaluations@),
        f.all_elems(a_evaluations@),
        f.all_elems(ext_indices@),
        f.all_elems(ext_permuted_indices@),
    ensures
        r is Ok <==> fits_domain(*f, precision as nat),
        r matches Err(e) ==> e == SynthesisError::PolynomialDegreeTooLarge,
        r matches Ok(q) ==> {
            &&& zero_padded(q@, precision as nat)
            &&& f.all_elems(q@)
            &&& forall|j: int|
                0 <= j < precision ==> #[trigger] q@[j] == q3_spec(
                    *f,
                    s_evaluations@,
                    a_evaluations@,
                    ext_indices@,
                    ext_permuted_indices@,
                    random_values@,
                    precision as int,
                    skips as int,
                    j,
                )
        },
{
    let s = s_evaluations.as_ref();
    let a = a_evaluations.as_ref();
    let ei = ext_indices.as_ref();
    let ep = ext_permuted_indices.as_ref();
    let mut out: Vec<u64> = Vec::new();
    for j in 0..precision
        invariant
            f.wf(),
            random_values@.len() >= 3,
            f.all_elems(random_values@),
            skips <= precision,
            2 * precision <= usize::MAX,
            s@ == s_evaluations@,
            a@ == a_evaluations@,
            ei@ == ext_indices@,
            ep@ == ext_permuted_indices@,
            s@.len() >= precision,
            a@.len() >= precision,
            ei@.len() >= precision,
            ep@.len() >= precision,
            f.all_elems(s@),
            f.all_elems(a@),
            f.all_elems(ei@),
            f.all_elems(ep@),
            out@.len() == j,
            f.all_elems(out@),
            forall|i: int|
                0 <= i < j ==> #[trigger] out@[i] == q3_spec(
                    *f,
                    s@,
                    a@,
                    ei@,
                    ep@,
                    random_values@,
                    precision as int,
                    skips as int,
                    i,
                ),
    {
        let val_nmr = perm_value(f, random_values, ei[j], s[j]);
        let val_dnm = perm_value(f, random_values, ep[j], s[j]);
        let prev_j = (j + precision - skips) % precision;
        let x = f.mul(a[j], val_dnm);
        let y = f.mul(a[prev_j], val_nmr);
        let q = f.sub(x, y);
        out.push(q);
    }
    let ghost vals = out@;
    let r = Polynomial::from_values(f, out);
    proof {
        lemma_pad_pow2(vals);
    }
    r
}

/// The running product `prod_{i <= j} (r0 + r1 * ind[i * skips] + r2 * wt[i])`.
pub open spec fn perm_acc(
    f: Field,
    wt: Seq<u64>,
    ind: Seq<u64>,
    r: Seq<u64>,
    skips: nat,
    j: nat,
) -> int
    decreases j,
{
    let term = perm_term(f, r, ind[(j * skips) as int] as int, wt[j as int] as int);
    if j == 0 {
        term
    } else {
        f.fmul(term, perm_acc(f, wt, ind, r, skips, (j - 1) as nat))
    }
}

/// `A(j)`: the running product over the unpermuted indices divided by the running product
/// over the permuted ones.
pub open spec fn a_mini_spec(
    f: Field,
    wt: Seq<u64>,
    ei: Seq<u64>,
    ep: Seq<u64>,
    r: Seq<u64>,
    skips: nat,
    j: nat,
) -> int {
    f.fmul(
        perm_acc(f, wt, ei, r, skips, j),
        f.inv_or_zero(perm_acc(f, wt, ep, r, skips, j)),
    )
}

/// Evaluations of the accumulator polynomial `A` on the trace steps:
/// `A(g1^j) = A(g1^(j - 1)) * val_nmr(j) / val_dnm(j)`, kept as a quotient of two running
/// products. Fails when a nonzero running product over the permuted indices has no
/// inverse, or when the field has no domain for `steps` points.
pub fn calc_a_mini_evaluations(
    f: &Field,
    witness_trace: &Polynomial<Values>,
    ext_indices: &Polynomial<Values>,
    ext_permuted_indices: &Polynomial<Values>,
    random_values: &[u64],
    steps: usize,
    skips: usize,
) -> (r: Result<Polynomial<Values>, SynthesisError>)
    requires
        f.wf(),
        random_values@.len() >= 3,
        f.all_elems(random_values@),
        witness_trace@.len() >= steps,
        steps > 0 ==> (steps - 1) * skips < ext_indices@.len(),
        steps > 0 ==> (steps - 1) * skips < ext_permuted_indices@.len(),
        f.all_elems(witness_trace@),
        f.all_elems(ext_indices@),
        f.all_elems(ext_permuted_indices@),
    ensures
        r is Ok <==> ((forall|j: nat|
            j < steps ==> #[trigger] perm_acc(
                *f,
                witness_trace@,
                ext_permuted_indices@,
                random_values@,
                skips as nat,
                j,
            ) == 0 || f.invertible(
                perm_acc(
                    *f,
                    witness_trace@,
                    ext_permuted_indices@,
                    random_values@,
                    skips as nat,
                    j,
                ),
            )) && fits_domain(*f, steps as nat)),
        r matches Ok(a) ==> {
            &&& zero_padded(a@, steps as nat)
            &&& f.all_elems(a@)
            &&& forall|j: int|
                0 <= j < steps ==> #[trigger] a@[j] == a_mini_spec(
                    *f,
                    witness_trace@,
                    ext_indices@,
                    ext_permuted_indices@,
                    random_values@,
                    skips as nat,
                    j as nat,
                )
        },
{
    let wt = witness_trace.as_ref();
    let ei = ext_indices.as_ref();
    let ep = ext_permuted_indices.as_ref();
    let mut a_nmr: Vec<u64> = Vec::new();
    let mut a_dnm: Vec<u64> = Vec::new();
    let mut last_nmr: u64 = 1;
    let mut last_dnm: u64 = 1;
    for j in 0..steps
        invariant
            f.wf(),
            random_values@.len() >= 3,
            f.all_elems(random_values@),
            wt@ == witness_trace@,
            ei@ == ext_indices@,
            ep@ == ext_permuted_indices@,
            wt@.len() >= steps,
            steps > 0 ==> (steps - 1) * skips < ei@.len(),
            steps > 0 ==> (steps - 1) * skips < ep@.len(),
            f.all_elems(wt@),
            f.all_elems(ei@),
            f.all_elems(ep@),
            a_nmr@.len() == j,
            a_dnm@.len() == j,
            last_nmr < f.modulus,
            last_dnm < f.modulus,
            j > 0 ==> last_nmr == a_nmr@[j - 1],
            j > 0 ==> last_dnm == a_dnm@[j - 1],
            j == 0 ==> last_nmr == 1 && last_dnm == 1,
            f.all_elems(a_nmr@),
            f.all_elems(a_dnm@),
            forall|i: int|
                0 <= i < j ==> #[trigger] a_nmr@[i] == perm_acc(
                    *f,
                    wt@,
                    ei@,
                    random_values@,
                    skips as nat,
                    i as nat,
                ),
            forall|i: int|
                0 <= i < j ==> #[trigger] a_dnm@[i] == perm_acc(
                    *f,
                    wt@,
                    ep@,
                    random_values@,
                    skips as nat,
                    i as nat,
                ),
    {
        assert(ei@.len() == ei.len());
        assert(j * skips <= (steps - 1) * skips) by (nonlinear_arith)
            requires
                j <= steps - 1,
        ;
        let idx = j * skips;
        let val_nmr = perm_value(f, random_values, ei[idx], wt[j]);
        let val_dnm = perm_value(f, random_values, ep[idx], wt[j]);
        let acc_nmr = f.mul(val_nmr, last_nmr);
        let acc_dnm = f.mul(val_dnm, last_dnm);
        proof {
            if j == 0 {
                lemma_small_mod(val_nmr as nat, f.p() as nat);
                lemma_small_mod(val_dnm as nat, f.p() as nat);
            }
        }
        a_nmr.push(acc_nmr);
        a_dnm.push(acc_dnm);
        last_nmr = acc_nmr;
        last_dnm = acc_dnm;
    }
    let inv_dnm = match multi_inv(f, a_dnm.as_slice()) {
        Ok(v) => v,
        Err(e) => {
            proof {
                assert(!fits_domain(*f, steps as nat) || exists|j: nat|
                    j < steps && !(perm_acc(
                        *f,
                        witness_trace@,
                        ext_permuted_indices@,
                        random_values@,
                        skips as nat,
                        j,
                    ) == 0 || f.invertible(
                        perm_acc(
                            *f,
                            witness_trace@,
                            ext_permuted_indices@,
                            random_values@,
                            skips as nat,
                            j,
                        ),
                    ))) by {
                    let i = choose|i: int|
                        0 <= i < a_dnm@.len() && !(#[trigger] a_dnm@[i] == 0 || f.invertible(
                            a_dnm@[i] as int,
                        ));
                    assert(a_dnm@[i] == perm_acc(*f, wt@, ep@, random_values@, skips as nat, i as nat));
                }
            }
            return Err(e);
        },
    };
    let mut out: Vec<u64> = Vec::new();
    for j in 0..steps
        invariant
            f.wf(),
            a_nmr@.len() == steps,
            inv_dnm@.len() == steps,
            f.all_elems(a_nmr@),
            f.all_elems(inv_dnm@),
            out@.len() == j,
            f.all_elems(out@),
            forall|i: int| 0 <= i < j ==> #[trigger] out@[i] == f.fmul(a_nmr@[i] as int, inv_dnm@[i] as int),
    {
        let v = f.mul(a_nmr[j], inv_dnm[j]);
        out.push(v);
    }
    let ghost vals = out@;
    let r = Polynomial::from_values(f, out);
    proof {
        lemma_pad_pow2(vals);
        assert forall|j: nat| j < steps implies #[trigger] perm_acc(
            *f,
            witness_trace@,
            ext_permuted_indices@,
            random_values@,
            skips as nat,
            j,
        ) == 0 || f.invertible(
            perm_acc(*f, witness_trace@, ext_permuted_indices@, random_values@, skips as nat, j),
        ) by {
            assert(a_dnm@[j as int] == 0 || f.invertible(a_dnm@[j as int] as int));
        }
    }
    r
}

/// The smaller of two lengths.
pub open spec fn min_len(a: nat, b: nat) -> nat {
    if a <= b {
        a
    } else {
        b
    }
}

/// `q[pos] * inv_z[pos]` over the common length, where `q` vanishes wherever `inv_z` does.
fn divide_by_z(f: &Field, q: &[u64], inv_z: &[u64]) -> (r: Result<Polynomial<Values>, SynthesisError>)
    requires
        f.wf(),
        f.all_elems(q@),
        f.all_elems(inv_z@),
        forall|pos: int|
            0 <= pos < min_len(q@.len(), inv_z@.len()) ==> #[trigger] inv_z@[pos] == 0 ==> q@[pos]
                == 0,
    ensures
        r is Ok <==> fits_domain(*f, min_len(q@.len(), inv_z@.len())),
        r matches Err(e) ==> e == SynthesisError::PolynomialDegreeTooLarge,
        r matches Ok(d) ==> {
            &&& zero_padded(d@, min_len(q@.len(), inv_z@.len()))
            &&& f.all_elems(d@)
            &&& forall|pos: int|
                0 <= pos < min_len(q@.len(), inv_z@.len()) ==> #[trigger] d@[pos] == f.fmul(
                    q@[pos] as int,
                    inv_z@[pos] as int,
                )
        },
{
    let n = if q.len() <= inv_z.len() {
        q.len()
    } else {
        inv_z.len()
    };
    let mut out: Vec<u64> = Vec::new();
    for pos in 0..n
        invariant
            f.wf(),
            n == min_len(q@.len(), inv_z@.len()),
            f.all_elems(q@),
            f.all_elems(inv_z@),
            out@.len() == pos,
            f.all_elems(out@),
            forall|i: int| 0 <= i < pos ==> #[trigger] out@[i] == f.fmul(q@[i] as int, inv_z@[i] as int),
    {
        let v = f.mul(q[pos], inv_z[pos]);
        out.push(v);
    }
    let ghost vals = out@;
    let r = Polynomial::from_values(f, out);
    proof {
        lemma_pad_pow2(vals);
    }
    r
}

/// `D1(x) = Q1(x) / Z(x)`, given the inverses of `Z`; `Q1` must vanish where `Z` does.
pub fn calc_d1_evaluations(
    f: &Field,
    q1_evaluations: &Polynomial<Values>,
    inv_z_evaluations: &Polynomial<Values>,
) -> (r: Result<Polynomial<Values>, SynthesisError>)
    requires
        f.wf(),
        f.all_elems(q1_evaluations@),
        f.all_elems(inv_z_evaluations@),
        forall|pos: int|
            0 <= pos < min_len(q1_evaluations@.len(), inv_z_evaluations@.len()) ==> #[trigger] inv_z_evaluations@[pos] == 0
                ==> q1_evaluations@[pos] == 0,
    ensures
        r is Ok <==> fits_domain(*f, min_len(q1_evaluations@.len(), inv_z_evaluations@.len())),
        r matches Err(e) ==> e == SynthesisError::PolynomialDegreeTooLarge,
        r matches Ok(d) ==> {
            &&& zero_padded(d@, min_len(q1_evaluations@.len(), inv_z_evaluations@.len()))
            &&& f.all_elems(d@)
            &&& forall|pos: int|
                0 <= pos < min_len(q1_evaluations@.len(), inv_z_evaluations@.len()) ==> #[trigger] d@[pos]
                    == f.fmul(q1_evaluations@[pos] as int, inv_z_evaluations@[pos] as int)
        },
{
    divide_by_z(f, q1_evaluations.as_ref(), inv_z_evaluations.as_ref())
}

/// `D2(x) = Q2(x) / Z(x)`, given the inverses of `Z`; `Q2` must vanish where `Z` does.
pub fn calc_d2_evaluations(
    f: &Field,
    q2_evaluations: &Polynomial<Values>,
    inv_z_evaluations: &Polynomial<Values>,
) -> (r: Result<Polynomial<Values>, SynthesisError>)
    requires
        f.wf(),
        f.all_elems(q2_evaluations@),
        f.all_elems(inv_z_evaluations@),
        forall|pos: int|
            0 <= pos < min_len(q2_evaluations@.len(), inv_z_evaluations@.len()) ==> #[trigger] inv_z_evaluations@[pos] == 0
                ==> q2_evaluations@[pos] == 0,
    ensures
        r is Ok <==> fits_domain(*f, min_len(q2_evaluations@.len(), inv_z_evaluations@.len())),
        r matches Err(e) ==> e == SynthesisError::PolynomialDegreeTooLarge,
        r matches Ok(d) ==> {
            &&& zero_padded(d@, min_len(q2_evaluations@.len(), inv_z_evaluations@.len()))
            &&& f.all_elems(d@)
            &&& forall|pos: int|
                0 <= pos < min_len(q2_evaluations@.len(), inv_z_evaluations@.len()) ==> #[trigger] d@[pos]
                    == f.fmul(q2_evaluations@[pos] as int, inv_z_evaluations@[pos] as int)
        },
{
    divide_by_z(f, q2_evaluations.as_ref(), inv_z_evaluations.as_ref())
}

/// `D3(x) = Q3(x) / Z(x)`, given the inverses of `Z`; `Q3` must vanish where `Z` does.
pub fn calc_d3_evaluations(
    f: &Field,
    q3_evaluations: &Polynomial<Values>,
    inv_z_evaluations: &Polynomial<Values>,
) -> (r: Result<Polynomial<Values>, SynthesisError>)
    requires
        f.wf(),
        f.all_elems(q3_evaluations@),
        f.all_elems(inv_z_evaluations@),
        forall|pos: int|
            0 <= pos < min_len(q3_evaluations@.len(), inv_z_evaluations@.len()) ==> #[trigger] inv_z_evaluations@[pos] == 0
                ==> q3_evaluations@[pos] == 0,
    ensures
        r is Ok <==> fits_domain(*f, min_len(q3_evaluations@.len(), inv_z_evaluations@.len())),
        r matches Err(e) ==> e == SynthesisError::PolynomialDegreeTooLarge,
        r matches Ok(d) ==> {
            &&& zero_padded(d@, min_len(q3_evaluations@.len(), inv_z_evaluations@.len()))
            &&& f.all_elems(d@)
            &&& forall|pos: int|
                0 <= pos < min_len(q3_evaluations@.len(), inv_z_evaluations@.len()) ==> #[trigger] d@[pos]
                    == f.fmul(q3_evaluations@[pos] as int, inv_z_evaluations@[pos] as int)
        },
{
    divide_by_z(f, q3_evaluations.as_ref(), inv_z_evaluations.as_ref())
}

/// The smallest of three lengths.
pub open spec fn min3_len(a: nat, b: nat, c: nat) -> nat {
    min_len(min_len(a, b), c)
}

/// `(v[pos] - i[pos]) * inv_zb[pos]` over the common length, where `i` vanishes wherever `v`
/// does.
fn boundary_quotient(f: &Field, v: &[u64], i: &[u64], inv_zb: &[u64]) -> (r: Result<
    Polynomial<Values>,
    SynthesisError,
>)
    requires
        f.wf(),
        f.all_elems(v@),
        f.all_elems(i@),
        f.all_elems(inv_zb@),
        forall|pos: int|
            0 <= pos < min3_len(v@.len(), i@.len(), inv_zb@.len()) ==> #[trigger] v@[pos] == 0 ==> i@[pos]
                == 0,
    ensures
        r is Ok <==> fits_domain(*f, min3_len(v@.len(), i@.len(), inv_zb@.len())),
        r matches Err(e) ==> e == SynthesisError::PolynomialDegreeTooLarge,
        r matches Ok(b) ==> {
            &&& zero_padded(b@, min3_len(v@.len(), i@.len(), inv_zb@.len()))
            &&& f.all_elems(b@)
            &&& forall|pos: int|
                0 <= pos < min3_len(v@.len(), i@.len(), inv_zb@.len()) ==> #[trigger] b@[pos] == f.fmul(
                    f.fsub(v@[pos] as int, i@[pos] as int),
                    inv_zb@[pos] as int,
                )
        },
{
    let n1 = if v.len() <= i.len() {
        v.len()
    } else {
        i.len()
    };
    let n = if n1 <= inv_zb.len() {
        n1
    } else {
        inv_zb.len()
    };
    let mut out: Vec<u64> = Vec::new();
    for pos in 0..n
        invariant
            f.wf(),
            n == min3_len(v@.len(), i@.len(), inv_zb@.len()),
            f.all_elems(v@),
            f.all_elems(i@),
            f.all_elems(inv_zb@),
            out@.len() == pos,
            f.all_elems(out@),
            forall|k: int|
                0 <= k < pos ==> #[trigger] out@[k] == f.fmul(
                    f.fsub(v@[k] as int, i@[k] as int),
                    inv_zb@[k] as int,
                ),
    {
        let d = f.sub(v[pos], i[pos]);
        let b = f.mul(d, inv_zb[pos]);
        out.push(b);
    }
    let ghost vals = out@;
    let r = Polynomial::from_values(f, out);
    proof {
        lemma_pad_pow2(vals);
    }
    r
}

/// `B2(x) = (S(x) - I2(x)) / Zb2(x)`, given the inverses of `Zb2`; `I2` must vanish where
/// `S` does.
pub fn calc_b2_evaluations(
    f: &Field,
    s_evaluations: &Polynomial<Values>,
    i2_evaluations: &Polynomial<Values>,
    inv_zb2_evaluations: &Polynomial<Values>,
) -> (r: Result<Polynomial<Values>, SynthesisError>)
    requires
        f.wf(),
        f.all_elems(s_evaluations@),
        f.all_elems(i2_evaluations@),
        f.all_elems(inv_zb2_evaluations@),
        forall|pos: int|
            0 <= pos < min3_len(s_evaluations@.len(), i2_evaluations@.len(), inv_zb2_evaluations@.len())
                ==> #[trigger] s_evaluations@[pos] == 0 ==> i2_evaluations@[pos] == 0,
    ensures
        r is Ok <==> fits_domain(
            *f,
            min3_len(s_evaluations@.len(), i2_evaluations@.len(), inv_zb2_evaluations@.len()),
        ),
        r matches Err(e) ==> e == SynthesisError::PolynomialDegreeTooLarge,
        r matches Ok(b) ==> {
            &&& zero_padded(
                b@,
                min3_len(s_evaluations@.len(), i2_evaluations@.len(), inv_zb2_evaluations@.len()),
            )
            &&& f.all_elems(b@)
            &&& forall|pos: int|
                0 <= pos < min3_len(s_evaluations@.len(), i2_evaluations@.len(), inv_zb2_evaluations@.len())
                    ==> #[trigger] b@[pos] == f.fmul(
                    f.fsub(s_evaluations@[pos] as int, i2_evaluations@[pos] as int),
                    inv_zb2_evaluations@[pos] as int,
                )
        },
{
    boundary_quotient(
        f,
        s_evaluations.as_ref(),
        i2_evaluations.as_ref(),
        inv_zb2_evaluations.as_ref(),
    )
}

/// `B3(x) = (A(x) - I3(x)) / Zb3(x)`, given the inverses of `Zb3`; `I3` must vanish where
/// `A` does.
pub fn calc_b3_evaluations(
    f: &Field,
    a_evaluations: &Polynomial<Values>,
    i3_evaluations: &Polynomial<Values>,
    inv_zb3_evaluations: &Polynomial<Values>,
) -> (r: Result<Polynomial<Values>, SynthesisError>)
    requires
        f.wf(),
        f.all_elems(a_evaluations@),
        f.all_elems(i3_evaluations@),
        f.all_elems(inv_zb3_evaluations@),
        forall|pos: int|
            0 <= pos < min3_len(a_evaluations@.len(), i3_evaluations@.len(), inv_zb3_evaluations@.len())
                ==> #[trigger] a_evaluations@[pos] == 0 ==> i3_evaluations@[pos] == 0,
    ensures
        r is Ok <==> fits_domain(
            *f,
            min3_len(a_evaluations@.len(), i3_evaluations@.len(), inv_zb3_evaluations@.len()),
        ),
        r matches Err(e) ==> e == SynthesisError::PolynomialDegreeTooLarge,
        r matches Ok(b) ==> {
            &&& zero_padded(
                b@,
                min3_len(a_evaluations@.len(), i3_evaluations@.len(), inv_zb3_evaluations@.len()),
            )
            &&& f.all_elems(b@)
            &&& forall|pos: int|
                0 <= pos < min3_len(a_evaluations@.len(), i3_evaluations@.len(), inv_zb3_evaluations@.len())
                    ==> #[trigger] b@[pos] == f.fmul(
                    f.fsub(a_evaluations@[pos] as int, i3_evaluations@[pos] as int),
                    inv_zb3_evaluations@[pos] as int,
                )
        },
{
    boundary_quotient(
        f,
        a_evaluations.as_ref(),
        i3_evaluations.as_ref(),
        inv_zb3_evaluations.as_ref(),
    )
}

/// `Zb2(xs[i]) = prod_k (xs[i] - xs[w_k * skips])` over the first `n` pairs `(_, w_k)`.
pub open spec fn zb2_spec(
    f: Field,
    public_first_indices: Seq<(usize, usize)>,
    xs: Seq<u64>,
    skips: int,
    n: nat,
    i: int,
) -> int
    decreases n,
{
    if n == 0 {
        1
    } else {
        f.fmul(
            zb2_spec(f, public_first_indices, xs, skips, (n - 1) as nat, i),
            f.fsub(xs[i] as int, xs[public_first_indices[n - 1].1 * skips] as int),
        )
    }
}

/// Evaluations of `Zb2(X) = prod_k (X - xs[w_k * skips])`, which vanishes at the steps of
/// the public wires, on the first `precision` points of `xs`.
pub fn calc_zb2_evaluations(
    f: &Field,
    public_first_indices: &[(usize, usize)],
    xs: &[u64],
    precision: usize,
    skips: usize,
) -> (r: Result<Polynomial<Values>, SynthesisError>)
    requires
        f.wf(),
        f.all_elems(xs@),
        precision <= xs@.len(),
        forall|k: int|
            0 <= k < public_first_indices@.len() ==> #[trigger] public_first_indices@[k].1 * skips
                < xs@.len(),
    ensures
        r is Ok <==> fits_domain(*f, precision as nat),
        r matches Err(e) ==> e == SynthesisError::PolynomialDegreeTooLarge,
        r matches Ok(z) ==> {
            &&& zero_padded(z@, precision as nat)
            &&& f.all_elems(z@)
            &&& forall|i: int|
                0 <= i < precision ==> #[trigger] z@[i] == zb2_spec(
                    *f,
                    public_first_indices@,
                    xs@,
                    skips as int,
                    public_first_indices@.len(),
                    i,
                )
        },
{
    let mut zb2: Vec<u64> = Vec::new();
    for i in 0..precision
        invariant
            f.wf(),
            zb2@.len() == i,
            forall|k: int| 0 <= k < i ==> #[trigger] zb2@[k] == 1,
    {
        zb2.push(1);
    }
    for t in 0..public_first_indices.len()
        invariant
            f.wf(),
            f.all_elems(xs@),
            precision <= xs@.len(),
            forall|k: int|
                0 <= k < public_first_indices@.len() ==> #[trigger] public_first_indices@[k].1
                    * skips < xs@.len(),
            zb2@.len() == precision,
            f.all_elems(zb2@),
            forall|i: int|
                0 <= i < precision ==> #[trigger] zb2@[i] == zb2_spec(
                    *f,
                    public_first_indices@,
                    xs@,
                    skips as int,
                    t as nat,
                    i,
                ),
    {
        let w = public_first_indices[t].1;
        assert(public_first_indices@[t as int].1 * skips < xs@.len());
        assert(xs@.len() == xs.len());
        let j = w * skips;
        let mut next: Vec<u64> = Vec::new();
        for i in 0..precision
            invariant
                f.wf(),
                f.all_elems(xs@),
                precision <= xs@.len(),
                j < xs@.len(),
                t < public_first_indices@.len(),
                j == public_first_indices@[t as int].1 * skips,
                zb2@.len() == precision,
                f.all_elems(zb2@),
                next@.len() == i,
                f.all_elems(next@),
                forall|k: int|
                    0 <= k < i ==> #[trigger] next@[k] == f.fmul(
                        zb2@[k] as int,
                        f.fsub(xs@[k] as int, xs@[j as int] as int),
                    ),
        {
            let d = f.sub(xs[i], xs[j]);
            let v = f.mul(zb2[i], d);
            next.push(v);
        }
        zb2 = next;
    }
    let ghost vals = zb2@;
    let r = Polynomial::from_values(f, zb2);
    proof {
        lemma_pad_pow2(vals);
    }
    r
}

/// Evaluations of `Zb3(X) = X - xs[xs.len() - skips]`, which vanishes at the last step, on
/// the first `precision` points of `xs`.
pub fn calc_zb3_evaluations(f: &Field, xs: &[u64], precision: usize, skips: usize) -> (r: Result<
    Polynomial<Values>,
    SynthesisError,
>)
    requires
        f.wf(),
        f.all_elems(xs@),
        1 <= skips <= xs@.len(),
        precision <= xs@.len(),
    ensures
        r is Ok <==> fits_domain(*f, precision as nat),
        r matches Err(e) ==> e == SynthesisError::PolynomialDegreeTooLarge,
        r matches Ok(z) ==> {
            &&& zero_padded(z@, precision as nat)
            &&& f.all_elems(z@)
            &&& forall|i: int|
                0 <= i < precision ==> #[trigger] z@[i] == f.fsub(
                    xs@[i] as int,
                    xs@[xs@.len() - skips] as int,
                )
        },
{
    let x_of_last_step = xs[xs.len() - skips];
    let mut out: Vec<u64> = Vec::new();
    for i in 0..precision
        invariant
            f.wf(),
            f.all_elems(xs@),
            precision <= xs@.len(),
            1 <= skips <= xs@.len(),
            x_of_last_step == xs@[xs@.len() - skips],
            out@.len() == i,
            f.all_elems(out@),
            forall|k: int|
                0 <= k < i ==> #[trigger] out@[k] == f.fsub(xs@[k] as int, x_of_last_step as int),
    {
        let d = f.sub(xs[i], x_of_last_step);
        let v = f.mul(1, d);
        proof {
            lemma_small_mod(d as nat, f.p() as nat);
        }
        out.push(v);
    }
    let ghost vals = out@;
    let r = Polynomial::from_values(f, out);
    proof {
        lemma_pad_pow2(vals);
    }
    r
}

/// The coefficients of `Z(X) = X^steps - 1` (just `1` when `steps` is zero).
pub open spec fn z_coeff(f: Field, steps: nat, i: int) -> int {
    if i == steps {
        1
    } else if i == 0 {
        f.p() - 1
    } else {
        0
    }
}

/// `Z(X) = X^steps - 1` in coefficient form, padded to the next power of two.
pub fn calc_z_polynomial(f: &Field, steps: usize) -> (r: Result<Polynomial<Coefficients>, SynthesisError>)
    requires
        f.wf(),
        steps < usize::MAX,
    ensures
        r is Ok <==> fits_domain(*f, steps as nat + 1),
        r matches Err(e) ==> e == SynthesisError::PolynomialDegreeTooLarge,
        r matches Ok(z) ==> {
            &&& zero_padded(z@, steps as nat + 1)
            &&& f.all_elems(z@)
            &&& forall|i: int| 0 <= i <= steps ==> #[trigger] z@[i] == z_coeff(*f, steps as nat, i)
        },
{
    let mut coeffs: Vec<u64> = Vec::new();
    for i in 0..steps + 1
        invariant
            f.wf(),
            steps < usize::MAX,
            coeffs@.len() == i,
            f.all_elems(coeffs@),
            forall|k: int| 0 <= k < i ==> #[trigger] coeffs@[k] == z_coeff(*f, steps as nat, k),
    {
        if i == steps {
            coeffs.push(1);
        } else if i == 0 {
            coeffs.push(f.modulus - 1);
        } else {
            coeffs.push(0);
        }
    }
    let ghost vals = coeffs@;
    let r = Polynomial::from_coeffs(f, coeffs);
    proof {
        lemma_pad_pow2(vals);
    }
    r
}

/// The interpolation points of `I2`: the step of each public wire's first use.
pub open spec fn i2_points(public_first_indices: Seq<(usize, usize)>, xs: Seq<u64>, skips: int) -> Seq<u64> {
    Seq::new(public_first_indices.len(), |t: int| xs[skips * public_first_indices[t].1])
}

/// The interpolated values of `I2`: the public wires.
pub open spec fn i2_values(public_first_indices: Seq<(usize, usize)>, public_wires: Seq<u64>) -> Seq<u64> {
    Seq::new(public_first_indices.len(), |t: int| public_wires[public_first_indices[t].0 as int])
}

/// `I2(X)` with `I2(xs[skips * w]) = public_wires[k]` for every pair `(k, w)`: the Lagrange
/// interpolant, padded to a power of two. Fails when two of the points coincide, or when
/// the field has no domain for that many coefficients.
pub fn calc_i2_polynomial(
    f: &Field,
    public_first_indices: &[(usize, usize)],
    xs: &[u64],
    public_wires: &[u64],
    skips: usize,
) -> (r: Result<Polynomial<Coefficients>, SynthesisError>)
    requires
        f.wf(),
        f.all_elems(xs@),
        f.all_elems(public_wires@),
        forall|t: int|
            0 <= t < public_first_indices@.len() ==> skips * #[trigger] public_first_indices@[t].1
                < xs@.len() && public_first_indices@[t].0 < public_wires@.len(),
    ensures
        ({
            let pts = i2_points(public_first_indices@, xs@, skips as int);
            &&& (r is Ok <==> denominators_invertible(*f, pts) && fits_domain(
                *f,
                public_first_indices@.len(),
            ))
            &&& (!denominators_invertible(*f, pts) ==> r == Err::<
                Polynomial<Coefficients>,
                SynthesisError,
            >(SynthesisError::DivisionByZero))
            &&& (r matches Err(e) ==> e == SynthesisError::DivisionByZero || e
                == SynthesisError::PolynomialDegreeTooLarge)
            &&& (r matches Ok(c) ==> {
                &&& zero_padded(c@, public_first_indices@.len())
                &&& f.all_elems(c@)
                &&& forall|t: int|
                    #[trigger] f.poly_eval(c@, t) == lagrange_sum(
                        *f,
                        pts,
                        i2_values(public_first_indices@, public_wires@),
                        t,
                        public_first_indices@.len(),
                    ) % f.p()
            })
        }),
{
    let ghost pts = i2_points(public_first_indices@, xs@, skips as int);
    let ghost vals = i2_values(public_first_indices@, public_wires@);
    let mut x_vals: Vec<u64> = Vec::new();
    let mut y_vals: Vec<u64> = Vec::new();
    for t in 0..public_first_indices.len()
        invariant
            f.wf(),
            f.all_elems(xs@),
            f.all_elems(public_wires@),
            forall|u: int|
                0 <= u < public_first_indices@.len() ==> skips * #[trigger] public_first_indices@[u].1
                    < xs@.len() && public_first_indices@[u].0 < public_wires@.len(),
            pts == i2_points(public_first_indices@, xs@, skips as int),
            vals == i2_values(public_first_indices@, public_wires@),
            x_vals@ =~= pts.take(t as int),
            y_vals@ =~= vals.take(t as int),
            f.all_elems(x_vals@),
            f.all_elems(y_vals@),
    {
        let (k, w) = public_first_indices[t];
        assert(skips * public_first_indices@[t as int].1 < xs@.len());
        assert(xs@.len() == xs.len());
        x_vals.push(xs[skips * w]);
        y_vals.push(public_wires[k]);
    }
    proof {
        assert(x_vals@ =~= pts);
        assert(y_vals@ =~= vals);
    }
    let coeffs = match lagrange_interp(f, x_vals.as_slice(), y_vals.as_slice()) {
        Ok(c) => c,
        Err(e) => {
            return Err(e);
        },
    };
    let ghost cs = coeffs@;
    let r = Polynomial::from_coeffs(f, coeffs);
    proof {
        lemma_pad_pow2(cs);
        if r is Ok {
            assert forall|t: int| #[trigger] f.poly_eval(r.unwrap()@, t) == lagrange_sum(*f, pts, vals, t, pts.len()) % f.p() by {
                lemma_eval_pad(cs, pow2(next_pow2_exp(cs.len())), t);
                assert(f.poly_eval(cs, t) == lagrange_sum(*f, pts, vals, t, pts.len()) % f.p());
            }
        }
    }
    r
}

/// `I3(X)`, the constant one: the interpolant with `I3(x) = 1` at the last step
/// `x = xs[xs.len() - skips]`.
pub fn calc_i3_polynomial(f: &Field, xs: &[u64], skips: usize) -> (r: Result<
    Polynomial<Coefficients>,
    SynthesisError,
>)
    requires
        f.wf(),
        f.all_elems(xs@),
        1 <= skips <= xs@.len(),
    ensures
        r matches Ok(c) && zero_padded(c@, 1) && f.all_elems(c@) && forall|t: int|
            #[trigger] f.poly_eval(c@, t) == 1,
{
    let x_of_last_step = xs[xs.len() - skips];
    let mut x_vals: Vec<u64> = Vec::new();
    x_vals.push(x_of_last_step);
    let mut y_vals: Vec<u64> = Vec::new();
    y_vals.push(1);
    proof {
        let p = f.p();
        lemma_small_mod(1, p as nat);
        assert(prod_except(x_vals@, 0, x_of_last_step as int, 0) == 1);
        assert(prod_except(x_vals@, 0, x_of_last_step as int, 1) == 1);
        assert(lagrange_denom(*f, x_vals@, 0) == 1);
        assert(crate::field::is_inverse_mod(1, 1, p));
        assert(f.invertible(1));
        lemma_inverse_unique(1, 1, f.inv_spec(1), p);
        assert(denominators_invertible(*f, x_vals@));
        lemma2_to64();
        assert(next_pow2_exp(1) == 0);
    }
    let coeffs = match lagrange_interp(f, x_vals.as_slice(), y_vals.as_slice()) {
        Ok(c) => c,
        Err(e) => {
            return Err(e);
        },
    };
    let ghost cs = coeffs@;
    let r = Polynomial::from_coeffs(f, coeffs);
    proof {
        lemma_pad_pow2(cs);
        assert forall|t: int| #[trigger] f.poly_eval(r.unwrap()@, t) == 1 by {
            lemma_eval_pad(cs, pow2(next_pow2_exp(cs.len())), t);
            assert(prod_except(x_vals@, 0, t, 0) == 1);
            assert(prod_except(x_vals@, 0, t, 1) == 1);
            assert(lagrange_sum(*f, x_vals@, y_vals@, t, 0) == 0);
            assert(lagrange_sum(*f, x_vals@, y_vals@, t, 1) == 1);
            assert(f.poly_eval(cs, t) == lagrange_sum(*f, x_vals@, y_vals@, t, 1) % f.p());
        }
    }
    r
}

} // verus!
