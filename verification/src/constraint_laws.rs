//! What the trace and the transition and permutation constraints read, stated over their
//! inputs: which points of the evaluation domain each constraint combines, and how the
//! accumulated half of the trace restarts at every row.
use crate::constraints::{a_mini_spec, perm_acc, q1_spec, q2_spec, q3_spec, trace_acc, zb2_spec};
use crate::field::Field;
use crate::stark_verify::augmented;
use vstd::arithmetic::div_mod::*;
use vstd::arithmetic::mul::*;
use vstd::prelude::*;

verus! {

/// The accumulated half of the trace restarts at every multiple of the number of wires:
/// there it is the bare coefficient, and at every other entry `i` it is
/// `c[i] * w[i mod n] + (entry i - 1)`, with `n = w.len()`.
pub proof fn lemma_trace_restarts_every_row(f: Field, c: Seq<u64>, w: Seq<u64>, i: nat)
    requires
        w.len() > 0,
        i < c.len(),
    ensures
        i % w.len() == 0 ==> trace_acc(f, c, w, i) == c[i as int] as int,
        i % w.len() != 0 ==> i >= 1 && trace_acc(f, c, w, i) == ((c[i as int] as int * w[(i
            % w.len()) as int] as int) % f.p() + trace_acc(f, c, w, (i - 1) as nat)) % f.p(),
{
    if i == 0 {
        lemma_small_mod(0, w.len());
    }
}

/// `Q1` at point `j` is `F0(j) * (P(j) - F1(j) * P(j') - K(j) * S(j))` where `j'` is one
/// trace step back: `skips` points before `j` around the domain of `precision` points. That
/// is the point the verifier opens as the second augmented position for `j`.
pub proof fn lemma_q1_reads_one_step_back(
    f: Field,
    s: Seq<u64>,
    k: Seq<u64>,
    p: Seq<u64>,
    f0: Seq<u64>,
    f1: Seq<u64>,
    precision: int,
    skips: int,
    unpadded_steps: int,
    j: int,
)
    requires
        0 <= skips <= precision,
        0 <= j < precision,
    ensures
        augmented(j, precision, skips, unpadded_steps)[1] == (j + precision - skips) % precision,
        q1_spec(f, s, k, p, f0, f1, precision, skips, j) == ((f0[j] as int * ((((p[j] as int - (
        f1[j] as int * p[(j + precision - skips) % precision] as int) % f.p()) % f.p()) - (
        k[j] as int * s[j] as int) % f.p()) % f.p())) % f.p()),
{
}

/// `Q2` at point `j` is `F2(j) * (P(j + 2d) - P(j) * P(j + d))`, with `d` a third of the
/// unpadded steps, times `skips`, and indices around the domain of `precision` points.
/// Where the unpadded steps are a multiple of three (as the verifier requires), `j + d` and
/// `j + 2d` are the third and fourth augmented positions the verifier opens for `j`.
pub proof fn lemma_q2_reads_thirds_ahead(
    f: Field,
    p: Seq<u64>,
    f2: Seq<u64>,
    precision: int,
    skips: int,
    unpadded_steps: int,
    j: int,
)
    requires
        precision > 0,
        skips >= 0,
        unpadded_steps >= 0,
        0 <= j < precision,
    ensures
        q2_spec(f, p, f2, precision, skips, unpadded_steps, j) == ((f2[j] as int * ((p[(j
            + unpadded_steps / 3 * 2 * skips) % precision] as int - (p[j] as int * p[(j
            + unpadded_steps / 3 * skips) % precision] as int) % f.p()) % f.p())) % f.p()),
        augmented(j, precision, skips, unpadded_steps)[2] == (j + unpadded_steps / 3 * skips)
            % precision,
        unpadded_steps % 3 == 0 ==> augmented(j, precision, skips, unpadded_steps)[3] == (j
            + unpadded_steps / 3 * 2 * skips) % precision,
{
    if unpadded_steps % 3 == 0 {
        let t = unpadded_steps / 3;
        lemma_fundamental_div_mod(unpadded_steps, 3);
        assert(2 * unpadded_steps == 3 * (2 * t));
        lemma_div_multiples_vanish(2 * t, 3);
        lemma_mul_is_commutative(2 * t, 3);
        assert(2 * unpadded_steps / 3 == t * 2);
    }
}

/// `Q3` at point `j` is `A(j) * val_dnm(j) - A(j') * val_nmr(j)`, where `j'` is one trace
/// step back (`skips` points before `j`, the verifier's second augmented position) and
/// `val_nmr(j) = r0 + r1 * ext_indices[j] + r2 * S(j)`, `val_dnm(j)` the same with the
/// permuted indices.
pub proof fn lemma_q3_reads_one_step_back(
    f: Field,
    s: Seq<u64>,
    a: Seq<u64>,
    ei: Seq<u64>,
    ep: Seq<u64>,
    r: Seq<u64>,
    precision: int,
    skips: int,
    unpadded_steps: int,
    j: int,
)
    requires
        0 <= skips <= precision,
        0 <= j < precision,
    ensures
        augmented(j, precision, skips, unpadded_steps)[1] == (j + precision - skips) % precision,
        q3_spec(f, s, a, ei, ep, r, precision, skips, j) == ((a[j] as int * (((r[0] as int + (
        r[1] as int * ep[j] as int) % f.p()) % f.p() + (r[2] as int * s[j] as int) % f.p())
            % f.p())) % f.p() - (a[(j + precision - skips) % precision] as int * (((r[0] as int
            + (r[1] as int * ei[j] as int) % f.p()) % f.p() + (r[2] as int * s[j] as int) % f.p())
            % f.p())) % f.p()) % f.p(),
{
}


/// `Zb2` vanishes at every point of a public wire: where `xs[i]` is the trace point
/// `xs[w * skips]` of one of the first `n` pairs `(k, w)`, `Zb2(i)` is zero.
pub proof fn lemma_zb2_vanishes_at_public_points(
    f: Field,
    pfi: Seq<(usize, usize)>,
    xs: Seq<u64>,
    skips: int,
    n: nat,
    i: int,
    t: int,
)
    requires
        f.wf(),
        0 <= t < n,
        xs[i] == xs[pfi[t].1 * skips],
    ensures
        zb2_spec(f, pfi, xs, skips, n, i) == 0,
    decreases n,
{
    let p = f.p();
    lemma_small_mod(0, p as nat);
    let prev = zb2_spec(f, pfi, xs, skips, (n - 1) as nat, i);
    let diff = (xs[i] as int - xs[pfi[n - 1].1 * skips] as int) % p;
    assert(zb2_spec(f, pfi, xs, skips, n, i) == (prev * diff) % p);
    if t < n - 1 {
        lemma_zb2_vanishes_at_public_points(f, pfi, xs, skips, (n - 1) as nat, i, t);
        lemma_mul_basics(diff);
    } else {
        assert(diff == 0);
        lemma_mul_basics(prev);
    }
}

/// The accumulator's first value: `A(0) * val_dnm(0) = val_nmr(0)`, the recurrence with
/// `A(-1) = 1`, where `val(0) = r0 + r1 * index[0] + r2 * wt[0]` and the denominator's
/// product is invertible.
pub proof fn lemma_accumulator_start(
    f: Field,
    wt: Seq<u64>,
    ei: Seq<u64>,
    ep: Seq<u64>,
    r: Seq<u64>,
    skips: nat,
)
    requires
        f.wf(),
        f.invertible(perm_acc(f, wt, ep, r, skips, 0)),
    ensures
        (a_mini_spec(f, wt, ei, ep, r, skips, 0) * ((r[0] + r[1] * ep[0] + r[2] * wt[0]) % f.p()))
            % f.p() == (r[0] + r[1] * ei[0] + r[2] * wt[0]) % f.p(),
{
    let p = f.p();
    let d = perm_acc(f, wt, ep, r, skips, 0);
    let nm = perm_acc(f, wt, ei, r, skips, 0);
    crate::stark_verify::lemma_perm_term_reduces(f, r, ep[0] as int, wt[0] as int);
    crate::stark_verify::lemma_perm_term_reduces(f, r, ei[0] as int, wt[0] as int);
    crate::field::lemma_inv_spec(f, d);
    let w = f.inv_spec(d);
    assert(d != 0) by {
        if d == 0 {
            lemma_small_mod(0, p as nat);
            assert((d * w) % p == 0);
        }
    }
    // A(0) * d == nm * (w * d) == nm
    lemma_mul_mod_noop_general(nm * w, d, p);
    assert((nm * w) * d == nm * (d * w)) by (nonlinear_arith);
    lemma_mul_mod_noop_general(nm, d * w, p);
    lemma_mod_bound(nm, p);
    lemma_small_mod(nm as nat, p as nat);
    lemma_mul_basics(nm);
}

} // verus!
