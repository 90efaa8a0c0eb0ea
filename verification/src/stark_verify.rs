//! The decisions of the STARK verifier for R1CS: the domain parameters and the spot
//! checks of the opened values against the constraint polynomials.
use crate::constraints::{
    calc_i2_polynomial, calc_i3_polynomial, calc_z_polynomial, i2_points, i2_values, perm_term,
    perm_value, z_coeff, zb2_spec,
};
use crate::encoding::le_value;
use crate::field::Field;
use crate::interp::{denominators_invertible, lagrange_sum};
use crate::poly::{
    Coefficients, Polynomial, SynthesisError, Values, fft_spec, fits_domain, ifft_spec,
    lemma_next_pow2_exp_unique, lemma_pad_zeros, next_pow2_exp, pad_zeros, zero_padded,
};
use crate::utils::{bit_length, calc_max_log_precision, convert_usize_iter_to_ff_vec, log2_ceil};
use vstd::arithmetic::div_mod::*;
use vstd::arithmetic::mul::*;
use vstd::arithmetic::power2::*;
use vstd::prelude::*;

verus! {

/// Base-two logarithm of the blow-up from the trace domain to the evaluation domain.
pub const LOG_EXTENSION_FACTOR: usize = 3;

/// The blow-up from the trace domain to the evaluation domain (at least 4 for the
/// low-degree proof).
pub const EXTENSION_FACTOR: usize = 8;

/// Number of positions the verifier opens.
pub const SPOT_CHECK_SECURITY_FACTOR: usize = 80;

/// The check that an opening failed.
#[derive(Debug, Clone, Copy, PartialEq, Eq, Structural)]
pub enum Check {
    /// `Q1 = Z * D1`.
    FirstTransition,
    /// `Q2 = Z * D2`.
    SecondTransition,
    /// `Q3 = Z * D3`.
    Permutation,
    /// `S - I2 = Zb2 * B2`.
    PublicWires,
    /// `A - I3 = Zb3 * B3`.
    Accumulator,
    /// The opened linear combination.
    LinearCombination,
}

/// Why a proof was rejected.
#[derive(Debug, Clone, Copy, PartialEq, Eq, Structural)]
pub enum VerifyError {
    /// More coefficients than `3 * n_constraints * n_wires`.
    TooManySteps,
    /// The number of coefficients is not a multiple of three.
    StepsNotMultipleOfThree,
    /// There are no coefficients.
    NoSteps,
    /// The trace or evaluation domain does not fit in `usize`.
    StepsOverflow,
    /// The evaluation domain exceeds the field's two-adic subgroup.
    PrecisionTooLarge,
    /// The evaluation domain size does not divide `p - 1`.
    PrecisionDoesNotDivideOrder,
    /// The instance's polynomials could not be built: a value out of range, a domain the
    /// field does not have, or two interpolation points that coincide.
    InvalidSetup,
    /// The opened position (by its index) lies outside the evaluation domain.
    PositionOutOfRange(usize),
    /// The opened leaves (by position index) are missing a value or hold one out of range.
    MalformedLeaf(usize),
    /// The check failed at the position with this index.
    CheckFailed(Check, usize),
}

/// The sizes and the generator the verifier works with.
pub struct VerifierParams {
    /// Number of coefficients of the instance.
    pub unpadded_steps: usize,
    /// `log2_ceil(unpadded_steps - 1)`.
    pub log_steps: u32,
    /// The trace domain: `2^log_steps`, and at least 8.
    pub steps: usize,
    /// The evaluation domain: `steps * EXTENSION_FACTOR`.
    pub precision: usize,
    /// `precision / steps`.
    pub skips: usize,
    /// The generator of the evaluation domain, `g^((p - 1) / precision)`.
    pub g2: u64,
}

/// The exponent of the trace domain for `unpadded_steps` coefficients.
pub open spec fn steps_exp(unpadded_steps: nat) -> nat {
    let l = bit_length((unpadded_steps - 1) as nat);
    if l < 3 {
        3
    } else {
        l
    }
}

/// The parameters for an instance of `unpadded_steps` coefficients, or the first reason to
/// reject it.
pub open spec fn params_spec(f: Field, unpadded_steps: nat, n_constraints: nat, n_wires: nat) -> Result<
    (nat, nat, nat, nat),
    VerifyError,
> {
    let e = steps_exp(unpadded_steps);
    if unpadded_steps > 3 * n_constraints * n_wires {
        Err(VerifyError::TooManySteps)
    } else if unpadded_steps % 3 != 0 {
        Err(VerifyError::StepsNotMultipleOfThree)
    } else if unpadded_steps == 0 {
        Err(VerifyError::NoSteps)
    } else if pow2(e + 3) > usize::MAX {
        Err(VerifyError::StepsOverflow)
    } else if pow2(e + 3) > pow2(f.s_spec()) {
        Err(VerifyError::PrecisionTooLarge)
    } else if ((f.modulus - 1) as nat) % pow2(e + 3) != 0 {
        Err(VerifyError::PrecisionDoesNotDivideOrder)
    } else {
        Ok((bit_length((unpadded_steps - 1) as nat), pow2(e), pow2(e + 3), 8))
    }
}

/// The sizes are consistent with each other and with the field, as `verifier_params`
/// makes them.
pub open spec fn params_wf(f: Field, params: VerifierParams) -> bool {
    let e = steps_exp(params.unpadded_steps as nat);
    &&& params.unpadded_steps > 0
    &&& params.steps == pow2(e)
    &&& params.precision == pow2(e + 3)
    &&& params.skips == 8
    &&& params.steps >= params.unpadded_steps
    &&& e + 3 <= f.s_spec()
    &&& params.g2 < f.modulus
}

/// `2^e` for `e <= 64`.
fn pow2_u128(e: u32) -> (r: u128)
    requires
        e <= 64,
    ensures
        r == pow2(e as nat),
{
    let mut r: u128 = 1;
    let mut i: u32 = 0;
    proof {
        lemma2_to64();
    }
    while i < e
        invariant
            i <= e,
            e <= 64,
            r == pow2(i as nat),
        decreases e - i,
    {
        proof {
            lemma_pow2_unfold(i as nat + 1);
            crate::field::lemma_pow2_mono(i as nat + 1, 64);
            lemma2_to64();
        }
        r = r * 2;
        i = i + 1;
    }
    r
}

/// The domain parameters for an instance with `unpadded_steps` coefficients, rejecting
/// the instance as the verifier's assertions do.
pub fn verifier_params(f: &Field, unpadded_steps: usize, n_constraints: usize, n_wires: usize) -> (r:
    Result<VerifierParams, VerifyError>)
    requires
        f.wf(),
    ensures
        r is Err ==> params_spec(*f, unpadded_steps as nat, n_constraints as nat, n_wires as nat)
            == Err::<(nat, nat, nat, nat), VerifyError>(r->Err_0),
        r is Ok <==> params_spec(*f, unpadded_steps as nat, n_constraints as nat, n_wires as nat) is Ok,
        r matches Ok(params) ==> {
            &&& params_spec(*f, unpadded_steps as nat, n_constraints as nat, n_wires as nat)
                == Ok::<(nat, nat, nat, nat), VerifyError>(
                (params.log_steps as nat, params.steps as nat, params.precision as nat, params.skips as nat),
            )
            &&& params.unpadded_steps == unpadded_steps
            &&& params.steps >= unpadded_steps
            &&& params.steps == pow2(steps_exp(unpadded_steps as nat))
            &&& params.precision == 8 * params.steps
            &&& params.skips == 8
            &&& params.g2 < f.modulus
            &&& params_wf(*f, params)
            &&& params.g2 == f.pow_spec(
                f.generator as int,
                ((f.modulus - 1) as nat / params.precision as nat),
            )
        },
{
    proof {
        lemma_mul_upper_bound(n_constraints as int, 0xffff_ffff_ffff_ffff, n_wires as int, 0xffff_ffff_ffff_ffff);
        lemma_mul_nonnegative(n_constraints as int, n_wires as int);
        lemma_mul_is_associative(3, n_constraints as int, n_wires as int);
    }
    let prod: u128 = (n_constraints as u128) * (n_wires as u128);
    if prod <= 0xffff_ffff_ffff_ffff && (unpadded_steps as u128) > 3 * prod {
        return Err(VerifyError::TooManySteps);
    }
    if unpadded_steps % 3 != 0 {
        return Err(VerifyError::StepsNotMultipleOfThree);
    }
    if unpadded_steps == 0 {
        return Err(VerifyError::NoSteps);
    }
    let log_steps = log2_ceil(unpadded_steps - 1);
    let e: u32 = if log_steps < 3 {
        3
    } else {
        log_steps
    };
    let steps_wide = pow2_u128(e);
    proof {
        crate::field::lemma_pow2_mono(e as nat, 64);
        lemma2_to64();
    }
    if e + 3 > 64 || steps_wide * 8 > usize::MAX as u128 {
        proof {
            if e + 3 > 64 {
                crate::field::lemma_pow2_mono(64, e as nat + 3);
                lemma2_to64();
            }
            lemma_pow2_adds(e as nat, 3);
            lemma2_to64();
        }
        return Err(VerifyError::StepsOverflow);
    }
    proof {
        lemma_pow2_adds(e as nat, 3);
        lemma2_to64();
        crate::field::lemma_pow2_mono(log_steps as nat, e as nat);
    }
    let steps = steps_wide as usize;
    let precision = steps * EXTENSION_FACTOR;
    let log_max_precision = calc_max_log_precision(f);
    let max_precision = pow2_u128(log_max_precision);
    if precision as u128 > max_precision {
        return Err(VerifyError::PrecisionTooLarge);
    }
    let order = f.modulus - 1;
    if order % (precision as u64) != 0 {
        return Err(VerifyError::PrecisionDoesNotDivideOrder);
    }
    proof {
        if e as nat + 3 > f.s_spec() {
            lemma_pow2_strictly_increases(f.s_spec(), e as nat + 3);
        }
    }
    let times = order / (precision as u64);
    let g2 = f.pow(f.generator, times);
    let skips = precision / steps;
    proof {
        assert(skips == 8) by (nonlinear_arith)
            requires
                precision == steps * 8,
                steps > 0,
                skips == precision / steps,
        ;
    }
    Ok(VerifierParams { unpadded_steps, log_steps, steps, precision, skips, g2 })
}

/// The public part of an R1CS instance the verifier checks a proof against.
pub struct R1csInstance {
    /// Values of the public wires.
    pub public_wires: Vec<u64>,
    /// For each public wire `k`, the step `w` of its first use, as `(k, w)`.
    pub public_first_indices: Vec<(usize, usize)>,
    /// The permutation of the trace steps that copies wire values.
    pub permuted_indices: Vec<usize>,
    /// The constraint coefficients, one per step.
    pub coefficients: Vec<u64>,
    /// Selector evaluations of the first transition constraint.
    pub flag0: Vec<u64>,
    /// Selector evaluations of the previous-step term.
    pub flag1: Vec<u64>,
    /// Selector evaluations of the second transition constraint.
    pub flag2: Vec<u64>,
}

/// What the prover opened at the sampled positions, with the verifier's randomness.
pub struct Openings {
    /// The sampled positions of the evaluation domain.
    pub positions: Vec<usize>,
    /// For each position, the leaves of the main tree at the position and at the three
    /// positions it is compared with.
    pub main_branch_leaves: Vec<Vec<u8>>,
    /// For each position, the leaf of the linear-combination tree.
    pub linear_comb_branch_leaves: Vec<Vec<u8>>,
    /// The three permutation randomizers.
    pub r: Vec<u64>,
    /// The eleven weights of the linear combination.
    pub k: Vec<u64>,
}

/// The points the verifier evaluates at: a zero coefficient vector with the powers of
/// `g2` distributed over it, which stays all zeros.
pub open spec fn trace_points(precision: nat) -> Seq<u64> {
    Seq::new(precision, |i: int| 0u64)
}

/// The trace steps `0, 1, ..., steps - 1`.
pub open spec fn index_values(steps: nat) -> Seq<u64> {
    Seq::new(steps, |i: int| i as u64)
}

/// The permuted indices, extended by the padding steps `unpadded_steps .. steps`.
pub open spec fn permuted_values(perm: Seq<usize>, unpadded_steps: nat, steps: nat) -> Seq<u64> {
    Seq::new(
        (perm.len() + (steps - unpadded_steps)) as nat,
        |i: int|
            if i < perm.len() {
                perm[i] as u64
            } else {
                (unpadded_steps + (i - perm.len())) as u64
            },
    )
}

/// The coefficients of the polynomial with evaluations `v`, padded to a power of two.
pub open spec fn interp_coeffs(f: Field, v: Seq<u64>) -> Seq<u64> {
    ifft_spec(f, pad_zeros(v, pow2(next_pow2_exp(v.len()))), next_pow2_exp(v.len()))
}

/// The evaluations `v` extended to the evaluation domain of `precision` points.
pub open spec fn extension(f: Field, v: Seq<u64>, precision: nat) -> Seq<u64> {
    fft_spec(f, pad_zeros(interp_coeffs(f, v), precision), next_pow2_exp(precision))
}

/// The evaluations of `Z(X) = X^steps - 1` on the evaluation domain.
pub open spec fn z_evaluations(f: Field, steps: nat, precision: nat) -> Seq<u64> {
    fft_spec(
        f,
        pad_zeros(
            pad_zeros(
                Seq::new(steps + 1, |i: int| z_coeff(f, steps, i) as u64),
                pow2(next_pow2_exp(steps + 1)),
            ),
            precision,
        ),
        next_pow2_exp(precision),
    )
}

/// The inverse transform of `v` can be taken: its domain exists and both the generator
/// and the size are invertible.
pub open spec fn ifft_ok(f: Field, v: Seq<u64>) -> bool {
    &&& fits_domain(f, v.len())
    &&& f.invertible(f.domain_generator(next_pow2_exp(v.len())))
    &&& f.invertible(pow2(next_pow2_exp(v.len())) as int % f.p())
}

/// Every polynomial of the instance can be built.
pub open spec fn setup_ok(f: Field, inst: R1csInstance, params: VerifierParams) -> bool {
    let steps = params.steps as nat;
    let precision = params.precision as nat;
    let perm = permuted_values(inst.permuted_indices@, params.unpadded_steps as nat, steps);
    let pfi = inst.public_first_indices@;
    &&& steps <= f.modulus
    &&& f.all_elems(perm)
    &&& ifft_ok(f, pad_zeros(inst.coefficients@, steps))
    &&& ifft_ok(f, inst.flag0@)
    &&& ifft_ok(f, inst.flag1@)
    &&& ifft_ok(f, inst.flag2@)
    &&& ifft_ok(f, index_values(steps))
    &&& ifft_ok(f, perm)
    &&& pow2(next_pow2_exp(perm.len())) <= precision
    &&& forall|t: int|
        0 <= t < pfi.len() ==> params.skips * #[trigger] pfi[t].1 < precision && pfi[t].0
            < inst.public_wires@.len()
    &&& denominators_invertible(f, i2_points(pfi, trace_points(precision), params.skips as int))
    &&& fits_domain(f, pfi.len())
}

/// Chunk `c` of 32 bytes of a leaf read as an element, if the chunk exists and its value
/// is in range.
pub open spec fn chunk_elem(f: Field, leaf: Seq<u8>, c: nat) -> Option<u64> {
    let start: int = 32 * c as int;
    if start < leaf.len() {
        let end: int = if start + 32 <= leaf.len() {
            start + 32
        } else {
            leaf.len() as int
        };
        let v = le_value(leaf.subrange(start, end));
        if v < f.modulus {
            Some(v as u64)
        } else {
            None
        }
    } else {
        None
    }
}

/// A whole leaf read as an element, if its value is in range.
pub open spec fn leaf_elem(f: Field, leaf: Seq<u8>) -> Option<u64> {
    if le_value(leaf) < f.modulus {
        Some(le_value(leaf) as u64)
    } else {
        None
    }
}

/// The twelve values opened for position `i`, in the order `P(x)`, `P(x - w)`,
/// `P(x + k)`, `P(x + 2k)`, `A(x)`, `A(x - w)`, `S(x)`, `D1(x)`, `D2(x)`, `D3(x)`,
/// `B(x)`, `B3(x)`.
pub open spec fn opened_values(f: Field, leaves: Seq<Vec<u8>>, i: int) -> Option<Seq<u64>> {
    if leaves.len() < 4 * i + 4 {
        None
    } else {
        let b0 = leaves[4 * i]@;
        let b1 = leaves[4 * i + 1]@;
        let b2 = leaves[4 * i + 2]@;
        let b3 = leaves[4 * i + 3]@;
        let cs = seq![
            chunk_elem(f, b0, 0),
            chunk_elem(f, b1, 0),
            chunk_elem(f, b2, 0),
            chunk_elem(f, b3, 0),
            chunk_elem(f, b0, 1),
            chunk_elem(f, b1, 1),
            chunk_elem(f, b0, 2),
            chunk_elem(f, b0, 3),
            chunk_elem(f, b0, 4),
            chunk_elem(f, b0, 5),
            chunk_elem(f, b0, 6),
            chunk_elem(f, b0, 7),
        ];
        if forall|j: int| 0 <= j < 12 ==> #[trigger] cs[j] is Some {
            Some(Seq::new(12, |j: int| cs[j]->0))
        } else {
            None
        }
    }
}

/// The opened linear combination
/// `k0 D1 + k1 D2 + k2 D3 + k3 P + k4 P x^steps + k5 B + k6 B x^steps + k7 B3
///  + k8 B3 x^steps + k9 A + k10 S`.
pub open spec fn combination(f: Field, k: Seq<u64>, v: Seq<u64>, xs: int) -> int {
    let (p, a, s, d1, d2, d3, b, b3) = (
        v[0] as int,
        v[4] as int,
        v[6] as int,
        v[7] as int,
        v[8] as int,
        v[9] as int,
        v[10] as int,
        v[11] as int,
    );
    let t = f.fadd(f.fmul(k[0] as int, d1), f.fmul(k[1] as int, d2));
    let t = f.fadd(t, f.fmul(k[2] as int, d3));
    let t = f.fadd(t, f.fmul(k[3] as int, p));
    let t = f.fadd(t, f.fmul(f.fmul(k[4] as int, p), xs));
    let t = f.fadd(t, f.fmul(k[5] as int, b));
    let t = f.fadd(t, f.fmul(f.fmul(k[6] as int, b), xs));
    let t = f.fadd(t, f.fmul(k[7] as int, b3));
    let t = f.fadd(t, f.fmul(f.fmul(k[8] as int, b3), xs));
    let t = f.fadd(t, f.fmul(k[9] as int, a));
    f.fadd(t, f.fmul(k[10] as int, s))
}

/// The outcome of the checks at the position with index `i`: `None` when all pass, else
/// the first failure, in the order the verifier meets them.
pub open spec fn spot_outcome(
    f: Field,
    inst: R1csInstance,
    params: VerifierParams,
    op: Openings,
    i: int,
) -> Option<VerifyError> {
    let steps = params.steps as nat;
    let precision = params.precision as nat;
    let skips = params.skips as int;
    let xs = trace_points(precision);
    let pos = op.positions@[i];
    if pos >= precision {
        Some(VerifyError::PositionOutOfRange(i as usize))
    } else {
        match opened_values(f, op.main_branch_leaves@, i) {
            None => Some(VerifyError::MalformedLeaf(i as usize)),
            Some(v) => {
                let x = xs[pos as int] as int;
                let (p, p_prev, p_w, p_2w, a, a_prev, s, d1, d2, d3, b, b3) = (
                    v[0] as int,
                    v[1] as int,
                    v[2] as int,
                    v[3] as int,
                    v[4] as int,
                    v[5] as int,
                    v[6] as int,
                    v[7] as int,
                    v[8] as int,
                    v[9] as int,
                    v[10] as int,
                    v[11] as int,
                );
                let z = z_evaluations(f, steps, precision)[pos as int] as int;
                let kx = f.poly_eval(interp_coeffs(f, pad_zeros(inst.coefficients@, steps)), x);
                let f0 = f.poly_eval(interp_coeffs(f, inst.flag0@), x);
                let f1 = f.poly_eval(interp_coeffs(f, inst.flag1@), x);
                let f2 = f.poly_eval(interp_coeffs(f, inst.flag2@), x);
                let r = op.r@;
                let ei = extension(f, index_values(steps), precision)[pos as int] as int;
                let ep = extension(
                    f,
                    permuted_values(inst.permuted_indices@, params.unpadded_steps as nat, steps),
                    precision,
                )[pos as int] as int;
                let val_nmr = perm_term(f, r, ei, s);
                let val_dnm = perm_term(f, r, ep, s);
                let pfi = inst.public_first_indices@;
                let zb2 = zb2_spec(f, pfi, xs, skips, pfi.len(), pos as int);
                let i2 = lagrange_sum(
                    f,
                    i2_points(pfi, xs, skips),
                    i2_values(pfi, inst.public_wires@),
                    x,
                    pfi.len(),
                ) % f.p();
                let zb3 = f.fsub(x, xs[(steps - 1) * skips] as int);
                if f.fmul(f0, f.fsub(f.fsub(p, f.fmul(f1, p_prev)), f.fmul(kx, s))) != f.fmul(z, d1) {
                    Some(VerifyError::CheckFailed(Check::FirstTransition, i as usize))
                } else if f.fmul(f2, f.fsub(p_2w, f.fmul(p, p_w))) != f.fmul(z, d2) {
                    Some(VerifyError::CheckFailed(Check::SecondTransition, i as usize))
                } else if f.fsub(f.fmul(a, val_dnm), f.fmul(a_prev, val_nmr)) != f.fmul(z, d3) {
                    Some(VerifyError::CheckFailed(Check::Permutation, i as usize))
                } else if f.fsub(s, i2) != f.fmul(zb2, b) {
                    Some(VerifyError::CheckFailed(Check::PublicWires, i as usize))
                } else if f.fsub(a, 1) != f.fmul(zb3, b3) {
                    Some(VerifyError::CheckFailed(Check::Accumulator, i as usize))
                } else {
                    match if i < op.linear_comb_branch_leaves@.len() {
                        leaf_elem(f, op.linear_comb_branch_leaves@[i]@)
                    } else {
                        None
                    } {
                        None => Some(VerifyError::MalformedLeaf(i as usize)),
                        Some(l) => if l as int != combination(f, op.k@, v, f.pow_spec(x, steps)) {
                            Some(VerifyError::CheckFailed(Check::LinearCombination, i as usize))
                        } else {
                            None
                        },
                    }
                }
            },
        }
    }
}

/// The opened values at position `i` satisfy every constraint at the point
/// `x = xs[positions[i]]` of the evaluation domain, where `v` are the twelve values opened
/// in the main tree (`P(x)`, `P` one step back, `P` a third and two thirds ahead, `A(x)`, `A`
/// one step back, `S(x)`, `D1`, `D2`, `D3`, `B2`, `B3`) and `l` the one opened in the
/// linear-combination tree:
/// - first transition: `F0(x) * (P(x) - F1(x) * P(x - w) - K(x) * S(x)) = Z(x) * D1(x)`;
/// - second transition: `F2(x) * (P(x + 2d) - P(x) * P(x + d)) = Z(x) * D2(x)`;
/// - permutation: `A(x) * val_dnm(x) - A(x - w) * val_nmr(x) = Z(x) * D3(x)`;
/// - public wires: `S(x) - I2(x) = Zb2(x) * B2(x)`, with `I2` the interpolant through the
///   public wires;
/// - accumulator: `A(x) - 1 = (x - last trace point) * B3(x)`;
/// - linear combination: `l` is the weighted sum of the opened values.
pub open spec fn position_consistent(
    f: Field,
    inst: R1csInstance,
    params: VerifierParams,
    op: Openings,
    i: int,
) -> bool {
    let steps = params.steps as nat;
    let precision = params.precision as nat;
    let skips = params.skips as int;
    let xs = trace_points(precision);
    let pos = op.positions@[i];
    &&& pos < precision
    &&& opened_values(f, op.main_branch_leaves@, i) is Some
    &&& i < op.linear_comb_branch_leaves@.len()
    &&& leaf_elem(f, op.linear_comb_branch_leaves@[i]@) is Some
    &&& {
        let v = opened_values(f, op.main_branch_leaves@, i).unwrap();
        let l = leaf_elem(f, op.linear_comb_branch_leaves@[i]@).unwrap();
        let x = xs[pos as int] as int;
        let z = z_evaluations(f, steps, precision)[pos as int] as int;
        let kx = f.poly_eval(interp_coeffs(f, pad_zeros(inst.coefficients@, steps)), x);
        let f0 = f.poly_eval(interp_coeffs(f, inst.flag0@), x);
        let f1 = f.poly_eval(interp_coeffs(f, inst.flag1@), x);
        let f2 = f.poly_eval(interp_coeffs(f, inst.flag2@), x);
        let r = op.r@;
        let ei = extension(f, index_values(steps), precision)[pos as int] as int;
        let ep = extension(
            f,
            permuted_values(inst.permuted_indices@, params.unpadded_steps as nat, steps),
            precision,
        )[pos as int] as int;
        let pfi = inst.public_first_indices@;
        let i2 = lagrange_sum(
            f,
            i2_points(pfi, xs, skips),
            i2_values(pfi, inst.public_wires@),
            x,
            pfi.len(),
        ) % f.p();
        let zb2 = zb2_spec(f, pfi, xs, skips, pfi.len(), pos as int);
        let zb3 = (x - xs[(steps - 1) * skips] as int) % f.p();
        let val_nmr = (r[0] + r[1] * ei + r[2] * v[6]) % f.p();
        let val_dnm = (r[0] + r[1] * ep + r[2] * v[6]) % f.p();
        let p = f.p();
        &&& (f0 * (v[0] - f1 * v[1] - kx * v[6])) % p == (z * v[7]) % p
        &&& (f2 * (v[3] - v[0] * v[2])) % p == (z * v[8]) % p
        &&& (v[4] * val_dnm - v[5] * val_nmr) % p == (z * v[9]) % p
        &&& (v[6] - i2) % p == (zb2 * v[10]) % p
        &&& (v[4] - 1) % p == (zb3 * v[11]) % p
        &&& l as int == combination(f, op.k@, v, f.pow_spec(x, steps))
    }
}

/// Every position that passes the spot checks is consistent: the opened values satisfy
/// each of the six constraint equations at its point.
pub proof fn lemma_passing_position_consistent(
    f: Field,
    inst: R1csInstance,
    params: VerifierParams,
    op: Openings,
    i: int,
)
    requires
        f.wf(),
        openings_wf(f, op),
        0 <= i < op.positions@.len(),
        spot_outcome(f, inst, params, op, i) is None,
    ensures
        position_consistent(f, inst, params, op, i),
{
    let p = f.p();
    let steps = params.steps as nat;
    let precision = params.precision as nat;
    let xs = trace_points(precision);
    let pos = op.positions@[i];
    let v = opened_values(f, op.main_branch_leaves@, i).unwrap();
    let x = xs[pos as int] as int;
    let r = op.r@;
    let ei = extension(f, index_values(steps), precision)[pos as int] as int;
    let ep = extension(
        f,
        permuted_values(inst.permuted_indices@, params.unpadded_steps as nat, steps),
        precision,
    )[pos as int] as int;
    let kx = f.poly_eval(interp_coeffs(f, pad_zeros(inst.coefficients@, steps)), x);
    let f0 = f.poly_eval(interp_coeffs(f, inst.flag0@), x);
    let f1 = f.poly_eval(interp_coeffs(f, inst.flag1@), x);
    let f2 = f.poly_eval(interp_coeffs(f, inst.flag2@), x);
    let (p0, p1, p2, p3, a0, a1, s0) = (
        v[0] as int,
        v[1] as int,
        v[2] as int,
        v[3] as int,
        v[4] as int,
        v[5] as int,
        v[6] as int,
    );
    // first transition
    let t1 = f.fmul(f1, p1);
    let u1 = f.fsub(p0, t1);
    let t2 = f.fmul(kx, s0);
    let w1 = f.fsub(u1, t2);
    lemma_mod_twice(f1 * p1, p);
    lemma_cong_sub(p0, p0, t1, f1 * p1, p);
    lemma_mod_twice(p0 - f1 * p1, p);
    lemma_mod_twice(kx * s0, p);
    lemma_cong_sub(u1, p0 - f1 * p1, t2, kx * s0, p);
    lemma_mod_twice(p0 - f1 * p1 - kx * s0, p);
    lemma_cong_mul(f0, f0, w1, p0 - f1 * p1 - kx * s0, p);
    // second transition
    lemma_mod_twice(p0 * p2, p);
    lemma_cong_sub(p3, p3, f.fmul(p0, p2), p0 * p2, p);
    lemma_mod_twice(p3 - p0 * p2, p);
    lemma_cong_mul(f2, f2, f.fsub(p3, f.fmul(p0, p2)), p3 - p0 * p2, p);
    // permutation
    lemma_perm_term_reduces(f, r, ei, s0);
    lemma_perm_term_reduces(f, r, ep, s0);
    let val_nmr = (r[0] + r[1] * ei + r[2] * s0) % p;
    let val_dnm = (r[0] + r[1] * ep + r[2] * s0) % p;
    lemma_mod_twice(a0 * val_dnm, p);
    lemma_mod_twice(a1 * val_nmr, p);
    lemma_cong_sub(f.fmul(a0, val_dnm), a0 * val_dnm, f.fmul(a1, val_nmr), a1 * val_nmr, p);
}

/// The permutation term is `r0 + r1 * index + r2 * value` reduced once.
pub proof fn lemma_perm_term_reduces(f: Field, r: Seq<u64>, index: int, value: int)
    requires
        f.wf(),
    ensures
        perm_term(f, r, index, value) == (r[0] + r[1] * index + r[2] * value) % f.p(),
{
    let p = f.p();
    lemma_mod_twice(r[1] * index, p);
    lemma_cong_add(r[0] as int, r[0] as int, f.fmul(r[1] as int, index), r[1] * index, p);
    lemma_mod_twice(r[0] + r[1] * index, p);
    lemma_mod_twice(r[2] * value, p);
    lemma_cong_add(
        f.fadd(r[0] as int, f.fmul(r[1] as int, index)),
        r[0] + r[1] * index,
        f.fmul(r[2] as int, value),
        r[2] * value,
        p,
    );
}

/// Sums of congruent terms are congruent.
proof fn lemma_cong_add(a: int, a2: int, b: int, b2: int, p: int)
    requires
        p > 0,
        a % p == a2 % p,
        b % p == b2 % p,
    ensures
        (a + b) % p == (a2 + b2) % p,
{
    lemma_add_mod_noop(a, b, p);
    lemma_add_mod_noop(a2, b2, p);
}

/// Differences of congruent terms are congruent.
proof fn lemma_cong_sub(a: int, a2: int, b: int, b2: int, p: int)
    requires
        p > 0,
        a % p == a2 % p,
        b % p == b2 % p,
    ensures
        (a - b) % p == (a2 - b2) % p,
{
    lemma_sub_mod_noop(a, b, p);
    lemma_sub_mod_noop(a2, b2, p);
}

/// Products of congruent factors are congruent.
proof fn lemma_cong_mul(a: int, a2: int, b: int, b2: int, p: int)
    requires
        p > 0,
        a % p == a2 % p,
        b % p == b2 % p,
    ensures
        (a * b) % p == (a2 * b2) % p,
{
    lemma_mul_mod_noop_general(a, b, p);
    lemma_mul_mod_noop_general(a2, b2, p);
}

/// Chunk `c` of 32 bytes of `leaf` as an element.
fn chunk_value(f: &Field, leaf: &Vec<u8>, c: usize) -> (r: Option<u64>)
    requires
        f.wf(),
        c < 8,
    ensures
        r == chunk_elem(*f, leaf@, c as nat),
{
    let start = 32 * c;
    if start >= leaf.len() {
        return None;
    }
    let end = if start + 32 <= leaf.len() {
        start + 32
    } else {
        leaf.len()
    };
    let mut bytes: Vec<u8> = Vec::new();
    for k in start..end
        invariant
            start <= end <= leaf@.len(),
            bytes@ =~= leaf@.subrange(start as int, k as int),
    {
        bytes.push(leaf[k]);
    }
    let v = f.from_bytes_le(bytes.as_slice());
    proof {
        assert(bytes@ =~= leaf@.subrange(start as int, end as int));
    }
    v
}

/// An element read from a leaf is below the modulus.
proof fn lemma_chunk_elem_bound(f: Field)
    ensures
        forall|leaf: Seq<u8>, c: nat|
            #[trigger] chunk_elem(f, leaf, c) matches Some(v) ==> v < f.modulus,
{
}

/// A whole leaf as an element.
fn leaf_value(f: &Field, leaf: &Vec<u8>) -> (r: Option<u64>)
    requires
        f.wf(),
    ensures
        r == leaf_elem(*f, leaf@),
{
    f.from_bytes_le(leaf.as_slice())
}

/// The twelve values opened for position `i`.
fn opened(f: &Field, leaves: &Vec<Vec<u8>>, i: usize) -> (r: Option<Vec<u64>>)
    requires
        f.wf(),
    ensures
        r is None <==> opened_values(*f, leaves@, i as int) is None,
        r matches Some(v) ==> v@ == opened_values(*f, leaves@, i as int)->0 && f.all_elems(v@),
{
    if leaves.len() / 4 <= i {
        return None;
    }
    let b0 = &leaves[4 * i];
    let b1 = &leaves[4 * i + 1];
    let b2 = &leaves[4 * i + 2];
    let b3 = &leaves[4 * i + 3];
    let cs: [Option<u64>; 12] = [
        chunk_value(f, b0, 0),
        chunk_value(f, b1, 0),
        chunk_value(f, b2, 0),
        chunk_value(f, b3, 0),
        chunk_value(f, b0, 1),
        chunk_value(f, b1, 1),
        chunk_value(f, b0, 2),
        chunk_value(f, b0, 3),
        chunk_value(f, b0, 4),
        chunk_value(f, b0, 5),
        chunk_value(f, b0, 6),
        chunk_value(f, b0, 7),
    ];
    let ghost spec_cs = seq![
        chunk_elem(*f, b0@, 0),
        chunk_elem(*f, b1@, 0),
        chunk_elem(*f, b2@, 0),
        chunk_elem(*f, b3@, 0),
        chunk_elem(*f, b0@, 1),
        chunk_elem(*f, b1@, 1),
        chunk_elem(*f, b0@, 2),
        chunk_elem(*f, b0@, 3),
        chunk_elem(*f, b0@, 4),
        chunk_elem(*f, b0@, 5),
        chunk_elem(*f, b0@, 6),
        chunk_elem(*f, b0@, 7),
    ];
    proof {
        assert(cs@ =~= spec_cs);
        lemma_chunk_elem_bound(*f);
        assert(leaves@.len() >= 4 * i + 4);
        assert(leaves@[4 * i as int]@ == b0@);
        assert(leaves@[4 * i + 1]@ == b1@);
        assert(leaves@[4 * i + 2]@ == b2@);
        assert(leaves@[4 * i + 3]@ == b3@);
        assert forall|k: int| 0 <= k < 12 implies (#[trigger] spec_cs[k] matches Some(v) ==> v
            < f.modulus) by {
            if k == 0 {
            } else if k == 1 {
            } else if k == 2 {
            } else if k == 3 {
            } else if k == 4 {
            } else if k == 5 {
            } else if k == 6 {
            } else if k == 7 {
            } else if k == 8 {
            } else if k == 9 {
            } else if k == 10 {
            } else {
            }
        }
    }
    let mut out: Vec<u64> = Vec::new();
    for j in 0..12
        invariant
            f.wf(),
            cs@ == spec_cs,
            forall|k: int| 0 <= k < 12 ==> (#[trigger] spec_cs[k] matches Some(v) ==> v < f.modulus),
            leaves@.len() >= 4 * i + 4,
            leaves@[4 * i as int]@ == b0@,
            leaves@[4 * i + 1]@ == b1@,
            leaves@[4 * i + 2]@ == b2@,
            leaves@[4 * i + 3]@ == b3@,
            spec_cs == seq![
                chunk_elem(*f, b0@, 0),
                chunk_elem(*f, b1@, 0),
                chunk_elem(*f, b2@, 0),
                chunk_elem(*f, b3@, 0),
                chunk_elem(*f, b0@, 1),
                chunk_elem(*f, b1@, 1),
                chunk_elem(*f, b0@, 2),
                chunk_elem(*f, b0@, 3),
                chunk_elem(*f, b0@, 4),
                chunk_elem(*f, b0@, 5),
                chunk_elem(*f, b0@, 6),
                chunk_elem(*f, b0@, 7),
            ],
            out@.len() == j,
            forall|k: int| 0 <= k < j ==> #[trigger] spec_cs[k] is Some && out@[k] == spec_cs[k]->0,
            forall|k: int| 0 <= k < j ==> #[trigger] out@[k] < f.modulus,
    {
        match cs[j] {
            Some(v) => {
                out.push(v);
            },
            None => {
                proof {
                    assert(!(spec_cs[j as int] is Some));
                    assert(opened_values(*f, leaves@, i as int) is None);
                }
                return None;
            },
        }
    }
    proof {
        assert(out@ =~= Seq::new(12, |j: int| spec_cs[j]->0));
    }
    Some(out)
}

/// The coefficients of the polynomial with evaluations `v`: padded to a power of two and
/// transformed back.
fn coeffs_from_values(f: &Field, v: Vec<u64>) -> (r: Result<Polynomial<Coefficients>, VerifyError>)
    requires
        f.wf(),
        f.all_elems(v@),
    ensures
        r is Ok <==> ifft_ok(*f, v@),
        r matches Err(e) ==> e == VerifyError::InvalidSetup,
        r matches Ok(c) ==> {
            &&& c@ == interp_coeffs(*f, v@)
            &&& c.wf()
            &&& c.log_size() == next_pow2_exp(v@.len())
            &&& f.all_elems(c@)
        },
{
    let ghost vs = v@;
    let values = match Polynomial::from_values(f, v) {
        Ok(p) => p,
        Err(_) => {
            return Err(VerifyError::InvalidSetup);
        },
    };
    proof {
        lemma_pad_zeros(vs, pow2(next_pow2_exp(vs.len())));
        crate::poly::lemma_next_pow2_exp(vs.len());
    }
    match values.ifft(f) {
        Ok(c) => Ok(c),
        Err(_) => Err(VerifyError::InvalidSetup),
    }
}

/// The evaluations on the domain of `precision` points of the polynomial with
/// coefficients `c`; fails when `c` has more coefficients than that.
fn extend(f: &Field, c: Polynomial<Coefficients>, precision: usize) -> (r: Result<Polynomial<Values>, VerifyError>)
    requires
        f.wf(),
        f.all_elems(c@),
        pow2(next_pow2_exp(precision as nat)) == precision,
        next_pow2_exp(precision as nat) <= f.s_spec(),
    ensures
        r is Ok <==> c@.len() <= precision,
        r matches Err(e) ==> e == VerifyError::InvalidSetup,
        r matches Ok(e) ==> {
            &&& e@ == fft_spec(*f, pad_zeros(c@, precision as nat), next_pow2_exp(precision as nat))
            &&& e@.len() == precision
            &&& f.all_elems(e@)
        },
{
    let mut c = c;
    let ghost before = c@;
    match c.pad_to_size(f, precision) {
        Ok(()) => {},
        Err(_) => {
            return Err(VerifyError::InvalidSetup);
        },
    }
    proof {
        lemma_pad_zeros(before, precision as nat);
    }
    Ok(c.fft(f))
}

/// The tables the spot checks read.
struct Tables {
    xs: Vec<u64>,
    kc: Polynomial<Coefficients>,
    f0c: Polynomial<Coefficients>,
    f1c: Polynomial<Coefficients>,
    f2c: Polynomial<Coefficients>,
    z_ev: Polynomial<Values>,
    ext_i: Polynomial<Values>,
    ext_p: Polynomial<Values>,
    i2c: Polynomial<Coefficients>,
    i3c: Polynomial<Coefficients>,
}

/// The tables hold what the instance defines.
spec fn tables_ok(f: Field, inst: R1csInstance, params: VerifierParams, t: Tables) -> bool {
    let steps = params.steps as nat;
    let precision = params.precision as nat;
    let pfi = inst.public_first_indices@;
    &&& t.xs@ == trace_points(precision)
    &&& t.kc@ == interp_coeffs(f, pad_zeros(inst.coefficients@, steps))
    &&& t.f0c@ == interp_coeffs(f, inst.flag0@)
    &&& t.f1c@ == interp_coeffs(f, inst.flag1@)
    &&& t.f2c@ == interp_coeffs(f, inst.flag2@)
    &&& t.z_ev@ == z_evaluations(f, steps, precision)
    &&& t.ext_i@ == extension(f, index_values(steps), precision)
    &&& t.ext_p@ == extension(
        f,
        permuted_values(inst.permuted_indices@, params.unpadded_steps as nat, steps),
        precision,
    )
    &&& forall|x: int|
        #[trigger] f.poly_eval(t.i2c@, x) == lagrange_sum(
            f,
            i2_points(pfi, trace_points(precision), params.skips as int),
            i2_values(pfi, inst.public_wires@),
            x,
            pfi.len(),
        ) % f.p()
    &&& forall|x: int| #[trigger] f.poly_eval(t.i3c@, x) == 1
    &&& t.z_ev@.len() == precision
    &&& t.ext_i@.len() == precision
    &&& t.ext_p@.len() == precision
    &&& f.all_elems(t.xs@)
    &&& f.all_elems(t.kc@)
    &&& f.all_elems(t.f0c@)
    &&& f.all_elems(t.f1c@)
    &&& f.all_elems(t.f2c@)
    &&& f.all_elems(t.z_ev@)
    &&& f.all_elems(t.ext_i@)
    &&& f.all_elems(t.ext_p@)
    &&& f.all_elems(t.i2c@)
    &&& f.all_elems(t.i3c@)
}

/// The instance's values are field elements and its size matches the parameters.
pub open spec fn instance_wf(f: Field, inst: R1csInstance, params: VerifierParams) -> bool {
    &&& f.all_elems(inst.public_wires@)
    &&& f.all_elems(inst.coefficients@)
    &&& f.all_elems(inst.flag0@)
    &&& f.all_elems(inst.flag1@)
    &&& f.all_elems(inst.flag2@)
    &&& inst.coefficients@.len() == params.unpadded_steps
}

/// `precision` is the power of two `2^(e + 3)` and the field holds a domain of that size.
proof fn lemma_precision_domain(f: Field, params: VerifierParams)
    requires
        params_wf(f, params),
    ensures
        next_pow2_exp(params.precision as nat) == steps_exp(params.unpadded_steps as nat) + 3,
        next_pow2_exp(params.steps as nat) == steps_exp(params.unpadded_steps as nat),
        next_pow2_exp(params.steps as nat + 1) == steps_exp(params.unpadded_steps as nat) + 1,
        pow2(next_pow2_exp(params.precision as nat)) == params.precision,
        pow2(next_pow2_exp(params.steps as nat)) == params.steps,
        pow2(steps_exp(params.unpadded_steps as nat) + 1) <= params.precision,
        params.precision == 8 * params.steps,
{
    let e = steps_exp(params.unpadded_steps as nat);
    lemma_pow2_unfold(e + 3);
    lemma_pow2_unfold(e + 2);
    lemma_pow2_unfold(e + 1);
    lemma_pow2_unfold(e);
    lemma_pow2_pos((e - 1) as nat);
    lemma_next_pow2_exp_unique(pow2(e + 3), e + 3);
    lemma_next_pow2_exp_unique(pow2(e), e);
    lemma_next_pow2_exp_unique(pow2(e) + 1, e + 1);
}

/// `n` zeros.
fn zeros(n: usize) -> (r: Vec<u64>)
    ensures
        r@ == Seq::new(n as nat, |i: int| 0u64),
{
    let mut v: Vec<u64> = Vec::new();
    for i in 0..n
        invariant
            v@ =~= Seq::new(i as nat, |k: int| 0u64),
    {
        v.push(0);
    }
    v
}

/// Builds the tables; fails exactly when the instance's polynomials cannot be built.
fn setup(f: &Field, inst: &R1csInstance, params: &VerifierParams) -> (r: Result<Tables, VerifyError>)
    requires
        f.wf(),
        params_wf(*f, *params),
        instance_wf(*f, *inst, *params),
    ensures
        r is Ok <==> setup_ok(*f, *inst, *params),
        r matches Err(e) ==> e == VerifyError::InvalidSetup,
        r matches Ok(t) ==> tables_ok(*f, *inst, *params, t),
{
    let steps = params.steps;
    let precision = params.precision;
    let skips = params.skips;
    let ghost e = steps_exp(params.unpadded_steps as nat);
    proof {
        lemma_precision_domain(*f, *params);
    }
    // The evaluation points: zeros with the powers of g2 distributed over them.
    let mut xs_poly = match Polynomial::from_coeffs(f, zeros(precision)) {
        Ok(p) => p,
        Err(_) => {
            return Err(VerifyError::InvalidSetup);
        },
    };
    proof {
        lemma_pad_zeros(Seq::new(precision as nat, |i: int| 0u64), precision as nat);
        assert(forall|i: int| 0 <= i < xs_poly@.len() ==> xs_poly@[i] == 0u64);
    }
    let ghost before = xs_poly@;
    xs_poly.distribute_powers(f, params.g2);
    let xs = xs_poly.into_coeffs();
    proof {
        assert forall|i: int| 0 <= i < xs@.len() implies #[trigger] xs@[i] == 0u64 by {
            assert(before[i] == 0u64);
            lemma_mul_basics(f.pow_spec(params.g2 as int, i as nat));
            lemma_small_mod(0, f.p() as nat);
        }
        assert(xs@ =~= trace_points(precision as nat));
    }
    // K: the coefficients, padded with zeros to the trace domain.
    let mut coefficients = inst.coefficients.clone();
    let ghost orig = inst.coefficients@;
    while coefficients.len() < steps
        invariant
            orig.len() <= coefficients@.len() <= steps,
            coefficients@ =~= pad_zeros(orig, coefficients@.len() as nat),
        decreases steps - coefficients.len(),
    {
        coefficients.push(0);
    }
    proof {
        assert(coefficients@ =~= pad_zeros(orig, steps as nat));
        assert(f.all_elems(coefficients@));
    }
    let kc = coeffs_from_values(f, coefficients)?;
    let f0c = coeffs_from_values(f, inst.flag0.clone())?;
    let f1c = coeffs_from_values(f, inst.flag1.clone())?;
    let f2c = coeffs_from_values(f, inst.flag2.clone())?;
    // Z(X) = X^steps - 1 on the evaluation domain.
    let z_poly = match calc_z_polynomial(f, steps) {
        Ok(z) => z,
        Err(_) => {
            return Err(VerifyError::InvalidSetup);
        },
    };
    let ghost zs = Seq::new(steps as nat + 1, |i: int| z_coeff(*f, steps as nat, i) as u64);
    proof {
        crate::poly::lemma_next_pow2_exp(steps as nat + 1);
        lemma_pad_zeros(zs, pow2(next_pow2_exp(steps as nat + 1)));
        assert(z_poly@ =~= pad_zeros(zs, pow2(next_pow2_exp(steps as nat + 1))));
    }
    let z_ev = extend(f, z_poly, precision)?;
    // The extended index polynomial.
    if steps as u64 > f.modulus {
        return Err(VerifyError::InvalidSetup);
    }
    let mut idx: Vec<usize> = Vec::new();
    for i in 0..steps
        invariant
            idx@ =~= Seq::new(i as nat, |k: int| k as usize),
    {
        idx.push(i);
    }
    let idx_f = convert_usize_iter_to_ff_vec(f, idx.as_slice());
    proof {
        assert(idx_f@ =~= index_values(steps as nat));
    }
    let ic = coeffs_from_values(f, idx_f)?;
    let ext_i = extend(f, ic, precision)?;
    // The extended permuted-index polynomial.
    let mut perm: Vec<usize> = Vec::new();
    let ghost pv = permuted_values(inst.permuted_indices@, params.unpadded_steps as nat, steps as nat);
    for i in 0..inst.permuted_indices.len()
        invariant
            perm@.len() == i,
            forall|k: int| 0 <= k < i ==> #[trigger] perm@[k] == inst.permuted_indices@[k],
    {
        perm.push(inst.permuted_indices[i]);
    }
    for i in params.unpadded_steps..steps
        invariant
            perm@.len() == inst.permuted_indices@.len() + (i - params.unpadded_steps),
            perm@.len() >= inst.permuted_indices@.len(),
            forall|k: int| 0 <= k < inst.permuted_indices@.len() ==> #[trigger] perm@[k] == inst.permuted_indices@[k],
            forall|k: int|
                inst.permuted_indices@.len() <= k < perm@.len() ==> #[trigger] perm@[k]
                    == params.unpadded_steps + (k - inst.permuted_indices@.len()),
    {
        perm.push(i);
    }
    proof {
        assert forall|k: int| 0 <= k < perm@.len() implies #[trigger] perm@[k] as u64 == pv[k] by {
            if k < inst.permuted_indices@.len() {
                assert(perm@[k] == inst.permuted_indices@[k]);
            }
        }
    }
    for i in 0..perm.len()
        invariant
            pv == permuted_values(inst.permuted_indices@, params.unpadded_steps as nat, params.steps as nat),
            perm@.len() == pv.len(),
            forall|k: int| 0 <= k < perm@.len() ==> #[trigger] perm@[k] as u64 == pv[k],
            forall|k: int| 0 <= k < i ==> #[trigger] perm@[k] < f.modulus,
    {
        if perm[i] as u64 >= f.modulus {
            proof {
                assert(perm@[i as int] as u64 == pv[i as int]);
                assert(!f.all_elems(pv));
            }
            return Err(VerifyError::InvalidSetup);
        }
    }
    let perm_f = convert_usize_iter_to_ff_vec(f, perm.as_slice());
    proof {
        assert(perm_f@ =~= pv);
    }
    let pc = coeffs_from_values(f, perm_f)?;
    let ext_p = extend(f, pc, precision)?;
    // I2 through the public wires, and I3.
    let pfi = &inst.public_first_indices;
    let mut t: usize = 0;
    while t < pfi.len()
        invariant
            t <= pfi@.len(),
            skips == 8,
            skips == params.skips,
            precision == params.precision,
            pfi@ == inst.public_first_indices@,
            forall|u: int|
                0 <= u < t ==> skips * #[trigger] pfi@[u].1 < precision && pfi@[u].0
                    < inst.public_wires@.len(),
        decreases pfi@.len() - t,
    {
        let (k, w) = pfi[t];
        if (w as u128) * 8 >= precision as u128 || k >= inst.public_wires.len() {
            proof {
                assert(!(skips * pfi@[t as int].1 < precision && pfi@[t as int].0 < inst.public_wires@.len()));
            }
            return Err(VerifyError::InvalidSetup);
        }
        assert(pfi@[t as int].1 == w && pfi@[t as int].0 == k);
        assert(skips * w == w * 8);
        assert(skips * pfi@[t as int].1 < precision && pfi@[t as int].0 < inst.public_wires@.len());
        t = t + 1;
    }
    assert(xs@ == trace_points(precision as nat));
    assert(xs@.len() == precision);
    assert forall|u: int| 0 <= u < pfi@.len() implies skips * #[trigger] pfi@[u].1 < xs@.len()
        && pfi@[u].0 < inst.public_wires@.len() by {}
    let i2c = match calc_i2_polynomial(f, pfi.as_slice(), xs.as_slice(), inst.public_wires.as_slice(), skips) {
        Ok(c) => c,
        Err(_) => {
            proof {
                assert(!(denominators_invertible(*f, i2_points(pfi@, xs@, skips as int)) && fits_domain(*f, pfi@.len())));
            }
            return Err(VerifyError::InvalidSetup);
        },
    };
    let i3c = match calc_i3_polynomial(f, xs.as_slice(), skips) {
        Ok(c) => c,
        Err(_) => {
            return Err(VerifyError::InvalidSetup);
        },
    };
    Ok(Tables { xs, kc, f0c, f1c, f2c, z_ev, ext_i, ext_p, i2c, i3c })
}

/// The randomness has the three randomizers and eleven weights, all field elements.
pub open spec fn openings_wf(f: Field, op: Openings) -> bool {
    &&& op.r@.len() >= 3
    &&& op.k@.len() >= 11
    &&& f.all_elems(op.r@)
    &&& f.all_elems(op.k@)
}

/// Runs the checks at the position with index `i`.
fn check_position(
    f: &Field,
    inst: &R1csInstance,
    params: &VerifierParams,
    op: &Openings,
    t: &Tables,
    i: usize,
) -> (r: Option<VerifyError>)
    requires
        f.wf(),
        params_wf(*f, *params),
        instance_wf(*f, *inst, *params),
        setup_ok(*f, *inst, *params),
        tables_ok(*f, *inst, *params, *t),
        openings_wf(*f, *op),
        i < op.positions@.len(),
    ensures
        r == spot_outcome(*f, *inst, *params, *op, i as int),
{
    let pos = op.positions[i];
    if pos >= params.precision {
        return Some(VerifyError::PositionOutOfRange(i));
    }
    proof {
        lemma_precision_domain(*f, *params);
    }
    let x = t.xs[pos];
    let v = match opened(f, &op.main_branch_leaves, i) {
        Some(v) => v,
        None => {
            return Some(VerifyError::MalformedLeaf(i));
        },
    };
    let p = v[0];
    let p_prev = v[1];
    let p_w = v[2];
    let p_2w = v[3];
    let a = v[4];
    let a_prev = v[5];
    let s = v[6];
    let d1 = v[7];
    let d2 = v[8];
    let d3 = v[9];
    let b = v[10];
    let b3 = v[11];
    let z = t.z_ev.as_ref()[pos];
    let kx = t.kc.evaluate_at(f, x);
    let f0 = t.f0c.evaluate_at(f, x);
    let f1 = t.f1c.evaluate_at(f, x);
    let f2 = t.f2c.evaluate_at(f, x);
    // Q1(x) = Z(x) * D1(x)
    let lhs1 = f.mul(f0, f.sub(f.sub(p, f.mul(f1, p_prev)), f.mul(kx, s)));
    if lhs1 != f.mul(z, d1) {
        return Some(VerifyError::CheckFailed(Check::FirstTransition, i));
    }
    // Q2(x) = Z(x) * D2(x)
    let lhs2 = f.mul(f2, f.sub(p_2w, f.mul(p, p_w)));
    if lhs2 != f.mul(z, d2) {
        return Some(VerifyError::CheckFailed(Check::SecondTransition, i));
    }
    // Q3(x) = Z(x) * D3(x)
    let val_nmr = perm_value(f, op.r.as_slice(), t.ext_i.as_ref()[pos], s);
    let val_dnm = perm_value(f, op.r.as_slice(), t.ext_p.as_ref()[pos], s);
    let lhs3 = f.sub(f.mul(a, val_dnm), f.mul(a_prev, val_nmr));
    if lhs3 != f.mul(z, d3) {
        return Some(VerifyError::CheckFailed(Check::Permutation, i));
    }
    // S(x) - I2(x) = Zb2(x) * B(x)
    let pfi = &inst.public_first_indices;
    let mut zb2: u64 = 1;
    for u in 0..pfi.len()
        invariant
            f.wf(),
            pfi@ == inst.public_first_indices@,
            params_wf(*f, *params),
            setup_ok(*f, *inst, *params),
            t.xs@ == trace_points(params.precision as nat),
            f.all_elems(t.xs@),
            pos < params.precision,
            x == t.xs@[pos as int],
            zb2 < f.modulus,
            zb2 == zb2_spec(*f, pfi@, t.xs@, params.skips as int, u as nat, pos as int),
    {
        let (_, w) = pfi[u];
        assert(params.skips * pfi@[u as int].1 < params.precision);
        let d = f.sub(x, t.xs[w * params.skips]);
        zb2 = f.mul(zb2, d);
    }
    let i2 = t.i2c.evaluate_at(f, x);
    assert(f.poly_eval(t.i2c@, x as int) == lagrange_sum(
        *f,
        i2_points(pfi@, trace_points(params.precision as nat), params.skips as int),
        i2_values(pfi@, inst.public_wires@),
        x as int,
        pfi@.len(),
    ) % f.p());
    if f.sub(s, i2) != f.mul(zb2, b) {
        return Some(VerifyError::CheckFailed(Check::PublicWires, i));
    }
    // A(x) - I3(x) = Zb3(x) * B3(x)
    let x_of_last_step = t.xs[(params.steps - 1) * params.skips];
    let zb3 = f.sub(x, x_of_last_step);
    let i3 = t.i3c.evaluate_at(f, x);
    assert(f.poly_eval(t.i3c@, x as int) == 1);
    if f.sub(a, i3) != f.mul(zb3, b3) {
        return Some(VerifyError::CheckFailed(Check::Accumulator, i));
    }
    // The linear combination.
    if i >= op.linear_comb_branch_leaves.len() {
        return Some(VerifyError::MalformedLeaf(i));
    }
    let l = match leaf_value(f, &op.linear_comb_branch_leaves[i]) {
        Some(l) => l,
        None => {
            return Some(VerifyError::MalformedLeaf(i));
        },
    };
    let xsteps = f.pow(x, params.steps as u64);
    let k = &op.k;
    let mut c = f.add(f.mul(k[0], d1), f.mul(k[1], d2));
    c = f.add(c, f.mul(k[2], d3));
    c = f.add(c, f.mul(k[3], p));
    c = f.add(c, f.mul(f.mul(k[4], p), xsteps));
    c = f.add(c, f.mul(k[5], b));
    c = f.add(c, f.mul(f.mul(k[6], b), xsteps));
    c = f.add(c, f.mul(k[7], b3));
    c = f.add(c, f.mul(f.mul(k[8], b3), xsteps));
    c = f.add(c, f.mul(k[9], a));
    c = f.add(c, f.mul(k[10], s));
    if l != c {
        return Some(VerifyError::CheckFailed(Check::LinearCombination, i));
    }
    None
}

/// The spot checks of a proof: builds the instance's polynomials and checks every opened
/// position in turn. `Ok(true)` exactly when the polynomials can be built and every
/// position passes; otherwise the first failure.
pub fn verify_openings(f: &Field, inst: &R1csInstance, params: &VerifierParams, op: &Openings) -> (r:
    Result<bool, VerifyError>)
    requires
        f.wf(),
        params_wf(*f, *params),
        instance_wf(*f, *inst, *params),
        openings_wf(*f, *op),
    ensures
        !setup_ok(*f, *inst, *params) ==> r == Err::<bool, VerifyError>(VerifyError::InvalidSetup),
        setup_ok(*f, *inst, *params) ==> (r == Ok::<bool, VerifyError>(true) <==> forall|i: int|
            0 <= i < op.positions@.len() ==> #[trigger] spot_outcome(*f, *inst, *params, *op, i)
                is None),
        setup_ok(*f, *inst, *params) && r is Err ==> exists|i: int|
            0 <= i < op.positions@.len() && spot_outcome(*f, *inst, *params, *op, i) == Some(
                r->Err_0,
            ) && forall|j: int| 0 <= j < i ==> #[trigger] spot_outcome(*f, *inst, *params, *op, j) is None,
        r is Ok ==> r == Ok::<bool, VerifyError>(true),
        r == Ok::<bool, VerifyError>(true) ==> forall|i: int|
            0 <= i < op.positions@.len() ==> #[trigger] position_consistent(*f, *inst, *params, *op, i),
{
    let t = setup(f, inst, params)?;
    for i in 0..op.positions.len()
        invariant
            f.wf(),
            params_wf(*f, *params),
            instance_wf(*f, *inst, *params),
            setup_ok(*f, *inst, *params),
            tables_ok(*f, *inst, *params, t),
            openings_wf(*f, *op),
            forall|j: int| 0 <= j < i ==> #[trigger] spot_outcome(*f, *inst, *params, *op, j) is None,
    {
        match check_position(f, inst, params, op, &t, i) {
            Some(e) => {
                return Err(e);
            },
            None => {},
        }
    }
    proof {
        assert forall|i: int| 0 <= i < op.positions@.len() implies #[trigger] position_consistent(
            *f,
            *inst,
            *params,
            *op,
            i,
        ) by {
            lemma_passing_position_consistent(*f, *inst, *params, *op, i);
        }
    }
    Ok(true)
}

/// The four positions opened in the main tree for position `j`: itself, one step back,
/// and the two positions a third and two thirds of the unpadded steps ahead.
pub open spec fn augmented(j: int, precision: int, skips: int, unpadded_steps: int) -> Seq<int> {
    seq![
        j,
        (j + precision - skips) % precision,
        (j + unpadded_steps / 3 * skips) % precision,
        (j + 2 * unpadded_steps / 3 * skips) % precision,
    ]
}

/// The positions to open in the main tree: for each sampled position, the four it is
/// checked against, in order.
pub fn augment_positions(positions: &[usize], precision: usize, skips: usize, unpadded_steps: usize) -> (r:
    Vec<usize>)
    requires
        skips <= precision,
        2 * precision <= usize::MAX,
        2 * unpadded_steps <= usize::MAX,
        2 * unpadded_steps / 3 * skips <= precision,
        forall|i: int| 0 <= i < positions@.len() ==> #[trigger] positions@[i] < precision,
    ensures
        r@.len() == 4 * positions@.len(),
        forall|i: int, k: int|
            0 <= i < positions@.len() && 0 <= k < 4 ==> #[trigger] r@[4 * i + k] == augmented(
                positions@[i] as int,
                precision as int,
                skips as int,
                unpadded_steps as int,
            )[k],
{
    proof {
        assert(unpadded_steps / 3 <= 2 * unpadded_steps / 3) by (nonlinear_arith)
            requires unpadded_steps >= 0;
        assert(unpadded_steps / 3 * skips <= 2 * unpadded_steps / 3 * skips) by (nonlinear_arith)
            requires
                unpadded_steps / 3 <= 2 * unpadded_steps / 3,
                skips >= 0,
        ;
    }
    let third = unpadded_steps / 3 * skips;
    let two_thirds = 2 * unpadded_steps / 3 * skips;
    let mut out: Vec<usize> = Vec::new();
    for i in 0..positions.len()
        invariant
            skips <= precision,
            2 * precision <= usize::MAX,
            third == unpadded_steps / 3 * skips,
            two_thirds == 2 * unpadded_steps / 3 * skips,
            third <= two_thirds <= precision,
            forall|u: int| 0 <= u < positions@.len() ==> #[trigger] positions@[u] < precision,
            out@.len() == 4 * i,
            forall|u: int, k: int|
                0 <= u < i && 0 <= k < 4 ==> #[trigger] out@[4 * u + k] == augmented(
                    positions@[u] as int,
                    precision as int,
                    skips as int,
                    unpadded_steps as int,
                )[k],
    {
        let j = positions[i];
        out.push(j);
        out.push((j + precision - skips) % precision);
        out.push((j + third) % precision);
        out.push((j + two_thirds) % precision);
        proof {
            assert forall|u: int, k: int| 0 <= u < i + 1 && 0 <= k < 4 implies #[trigger] out@[4 * u + k]
                == augmented(positions@[u] as int, precision as int, skips as int, unpadded_steps as int)[k] by {
                if u == i {
                    assert(4 * u + k == 4 * i + k);
                }
            }
        }
    }
    out
}

} // verus!
