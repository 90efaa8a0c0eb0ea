use r1cs_stark::constraints::{calc_i2_polynomial, calc_z_polynomial};
use r1cs_stark::field::Field;
use r1cs_stark::poly::{Coefficients, Polynomial, Values};
use r1cs_stark::stark_verify::{
    augment_positions, verifier_params, verify_openings, Check, Openings, R1csInstance,
    VerifierParams, VerifyError,
};

fn f193() -> Field {
    Field::new(193, 5).unwrap()
}

#[test]
fn params_for_a_small_instance() {
    let f = f193();
    let p = verifier_params(&f, 6, 1, 2).unwrap();
    assert_eq!(p.unpadded_steps, 6);
    assert_eq!(p.log_steps, 3);
    assert_eq!(p.steps, 8);
    assert_eq!(p.precision, 64);
    assert_eq!(p.skips, 8);
    assert_eq!(p.g2, f.pow(5, 3));
    assert_eq!(f.pow(p.g2, 64), 1);
    let q = verifier_params(&f, 3, 1, 1).unwrap();
    assert_eq!(q.log_steps, 2);
    assert_eq!(q.steps, 8);
}

#[test]
fn params_reject_bad_instances() {
    let f = f193();
    assert_eq!(verifier_params(&f, 9, 1, 2).err(), Some(VerifyError::TooManySteps));
    assert_eq!(verifier_params(&f, 4, 1, 2).err(), Some(VerifyError::StepsNotMultipleOfThree));
    assert_eq!(verifier_params(&f, 0, 1, 2).err(), Some(VerifyError::NoSteps));
    // 2^6 divides 192: 12 steps need 16 * 8 = 128 points.
    assert_eq!(verifier_params(&f, 12, 4, 1).err(), Some(VerifyError::PrecisionTooLarge));
    // 97: two-adicity 5, too small even for 8 steps.
    let g = Field::new(97, 5).unwrap();
    assert_eq!(verifier_params(&g, 6, 1, 2).err(), Some(VerifyError::PrecisionTooLarge));
    // 2^64 - 59: p - 1 = 2 * odd.
    let h = Field::new(18446744073709551557, 2).unwrap();
    assert_eq!(verifier_params(&h, 6, 1, 2).err(), Some(VerifyError::PrecisionTooLarge));
    assert_eq!(verifier_params(&f, 6, usize::MAX, usize::MAX).is_ok(), true);
}

#[test]
fn augmented_positions_four_per_position() {
    let out = augment_positions(&[3, 60], 64, 8, 6);
    assert_eq!(out, vec![3, 59, 19, 35, 60, 52, 12, 28]);
}

fn elem_bytes(f: &Field, vals: &[u64]) -> Vec<u8> {
    let mut out = vec![];
    for &v in vals {
        out.extend(f.to_bytes_le(v));
    }
    out
}

struct Fixture {
    f: Field,
    inst: R1csInstance,
    params: VerifierParams,
    op: Openings,
}

fn coeffs_of(f: &Field, v: Vec<u64>) -> Polynomial<Coefficients> {
    Polynomial::<Values>::from_values(f, v).unwrap().ifft(f).unwrap()
}

fn extended(f: &Field, v: Vec<u64>, precision: usize) -> Vec<u64> {
    let mut c = coeffs_of(f, v);
    c.pad_to_size(f, precision).unwrap();
    c.fft(f).into_coeffs()
}

fn honest_fixture() -> Fixture {
    let f = f193();
    let inst = R1csInstance {
        public_wires: vec![42],
        public_first_indices: vec![(0, 1)],
        permuted_indices: vec![1, 0, 2, 3, 5, 4],
        coefficients: vec![3, 1, 4, 1, 5, 9],
        flag0: vec![1, 0, 1, 0, 1, 0, 1, 0],
        flag1: vec![2, 7, 1, 8, 2, 8, 1, 8],
        flag2: vec![0, 1, 0, 1, 0, 1, 0, 1],
    };
    let params = verifier_params(&f, 6, 1, 2).unwrap();
    let precision = params.precision;
    let mut padded = inst.coefficients.clone();
    padded.extend(vec![0; params.steps - 6]);
    let kx = coeffs_of(&f, padded).evaluate_at(&f, 0);
    let f0 = coeffs_of(&f, inst.flag0.clone()).evaluate_at(&f, 0);
    let f1 = coeffs_of(&f, inst.flag1.clone()).evaluate_at(&f, 0);
    let f2 = coeffs_of(&f, inst.flag2.clone()).evaluate_at(&f, 0);
    let mut zc = calc_z_polynomial(&f, params.steps).unwrap();
    zc.pad_to_size(&f, precision).unwrap();
    let z_ev = zc.fft(&f).into_coeffs();
    let ext_i = extended(&f, (0..8).collect(), precision);
    let ext_p = extended(&f, vec![1, 0, 2, 3, 5, 4, 6, 7], precision);
    let xs = vec![0u64; precision];
    let i2 = calc_i2_polynomial(&f, &inst.public_first_indices, &xs, &inst.public_wires, 8)
        .unwrap()
        .evaluate_at(&f, 0);
    assert_eq!(i2, 42);
    let r = vec![11u64, 13, 17];
    let k: Vec<u64> = (1..12).collect();
    let positions = vec![3usize, 10];
    let mut main = vec![];
    let mut lc = vec![];
    for (n, &pos) in positions.iter().enumerate() {
        let base = n as u64 * 7;
        let (p, p_prev, p_w, p_2w) = (base + 1, base + 2, base + 3, base + 4);
        let (a, a_prev, s, b, b3) = (1u64, base + 5, 42u64, base + 6, base + 7);
        let z = z_ev[pos];
        let z_inv = f.inverse(z).unwrap();
        let q1 = f.mul(f0, f.sub(f.sub(p, f.mul(f1, p_prev)), f.mul(kx, s)));
        let q2 = f.mul(f2, f.sub(p_2w, f.mul(p, p_w)));
        let nm = f.add(f.add(r[0], f.mul(r[1], ext_i[pos])), f.mul(r[2], s));
        let dn = f.add(f.add(r[0], f.mul(r[1], ext_p[pos])), f.mul(r[2], s));
        let q3 = f.sub(f.mul(a, dn), f.mul(a_prev, nm));
        let (d1, d2, d3) = (f.mul(q1, z_inv), f.mul(q2, z_inv), f.mul(q3, z_inv));
        main.push(elem_bytes(&f, &[p, a, s, d1, d2, d3, b, b3]));
        main.push(elem_bytes(&f, &[p_prev, a_prev]));
        main.push(elem_bytes(&f, &[p_w]));
        main.push(elem_bytes(&f, &[p_2w]));
        let terms = [
            f.mul(k[0], d1),
            f.mul(k[1], d2),
            f.mul(k[2], d3),
            f.mul(k[3], p),
            f.mul(k[5], b),
            f.mul(k[7], b3),
            f.mul(k[9], a),
            f.mul(k[10], s),
        ];
        let l = terms.iter().fold(0, |acc, &t| f.add(acc, t));
        lc.push(f.to_bytes_le(l));
    }
    let op = Openings { positions, main_branch_leaves: main, linear_comb_branch_leaves: lc, r, k };
    Fixture { f, inst, params, op }
}

#[test]
fn honest_openings_pass() {
    let fx = honest_fixture();
    assert_eq!(verify_openings(&fx.f, &fx.inst, &fx.params, &fx.op), Ok(true));
}

#[test]
fn tampered_quotient_fails_first_transition() {
    let mut fx = honest_fixture();
    fx.op.main_branch_leaves[4][3 * 32] ^= 1;
    assert_eq!(
        verify_openings(&fx.f, &fx.inst, &fx.params, &fx.op),
        Err(VerifyError::CheckFailed(Check::FirstTransition, 1))
    );
}

#[test]
fn tampered_values_fail_their_checks() {
    let mut fx = honest_fixture();
    fx.op.main_branch_leaves[3][0] ^= 1; // P(x + 2k)
    assert_eq!(
        verify_openings(&fx.f, &fx.inst, &fx.params, &fx.op),
        Err(VerifyError::CheckFailed(Check::SecondTransition, 0))
    );
    let mut fx = honest_fixture();
    fx.op.main_branch_leaves[1][32] ^= 1; // A(x - w)
    assert_eq!(
        verify_openings(&fx.f, &fx.inst, &fx.params, &fx.op),
        Err(VerifyError::CheckFailed(Check::Permutation, 0))
    );
    let mut fx = honest_fixture();
    fx.op.linear_comb_branch_leaves[0][0] ^= 1;
    assert_eq!(
        verify_openings(&fx.f, &fx.inst, &fx.params, &fx.op),
        Err(VerifyError::CheckFailed(Check::LinearCombination, 0))
    );
}

#[test]
fn malformed_openings_are_rejected() {
    let mut fx = honest_fixture();
    fx.op.positions[0] = 64;
    assert_eq!(
        verify_openings(&fx.f, &fx.inst, &fx.params, &fx.op),
        Err(VerifyError::PositionOutOfRange(0))
    );
    let mut fx = honest_fixture();
    fx.op.main_branch_leaves[0].truncate(32 * 7);
    assert_eq!(
        verify_openings(&fx.f, &fx.inst, &fx.params, &fx.op),
        Err(VerifyError::MalformedLeaf(0))
    );
    let mut fx = honest_fixture();
    fx.op.main_branch_leaves.truncate(6);
    assert_eq!(
        verify_openings(&fx.f, &fx.inst, &fx.params, &fx.op),
        Err(VerifyError::MalformedLeaf(1))
    );
    let mut fx = honest_fixture();
    fx.op.linear_comb_branch_leaves[1] = vec![200];
    assert_eq!(
        verify_openings(&fx.f, &fx.inst, &fx.params, &fx.op),
        Err(VerifyError::MalformedLeaf(1))
    );
}

#[test]
fn instance_that_cannot_be_built_is_rejected() {
    let mut fx = honest_fixture();
    // Two public wires at the same (zero) point cannot be interpolated.
    fx.inst.public_wires = vec![1, 2];
    fx.inst.public_first_indices = vec![(0, 1), (1, 2)];
    assert_eq!(
        verify_openings(&fx.f, &fx.inst, &fx.params, &fx.op),
        Err(VerifyError::InvalidSetup)
    );
    let mut fx = honest_fixture();
    fx.inst.public_first_indices = vec![(0, 8)];
    assert_eq!(
        verify_openings(&fx.f, &fx.inst, &fx.params, &fx.op),
        Err(VerifyError::InvalidSetup)
    );
}
