use r1cs_stark::constraints::{
    calc_a_mini_evaluations, calc_b2_evaluations, calc_b3_evaluations, calc_d1_evaluations,
    calc_d2_evaluations, calc_d3_evaluations, calc_i2_polynomial, calc_i3_polynomial,
    calc_q1_evaluations, calc_q2_evaluations, calc_q3_evaluations, calc_z_polynomial,
    calc_zb2_evaluations, calc_zb3_evaluations, r1cs_computational_trace,
};
use r1cs_stark::field::Field;
use r1cs_stark::interp::lagrange_interp;
use r1cs_stark::poly::{evaluate, multi_inv, Polynomial, SynthesisError, Values};

fn f97() -> Field {
    Field::new(97, 5).unwrap()
}

fn vals(f: &Field, v: &[u64]) -> Polynomial<Values> {
    Polynomial::<Values>::from_values(f, v.to_vec()).unwrap()
}

#[test]
fn computational_trace_example() {
    let f = f97();
    let tr = r1cs_computational_trace(&f, &[4, 5, 6, 7, 8, 9, 10, 11, 12], &[1, 2, 3]);
    assert_eq!(
        tr,
        vec![1, 2, 3, 1, 2, 3, 1, 2, 3, 4, 14, 32, 7, 23, 50, 10, 32, 68]
    );
}

#[test]
fn first_transition_constraint() {
    let f = f97();
    let q1 = calc_q1_evaluations(
        &f,
        &vals(&f, &[1, 2, 3, 4]),
        &vals(&f, &[5, 6, 7, 8]),
        &vals(&f, &[9, 10, 11, 12]),
        &vals(&f, &[1, 0, 1, 1]),
        &vals(&f, &[2, 3, 4, 5]),
        4,
        1,
    )
    .unwrap();
    assert_eq!(q1.as_ref(), &[77, 0, 47, 22]);
}

#[test]
fn second_transition_constraint() {
    let f = f97();
    let q2 = calc_q2_evaluations(&f, &vals(&f, &[9, 10, 11, 12]), &vals(&f, &[1, 1, 0, 1]), 4, 1, 6)
        .unwrap();
    assert_eq!(q2.as_ref(), &[7, 84, 0, 86]);
}

#[test]
fn permutation_constraint() {
    let f = f97();
    let q3 = calc_q3_evaluations(
        &f,
        &vals(&f, &[1, 2, 3, 4]),
        &vals(&f, &[10, 20, 30, 40]),
        &vals(&f, &[0, 1, 2, 3]),
        &vals(&f, &[2, 0, 3, 1]),
        &[3, 5, 7],
        4,
        1,
    )
    .unwrap();
    assert_eq!(q3.as_ref(), &[91, 23, 5, 60]);
}

#[test]
fn constraint_evaluations_too_large_for_the_field() {
    // p = 7 has a two-adic subgroup of order 2 only.
    let f7 = Field::new(7, 3).unwrap();
    let p = Polynomial::<Values>::from_values(&f7, vec![1, 2]).unwrap();
    let big = vec![p.as_ref()[0], p.as_ref()[1], 0];
    assert!(matches!(
        Polynomial::<Values>::from_values(&f7, big),
        Err(SynthesisError::PolynomialDegreeTooLarge)
    ));
    let q2 = calc_q2_evaluations(&f7, &p, &p, 2, 1, 0).unwrap();
    assert_eq!(q2.as_ref().len(), 2);
}

#[test]
fn accumulator_running_quotient() {
    let f = f97();
    let a = calc_a_mini_evaluations(
        &f,
        &vals(&f, &[1, 2, 3, 4]),
        &vals(&f, &[0, 1, 2, 3]),
        &vals(&f, &[2, 0, 3, 1]),
        &[3, 5, 7],
        4,
        1,
    )
    .unwrap();
    assert_eq!(a.as_ref(), &[49, 52, 13, 22]);
}

#[test]
fn accumulator_satisfies_its_recurrence() {
    let f = f97();
    let s = [1u64, 2, 3, 4];
    let ei = [0u64, 1, 2, 3];
    let ep = [2u64, 0, 3, 1];
    let r = [3u64, 5, 7];
    let a = calc_a_mini_evaluations(&f, &vals(&f, &s), &vals(&f, &ei), &vals(&f, &ep), &r, 4, 1)
        .unwrap();
    let a = a.as_ref();
    for j in 1..4 {
        let nm = (r[0] + r[1] * ei[j] + r[2] * s[j]) % 97;
        let dn = (r[0] + r[1] * ep[j] + r[2] * s[j]) % 97;
        assert_eq!(f.mul(a[j], dn), f.mul(a[j - 1], nm));
    }
}

#[test]
fn quotients_and_boundary_quotients() {
    let f = f97();
    let q = vals(&f, &[6, 0, 9, 12]);
    let z = vals(&f, &[2, 0, 3, 4]);
    let inv_z = vals(&f, &multi_inv(&f, z.as_ref()).unwrap());
    assert_eq!(inv_z.as_ref(), &[49, 0, 65, 73]);
    let d1 = calc_d1_evaluations(&f, &q, &inv_z).unwrap();
    assert_eq!(d1.as_ref(), &[3, 0, 3, 3]);
    for i in 0..4 {
        assert_eq!(f.mul(z.as_ref()[i], d1.as_ref()[i]), q.as_ref()[i]);
    }
    let d2 = calc_d2_evaluations(&f, &q, &inv_z).unwrap();
    let d3 = calc_d3_evaluations(&f, &q, &inv_z).unwrap();
    assert_eq!(d2.as_ref(), d1.as_ref());
    assert_eq!(d3.as_ref(), d1.as_ref());
    let b2 = calc_b2_evaluations(&f, &vals(&f, &[5, 0, 7, 8]), &vals(&f, &[1, 0, 2, 3]), &inv_z)
        .unwrap();
    assert_eq!(b2.as_ref(), &[f.mul(4, 49), 0, f.mul(5, 65), f.mul(5, 73)]);
    let b3 = calc_b3_evaluations(&f, &vals(&f, &[5, 0, 7, 8]), &vals(&f, &[1, 0, 2, 3]), &inv_z)
        .unwrap();
    assert_eq!(b3.as_ref(), b2.as_ref());
}

#[test]
fn multi_inv_sends_zero_to_zero() {
    let f = f97();
    assert_eq!(multi_inv(&f, &[0, 1, 2, 0, 3]).unwrap(), vec![0, 1, 49, 0, 65]);
    let g = Field::new(12, 5).unwrap();
    assert!(matches!(multi_inv(&g, &[5, 4]), Err(SynthesisError::DivisionByZero)));
}

#[test]
fn vanishing_polynomials_of_the_boundaries() {
    let f = f97();
    let xs = [1u64, 5, 25, 28, 43, 21, 8, 40];
    let zb2 = calc_zb2_evaluations(&f, &[(0, 1), (1, 3)], &xs, 8, 2).unwrap();
    // Zb2(x) = (x - xs[2]) * (x - xs[6])
    for i in 0..8 {
        assert_eq!(zb2.as_ref()[i], f.mul(f.sub(xs[i], 25), f.sub(xs[i], 8)));
    }
    assert_eq!(zb2.as_ref()[2], 0);
    assert_eq!(zb2.as_ref()[6], 0);
    let zb3 = calc_zb3_evaluations(&f, &xs, 8, 2).unwrap();
    for i in 0..8 {
        assert_eq!(zb3.as_ref()[i], f.sub(xs[i], 8));
    }
}

#[test]
fn z_polynomial_coefficients() {
    let f = f97();
    let z = calc_z_polynomial(&f, 4).unwrap();
    assert_eq!(z.as_ref(), &[96, 0, 0, 0, 1, 0, 0, 0]);
    // X^4 - 1 vanishes on the fourth roots of unity.
    let w = f.pow(5, 24);
    for i in 0..4 {
        assert_eq!(z.evaluate_at(&f, f.pow(w, i)), 0);
    }
    assert_eq!(z.evaluate_at(&f, 2), 15);
    let z0 = calc_z_polynomial(&f, 0).unwrap();
    assert_eq!(z0.as_ref(), &[1]);
}

#[test]
fn lagrange_interpolation_example() {
    let f = f97();
    let c = lagrange_interp(&f, &[2, 5, 7], &[3, 1, 4]).unwrap();
    assert_eq!(c, vec![41, 6, 36]);
    assert_eq!(evaluate(&f, &c, 2), 3);
    assert_eq!(evaluate(&f, &c, 5), 1);
    assert_eq!(evaluate(&f, &c, 7), 4);
    assert_eq!(evaluate(&f, &c, 1), 83);
    assert!(matches!(
        lagrange_interp(&f, &[2, 2], &[1, 1]),
        Err(SynthesisError::DivisionByZero)
    ));
    assert_eq!(lagrange_interp(&f, &[], &[]).unwrap(), Vec::<u64>::new());
}

#[test]
fn boundary_interpolants() {
    let f = f97();
    let xs = [1u64, 5, 25, 28, 43, 21, 8, 40];
    let i2 = calc_i2_polynomial(&f, &[(0, 1), (1, 3)], &xs, &[11, 22], 2).unwrap();
    assert_eq!(i2.evaluate_at(&f, 25), 11);
    assert_eq!(i2.evaluate_at(&f, 8), 22);
    assert!(matches!(
        calc_i2_polynomial(&f, &[(0, 1), (1, 1)], &xs, &[11, 22], 2),
        Err(SynthesisError::DivisionByZero)
    ));
    let i3 = calc_i3_polynomial(&f, &xs, 2).unwrap();
    assert_eq!(i3.as_ref(), &[1]);
    assert_eq!(i3.evaluate_at(&f, 40), 1);
}
