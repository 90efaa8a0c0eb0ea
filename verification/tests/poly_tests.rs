use r1cs_stark::field::Field;
use r1cs_stark::poly::{domain_generator, evaluate, Coefficients, Polynomial, SynthesisError, Values};

fn f97() -> Field {
    Field::new(97, 5).unwrap()
}

#[test]
fn from_values_pads_to_a_power_of_two() {
    let f = f97();
    let p = Polynomial::<Values>::from_values(&f, vec![1, 2, 3]).unwrap();
    assert_eq!(p.as_ref(), &[1, 2, 3, 0]);
    assert_eq!(p.exp(), 2);
    assert_eq!(p.size(), 4);
    let e = Polynomial::<Values>::from_values(&f, vec![]).unwrap();
    assert_eq!(e.as_ref(), &[0]);
    assert_eq!(e.exp(), 0);
    // 2^5 divides 96 but 2^6 does not.
    assert!(Polynomial::<Values>::from_values(&f, vec![0; 32]).is_ok());
    assert!(matches!(
        Polynomial::<Values>::from_values(&f, vec![0; 33]),
        Err(SynthesisError::PolynomialDegreeTooLarge)
    ));
    let c = Polynomial::<Coefficients>::from_coeffs(&f, vec![4, 5, 6, 7, 8]).unwrap();
    assert_eq!(c.into_coeffs(), vec![4, 5, 6, 7, 8, 0, 0, 0]);
}

#[test]
fn domain_generator_has_the_domain_order() {
    let f = f97();
    assert_eq!(domain_generator(&f, 2), 22);
    assert_eq!(f.pow(22, 4), 1);
    assert_eq!(f.pow(22, 2), 96);
    assert_eq!(domain_generator(&f, 0), 1);
}

#[test]
fn evaluation_by_horner() {
    let f = f97();
    assert_eq!(evaluate(&f, &[1, 2, 3], 2), 17);
    assert_eq!(evaluate(&f, &[], 5), 0);
    let c = Polynomial::<Coefficients>::from_coeffs(&f, vec![1, 2, 3]).unwrap();
    assert_eq!(c.evaluate_at(&f, 2), 17);
    assert_eq!(c.evaluate_at(&f, 10), (1 + 20 + 300) % 97);
}

#[test]
fn fft_evaluates_on_the_subgroup() {
    let f = f97();
    let c = Polynomial::<Coefficients>::from_coeffs(&f, vec![1, 2, 3, 4]).unwrap();
    let v = c.fft(&f);
    assert_eq!(v.as_ref(), &[10, 51, 95, 42]);
    assert_eq!(v.exp(), 2);
}

#[test]
fn ifft_inverts_fft() {
    let f = f97();
    let c = Polynomial::<Coefficients>::from_coeffs(&f, vec![1, 2, 3, 4]).unwrap();
    let back = c.fft(&f).ifft(&f).unwrap();
    assert_eq!(back.as_ref(), &[1, 2, 3, 4]);
    let v = Polynomial::<Values>::from_values(&f, vec![9, 8, 7, 6, 5, 4, 3, 2]).unwrap();
    let again = v.ifft(&f).unwrap().fft(&f);
    assert_eq!(again.as_ref(), v.as_ref());
}

#[test]
fn ifft_fails_without_inverses() {
    // Modulo 15 the generator 3 gives the domain generator 3^7 = 12, which has no inverse.
    let g = Field::new(15, 3).unwrap();
    let w = Polynomial::<Values>::from_values(&g, vec![1, 2]).unwrap();
    assert!(matches!(w.ifft(&g), Err(SynthesisError::DivisionByZero)));
    let f = Field::new(5, 2).unwrap();
    let v = Polynomial::<Values>::from_values(&f, vec![1, 2]).unwrap();
    assert_eq!(v.ifft(&f).unwrap().fft(&f).as_ref(), &[1, 2]);
}

#[test]
fn pad_to_size_checks_the_size() {
    let f = f97();
    let mut c = Polynomial::<Coefficients>::from_coeffs(&f, vec![1, 2, 3, 4]).unwrap();
    assert_eq!(c.pad_to_size(&f, 2), Err(SynthesisError::PolynomialDegreeTooLarge));
    assert_eq!(c.pad_to_size(&f, 6), Err(SynthesisError::Unsatisfiable));
    assert_eq!(c.pad_to_size(&f, 64), Err(SynthesisError::PolynomialDegreeTooLarge));
    assert_eq!(c.as_ref(), &[1, 2, 3, 4]);
    assert_eq!(c.pad_to_size(&f, 8), Ok(()));
    assert_eq!(c.as_ref(), &[1, 2, 3, 4, 0, 0, 0, 0]);
    assert_eq!(c.exp(), 3);
}

#[test]
fn distribute_powers_scales_coefficients() {
    let f = f97();
    let mut c = Polynomial::<Coefficients>::from_coeffs(&f, vec![1, 1, 1, 1]).unwrap();
    c.distribute_powers(&f, 5);
    assert_eq!(c.as_ref(), &[1, 5, 25, 28]);
    let mut z = Polynomial::<Coefficients>::from_coeffs(&f, vec![0; 4]).unwrap();
    z.distribute_powers(&f, 5);
    assert_eq!(z.as_ref(), &[0, 0, 0, 0]);
}
