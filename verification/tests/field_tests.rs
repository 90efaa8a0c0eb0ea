use r1cs_stark::encoding::ELEMENT_BYTES;
use r1cs_stark::field::Field;
use r1cs_stark::utils::calc_max_log_precision;

fn f97() -> Field {
    Field::new(97, 5).unwrap()
}

#[test]
fn field_new_rejects_bad_parameters() {
    assert!(Field::new(1, 0).is_none());
    assert!(Field::new(0, 0).is_none());
    assert!(Field::new(7, 7).is_none());
    let f = Field::new(7, 3).unwrap();
    assert_eq!(f.modulus, 7);
    assert_eq!(f.generator, 3);
}

#[test]
fn field_arithmetic_is_modular() {
    let f = f97();
    assert_eq!(f.add(90, 10), 3);
    assert_eq!(f.sub(3, 10), 90);
    assert_eq!(f.sub(10, 3), 7);
    assert_eq!(f.neg(0), 0);
    assert_eq!(f.neg(1), 96);
    assert_eq!(f.mul(50, 2), 3);
    assert_eq!(f.pow(3, 10), 73);
    assert_eq!(f.pow(5, 0), 1);
    assert_eq!(f.pow(0, 0), 1);
    assert_eq!(f.one(), 1);
    assert_eq!(f.zero(), 0);
}

#[test]
fn field_arithmetic_near_u64_max() {
    // The largest prime below 2^64.
    let f = Field::new(18446744073709551557, 2).unwrap();
    let a = 18446744073709551556; // p - 1 = -1
    assert_eq!(f.mul(a, a), 1);
    assert_eq!(f.add(a, a), 18446744073709551555);
    assert_eq!(f.sub(0, 1), a);
}

#[test]
fn field_inverse() {
    let f = f97();
    assert_eq!(f.inverse(0), None);
    assert_eq!(f.inverse(1), Some(1));
    assert_eq!(f.inverse(2), Some(49));
    assert_eq!(f.inverse(3), Some(65));
    assert_eq!(f.inverse(10), Some(68));
    for a in 1..97u64 {
        let w = f.inverse(a).unwrap();
        assert_eq!(f.mul(a, w), 1);
    }
    // A composite modulus: only the units have inverses.
    let g = Field::new(12, 5).unwrap();
    assert_eq!(g.inverse(4), None);
    assert_eq!(g.inverse(6), None);
    assert_eq!(g.inverse(5), Some(5));
    assert_eq!(g.inverse(7), Some(7));
}

#[test]
fn field_two_adicity() {
    assert_eq!(f97().two_adicity(), 5);
    assert_eq!(Field::new(7, 3).unwrap().two_adicity(), 1);
    assert_eq!(Field::new(193, 5).unwrap().two_adicity(), 6);
    assert_eq!(Field::new(18446744069414584321, 7).unwrap().two_adicity(), 32);
}

#[test]
fn max_log_precision_matches_two_adicity() {
    assert_eq!(calc_max_log_precision(&f97()), 5);
    assert_eq!(calc_max_log_precision(&Field::new(7, 3).unwrap()), 1);
    assert_eq!(calc_max_log_precision(&Field::new(3, 2).unwrap()), 1);
    assert_eq!(calc_max_log_precision(&Field::new(257, 3).unwrap()), 8);
    assert_eq!(calc_max_log_precision(&Field::new(65537, 3).unwrap()), 16);
    assert_eq!(calc_max_log_precision(&Field::new(18446744069414584321, 7).unwrap()), 32);
}

#[test]
fn element_bytes_roundtrip() {
    let f = f97();
    let b = f.to_bytes_le(96);
    assert_eq!(b.len(), ELEMENT_BYTES);
    assert_eq!(b[0], 96);
    assert!(b[1..].iter().all(|&x| x == 0));
    assert_eq!(f.from_bytes_le(&b), Some(96));
    let big = Field::new(18446744073709551557, 2).unwrap();
    let v = 0x0102_0304_0506_0708u64;
    let le = big.to_bytes_le(v);
    assert_eq!(&le[..8], &[8, 7, 6, 5, 4, 3, 2, 1]);
    assert_eq!(big.from_bytes_le(&le), Some(v));
    let be = big.to_bytes_be(v);
    assert_eq!(be.len(), ELEMENT_BYTES);
    assert_eq!(&be[24..], &[1, 2, 3, 4, 5, 6, 7, 8]);
    assert!(be[..24].iter().all(|&x| x == 0));
}

#[test]
fn from_bytes_le_rejects_values_out_of_range() {
    let f = f97();
    assert_eq!(f.from_bytes_le(&[97]), None);
    assert_eq!(f.from_bytes_le(&[0, 1]), None);
    assert_eq!(f.from_bytes_le(&[5, 0, 0, 0]), Some(5));
    assert_eq!(f.from_bytes_le(&[]), Some(0));
    let mut long = vec![0u8; 40];
    long[39] = 1;
    assert_eq!(f.from_bytes_le(&long), None);
}

#[test]
fn from_str_parses_decimal_numerals() {
    let f = f97();
    assert_eq!(f.from_str("0"), Some(0));
    assert_eq!(f.from_str("96"), Some(96));
    assert_eq!(f.from_str("123"), Some(26));
    assert_eq!(f.from_str("9999"), Some(8));
    assert_eq!(f.from_str(""), None);
    assert_eq!(f.from_str("01"), None);
    assert_eq!(f.from_str("00"), None);
    assert_eq!(f.from_str("1a"), None);
    assert_eq!(f.from_str("-1"), None);
    assert_eq!(f.from_str("1é"), None);
}
