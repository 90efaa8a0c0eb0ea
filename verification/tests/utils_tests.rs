use r1cs_stark::field::Field;
use r1cs_stark::poly::{Polynomial, Values};
use r1cs_stark::utils::{
    accumulator_leaves, convert_usize_iter_to_ff_vec, expand_root_of_unity, log2_ceil,
    parse_be_bytes_to_decimal, random_values_from_indices, seed_message,
    u32_be_bytes_to_u8_be_bytes,
};

#[test]
fn log2_ceil_counts_binary_digits() {
    assert_eq!(log2_ceil(0), 1);
    assert_eq!(log2_ceil(1), 1);
    assert_eq!(log2_ceil(2), 2);
    assert_eq!(log2_ceil(3), 2);
    assert_eq!(log2_ceil(4), 3);
    assert_eq!(log2_ceil(255), 8);
    assert_eq!(log2_ceil(256), 9);
    assert_eq!(log2_ceil(usize::MAX), usize::BITS);
}

#[test]
fn log2_ceil_brackets_its_argument() {
    for v in 1usize..2000 {
        let r = log2_ceil(v);
        assert!(1usize << (r - 1) <= v);
        assert!((v as u128) < (1u128 << r));
    }
}

#[test]
fn u32_words_to_bytes_big_endian() {
    let words = [0x01020304u32, 0, 0xffffffff, 0x0a0b0c0d, 1, 0x80000000, 0x00ff00ff, 7];
    let out = u32_be_bytes_to_u8_be_bytes(words);
    assert_eq!(&out[0..4], &[1, 2, 3, 4]);
    assert_eq!(&out[4..8], &[0, 0, 0, 0]);
    assert_eq!(&out[8..12], &[255, 255, 255, 255]);
    assert_eq!(&out[12..16], &[10, 11, 12, 13]);
    assert_eq!(&out[16..20], &[0, 0, 0, 1]);
    assert_eq!(&out[20..24], &[128, 0, 0, 0]);
    assert_eq!(&out[24..28], &[0, 255, 0, 255]);
    assert_eq!(&out[28..32], &[0, 0, 0, 7]);
    // The words read back from the bytes.
    for i in 0..8 {
        let b = [out[4 * i], out[4 * i + 1], out[4 * i + 2], out[4 * i + 3]];
        assert_eq!(u32::from_be_bytes(b), words[i]);
    }
}

#[test]
fn decimal_of_big_endian_bytes() {
    assert_eq!(parse_be_bytes_to_decimal(&[]), "0");
    assert_eq!(parse_be_bytes_to_decimal(&[0, 0]), "0");
    assert_eq!(parse_be_bytes_to_decimal(&[1, 0]), "256");
    assert_eq!(parse_be_bytes_to_decimal(&[0xff, 0xff, 0xff, 0xff]), "4294967295");
    assert_eq!(
        parse_be_bytes_to_decimal(&[1, 0, 0, 0, 0, 0, 0, 0, 0]),
        "18446744073709551616"
    );
}

#[test]
fn decimal_reads_back_into_the_field() {
    let f = Field::new(97, 5).unwrap();
    let s = parse_be_bytes_to_decimal(&[0x12, 0x34]);
    assert_eq!(s, "4660");
    assert_eq!(f.from_str(&s), Some(4660 % 97));
    let z = parse_be_bytes_to_decimal(&[0]);
    assert_eq!(f.from_str(&z), Some(0));
}

#[test]
fn seed_message_concatenates_parts() {
    let parts = vec![vec![1u8, 2], vec![], vec![3], vec![4, 5, 6]];
    assert_eq!(seed_message(&parts), vec![1, 2, 3, 4, 5, 6]);
    assert_eq!(seed_message(&[]), Vec::<u8>::new());
}

#[test]
fn test_expand_root_of_unity() {
    // F7 with multiplicative generator 3.
    let f7 = Field::new(7, 3).unwrap();
    let roots_of_unity: Vec<u64> = [1, 3, 2, 6, 4, 5].to_vec();
    let res = expand_root_of_unity(&f7, f7.generator);
    assert_eq!(res, roots_of_unity);

    // A root of unity of order 65536, in the 64-bit field p = 2^64 - 2^32 + 1.
    let fp = Field::new(18446744069414584321, 7).unwrap();
    let precision = 65536u64;
    let times = (fp.modulus - 1) / precision;
    let root_of_unity = fp.pow(fp.generator, times);
    let res = expand_root_of_unity(&fp, root_of_unity);
    assert_eq!(res.len(), precision as usize);
}

#[test]
fn expand_root_of_unity_of_one_and_minus_one() {
    let f = Field::new(97, 5).unwrap();
    assert_eq!(expand_root_of_unity(&f, 1), vec![1]);
    assert_eq!(expand_root_of_unity(&f, 96), vec![1, 96]);
    let w = f.pow(5, 24);
    assert_eq!(expand_root_of_unity(&f, w), vec![1, 22, 96, 75]);
}

#[test]
fn indices_become_field_elements() {
    let f = Field::new(97, 5).unwrap();
    assert_eq!(convert_usize_iter_to_ff_vec(&f, &[0, 1, 2, 96]), vec![0, 1, 2, 96]);
    let steps: Vec<usize> = (0..8).collect();
    assert_eq!(convert_usize_iter_to_ff_vec(&f, &steps), vec![0, 1, 2, 3, 4, 5, 6, 7]);
}

#[test]
fn random_values_read_chunks_of_words() {
    let f = Field::new(18446744073709551557, 2).unwrap();
    // One chunk: the first word written big-endian becomes the lowest bytes.
    let words = [0x01020304u32, 0, 0, 0, 0, 0, 0, 0, 5, 0, 0, 0, 0, 0, 0, 0];
    let vals = random_values_from_indices(&f, &words, 2);
    assert_eq!(vals, vec![0x04030201, 0x05000000]);
}

#[test]
fn accumulator_leaves_pair_index_and_value() {
    let f = Field::new(97, 5).unwrap();
    let trace = Polynomial::<Values>::from_values(&f, vec![7, 8, 9]).unwrap();
    let leaves = accumulator_leaves(&f, &[2, 1, 0, 3], &trace);
    assert_eq!(leaves.len(), 4);
    let mut expect = vec![2u8, 0, 0, 0, 0, 0, 0, 0, 7];
    expect.extend(vec![0u8; 31]);
    assert_eq!(leaves[0], expect);
    assert_eq!(leaves[3][0], 3);
    assert_eq!(leaves[3][8], 0);
    assert_eq!(leaves[1].len(), 40);
}
