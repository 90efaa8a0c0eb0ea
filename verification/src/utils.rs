//! Integer and byte helpers.
use crate::encoding::{ELEMENT_BYTES, be_value, decimal, le_bytes, le_value, u64_to_le_bytes};
use crate::poly::{Polynomial, Values};
use num::bigint::BigUint;
use crate::field::{Field, lemma_pow_mod_step, two_adicity};
use vstd::arithmetic::div_mod::*;
use vstd::arithmetic::mul::*;
use vstd::arithmetic::power::*;
use vstd::arithmetic::power2::*;
use vstd::prelude::*;

verus! {

/// Number of binary digits of `v`, counting zero as one digit.
pub open spec fn bit_length(v: nat) -> nat
    decreases v,
{
    if v <= 1 {
        1
    } else {
        1 + bit_length(v / 2)
    }
}

/// `bit_length(v)` is the exponent `r` with `2^(r-1) <= v < 2^r` (for `v >= 1`).
pub proof fn lemma_bit_length_bounds(v: nat)
    ensures
        bit_length(v) >= 1,
        v < pow2(bit_length(v)),
        v >= 1 ==> pow2((bit_length(v) - 1) as nat) <= v,
    decreases v,
{
    if v <= 1 {
        lemma2_to64();
    } else {
        lemma_bit_length_bounds(v / 2);
        let r = bit_length(v / 2);
        lemma_pow2_unfold(r + 1);
        lemma_pow2_unfold(r);
    }
}

/// The number of binary digits of `value` (1 for zero): for `value >= 1` the result `r`
/// satisfies `2^(r-1) <= value < 2^r`.
pub fn log2_ceil(value: usize) -> (r: u32)
    ensures
        r == bit_length(value as nat),
        1 <= r <= 64,
        value < pow2(r as nat),
        value >= 1 ==> pow2((r - 1) as nat) <= value,
{
    let mut log_value: u32 = 1;
    let mut tmp = value;
    proof {
        lemma_bit_length_bounds(value as nat);
        lemma_bit_length_le_64(value as nat);
    }
    while tmp > 1
        invariant
            log_value >= 1,
            log_value + bit_length(tmp as nat) - 1 == bit_length(value as nat),
            bit_length(value as nat) <= 64,
        decreases tmp,
    {
        proof {
            lemma_bit_length_bounds(tmp as nat / 2);
        }
        tmp = tmp / 2;
        log_value = log_value + 1;
    }
    log_value
}

proof fn lemma_bit_length_le_64(v: nat)
    requires
        v < 0x1_0000_0000_0000_0000,
    ensures
        bit_length(v) <= 64,
{
    lemma_bit_length_bounds(v);
    lemma2_to64();
    if bit_length(v) > 65 {
        lemma_pow2_strictly_increases(64, (bit_length(v) - 1) as nat);
    }
}


/// Doubling adds one to the two-adicity.
proof fn lemma_two_adicity_double(y: nat)
    requires
        y > 0,
    ensures
        two_adicity(2 * y) == 1 + two_adicity(y),
{
    assert((2 * y) % 2 == 0) by (nonlinear_arith);
    assert((2 * y) / 2 == y) by (nonlinear_arith);
}

/// Multiplying by `2^k` adds `k` to the two-adicity.
proof fn lemma_two_adicity_shift(y: nat, k: nat)
    requires
        y > 0,
    ensures
        two_adicity(pow2(k) * y) == k + two_adicity(y),
    decreases k,
{
    if k == 0 {
        lemma2_to64();
    } else {
        lemma_two_adicity_shift(y, (k - 1) as nat);
        lemma_pow2_unfold(k);
        lemma_pow2_pos((k - 1) as nat);
        lemma_mul_is_associative(2, pow2((k - 1) as nat) as int, y as int);
        lemma_mul_strictly_positive(pow2((k - 1) as nat) as int, y as int);
        lemma_two_adicity_double(pow2((k - 1) as nat) * y);
    }
}

/// Adding a multiple of `2^k` to a nonzero `b < 2^k` keeps the two-adicity of `b`.
proof fn lemma_two_adicity_low(q: nat, b: nat, k: nat)
    requires
        0 < b < pow2(k),
    ensures
        two_adicity(pow2(k) * q + b) == two_adicity(b),
    decreases k,
{
    let v = pow2(k) * q + b;
    if k == 0 {
        lemma2_to64();
    } else {
        lemma_pow2_unfold(k);
        let h = pow2((k - 1) as nat);
        assert(pow2(k) * q == 2 * (h * q)) by {
            lemma_mul_is_associative(2, h as int, q as int);
        }
        if b % 2 == 1 {
            assert(v % 2 == 1) by {
                lemma_mod_multiples_vanish((h * q) as int, b as int, 2);
            }
        } else {
            assert(b == 2 * (b / 2));
            assert(v == 2 * (h * q + b / 2));
            lemma_two_adicity_low(q, b / 2, (k - 1) as nat);
            lemma_two_adicity_double(h * q + b / 2);
            lemma_two_adicity_double(b / 2);
        }
    }
}

/// A nonzero `b < 2^k` has fewer than `k` trailing zero bits.
proof fn lemma_two_adicity_small(b: nat, k: nat)
    requires
        0 < b < pow2(k),
    ensures
        two_adicity(b) < k,
    decreases k,
{
    lemma2_to64();
    if k > 0 {
        lemma_pow2_unfold(k);
        if b % 2 == 0 {
            lemma_two_adicity_small(b / 2, (k - 1) as nat);
        }
    }
}

/// A `u64` with at least one whole multiple of `256^t` in it has `t < 8`.
proof fn lemma_few_bytes(a: nat, t: nat)
    requires
        a < 0x1_0000_0000_0000_0000,
        a / (pow(256, t) as nat) >= 1,
    ensures
        t < 8,
{
    lemma_pow_positive(256, t);
    lemma_fundamental_div_mod(a as int, pow(256, t));
    lemma_mul_increases((a / (pow(256, t) as nat)) as int, pow(256, t));
    lemma_mul_is_commutative((a / (pow(256, t) as nat)) as int, pow(256, t));
    if t >= 8 {
        lemma_pow_increases(256, 8, t);
        reveal_with_fuel(pow, 9);
    }
}

/// `S`, the two-adicity of the field: the number of trailing zero bits of `p - 1`, read
/// from its big-endian encoding one byte at a time from the least significant end.
pub fn calc_max_log_precision(f: &Field) -> (r: u32)
    requires
        f.wf(),
    ensures
        r == f.s_spec(),
        r < 64,
{
    let ff_order = f.sub(0, 1);
    let mut ff_order_be = f.to_bytes_be(ff_order);
    let ghost a: nat = (f.modulus - 1) as nat;
    let ghost le = le_bytes(a, ELEMENT_BYTES as nat);
    let mut log_max_precision: u32 = 0;
    proof {
        lemma_mod_multiples_vanish(1, -1, f.p());
        lemma_small_mod((f.p() - 1) as nat, f.p() as nat);
        assert(ff_order == a);
        lemma_pow0(256);
        assert(a as int / 1 == a) by (nonlinear_arith);
        assert(ff_order_be@ =~= le.reverse().take(ff_order_be@.len() as int));
    }
    loop
        invariant_except_break
            f.wf(),
            a == f.modulus - 1,
            le == le_bytes(a, ELEMENT_BYTES as nat),
            ff_order_be@.len() <= ELEMENT_BYTES,
            ff_order_be@ =~= le.reverse().take(ff_order_be@.len() as int),
            log_max_precision == 8 * (ELEMENT_BYTES - ff_order_be@.len()),
            a / (pow(256, (ELEMENT_BYTES - ff_order_be@.len()) as nat) as nat) >= 1,
            f.s_spec() == log_max_precision + two_adicity(
                a / (pow(256, (ELEMENT_BYTES - ff_order_be@.len()) as nat) as nat),
            ),
        ensures
            log_max_precision == f.s_spec(),
            log_max_precision < 64,
        decreases ff_order_be@.len(),
    {
        let ghost t: nat = (ELEMENT_BYTES - ff_order_be@.len()) as nat;
        let ghost y: nat = a / (pow(256, t) as nat);
        let ghost before = ff_order_be@;
        proof {
            lemma_pow_positive(256, t);
            lemma_few_bytes(a, t);
        }
        match ff_order_be.pop() {
            Some(0) => {
                proof {
                    assert(before.last() == le[t as int]);
                    assert(y % 256 == 0);
                    lemma_div_denominator(a as int, pow(256, t), 256);
                    lemma_pow_adds(256, t, 1);
                    lemma_pow1(256);
                    let y2 = y / 256;
                    lemma_fundamental_div_mod(y as int, 256);
                    lemma2_to64();
                    lemma_two_adicity_shift(y2, 8);
                    assert(ff_order_be@ =~= le.reverse().take(ff_order_be@.len() as int));
                }
                log_max_precision = log_max_precision + 8;
            },
            Some(rem) => {
                proof {
                    assert(before.last() == le[t as int]);
                    assert(y % 256 == rem);
                    lemma_fundamental_div_mod(y as int, 256);
                    lemma2_to64();
                    lemma_two_adicity_low(y / 256, rem as nat, 8);
                    lemma_two_adicity_small(rem as nat, 8);
                }
                let mut rem2: u8 = rem;
                let ghost start = log_max_precision;
                while rem2 % 2 == 0
                    invariant
                        rem2 > 0,
                        log_max_precision >= start,
                        log_max_precision - start + two_adicity(rem2 as nat) == two_adicity(
                            rem as nat,
                        ),
                        two_adicity(rem as nat) < 8,
                        start + two_adicity(rem as nat) == f.s_spec(),
                        start <= 56,
                    decreases rem2,
                {
                    proof {
                        assert(rem2 == 2 * (rem2 / 2));
                        lemma_two_adicity_double((rem2 / 2) as nat);
                    }
                    log_max_precision = log_max_precision + 1;
                    rem2 = rem2 / 2;
                }
                break;
            },
            None => {
                break;
            },
        }
    }
    log_max_precision
}

/// Byte `j` (most significant first) of the big-endian encoding of a `u32`.
pub open spec fn be_byte_u32(v: u32, j: int) -> u8 {
    ((v as nat / pow(256, (3 - j) as nat) as nat) % 256) as u8
}

/// Byte `j` of the big-endian encoding of a `u32`.
fn u32_be_byte(v: u32, j: usize) -> (r: u8)
    requires
        j < 4,
    ensures
        r == be_byte_u32(v, j as int),
{
    let d: u32 = if j == 0 {
        0x100_0000
    } else if j == 1 {
        0x1_0000
    } else if j == 2 {
        0x100
    } else {
        1
    };
    proof {
        reveal_with_fuel(pow, 4);
    }
    ((v / d) % 256) as u8
}

/// Eight `u32` words written out as 32 bytes, each word big-endian, in order.
pub fn u32_be_bytes_to_u8_be_bytes(values: [u32; 8]) -> (r: [u8; 32])
    ensures
        forall|i: int, j: int|
            0 <= i < 8 && 0 <= j < 4 ==> #[trigger] r[4 * i + j] == be_byte_u32(values[i], j),
{
    let mut output = [0u8; 32];
    for i in 0..8
        invariant
            forall|k: int, j: int|
                0 <= k < i && 0 <= j < 4 ==> #[trigger] output[4 * k + j] == be_byte_u32(values[k], j),
    {
        for j in 0..4
            invariant
                i < 8,
                forall|k: int, jj: int|
                    0 <= k < i && 0 <= jj < 4 ==> #[trigger] output[4 * k + jj] == be_byte_u32(
                        values[k],
                        jj,
                    ),
                forall|jj: int| 0 <= jj < j ==> #[trigger] output[4 * (i as int) + jj] == be_byte_u32(values[i as int], jj),
        {
            let b = u32_be_byte(values[i], j);
            output[4 * i + j] = b;
        }
    }
    output
}

/// The decimal numeral of the big-endian number `value` (`"0"` for no bytes or all zeros).
///
/// Trusted: the numeral is made by `num_bigint::BigUint::from_bytes_be` followed by
/// `BigUint::to_str_radix(10)`. The contract claims that together they give the decimal
/// digits of the big-endian value of the bytes, most significant first, without leading
/// zeros, and `"0"` for zero.
#[verifier::external_body]
pub fn parse_be_bytes_to_decimal(value: &[u8]) -> (r: String)
    ensures
        r@ == decimal(be_value(value@)),
{
    BigUint::from_bytes_be(value).to_str_radix(10)
}

/// The byte strings of `messages`, one after another.
pub open spec fn concat_messages(messages: Seq<Vec<u8>>) -> Seq<u8>
    decreases messages.len(),
{
    if messages.len() == 0 {
        Seq::empty()
    } else {
        concat_messages(messages.drop_last()) + messages.last()@
    }
}

/// The message a seed is hashed from: all the parts, concatenated in order.
pub fn seed_message(messages: &[Vec<u8>]) -> (r: Vec<u8>)
    ensures
        r@ == concat_messages(messages@),
{
    let mut message: Vec<u8> = Vec::new();
    for m in 0..messages.len()
        invariant
            message@ == concat_messages(messages@.take(m as int)),
    {
        let part = &messages[m];
        let ghost before = message@;
        for k in 0..part.len()
            invariant
                message@ == before + part@.take(k as int),
        {
            message.push(part[k]);
            proof {
                assert(part@.take(k as int + 1) =~= part@.take(k as int).push(part@[k as int]));
            }
        }
        proof {
            assert(part@.take(part@.len() as int) =~= part@);
            assert(messages@.take(m as int + 1).drop_last() =~= messages@.take(m as int));
        }
    }
    proof {
        assert(messages@.take(messages@.len() as int) =~= messages@);
    }
    message
}

/// `k` is the multiplicative order of `a`: the least `k >= 1` with `a^k = 1`.
pub open spec fn is_order(f: Field, a: int, k: nat) -> bool {
    &&& k >= 1
    &&& f.pow_spec(a, k) == 1
    &&& forall|j: nat| 1 <= j < k ==> #[trigger] f.pow_spec(a, j) != 1
}

/// All the powers of a root of unity, `1, r, r^2, ...`, up to the first that returns to
/// one.
pub fn expand_root_of_unity(f: &Field, root_of_unity: u64) -> (r: Vec<u64>)
    requires
        f.wf(),
        root_of_unity < f.modulus,
        exists|k: nat| k >= 1 && #[trigger] f.pow_spec(root_of_unity as int, k) == 1,
    ensures
        is_order(*f, root_of_unity as int, r@.len()),
        forall|i: int| 0 <= i < r@.len() ==> #[trigger] r@[i] == f.pow_spec(root_of_unity as int, i as nat),
        f.all_elems(r@),
{
    let ghost k0: nat = choose|k: nat| k >= 1 && #[trigger] f.pow_spec(root_of_unity as int, k) == 1;
    let mut output: Vec<u64> = Vec::new();
    output.push(f.one());
    let mut current_root = root_of_unity;
    proof {
        let p = f.p();
        lemma_pow0(root_of_unity as int);
        lemma_pow1(root_of_unity as int);
        lemma_small_mod(1, p as nat);
        lemma_small_mod(root_of_unity as nat, p as nat);
    }
    while current_root != 1
        invariant
            f.wf(),
            root_of_unity < f.modulus,
            k0 >= 1,
            f.pow_spec(root_of_unity as int, k0) == 1,
            1 <= output@.len() <= k0,
            current_root < f.modulus,
            current_root == f.pow_spec(root_of_unity as int, output@.len() as nat),
            forall|i: int|
                0 <= i < output@.len() ==> #[trigger] output@[i] == f.pow_spec(
                    root_of_unity as int,
                    i as nat,
                ),
            forall|j: nat| 1 <= j < output@.len() ==> #[trigger] f.pow_spec(root_of_unity as int, j) != 1,
            f.all_elems(output@),
        decreases k0 - output@.len(),
    {
        let ghost len = output@.len();
        output.push(current_root);
        proof {
            lemma_pow_mod_step(root_of_unity as int, len as nat, f.p());
            assert forall|j: nat| 1 <= j < output@.len() implies #[trigger] f.pow_spec(
                root_of_unity as int,
                j,
            ) != 1 by {
                if j == len {
                } else {
                    assert(j < len);
                }
            }
        }
        current_root = f.mul(current_root, root_of_unity);
    }
    output
}

/// Each index as a field element, through its little-endian byte encoding.
pub fn convert_usize_iter_to_ff_vec(f: &Field, iter: &[usize]) -> (r: Vec<u64>)
    requires
        f.wf(),
        forall|i: int| 0 <= i < iter@.len() ==> #[trigger] iter@[i] < f.modulus,
    ensures
        r@.len() == iter@.len(),
        f.all_elems(r@),
        forall|i: int| 0 <= i < iter@.len() ==> #[trigger] r@[i] == iter@[i],
{
    let mut out: Vec<u64> = Vec::new();
    for i in 0..iter.len()
        invariant
            f.wf(),
            forall|k: int| 0 <= k < iter@.len() ==> #[trigger] iter@[k] < f.modulus,
            out@.len() == i,
            forall|k: int| 0 <= k < i ==> #[trigger] out@[k] == iter@[k],
            f.all_elems(out@),
    {
        let v = iter[i];
        let bytes = f.to_bytes_le(v as u64);
        let x = match f.from_bytes_le(bytes.as_slice()) {
            Some(x) => x,
            None => {
                proof {
                    assert(iter@[i as int] < f.modulus);
                }
                0
            },
        };
        out.push(x);
    }
    out
}

/// The 32 bytes that chunk `c` of eight words becomes: each word big-endian, in order.
pub open spec fn chunk_bytes(words: Seq<u32>, c: int) -> Seq<u8> {
    Seq::new(32, |k: int| be_byte_u32(words[8 * c + k / 4], k % 4))
}

/// The random field elements drawn from `8 * size` pseudorandom words: each group of eight
/// words, written out big-endian, is read as a little-endian number.
pub fn random_values_from_indices(f: &Field, words: &[u32], size: usize) -> (r: Vec<u64>)
    requires
        f.wf(),
        words@.len() == 8 * size,
        forall|c: int| 0 <= c < size ==> #[trigger] le_value(chunk_bytes(words@, c)) < f.modulus,
    ensures
        r@.len() == size,
        f.all_elems(r@),
        forall|c: int| 0 <= c < size ==> #[trigger] r@[c] == le_value(chunk_bytes(words@, c)),
{
    let mut out: Vec<u64> = Vec::new();
    for c in 0..size
        invariant
            f.wf(),
            words@.len() == 8 * size,
            forall|cc: int| 0 <= cc < size ==> #[trigger] le_value(chunk_bytes(words@, cc)) < f.modulus,
            out@.len() == c,
            f.all_elems(out@),
            forall|cc: int| 0 <= cc < c ==> #[trigger] out@[cc] == le_value(chunk_bytes(words@, cc)),
    {
        assert(words@.len() == words.len());
        let b = 8 * c;
        let chunk: [u32; 8] = [
            words[b],
            words[b + 1],
            words[b + 2],
            words[b + 3],
            words[b + 4],
            words[b + 5],
            words[b + 6],
            words[b + 7],
        ];
        let bytes = u32_be_bytes_to_u8_be_bytes(chunk);
        let slice = bytes.as_slice();
        proof {
            assert forall|k: int| 0 <= k < 32 implies #[trigger] slice@[k] == chunk_bytes(
                words@,
                c as int,
            )[k] by {
                let i = k / 4;
                let j = k % 4;
                assert(k == 4 * i + j);
                assert(bytes[4 * i + j] == be_byte_u32(chunk[i], j));
            }
            assert(slice@ =~= chunk_bytes(words@, c as int));
        }
        let x = match f.from_bytes_le(slice) {
            Some(x) => x,
            None => {
                proof {
                    assert(le_value(chunk_bytes(words@, c as int)) < f.modulus);
                }
                0
            },
        };
        out.push(x);
    }
    out
}

/// The leaves of the accumulator tree: each permuted index in 8 little-endian bytes
/// followed by the matching trace value in its element encoding.
pub fn accumulator_leaves(
    f: &Field,
    permuted_indices: &[usize],
    witness_trace: &Polynomial<Values>,
) -> (r: Vec<Vec<u8>>)
    ensures
        r@.len() == if permuted_indices@.len() <= witness_trace@.len() {
            permuted_indices@.len()
        } else {
            witness_trace@.len()
        },
        forall|i: int|
            0 <= i < r@.len() ==> #[trigger] r@[i]@ == le_bytes(permuted_indices@[i] as nat, 8)
                + le_bytes(witness_trace@[i] as nat, ELEMENT_BYTES as nat),
{
    let values = witness_trace.as_ref();
    let n = if permuted_indices.len() <= values.len() {
        permuted_indices.len()
    } else {
        values.len()
    };
    let mut out: Vec<Vec<u8>> = Vec::new();
    for i in 0..n
        invariant
            values@ == witness_trace@,
            n <= permuted_indices@.len(),
            n <= values@.len(),
            out@.len() == i,
            forall|k: int|
                0 <= k < i ==> #[trigger] out@[k]@ == le_bytes(permuted_indices@[k] as nat, 8)
                    + le_bytes(values@[k] as nat, ELEMENT_BYTES as nat),
    {
        let mut leaf = u64_to_le_bytes(permuted_indices[i] as u64, 8);
        let a = f.to_bytes_le(values[i]);
        let ghost first = leaf@;
        for k in 0..a.len()
            invariant
                a@.len() == ELEMENT_BYTES,
                leaf@ == first + a@.take(k as int),
        {
            leaf.push(a[k]);
            proof {
                assert(a@.take(k as int + 1) =~= a@.take(k as int).push(a@[k as int]));
            }
        }
        proof {
            assert(a@.take(a@.len() as int) =~= a@);
        }
        out.push(leaf);
    }
    out
}

} // verus!
