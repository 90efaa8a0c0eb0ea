//! Byte and decimal encodings of field elements.
use crate::field::Field;
use vstd::arithmetic::div_mod::*;
use vstd::arithmetic::mul::*;
use vstd::arithmetic::power::*;
use vstd::prelude::*;

verus! {

/// Number of bytes in the encoding of a field element.
pub const ELEMENT_BYTES: usize = 32;

/// The little-endian value of a byte string.
pub open spec fn le_value(s: Seq<u8>) -> nat
    decreases s.len(),
{
    if s.len() == 0 {
        0
    } else {
        s[0] as nat + 256 * le_value(s.drop_first())
    }
}

/// The big-endian value of a byte string.
pub open spec fn be_value(s: Seq<u8>) -> nat
    decreases s.len(),
{
    if s.len() == 0 {
        0
    } else {
        be_value(s.drop_last()) * 256 + s.last() as nat
    }
}

/// The `n` low bytes of `a`, least significant first.
pub open spec fn le_bytes(a: nat, n: nat) -> Seq<u8> {
    Seq::new(n, |k: int| ((a / pow(256, k as nat) as nat) % 256) as u8)
}

/// `256^k` is positive.
proof fn lemma_pow256_pos(k: nat)
    ensures
        pow(256, k) > 0,
{
    lemma_pow_positive(256, k);
}

/// Dropping the lowest byte of `le_bytes(a, n)` gives the bytes of `a / 256`.
proof fn lemma_le_bytes_drop_first(a: nat, n: nat)
    requires
        n > 0,
    ensures
        le_bytes(a, n).drop_first() =~= le_bytes(a / 256, (n - 1) as nat),
{
    assert forall|k: int| 0 <= k < n - 1 implies #[trigger] le_bytes(a, n).drop_first()[k]
        == le_bytes(a / 256, (n - 1) as nat)[k] by {
        lemma_pow256_pos(k as nat);
        lemma_div_denominator(a as int, 256, pow(256, k as nat));
        lemma_pow_adds(256, 1, k as nat);
        lemma_pow1(256);
        assert(1 + k == k + 1);
    }
}

/// The bytes of `a` read back give `a` modulo `256^n`.
pub proof fn lemma_le_value_le_bytes(a: nat, n: nat)
    ensures
        le_value(le_bytes(a, n)) == a % (pow(256, n) as nat),
    decreases n,
{
    lemma_pow256_pos(n);
    if n == 0 {
        lemma_pow0(256);
        lemma_small_mod(0, 1);
        assert(a % 1 == 0) by {
            lemma_mod_self_0(1);
            lemma_fundamental_div_mod(a as int, 1);
        }
    } else {
        lemma_le_bytes_drop_first(a, n);
        lemma_le_value_le_bytes(a / 256, (n - 1) as nat);
        lemma_pow256_pos((n - 1) as nat);
        lemma_pow_adds(256, 1, (n - 1) as nat);
        lemma_pow1(256);
        lemma_breakdown(a as int, 256, pow(256, (n - 1) as nat));
        lemma_pow0(256);
        assert(a as int / 1 == a) by (nonlinear_arith);
        assert(le_bytes(a, n)[0] == (a % 256) as u8);
    }
}

/// `le_value` splits at any index.
pub proof fn lemma_le_value_split(s: Seq<u8>, k: nat)
    requires
        k <= s.len(),
    ensures
        le_value(s) == le_value(s.take(k as int)) + pow(256, k) * le_value(s.skip(k as int)),
    decreases k,
{
    if k == 0 {
        lemma_pow0(256);
        assert(s.skip(0) =~= s);
        assert(s.take(0) =~= Seq::<u8>::empty());
    } else {
        lemma_le_value_split(s.drop_first(), (k - 1) as nat);
        assert(s.drop_first().take(k - 1) =~= s.take(k as int).drop_first());
        assert(s.drop_first().skip(k - 1) =~= s.skip(k as int));
        lemma_pow_adds(256, 1, (k - 1) as nat);
        lemma_pow1(256);
        let t = le_value(s.skip(k as int));
        lemma_mul_is_associative(256, pow(256, (k - 1) as nat), t as int);
        lemma_mul_is_distributive_add(
            256,
            le_value(s.drop_first().take(k - 1)) as int,
            pow(256, (k - 1) as nat) * t,
        );
    }
}

/// `2^64 < 256^32`: every `u64` fits in an element encoding.
proof fn lemma_u64_fits_32_bytes()
    ensures
        pow(256, 8) == 0x1_0000_0000_0000_0000,
        pow(256, 32) >= 0x1_0000_0000_0000_0000,
{
    reveal_with_fuel(pow, 9);
    lemma_pow_increases(256, 8, 32);
}

/// The `n` low bytes of `a`, least significant first.
pub fn u64_to_le_bytes(a: u64, n: usize) -> (r: Vec<u8>)
    ensures
        r@ == le_bytes(a as nat, n as nat),
        r@.len() == n,
        le_value(r@) == a as nat % (pow(256, n as nat) as nat),
{
    let mut out: Vec<u8> = Vec::new();
    let mut x: u64 = a;
    proof {
        lemma_pow0(256);
        assert(a as int / 1 == a) by (nonlinear_arith);
    }
    for i in 0..n
        invariant
            x == a as nat / (pow(256, i as nat) as nat),
            out@ =~= le_bytes(a as nat, i as nat),
    {
        proof {
            lemma_pow256_pos(i as nat);
            lemma_div_denominator(a as int, pow(256, i as nat), 256);
            lemma_pow_adds(256, i as nat, 1);
            lemma_pow1(256);
        }
        out.push((x % 256) as u8);
        x = x / 256;
    }
    proof {
        lemma_le_value_le_bytes(a as nat, n as nat);
    }
    out
}

impl Field {
    /// The little-endian encoding of `a` in `ELEMENT_BYTES` bytes.
    pub fn to_bytes_le(&self, a: u64) -> (r: Vec<u8>)
        ensures
            r@ == le_bytes(a as nat, ELEMENT_BYTES as nat),
            r@.len() == ELEMENT_BYTES,
            le_value(r@) == a,
    {
        let r = u64_to_le_bytes(a, ELEMENT_BYTES);
        proof {
            lemma_u64_fits_32_bytes();
            lemma_small_mod(a as nat, pow(256, 32) as nat);
        }
        r
    }

    /// The big-endian encoding of `a` in `ELEMENT_BYTES` bytes.
    pub fn to_bytes_be(&self, a: u64) -> (r: Vec<u8>)
        ensures
            r@ == le_bytes(a as nat, ELEMENT_BYTES as nat).reverse(),
            r@.len() == ELEMENT_BYTES,
    {
        let le = self.to_bytes_le(a);
        let mut out: Vec<u8> = Vec::new();
        let mut i: usize = ELEMENT_BYTES;
        while i > 0
            invariant
                i <= ELEMENT_BYTES,
                le@.len() == ELEMENT_BYTES,
                out@.len() == ELEMENT_BYTES - i,
                forall|k: int| 0 <= k < out@.len() ==> #[trigger] out@[k] == le@[ELEMENT_BYTES - 1 - k],
            decreases i,
        {
            i = i - 1;
            out.push(le[i]);
        }
        proof {
            assert(out@ =~= le@.reverse());
        }
        out
    }

    /// The element whose little-endian encoding is `bytes`; `None` when that value is not
    /// below the modulus.
    pub fn from_bytes_le(&self, bytes: &[u8]) -> (r: Option<u64>)
        requires
            self.wf(),
        ensures
            r is Some <==> le_value(bytes@) < self.modulus,
            r matches Some(v) ==> v == le_value(bytes@),
    {
        let n = bytes.len();
        let mut acc: u64 = 0;
        let mut i: usize = n;
        proof {
            assert(bytes@.skip(n as int) =~= Seq::<u8>::empty());
        }
        while i > 0
            invariant
                self.wf(),
                n == bytes@.len(),
                i <= n,
                acc < self.modulus,
                acc == le_value(bytes@.skip(i as int)),
            decreases i,
        {
            let ghost tail = bytes@.skip(i as int);
            i = i - 1;
            proof {
                assert(bytes@.skip(i as int).drop_first() =~= tail);
            }
            let next: u128 = (acc as u128) * 256 + (bytes[i] as u128);
            if next >= self.modulus as u128 {
                proof {
                    lemma_le_value_split(bytes@, i as nat);
                    lemma_pow256_pos(i as nat);
                    lemma_mul_increases(pow(256, i as nat), le_value(bytes@.skip(i as int)) as int);
                }
                return None;
            }
            acc = next as u64;
        }
        proof {
            assert(bytes@.skip(0) =~= bytes@);
        }
        Some(acc)
    }
}

/// `c` is one of the characters `0` to `9`.
pub open spec fn is_digit(c: char) -> bool {
    '0' <= c <= '9'
}

/// The value of a decimal digit character.
pub open spec fn char_digit(c: char) -> int {
    c as int - 48
}

/// The character of the decimal digit `d`.
pub open spec fn digit_char(d: nat) -> char {
    (d + 48) as char
}

/// The decimal representation of `n`, without leading zeros (`"0"` for zero).
pub open spec fn decimal(n: nat) -> Seq<char>
    decreases n,
{
    if n < 10 {
        seq![digit_char(n)]
    } else {
        decimal(n / 10).push(digit_char(n % 10))
    }
}

/// The value of a string of decimal digits.
pub open spec fn dec_value(s: Seq<char>) -> int
    decreases s.len(),
{
    if s.len() == 0 {
        0
    } else {
        dec_value(s.drop_last()) * 10 + char_digit(s.last())
    }
}

/// A non-empty string of decimal digits without a leading zero, or `"0"` itself.
pub open spec fn decimal_ok(s: Seq<char>) -> bool {
    &&& s.len() > 0
    &&& forall|i: int| 0 <= i < s.len() ==> is_digit(#[trigger] s[i])
    &&& (s.len() == 1 || s[0] != '0')
}

/// Printing `n` in decimal gives a well-formed numeral whose value is `n`.
pub proof fn lemma_decimal_roundtrip(n: nat)
    ensures
        decimal_ok(decimal(n)),
        dec_value(decimal(n)) == n,
        n >= 1 ==> decimal(n)[0] != '0',
    decreases n,
{
    if n < 10 {
        assert(digit_char(n) as int == n + 48);
        assert(decimal(n).drop_last() =~= Seq::<char>::empty());
        assert(decimal(n).last() == digit_char(n));
        assert(dec_value(decimal(n)) == dec_value(Seq::<char>::empty()) * 10 + char_digit(digit_char(n)));
    } else {
        lemma_decimal_roundtrip(n / 10);
        let d = digit_char(n % 10);
        assert(d as int == n % 10 + 48);
        let s = decimal(n / 10);
        assert(decimal(n).drop_last() =~= s);
        assert(decimal(n)[0] == s[0]);
        assert(decimal(n).last() == d);
        assert(dec_value(decimal(n)) == dec_value(s) * 10 + char_digit(d));
        lemma_fundamental_div_mod(n as int, 10);
        assert forall|i: int| 0 <= i < decimal(n).len() implies is_digit(#[trigger] decimal(n)[i]) by {
            if i < s.len() {
                assert(decimal(n)[i] == s[i]);
            }
        }
    }
}

impl Field {
    /// The element denoted by the decimal numeral `s`, reduced modulo `p`; `None` unless `s`
    /// is a non-empty string of digits without a leading zero (or `"0"` itself).
    pub fn from_str(&self, s: &str) -> (r: Option<u64>)
        requires
            self.wf(),
            self.modulus > 10,
        ensures
            r is Some <==> decimal_ok(s@),
            r matches Some(v) ==> v == dec_value(s@) % self.p(),
    {
        if !s.is_ascii() {
            proof {
                let i = choose|i: int| 0 <= i < s@.len() && !('\0' <= #[trigger] s@[i] <= '\u{7f}');
                assert(!is_digit(s@[i]));
            }
            return None;
        }
        let bytes = s.as_bytes();
        proof {
            vstd::string::is_ascii_spec_bytes(s);
        }
        let n = bytes.len();
        if n == 0 {
            return None;
        }
        if n == 1 && bytes[0] == 48 {
            proof {
                assert(s@[0] as u8 == 48);
                assert(s@[0] == '0');
                assert(s@.drop_last() =~= Seq::<char>::empty());
                assert(dec_value(s@) == dec_value(Seq::<char>::empty()) * 10 + char_digit(s@[0]));
                lemma_small_mod(0, self.p() as nat);
            }
            return Some(0);
        }
        let mut res: u64 = 0;
        proof {
            assert(s@.take(0) =~= Seq::<char>::empty());
            lemma_small_mod(0, self.p() as nat);
        }
        for i in 0..n
            invariant
                self.wf(),
                self.modulus > 10,
                n == bytes@.len(),
                n == s@.len(),
                n > 0,
                !(n == 1 && s@[0] == '0'),
                bytes@ =~= Seq::new(s@.len(), |k: int| s@[k] as u8),
                vstd::string::is_ascii(s),
                res < self.modulus,
                res == dec_value(s@.take(i as int)) % self.p(),
                forall|k: int| 0 <= k < i ==> is_digit(#[trigger] s@[k]),
                i > 0 ==> s@[0] != '0',
        {
            let b = bytes[i];
            proof {
                assert(b == s@[i as int] as u8);
                assert('\0' <= s@[i as int] <= '\u{7f}');
            }
            if b < 48 || b > 57 {
                return None;
            }
            if i == 0 && b == 48 {
                return None;
            }
            let t = self.mul(res, 10);
            let d = self.add(t, (b - 48) as u64);
            proof {
                let p = self.p();
                let prev = dec_value(s@.take(i as int));
                assert(s@.take(i as int + 1).drop_last() =~= s@.take(i as int));
                assert(char_digit(s@[i as int]) == b - 48);
                lemma_mul_mod_noop_general(prev, 10, p);
                lemma_add_mod_noop(prev * 10, (b - 48) as int, p);
                lemma_small_mod((b - 48) as nat, p as nat);
            }
            res = d;
        }
        proof {
            assert(s@.take(n as int) =~= s@);
        }
        Some(res)
    }
}

} // verus!
