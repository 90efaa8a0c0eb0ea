//! Arithmetic in a prime field `Z/pZ` whose modulus fits in 64 bits.
//!
//! Elements are plain `u64` values in `[0, p)`; every operation is stated over
//! the integers modulo `p`.
use vstd::arithmetic::div_mod::*;
use vstd::arithmetic::mul::*;
use vstd::arithmetic::power::*;
use vstd::arithmetic::power2::*;
use vstd::prelude::*;

verus! {

/// A prime field given by its modulus and a multiplicative generator.
pub struct Field {
    pub modulus: u64,
    pub generator: u64,
}

/// The largest `s` such that `2^s` divides `n` (zero for `n == 0`).
pub open spec fn two_adicity(n: nat) -> nat
    decreases n,
{
    if n == 0 || n % 2 == 1 {
        0
    } else {
        1 + two_adicity(n / 2)
    }
}

/// `true` when `w` is a multiplicative inverse of `a` modulo `p`.
pub open spec fn is_inverse_mod(a: int, w: int, p: int) -> bool {
    (a * w) % p == 1
}

impl Field {
    /// A usable field: a modulus of at least two and a generator reduced below it.
    pub open spec fn wf(&self) -> bool {
        2 <= self.modulus && self.generator < self.modulus
    }

    pub open spec fn p(&self) -> int {
        self.modulus as int
    }

    /// Every entry of `s` is a reduced element.
    pub open spec fn all_elems(&self, s: Seq<u64>) -> bool {
        forall|i: int| 0 <= i < s.len() ==> #[trigger] s[i] < self.modulus
    }

    /// Field addition on representatives.
    pub open spec fn fadd(&self, a: int, b: int) -> int {
        (a + b) % self.p()
    }

    /// Field subtraction on representatives.
    pub open spec fn fsub(&self, a: int, b: int) -> int {
        (a - b) % self.p()
    }

    /// Field multiplication on representatives.
    pub open spec fn fmul(&self, a: int, b: int) -> int {
        (a * b) % self.p()
    }

    /// The inverse of `a`, or zero where `a` is zero.
    pub open spec fn inv_or_zero(&self, a: int) -> int {
        if a == 0 {
            0
        } else {
            self.inv_spec(a)
        }
    }

    /// `a` has a multiplicative inverse in the field.
    pub open spec fn invertible(&self, a: int) -> bool {
        exists|w: int| is_inverse_mod(a, w, self.p())
    }

    /// The inverse of `a` in `[0, p)`, where one exists (it is then unique).
    pub open spec fn inv_spec(&self, a: int) -> int {
        choose|w: int| 0 <= w < self.p() && is_inverse_mod(a, w, self.p())
    }

    /// The largest `s` such that `2^s` divides `p - 1`.
    pub open spec fn s_spec(&self) -> nat {
        two_adicity((self.modulus - 1) as nat)
    }

    /// The generator of the subgroup of order `2^exp`: `g^((p - 1) / 2^exp)`.
    pub open spec fn domain_generator(&self, exp: nat) -> int {
        self.pow_spec(self.generator as int, ((self.modulus - 1) as nat) / pow2(exp))
    }

    /// The modulus is prime, every nonzero residue being invertible, and the generator
    /// generates the multiplicative group: its order is exactly `p - 1`.
    pub open spec fn generates_group(&self) -> bool {
        &&& forall|a: int| 0 < a < self.p() ==> #[trigger] self.invertible(a)
        &&& self.pow_spec(self.generator as int, (self.modulus - 1) as nat) == 1
        &&& forall|d: nat|
            0 < d < self.modulus - 1 ==> #[trigger] self.pow_spec(self.generator as int, d) != 1
    }

    /// `a` raised to `e`, reduced.
    pub open spec fn pow_spec(&self, a: int, e: nat) -> int {
        pow(a, e) % self.p()
    }

    /// Builds a field; `None` unless the modulus is at least two and the generator lies below it.
    pub fn new(modulus: u64, generator: u64) -> (r: Option<Field>)
        ensures
            r is Some <==> (2 <= modulus && generator < modulus),
            r matches Some(f) ==> f.modulus == modulus && f.generator == generator && f.wf(),
    {
        if 2 <= modulus && generator < modulus {
            Some(Field { modulus, generator })
        } else {
            None
        }
    }

    pub fn zero(&self) -> (r: u64)
        ensures
            r == 0,
    {
        0
    }

    pub fn one(&self) -> (r: u64)
        requires
            self.wf(),
        ensures
            r == 1,
            r < self.modulus,
    {
        1
    }

    /// The two-adicity `S` of the field: the largest `s` such that `2^s` divides `p - 1`.
    pub fn two_adicity(&self) -> (r: u32)
        requires
            self.wf(),
        ensures
            r == self.s_spec(),
            r < 64,
    {
        let mut n: u64 = self.modulus - 1;
        let mut s: u32 = 0;
        proof {
            lemma2_to64();
        }
        while n % 2 == 0
            invariant
                self.wf(),
                n > 0,
                n * pow2(s as nat) == self.modulus - 1,
                s + two_adicity(n as nat) == self.s_spec(),
                s < 64,
            decreases n,
        {
            proof {
                lemma_pow2_unfold(s as nat + 1);
                lemma_mul_increases((n / 2) as int, 2 * pow2(s as nat) as int);
                assert(n == 2 * (n / 2));
                lemma_mul_is_associative((n / 2) as int, 2, pow2(s as nat) as int);
                lemma2_to64();
                if s + 1 >= 64 {
                    lemma_pow2_mono(64, s as nat + 1);
                }
                lemma_mul_is_associative((n / 2) as int, 2, pow2(s as nat) as int);
            }
            n = n / 2;
            s = s + 1;
        }
        proof {
            lemma_pow2_pos(s as nat);
            lemma_mul_increases(n as int, pow2(s as nat) as int);
            if s >= 64 {
                lemma_pow2_mono(64, s as nat);
            }
        }
        s
    }

    /// `(a + b) mod p`.
    pub fn add(&self, a: u64, b: u64) -> (r: u64)
        requires
            self.wf(),
            a < self.modulus,
            b < self.modulus,
        ensures
            r < self.modulus,
            r == (a + b) % self.p(),
    {
        let s: u128 = a as u128 + b as u128;
        (s % (self.modulus as u128)) as u64
    }

    /// `(a - b) mod p`.
    pub fn sub(&self, a: u64, b: u64) -> (r: u64)
        requires
            self.wf(),
            a < self.modulus,
            b < self.modulus,
        ensures
            r < self.modulus,
            r == (a - b) % self.p(),
    {
        if a >= b {
            proof {
                lemma_small_mod((a - b) as nat, self.modulus as nat);
            }
            a - b
        } else {
            proof {
                let ghost p = self.p();
                lemma_mod_multiples_vanish(1, a - b, p);
                lemma_small_mod((p + a - b) as nat, p as nat);
            }
            self.modulus - (b - a)
        }
    }

    /// `(-a) mod p`.
    pub fn neg(&self, a: u64) -> (r: u64)
        requires
            self.wf(),
            a < self.modulus,
        ensures
            r < self.modulus,
            r == (-a) % self.p(),
    {
        self.sub(0, a)
    }

    /// `(a * b) mod p`.
    pub fn mul(&self, a: u64, b: u64) -> (r: u64)
        requires
            self.wf(),
            a < self.modulus,
            b < self.modulus,
        ensures
            r < self.modulus,
            r == (a * b) % self.p(),
    {
        proof {
            lemma_mul_upper_bound(a as int, 0xffff_ffff_ffff_ffff, b as int, 0xffff_ffff_ffff_ffff);
        }
        let m: u128 = (a as u128) * (b as u128);
        (m % (self.modulus as u128)) as u64
    }

    /// `a^e mod p`, by repeated squaring.
    pub fn pow(&self, a: u64, e: u64) -> (r: u64)
        requires
            self.wf(),
            a < self.modulus,
        ensures
            r < self.modulus,
            r == self.pow_spec(a as int, e as nat),
    {
        let ghost p = self.p();
        let mut result: u64 = 1;
        let mut base: u64 = a;
        let mut exp: u64 = e;
        proof {
            reveal(pow);
            lemma_small_mod(a as nat, p as nat);
            lemma_pow_mod_noop(a as int, e as nat, p);
        }
        while exp > 0
            invariant
                self.wf(),
                p == self.p(),
                result < self.modulus,
                base < self.modulus,
                (result * pow(base as int, exp as nat)) % p == pow(a as int, e as nat) % p,
            decreases exp,
        {
            let ghost old_result = result;
            let ghost old_base = base;
            let ghost old_exp = exp;
            if exp % 2 == 1 {
                result = self.mul(result, base);
            }
            base = self.mul(base, base);
            exp = exp / 2;
            proof {
                lemma_pow_step(old_result as int, old_base as int, old_exp as nat, p);
            }
        }
        proof {
            reveal(pow);
            lemma_small_mod(result as nat, p as nat);
        }
        result
    }

    /// The inverse of `a`, found by the extended Euclidean algorithm; `None` exactly when
    /// `a` has none.
    pub fn inverse(&self, a: u64) -> (r: Option<u64>)
        requires
            self.wf(),
            a < self.modulus,
        ensures
            r is Some <==> self.invertible(a as int),
            r matches Some(w) ==> w < self.modulus && is_inverse_mod(a as int, w as int, self.p())
                && w == self.inv_spec(a as int),
    {
        let ghost p = self.p();
        let mut r0: u64 = self.modulus;
        let mut r1: u64 = a;
        let mut t0: u64 = 0;
        let mut t1: u64 = 1;
        proof {
            lemma_mod_self_0(p);
            lemma_small_mod(a as nat, p as nat);
            lemma_small_mod(0, p as nat);
        }
        while r1 != 0
            invariant
                self.wf(),
                p == self.p(),
                0 < r0,
                r1 < r0,
                t0 < self.modulus,
                t1 < self.modulus,
                (t0 * a) % p == r0 as int % p,
                (t1 * a) % p == r1 as int % p,
                forall|d: int|
                    d > 0 ==> ((a as int % d == 0 && p % d == 0) <==> (#[trigger] (r0 as int % d)
                        == 0 && r1 as int % d == 0)),
            decreases r1,
        {
            let q: u64 = r0 / r1;
            let r2: u64 = r0 % r1;
            proof {
                lemma_fundamental_div_mod(r0 as int, r1 as int);
                lemma_mul_upper_bound(q as int, 0xffff_ffff_ffff_ffff, t1 as int, 0xffff_ffff_ffff_ffff);
                lemma_mul_nonnegative(q as int, t1 as int);
            }
            let qt: u128 = (q as u128) * (t1 as u128);
            let qt_red: u64 = (qt % (self.modulus as u128)) as u64;
            let t2 = self.sub(t0, qt_red);
            proof {
                lemma_mul_is_commutative(q as int, r1 as int);
                assert(r2 as int == r0 as int - q as int * r1 as int);
                lemma_euclid_step_coeff(a as int, p, r0 as int, r1 as int, q as int, t0 as int, t1 as int);
                lemma_euclid_step_divisors(a as int, p, r0 as int, r1 as int, q as int);
            }
            r0 = r1;
            r1 = r2;
            t0 = t1;
            t1 = t2;
        }
        proof {
            lemma_mod_self_0(r0 as int);
            lemma_small_mod(0, r0 as nat);
        }
        if r0 == 1 {
            proof {
                lemma_small_mod(1, p as nat);
                lemma_mul_is_commutative(t0 as int, a as int);
                assert(is_inverse_mod(a as int, t0 as int, p));
                lemma_inverse_unique(a as int, t0 as int, self.inv_spec(a as int), p);
            }
            Some(t0)
        } else {
            proof {
                if self.invertible(a as int) {
                    let w = choose|w: int| is_inverse_mod(a as int, w, p);
                    lemma_no_inverse(a as int, p, r0 as int, w);
                }
            }
            None
        }
    }
}

/// Multiplying a reduced power by the base gives the next reduced power.
pub proof fn lemma_pow_mod_step(b: int, i: nat, p: int)
    requires
        p > 0,
    ensures
        ((pow(b, i) % p) * b) % p == pow(b, i + 1) % p,
{
    reveal(pow);
    assert(pow(b, i + 1) == b * pow(b, i));
    lemma_mul_mod_noop_general(pow(b, i), b, p);
    lemma_mul_is_commutative(pow(b, i), b);
}

/// `pow2` is monotone.
pub proof fn lemma_pow2_mono(a: nat, b: nat)
    requires
        a <= b,
    ensures
        pow2(a) <= pow2(b),
{
    if a < b {
        lemma_pow2_strictly_increases(a, b);
    }
}

/// Inverses modulo `p` are unique in `[0, p)`.
pub proof fn lemma_inverse_unique(a: int, w1: int, w2: int, p: int)
    requires
        p > 0,
        0 <= w1 < p,
        is_inverse_mod(a, w1, p),
        exists|w: int| 0 <= w < p && is_inverse_mod(a, w, p),
        w2 == choose|w: int| 0 <= w < p && is_inverse_mod(a, w, p),
    ensures
        w1 == w2,
        0 <= w2 < p,
        is_inverse_mod(a, w2, p),
{
    lemma_inverses_agree(a, w1, w2, p);
}

/// An invertible element has its inverse in `[0, p)`.
pub proof fn lemma_inv_spec(f: Field, a: int)
    requires
        f.wf(),
        f.invertible(a),
    ensures
        0 <= f.inv_spec(a) < f.p(),
        is_inverse_mod(a, f.inv_spec(a), f.p()),
{
    let p = f.p();
    let w0 = choose|w: int| is_inverse_mod(a, w, p);
    lemma_fundamental_div_mod(w0, p);
    lemma_mul_mod_noop_general(a, w0, p);
    assert(0 <= w0 % p < p && is_inverse_mod(a, w0 % p, p));
}

/// Two inverses of `a` in `[0, p)` coincide.
pub proof fn lemma_inverses_agree(a: int, w1: int, w2: int, p: int)
    requires
        p > 0,
        0 <= w1 < p,
        0 <= w2 < p,
        is_inverse_mod(a, w1, p),
        is_inverse_mod(a, w2, p),
    ensures
        w1 == w2,
{
    lemma_mul_mod_noop_general(w1, a * w2, p);
    lemma_mul_is_associative(w1, a, w2);
    lemma_mul_mod_noop_general(w1 * a, w2, p);
    lemma_mul_is_commutative(w1, a);
    lemma_small_mod(w1 as nat, p as nat);
    lemma_small_mod(w2 as nat, p as nat);
}

/// One round of repeated squaring keeps `result * base^exp` fixed modulo `p`.
proof fn lemma_pow_step(r: int, b: int, e: nat, p: int)
    requires
        p > 0,
    ensures
        ((if e % 2 == 1 { (r * b) % p } else { r }) * pow((b * b) % p, e / 2)) % p == (r * pow(b, e))
            % p,
{
    let k = e / 2;
    let s = e % 2;
    assert(e == s + 2 * k);
    let pk = pow(b * b, k);
    let pm = pow((b * b) % p, k);
    lemma_pow_mod_noop(b * b, k, p);
    assert(pm % p == pk % p);
    lemma_pow_multiplies(b, 2, k);
    lemma_square_is_pow2(b);
    assert(pow(b, 2 * k) == pk);
    lemma_pow_adds(b, s as nat, 2 * k);
    assert(pow(b, e) == pow(b, s as nat) * pk);
    if s == 1 {
        lemma_pow1(b);
        lemma_mul_mod_noop_general(r * b, pm, p);
        lemma_mul_mod_noop_general(r * b, pk, p);
        assert(((r * b) % p * pm) % p == ((r * b) * pk) % p);
        lemma_mul_is_associative(r, b, pk);
    } else {
        lemma_pow0(b);
        lemma_mul_mod_noop_general(r, pm, p);
        lemma_mul_mod_noop_general(r, pk, p);
        assert((r * pm) % p == (r * pk) % p);
    }
}

/// The Bezout coefficient of the next remainder in Euclid's algorithm.
proof fn lemma_euclid_step_coeff(a: int, p: int, r0: int, r1: int, q: int, t0: int, t1: int)
    requires
        p > 0,
        (t0 * a) % p == r0 % p,
        (t1 * a) % p == r1 % p,
    ensures
        ((((t0 - ((q * t1) % p)) % p) * a) % p) == (r0 - q * r1) % p,
{
    let qt = (q * t1) % p;
    lemma_mul_mod_noop_general(t0 - qt, a, p);
    lemma_mul_is_distributive_sub_other_way(a, t0, qt);
    lemma_sub_mod_noop(t0 * a, qt * a, p);
    lemma_mul_mod_noop_general(q * t1, a, p);
    lemma_mul_is_associative(q, t1, a);
    lemma_mul_mod_noop_general(q, t1 * a, p);
    lemma_mul_mod_noop_general(q, r1, p);
    lemma_sub_mod_noop(r0, q * r1, p);
}

/// Replacing `(r0, r1)` by `(r1, r0 - q * r1)` keeps the common divisors.
proof fn lemma_euclid_step_divisors(a: int, p: int, r0: int, r1: int, q: int)
    requires
        forall|d: int|
            d > 0 ==> ((a % d == 0 && p % d == 0) <==> (#[trigger] (r0 % d) == 0 && r1 % d == 0)),
    ensures
        forall|d: int|
            d > 0 ==> ((a % d == 0 && p % d == 0) <==> (#[trigger] (r1 % d) == 0 && (r0 - q * r1)
                % d == 0)),
{
    assert forall|d: int| d > 0 implies ((a % d == 0 && p % d == 0) <==> (#[trigger] (r1 % d) == 0
        && (r0 - q * r1) % d == 0)) by {
        assert((a % d == 0 && p % d == 0) <==> (r0 % d == 0 && r1 % d == 0));
        if r1 % d == 0 {
            lemma_fundamental_div_mod(r1, d);
            let m = r1 / d;
            assert(r1 == d * m);
            lemma_mul_is_associative(d, m, q);
            assert(q * r1 == d * (m * q)) by {
                lemma_mul_is_commutative(q, r1);
            }
            lemma_mod_multiples_vanish(m * q, r0 - q * r1, d);
            assert(r0 == d * (m * q) + (r0 - q * r1));
        }
    }
}

/// A common divisor `g >= 2` of `a` and `p` rules out an inverse of `a` modulo `p`.
proof fn lemma_no_inverse(a: int, p: int, g: int, w: int)
    requires
        p > 0,
        g >= 2,
        a % g == 0,
        p % g == 0,
    ensures
        !is_inverse_mod(a, w, p),
{
    if is_inverse_mod(a, w, p) {
        lemma_fundamental_div_mod(a, g);
        lemma_fundamental_div_mod(p, g);
        lemma_fundamental_div_mod(a * w, p);
        let ka = a / g;
        let kp = p / g;
        let m = (a * w) / p;
        assert(a * w == g * (ka * w)) by {
            lemma_mul_is_associative(g, ka, w);
        }
        assert(p * m == g * (kp * m)) by {
            lemma_mul_is_associative(g, kp, m);
        }
        lemma_mod_multiples_vanish(ka * w, 0, g);
        lemma_mod_multiples_vanish(kp * m, 1, g);
        lemma_small_mod(1, g as nat);
        lemma_small_mod(0, g as nat);
        assert(a * w == p * m + 1);
    }
}

} // verus!
