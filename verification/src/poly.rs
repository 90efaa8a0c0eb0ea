//! Polynomials over a power-of-two domain, held either as coefficients or as
//! evaluations on the subgroup of that size.
use crate::field::{Field, is_inverse_mod, lemma_pow2_mono, lemma_pow_mod_step};
use core::marker::PhantomData;
use vstd::arithmetic::div_mod::*;
use vstd::arithmetic::mul::*;
use vstd::arithmetic::power::*;
use vstd::arithmetic::power2::*;
use vstd::prelude::*;

verus! {

/// Why a polynomial could not be built or transformed.
#[derive(Debug, Clone, Copy, PartialEq, Eq, Structural)]
pub enum SynthesisError {
    /// The domain needed is larger than the field's two-adic subgroup.
    PolynomialDegreeTooLarge,
    /// A requested size is not a power of two.
    Unsatisfiable,
    /// An element that had to be inverted has no inverse.
    DivisionByZero,
}

/// Marker for the evaluation form.
pub struct Values;

/// Marker for the coefficient form.
pub struct Coefficients;

/// A polynomial of `2^exp` entries, in the form `P`.
pub struct Polynomial<P> {
    coeffs: Vec<u64>,
    exp: u32,
    marker: PhantomData<P>,
}

/// `sum_i c[i] * x^i` over the integers.
pub open spec fn eval_int(c: Seq<u64>, x: int) -> int
    decreases c.len(),
{
    if c.len() == 0 {
        0
    } else {
        c[0] + x * eval_int(c.drop_first(), x)
    }
}

/// The exponent of the smallest power of two that is at least `n` (zero for `n <= 1`).
pub open spec fn next_pow2_exp(n: nat) -> nat
    decreases n,
{
    if n <= 1 {
        0
    } else {
        1 + next_pow2_exp(((n + 1) / 2) as nat)
    }
}

/// `s` followed by `n - s.len()` zeros.
pub open spec fn pad_zeros(s: Seq<u64>, n: nat) -> Seq<u64> {
    s + Seq::new((n - s.len()) as nat, |i: int| 0u64)
}

/// The field has a two-adic subgroup large enough for `n` entries, and its size fits in
/// `usize`.
pub open spec fn fits_domain(f: Field, n: nat) -> bool {
    next_pow2_exp(n) <= f.s_spec() && pow2(next_pow2_exp(n)) <= usize::MAX
}

/// `s` has the length of the power-of-two domain for `n` entries, and is zero from `n` on.
pub open spec fn zero_padded(s: Seq<u64>, n: nat) -> bool {
    &&& s.len() == pow2(next_pow2_exp(n))
    &&& forall|j: int| n <= j < s.len() ==> #[trigger] s[j] == 0
}

/// Padding keeps the entries and appends zeros.
pub proof fn lemma_pad_zeros(s: Seq<u64>, n: nat)
    requires
        s.len() <= n,
    ensures
        pad_zeros(s, n).len() == n,
        forall|j: int| 0 <= j < s.len() ==> #[trigger] pad_zeros(s, n)[j] == s[j],
        forall|j: int| s.len() <= j < n ==> #[trigger] pad_zeros(s, n)[j] == 0,
{
}

/// A padded sequence has the power-of-two length and zeros beyond the given entries.
pub proof fn lemma_pad_pow2(s: Seq<u64>)
    ensures
        zero_padded(pad_zeros(s, pow2(next_pow2_exp(s.len()))), s.len()),
        forall|j: int|
            0 <= j < s.len() ==> #[trigger] pad_zeros(s, pow2(next_pow2_exp(s.len())))[j] == s[j],
{
    lemma_next_pow2_exp(s.len());
    lemma_pad_zeros(s, pow2(next_pow2_exp(s.len())));
}

impl Field {
    /// The value at `x` of the polynomial with coefficients `c`, reduced.
    pub open spec fn poly_eval(&self, c: Seq<u64>, x: int) -> int {
        eval_int(c, x) % self.p()
    }
}

/// The evaluations of the coefficients `c` on the subgroup of order `2^exp`.
pub open spec fn fft_spec(f: Field, c: Seq<u64>, exp: nat) -> Seq<u64> {
    Seq::new(
        c.len(),
        |i: int| f.poly_eval(c, f.pow_spec(f.domain_generator(exp), i as nat)) as u64,
    )
}

/// The coefficients whose evaluations on the subgroup of order `2^exp` are `v`.
pub open spec fn ifft_spec(f: Field, v: Seq<u64>, exp: nat) -> Seq<u64> {
    Seq::new(
        v.len(),
        |k: int|
            ((f.inv_spec(v.len() as int % f.p()) * f.poly_eval(
                v,
                f.pow_spec(f.inv_spec(f.domain_generator(exp)), k as nat),
            )) % f.p()) as u64,
    )
}

/// `2^next_pow2_exp(n)` is the least power of two not below `n`.
pub proof fn lemma_next_pow2_exp(n: nat)
    ensures
        pow2(next_pow2_exp(n)) >= n,
        next_pow2_exp(n) == 0 || pow2((next_pow2_exp(n) - 1) as nat) < n,
    decreases n,
{
    lemma2_to64();
    if n > 1 {
        let m = ((n + 1) / 2) as nat;
        lemma_next_pow2_exp(m);
        let e = next_pow2_exp(m);
        lemma_pow2_unfold(e + 1);
        if e > 0 {
            lemma_pow2_unfold(e);
        }
    }
}

/// Only one exponent is the least power of two not below `n`.
pub proof fn lemma_next_pow2_exp_unique(n: nat, k: nat)
    requires
        pow2(k) >= n,
        k == 0 || pow2((k - 1) as nat) < n,
    ensures
        k == next_pow2_exp(n),
{
    lemma_next_pow2_exp(n);
    let e = next_pow2_exp(n);
    if k < e {
        if k < (e - 1) as nat {
            lemma_pow2_strictly_increases(k, (e - 1) as nat);
        }
    } else if e < k {
        if e < (k - 1) as nat {
            lemma_pow2_strictly_increases(e, (k - 1) as nat);
        }
    }
}

/// Halving `n` `k` times divides it by `2^k`.
proof fn lemma_halve_pow2(n: nat, k: nat)
    ensures
        (n / pow2(k)) / 2 == n / pow2(k + 1),
{
    lemma_pow2_pos(k);
    lemma_pow2_unfold(k + 1);
    lemma_div_denominator(n as int, pow2(k) as int, 2);
}

/// `(p - 1) / 2^exp`, the exponent that carries the generator to the subgroup of order `2^exp`.
fn domain_cofactor(f: &Field, exp: u32) -> (r: u64)
    requires
        f.wf(),
    ensures
        r == ((f.modulus - 1) as nat) / pow2(exp as nat),
{
    let mut d: u64 = f.modulus - 1;
    let mut i: u32 = 0;
    proof {
        lemma2_to64();
    }
    while i < exp
        invariant
            f.wf(),
            i <= exp,
            d == ((f.modulus - 1) as nat) / pow2(i as nat),
        decreases exp - i,
    {
        proof {
            lemma_halve_pow2((f.modulus - 1) as nat, i as nat);
        }
        d = d / 2;
        i = i + 1;
    }
    d
}

/// The generator of the subgroup of order `2^exp`.
pub fn domain_generator(f: &Field, exp: u32) -> (r: u64)
    requires
        f.wf(),
    ensures
        r < f.modulus,
        r == f.domain_generator(exp as nat),
{
    let d = domain_cofactor(f, exp);
    f.pow(f.generator, d)
}

/// The least `k` with `2^k >= n`, together with `2^k`.
fn next_pow2(n: usize) -> (r: (u32, u128))
    ensures
        r.0 == next_pow2_exp(n as nat),
        r.1 == pow2(r.0 as nat),
        r.0 <= 64,
{
    let mut size: u128 = 1;
    let mut k: u32 = 0;
    proof {
        lemma2_to64();
    }
    while size < n as u128
        invariant
            size == pow2(k as nat),
            k <= 64,
            k == 0 || pow2((k - 1) as nat) < n,
        decreases 64 - k,
    {
        proof {
            lemma2_to64();
            lemma_pow2_unfold(k as nat + 1);
            if k >= 64 {
                lemma_pow2_mono(64, k as nat);
            }
        }
        size = size * 2;
        k = k + 1;
    }
    proof {
        lemma_next_pow2_exp_unique(n as nat, k as nat);
    }
    (k, size)
}

/// The exponent of the smallest power-of-two domain holding `len` entries, provided the
/// field has a subgroup of that order and the size fits in `usize`.
fn domain_exp(f: &Field, len: usize) -> (r: Result<u32, SynthesisError>)
    requires
        f.wf(),
    ensures
        r is Ok <==> (next_pow2_exp(len as nat) <= f.s_spec() && pow2(next_pow2_exp(len as nat))
            <= usize::MAX),
        r matches Ok(e) ==> e == next_pow2_exp(len as nat),
        r matches Err(e) ==> e == SynthesisError::PolynomialDegreeTooLarge,
{
    let s = f.two_adicity();
    let (k, size) = next_pow2(len);
    if k > s || size > usize::MAX as u128 {
        Err(SynthesisError::PolynomialDegreeTooLarge)
    } else {
        Ok(k)
    }
}

/// `v` padded with zeros to `target` entries.
fn pad_with_zeros(v: &mut Vec<u64>, target: usize)
    requires
        old(v)@.len() <= target,
    ensures
        final(v)@ == pad_zeros(old(v)@, target as nat),
{
    let ghost orig = v@;
    while v.len() < target
        invariant
            orig.len() <= v@.len() <= target,
            v@ == pad_zeros(orig, v@.len() as nat),
        decreases target - v.len(),
    {
        v.push(0);
        proof {
            assert(v@ =~= pad_zeros(orig, v@.len() as nat));
        }
    }
}

/// Pads `v` with zeros to the next power of two, as `from_values` and `from_coeffs` do.
fn build<P>(f: &Field, v: Vec<u64>) -> (r: Result<Polynomial<P>, SynthesisError>)
    requires
        f.wf(),
    ensures
        r is Ok <==> (next_pow2_exp(v@.len()) <= f.s_spec() && pow2(next_pow2_exp(v@.len()))
            <= usize::MAX),
        r matches Ok(poly) ==> poly.wf() && poly.log_size() == next_pow2_exp(v@.len()) && poly@
            == pad_zeros(v@, pow2(next_pow2_exp(v@.len()))),
        r matches Err(e) ==> e == SynthesisError::PolynomialDegreeTooLarge,
{
    let mut v = v;
    let exp = match domain_exp(f, v.len()) {
        Ok(e) => e,
        Err(e) => {
            return Err(e);
        },
    };
    let ghost orig = v@;
    let size = domain_size(exp);
    proof {
        lemma_next_pow2_exp(orig.len());
    }
    pad_with_zeros(&mut v, size);
    Ok(Polynomial { coeffs: v, exp, marker: PhantomData })
}

/// `2^exp` as a `usize`.
fn domain_size(exp: u32) -> (r: usize)
    requires
        pow2(exp as nat) <= usize::MAX,
    ensures
        r == pow2(exp as nat),
{
    let mut r: usize = 1;
    let mut i: u32 = 0;
    proof {
        lemma2_to64();
    }
    while i < exp
        invariant
            i <= exp,
            r == pow2(i as nat),
            pow2(exp as nat) <= usize::MAX,
        decreases exp - i,
    {
        proof {
            lemma_pow2_unfold(i as nat + 1);
            lemma_pow2_mono(i as nat + 1, exp as nat);
        }
        r = r * 2;
        i = i + 1;
    }
    r
}

impl<P> View for Polynomial<P> {
    type V = Seq<u64>;

    closed spec fn view(&self) -> Seq<u64> {
        self.coeffs@
    }
}

impl<P> Polynomial<P> {
    /// The base-two logarithm of the number of entries.
    pub closed spec fn log_size(&self) -> nat {
        self.exp as nat
    }

    /// The number of entries is `2^log_size`.
    pub open spec fn wf(&self) -> bool {
        self@.len() == pow2(self.log_size())
    }

    /// The entries: coefficients or evaluations, by the form.
    pub fn as_ref(&self) -> (r: &[u64])
        ensures
            r@ == self@,
    {
        self.coeffs.as_slice()
    }

    /// The number of entries.
    pub fn size(&self) -> (r: usize)
        ensures
            r == self@.len(),
    {
        self.coeffs.len()
    }

    /// The base-two logarithm of the number of entries.
    pub fn exp(&self) -> (r: u32)
        ensures
            r == self.log_size(),
    {
        self.exp
    }

    /// The entries, by value.
    pub fn into_coeffs(self) -> (r: Vec<u64>)
        ensures
            r@ == self@,
    {
        self.coeffs
    }
}

impl Polynomial<Values> {
    /// Evaluations, padded with zeros to the next power of two; fails when the field has no
    /// subgroup of that order.
    pub fn from_values(f: &Field, values: Vec<u64>) -> (r: Result<Polynomial<Values>, SynthesisError>)
        requires
            f.wf(),
        ensures
            r is Ok <==> (next_pow2_exp(values@.len()) <= f.s_spec() && pow2(
                next_pow2_exp(values@.len()),
            ) <= usize::MAX),
            r matches Ok(poly) ==> poly.wf() && poly.log_size() == next_pow2_exp(values@.len())
                && poly@ == pad_zeros(values@, pow2(next_pow2_exp(values@.len()))),
            r matches Err(e) ==> e == SynthesisError::PolynomialDegreeTooLarge,
    {
        build(f, values)
    }
}

impl Polynomial<Values> {
    /// The coefficients of the polynomial whose evaluations on the subgroup of this size
    /// are these values: coefficient `k` is `m^-1 * sum_i v[i] * omega^(-i k)`, where `m`
    /// is the size. Fails when `omega` or `m` has no inverse in the field.
    pub fn ifft(&self, f: &Field) -> (r: Result<Polynomial<Coefficients>, SynthesisError>)
        requires
            f.wf(),
            self.wf(),
            f.all_elems(self@),
        ensures
            r is Ok <==> (f.invertible(f.domain_generator(self.log_size())) && f.invertible(
                self@.len() as int % f.p(),
            )),
            r matches Err(e) ==> e == SynthesisError::DivisionByZero,
            r matches Ok(c) ==> {
                &&& c.wf()
                &&& c.log_size() == self.log_size()
                &&& c@.len() == self@.len()
                &&& f.all_elems(c@)
                &&& forall|k: int|
                    0 <= k < c@.len() ==> #[trigger] c@[k] == (f.inv_spec(self@.len() as int % f.p())
                        * f.poly_eval(
                        self@,
                        f.pow_spec(f.inv_spec(f.domain_generator(self.log_size())), k as nat),
                    )) % f.p()
                &&& c@ == ifft_spec(*f, self@, self.log_size())
            },
    {
        let omega = domain_generator(f, self.exp);
        let omega_inv = match f.inverse(omega) {
            Some(w) => w,
            None => {
                return Err(SynthesisError::DivisionByZero);
            },
        };
        let n = self.coeffs.len();
        let n_red = (n as u64) % f.modulus;
        let m_inv = match f.inverse(n_red) {
            Some(w) => w,
            None => {
                return Err(SynthesisError::DivisionByZero);
            },
        };
        let sums = powers_eval(f, self.coeffs.as_slice(), omega_inv);
        let mut out: Vec<u64> = Vec::new();
        for k in 0..n
            invariant
                f.wf(),
                m_inv < f.modulus,
                sums@.len() == n,
                f.all_elems(sums@),
                out@.len() == k,
                forall|j: int| 0 <= j < k ==> #[trigger] out@[j] == (m_inv * sums@[j]) % f.p(),
                forall|j: int| 0 <= j < k ==> #[trigger] out@[j] < f.modulus,
        {
            let v = f.mul(m_inv, sums[k]);
            out.push(v);
        }
        proof {
            assert(out@ =~= ifft_spec(*f, self@, self.log_size()));
        }
        Ok(Polynomial { coeffs: out, exp: self.exp, marker: PhantomData })
    }
}

impl Polynomial<Coefficients> {
    /// Coefficients, padded with zeros to the next power of two; fails when the field has
    /// no subgroup of that order.
    pub fn from_coeffs(f: &Field, coeffs: Vec<u64>) -> (r: Result<
        Polynomial<Coefficients>,
        SynthesisError,
    >)
        requires
            f.wf(),
        ensures
            r is Ok <==> (next_pow2_exp(coeffs@.len()) <= f.s_spec() && pow2(
                next_pow2_exp(coeffs@.len()),
            ) <= usize::MAX),
            r matches Ok(poly) ==> poly.wf() && poly.log_size() == next_pow2_exp(coeffs@.len())
                && poly@ == pad_zeros(coeffs@, pow2(next_pow2_exp(coeffs@.len()))),
            r matches Err(e) ==> e == SynthesisError::PolynomialDegreeTooLarge,
    {
        build(f, coeffs)
    }

    /// The evaluations of the polynomial on the subgroup of its size: entry `i` is its value
    /// at `omega^i`, where `omega` generates the subgroup of order `2^log_size`.
    pub fn fft(&self, f: &Field) -> (r: Polynomial<Values>)
        requires
            f.wf(),
            self.wf(),
            f.all_elems(self@),
        ensures
            r.wf(),
            r.log_size() == self.log_size(),
            r@.len() == self@.len(),
            f.all_elems(r@),
            forall|i: int|
                0 <= i < r@.len() ==> #[trigger] r@[i] == f.poly_eval(
                    self@,
                    f.pow_spec(f.domain_generator(self.log_size()), i as nat),
                ),
            r@ == fft_spec(*f, self@, self.log_size()),
    {
        let omega = domain_generator(f, self.exp);
        let values = powers_eval(f, self.coeffs.as_slice(), omega);
        proof {
            assert(values@ =~= fft_spec(*f, self@, self.log_size()));
        }
        Polynomial { coeffs: values, exp: self.exp, marker: PhantomData }
    }

    /// Pads the coefficients with zeros to `new_size`, which must be a power of two no
    /// smaller than the current size and within the field's two-adic subgroup.
    pub fn pad_to_size(&mut self, f: &Field, new_size: usize) -> (r: Result<(), SynthesisError>)
        requires
            f.wf(),
        ensures
            new_size < old(self)@.len() ==> r == Err::<(), SynthesisError>(
                SynthesisError::PolynomialDegreeTooLarge,
            ),
            new_size >= old(self)@.len() && pow2(next_pow2_exp(new_size as nat)) != new_size ==> r
                == Err::<(), SynthesisError>(SynthesisError::Unsatisfiable),
            new_size >= old(self)@.len() && pow2(next_pow2_exp(new_size as nat)) == new_size ==> (r
                is Ok <==> next_pow2_exp(new_size as nat) <= f.s_spec()),
            r is Err ==> r == Err::<(), SynthesisError>(SynthesisError::PolynomialDegreeTooLarge)
                || r == Err::<(), SynthesisError>(SynthesisError::Unsatisfiable),
            r is Ok ==> final(self)@ == pad_zeros(old(self)@, new_size as nat),
            r is Ok ==> final(self).log_size() == next_pow2_exp(new_size as nat),
            r is Ok ==> final(self).wf(),
            r is Err ==> final(self)@ == old(self)@,
            r is Err ==> final(self).log_size() == old(self).log_size(),
    {
        if new_size < self.coeffs.len() {
            return Err(SynthesisError::PolynomialDegreeTooLarge);
        }
        let (k, size) = next_pow2(new_size);
        if size != new_size as u128 {
            return Err(SynthesisError::Unsatisfiable);
        }
        let s = f.two_adicity();
        if k > s {
            return Err(SynthesisError::PolynomialDegreeTooLarge);
        }
        pad_with_zeros(&mut self.coeffs, new_size);
        self.exp = k;
        Ok(())
    }

    /// Multiplies coefficient `i` by `g^i`.
    pub fn distribute_powers(&mut self, f: &Field, g: u64)
        requires
            f.wf(),
            g < f.modulus,
            f.all_elems(old(self)@),
        ensures
            final(self)@.len() == old(self)@.len(),
            final(self).log_size() == old(self).log_size(),
            f.all_elems(final(self)@),
            forall|i: int|
                0 <= i < final(self)@.len() ==> #[trigger] final(self)@[i] == (old(self)@[i] * f.pow_spec(
                    g as int,
                    i as nat,
                )) % f.p(),
    {
        let n = self.coeffs.len();
        let mut u: u64 = 1;
        let ghost orig = self.coeffs@;
        proof {
            reveal(pow);
            lemma_small_mod(1, f.p() as nat);
        }
        for i in 0..n
            invariant
                f.wf(),
                g < f.modulus,
                n == orig.len(),
                f.all_elems(orig),
                self.coeffs@.len() == n,
                self.exp == old(self).exp,
                u < f.modulus,
                u == f.pow_spec(g as int, i as nat),
                forall|j: int| i <= j < n ==> #[trigger] self.coeffs@[j] == orig[j],
                forall|j: int|
                    0 <= j < i ==> #[trigger] self.coeffs@[j] == (orig[j] * f.pow_spec(
                        g as int,
                        j as nat,
                    )) % f.p(),
                forall|j: int| 0 <= j < i ==> #[trigger] self.coeffs@[j] < f.modulus,
        {
            let c = f.mul(self.coeffs[i], u);
            self.coeffs.set(i, c);
            proof {
                lemma_pow_mod_step(g as int, i as nat, f.p());
            }
            u = f.mul(u, g);
        }
    }

    /// The value of the polynomial at `x`, by Horner's rule.
    pub fn evaluate_at(&self, f: &Field, x: u64) -> (r: u64)
        requires
            f.wf(),
            f.all_elems(self@),
            x < f.modulus,
        ensures
            r < f.modulus,
            r == f.poly_eval(self@, x as int),
    {
        evaluate(f, self.coeffs.as_slice(), x)
    }
}

/// The inverse of every entry, with zero sent to zero; fails when a nonzero entry has no
/// inverse.
pub fn multi_inv(f: &Field, values: &[u64]) -> (r: Result<Vec<u64>, SynthesisError>)
    requires
        f.wf(),
        f.all_elems(values@),
    ensures
        r is Ok <==> (forall|i: int|
            0 <= i < values@.len() ==> #[trigger] values@[i] == 0 || f.invertible(
                values@[i] as int,
            )),
        r matches Err(e) ==> e == SynthesisError::DivisionByZero,
        r matches Ok(out) ==> {
            &&& out@.len() == values@.len()
            &&& f.all_elems(out@)
            &&& forall|i: int|
                0 <= i < values@.len() ==> #[trigger] out@[i] == f.inv_or_zero(values@[i] as int)
        },
{
    let mut out: Vec<u64> = Vec::new();
    for i in 0..values.len()
        invariant
            f.wf(),
            f.all_elems(values@),
            out@.len() == i,
            f.all_elems(out@),
            forall|j: int| 0 <= j < i ==> #[trigger] out@[j] == f.inv_or_zero(values@[j] as int),
            forall|j: int|
                0 <= j < i ==> #[trigger] values@[j] == 0 || f.invertible(values@[j] as int),
    {
        let v = values[i];
        if v == 0 {
            out.push(0);
        } else {
            match f.inverse(v) {
                Some(w) => {
                    out.push(w);
                },
                None => {
                    return Err(SynthesisError::DivisionByZero);
                },
            }
        }
    }
    Ok(out)
}

/// Evaluates the polynomial with coefficients `c` at `w^i` for each `i < c.len()`.
fn powers_eval(f: &Field, c: &[u64], w: u64) -> (r: Vec<u64>)
    requires
        f.wf(),
        f.all_elems(c@),
        w < f.modulus,
    ensures
        r@.len() == c@.len(),
        f.all_elems(r@),
        forall|i: int|
            0 <= i < r@.len() ==> #[trigger] r@[i] == f.poly_eval(c@, f.pow_spec(w as int, i as nat)),
{
    let n = c.len();
    let mut out: Vec<u64> = Vec::new();
    let mut x: u64 = 1;
    proof {
        reveal(pow);
        lemma_small_mod(1, f.p() as nat);
    }
    for i in 0..n
        invariant
            f.wf(),
            f.all_elems(c@),
            w < f.modulus,
            n == c@.len(),
            x < f.modulus,
            x == f.pow_spec(w as int, i as nat),
            out@.len() == i,
            forall|j: int|
                0 <= j < i ==> #[trigger] out@[j] == f.poly_eval(c@, f.pow_spec(w as int, j as nat)),
            forall|j: int| 0 <= j < i ==> #[trigger] out@[j] < f.modulus,
    {
        let v = evaluate(f, c, x);
        out.push(v);
        proof {
            lemma_pow_mod_step(w as int, i as nat, f.p());
        }
        x = f.mul(x, w);
    }
    out
}

/// The value at `x` of the polynomial with coefficients `c`.
pub fn evaluate(f: &Field, c: &[u64], x: u64) -> (r: u64)
    requires
        f.wf(),
        f.all_elems(c@),
        x < f.modulus,
    ensures
        r < f.modulus,
        r == f.poly_eval(c@, x as int),
{
    let n = c.len();
    let mut acc: u64 = 0;
    let mut i: usize = n;
    proof {
        assert(c@.subrange(n as int, n as int) =~= Seq::<u64>::empty());
        lemma_small_mod(0, f.p() as nat);
    }
    while i > 0
        invariant
            f.wf(),
            f.all_elems(c@),
            x < f.modulus,
            n == c@.len(),
            i <= n,
            acc < f.modulus,
            acc == eval_int(c@.subrange(i as int, n as int), x as int) % f.p(),
        decreases i,
    {
        let ghost tail = c@.subrange(i as int, n as int);
        i = i - 1;
        let t = f.mul(acc, x);
        acc = f.add(c[i], t);
        proof {
            let s = c@.subrange(i as int, n as int);
            assert(s.drop_first() =~= tail);
            let p = f.p();
            let e = eval_int(tail, x as int);
            lemma_mul_mod_noop_general(e, x as int, p);
            lemma_mul_is_commutative(e, x as int);
            lemma_add_mod_noop(c@[i as int] as int, x * e, p);
            lemma_small_mod(c@[i as int] as nat, p as nat);
        }
    }
    proof {
        assert(c@.subrange(0, n as int) =~= c@);
    }
    acc
}

} // verus!
