//! Fixed-point decimal values.
//!
//! A [`Dec`] mirrors a 96-bit decimal number: an integer mantissa together
//! with a scale, the number of digits after the decimal point. The value
//! denoted is `mantissa / 10^scale`. Contracts speak of a value through
//! [`Dec::units`], the integer count of `10^-28` units it denotes, so that
//! every comparison and sum in a specification is exact integer arithmetic.

use vstd::prelude::*;

verus! {

/// The largest scale a decimal value may carry: 28 digits after the point.
pub const MAX_SCALE: u32 = 28;

/// The largest magnitude a mantissa may take: `2^96 - 1`.
pub const MAX_MANTISSA: i128 = 0x0000_0000_FFFF_FFFF_FFFF_FFFF_FFFF_FFFF;

/// `10^n`.
pub open spec fn pow10(n: nat) -> int
    decreases n,
{
    if n == 0 {
        1
    } else {
        10 * pow10((n - 1) as nat)
    }
}

/// `pow10` is positive.
pub proof fn lemma_pow10_pos(n: nat)
    ensures
        pow10(n) >= 1,
    decreases n,
{
    if n > 0 {
        lemma_pow10_pos((n - 1) as nat);
    }
}

/// `pow10` splits over addition of exponents.
pub proof fn lemma_pow10_adds(a: nat, b: nat)
    ensures
        pow10(a + b) == pow10(a) * pow10(b),
    decreases a,
{
    if a == 0 {
        assert(pow10(0 + b) == 1 * pow10(b));
    } else {
        lemma_pow10_adds((a - 1) as nat, b);
        assert(pow10(a + b) == 10 * pow10(((a + b) - 1) as nat));
        assert(10 * (pow10((a - 1) as nat) * pow10(b)) == (10 * pow10((a - 1) as nat)) * pow10(b))
            by (nonlinear_arith);
    }
}

/// `pow10` is monotone in the exponent.
pub proof fn lemma_pow10_increases(a: nat, b: nat)
    requires
        a <= b,
    ensures
        pow10(a) <= pow10(b),
{
    lemma_pow10_adds(a, (b - a) as nat);
    lemma_pow10_pos(a);
    lemma_pow10_pos((b - a) as nat);
    assert(pow10(a) * 1 <= pow10(a) * pow10((b - a) as nat)) by (nonlinear_arith)
        requires
            pow10(a) >= 1 && pow10((b - a) as nat) >= 1,
    ;
}

/// The largest power of ten a scale can ask for stays well inside `i128`.
pub proof fn lemma_pow10_28()
    ensures
        pow10(28) == 0x204FCE5E3E25026110000000i128,
{
    assert(pow10(28) == 0x204FCE5E3E25026110000000i128) by {
        reveal_with_fuel(pow10, 29);
    }
}

/// A fixed-point decimal number: `mantissa / 10^scale`.
#[derive(Clone, Copy, PartialEq, Eq, Structural, Debug, Hash)]
pub struct Dec {
    /// The digits of the number, as a signed integer.
    pub mantissa: i128,
    /// How many of the digits lie after the decimal point.
    pub scale: u32,
}

impl Dec {
    /// A representation this crate accepts: the mantissa fits in 96 bits and
    /// the scale is at most [`MAX_SCALE`].
    pub open spec fn wf(self) -> bool {
        self.scale <= MAX_SCALE && -MAX_MANTISSA <= self.mantissa <= MAX_MANTISSA
    }

    /// The value denoted, as an exact count of `10^-28` units.
    pub open spec fn units(self) -> int {
        self.mantissa * pow10((MAX_SCALE - self.scale) as nat)
    }

    /// Construct a decimal from its parts.
    pub fn new(mantissa: i128, scale: u32) -> (r: Dec)
        requires
            scale <= MAX_SCALE,
            -MAX_MANTISSA <= mantissa <= MAX_MANTISSA,
        ensures
            r == (Dec { mantissa, scale }),
            r.wf(),
    {
        Dec { mantissa, scale }
    }

    /// The negation of a value: same scale, opposite mantissa.
    pub fn neg(&self) -> (r: Dec)
        requires
            self.wf(),
        ensures
            r.wf(),
            r.scale == self.scale,
            r.mantissa == -self.mantissa,
            r.units() == -self.units(),
    {
        proof {
            lemma_pow10_pos((MAX_SCALE - self.scale) as nat);
            assert((-self.mantissa) * pow10((MAX_SCALE - self.scale) as nat) == -(self.mantissa
                * pow10((MAX_SCALE - self.scale) as nat))) by (nonlinear_arith);
        }
        Dec { mantissa: -self.mantissa, scale: self.scale }
    }

    /// Whether the value is zero.
    pub fn is_zero(&self) -> (r: bool)
        requires
            self.wf(),
        ensures
            r == (self.units() == 0),
    {
        proof {
            lemma_pow10_pos((MAX_SCALE - self.scale) as nat);
            assert(self.mantissa != 0 ==> self.mantissa * pow10((MAX_SCALE - self.scale) as nat)
                != 0) by (nonlinear_arith)
                requires
                    pow10((MAX_SCALE - self.scale) as nat) >= 1,
            ;
        }
        self.mantissa == 0
    }

    /// Whether the value is negative.
    pub fn is_negative(&self) -> (r: bool)
        requires
            self.wf(),
        ensures
            r == (self.units() < 0),
    {
        proof {
            lemma_pow10_pos((MAX_SCALE - self.scale) as nat);
            lemma_mul_sign(self.mantissa as int, pow10((MAX_SCALE - self.scale) as nat));
        }
        self.mantissa < 0
    }

    /// Whether the sign bit is positive, in the sense the divider utility
    /// asks: a zero counts as positive.
    pub fn is_sign_positive(&self) -> (r: bool)
        requires
            self.wf(),
        ensures
            r == (self.units() >= 0),
    {
        proof {
            lemma_pow10_pos((MAX_SCALE - self.scale) as nat);
            lemma_mul_sign(self.mantissa as int, pow10((MAX_SCALE - self.scale) as nat));
        }
        self.mantissa >= 0
    }
}

/// Multiplying by a positive number keeps the sign.
proof fn lemma_mul_sign(m: int, p: int)
    requires
        p >= 1,
    ensures
        (m < 0) == (m * p < 0),
        (m == 0) == (m * p == 0),
        (m > 0) == (m * p > 0),
{
    assert((m < 0 ==> m * p < 0) && (m == 0 ==> m * p == 0) && (m > 0 ==> m * p > 0))
        by (nonlinear_arith)
        requires
            p >= 1,
    ;
}

/// `10^k` for a small exponent, as a machine integer.
pub fn pow10_i128(k: u32) -> (r: i128)
    requires
        k <= MAX_SCALE,
    ensures
        r == pow10(k as nat),
        r >= 1,
{
    let mut r: i128 = 1;
    let mut i: u32 = 0;
    proof {
        lemma_pow10_28();
    }
    while i < k
        invariant
            i <= k <= MAX_SCALE,
            r == pow10(i as nat),
            pow10(28) == 0x204FCE5E3E25026110000000i128,
        decreases k - i,
    {
        proof {
            lemma_pow10_increases((i + 1) as nat, 28);
            lemma_pow10_pos(i as nat);
        }
        r = r * 10;
        i = i + 1;
    }
    proof {
        lemma_pow10_pos(k as nat);
    }
    r
}

/// The larger of two scales.
pub open spec fn scale_max(a: u32, b: u32) -> u32 {
    if a >= b {
        a
    } else {
        b
    }
}

/// Rescaling a mantissa to a common scale keeps the value: multiplying the
/// mantissa by `10^(smax - scale)` and dropping the same factor from the
/// unit size cancel out.
pub(crate) proof fn lemma_align_units(d: Dec, smax: u32)
    requires
        d.wf(),
        d.scale <= smax <= MAX_SCALE,
    ensures
        d.units() == (d.mantissa * pow10((smax - d.scale) as nat)) * pow10(
            (MAX_SCALE - smax) as nat,
        ),
{
    let ka = (smax - d.scale) as nat;
    let kc = (MAX_SCALE - smax) as nat;
    lemma_pow10_adds(ka, kc);
    assert(d.mantissa * (pow10(ka) * pow10(kc)) == (d.mantissa * pow10(ka)) * pow10(kc))
        by (nonlinear_arith);
}

/// Multiplying by a positive factor preserves order.
proof fn lemma_mul_preserves_cmp(x: int, y: int, p: int)
    requires
        p >= 1,
    ensures
        (x < y) == (x * p < y * p),
        (x == y) == (x * p == y * p),
{
    assert(((x < y) == (x * p < y * p)) && ((x == y) == (x * p == y * p))) by (nonlinear_arith)
        requires
            p >= 1,
    ;
}

impl Dec {
    /// The absolute value: same scale, magnitude of the mantissa.
    pub fn abs(&self) -> (r: Dec)
        requires
            self.wf(),
        ensures
            r.wf(),
            r.scale == self.scale,
            r.units() == if self.units() >= 0 {
                self.units()
            } else {
                -self.units()
            },
    {
        proof {
            lemma_pow10_pos((MAX_SCALE - self.scale) as nat);
            lemma_mul_sign(self.mantissa as int, pow10((MAX_SCALE - self.scale) as nat));
        }
        if self.mantissa < 0 {
            self.neg()
        } else {
            *self
        }
    }

    /// Three-way comparison of the values denoted: `-1`, `0` or `1` as this
    /// value is below, at or above the other.
    pub fn units_cmp(&self, other: &Dec) -> (r: i8)
        requires
            self.wf(),
            other.wf(),
        ensures
            (r == -1i8) == (self.units() < other.units()),
            (r == 0i8) == (self.units() == other.units()),
            (r == 1i8) == (self.units() > other.units()),
    {
        proof {
            lemma_pow10_pos((MAX_SCALE - self.scale) as nat);
            lemma_pow10_pos((MAX_SCALE - other.scale) as nat);
            lemma_mul_sign(self.mantissa as int, pow10((MAX_SCALE - self.scale) as nat));
            lemma_mul_sign(other.mantissa as int, pow10((MAX_SCALE - other.scale) as nat));
        }
        // Settle everything by sign first; only like-signed values need their
        // magnitudes aligned.
        if self.mantissa == 0 {
            if other.mantissa > 0 {
                return -1;
            }
            if other.mantissa < 0 {
                return 1;
            }
            return 0;
        }
        if self.mantissa > 0 && other.mantissa <= 0 {
            return 1;
        }
        if self.mantissa < 0 && other.mantissa >= 0 {
            return -1;
        }
        let negative = self.mantissa < 0;
        let smax = if self.scale >= other.scale {
            self.scale
        } else {
            other.scale
        };
        let pa = pow10_i128((smax - self.scale)) as u128;
        let pb = pow10_i128((smax - other.scale)) as u128;
        let mag_a: u128 = if self.mantissa < 0 {
            (-self.mantissa) as u128
        } else {
            self.mantissa as u128
        };
        let mag_b: u128 = if other.mantissa < 0 {
            (-other.mantissa) as u128
        } else {
            other.mantissa as u128
        };
        proof {
            lemma_align_units(*self, smax);
            lemma_align_units(*other, smax);
            lemma_mul_preserves_cmp(
                self.mantissa * pow10((smax - self.scale) as nat),
                other.mantissa * pow10((smax - other.scale) as nat),
                pow10((MAX_SCALE - smax) as nat),
            );
            lemma_pow10_pos((MAX_SCALE - smax) as nat);
        }
        let ghost aligned_a = self.mantissa * pow10((smax - self.scale) as nat);
        let ghost aligned_b = other.mantissa * pow10((smax - other.scale) as nat);
        let mag_cmp: i8 = match mag_a.checked_mul(pa) {
            None => {
                // The aligned magnitude overflows even `u128`; the other side
                // was not rescaled, so it is certainly smaller.
                proof {
                    if smax == self.scale {
                        assert(mag_a * 1 == mag_a) by (nonlinear_arith);
                        assert(false);
                    }
                    assert(smax == other.scale);
                    assert(mag_b * 1 == mag_b) by (nonlinear_arith);
                }
                1
            },
            Some(aa) => {
                match mag_b.checked_mul(pb) {
                    None => {
                        proof {
                            if smax == other.scale {
                                assert(mag_b * 1 == mag_b) by (nonlinear_arith);
                                assert(false);
                            }
                            assert(smax == self.scale);
                            assert(mag_a * 1 == mag_a) by (nonlinear_arith);
                        }
                        -1
                    },
                    Some(ab) => {
                        if aa < ab {
                            -1
                        } else if aa == ab {
                            0
                        } else {
                            1
                        }
                    },
                }
            },
        };
        proof {
            let pa_i = pow10((smax - self.scale) as nat);
            let pb_i = pow10((smax - other.scale) as nat);
            lemma_pow10_pos((smax - self.scale) as nat);
            lemma_pow10_pos((smax - other.scale) as nat);
            if negative {
                assert(aligned_a == -(mag_a * pa_i) && aligned_b == -(mag_b * pb_i))
                    by (nonlinear_arith)
                    requires
                        mag_a == -self.mantissa && mag_b == -other.mantissa && aligned_a
                            == self.mantissa * pa_i && aligned_b == other.mantissa * pb_i,
                ;
            } else {
                assert(aligned_a == mag_a * pa_i && aligned_b == mag_b * pb_i);
            }
        }
        if negative {
            -mag_cmp
        } else {
            mag_cmp
        }
    }

    /// Whether this value is strictly below the other.
    pub fn lt(&self, other: &Dec) -> (r: bool)
        requires
            self.wf(),
            other.wf(),
        ensures
            r == (self.units() < other.units()),
    {
        self.units_cmp(other) == -1
    }

    /// Whether this value is strictly above the other.
    pub fn gt(&self, other: &Dec) -> (r: bool)
        requires
            self.wf(),
            other.wf(),
        ensures
            r == (self.units() > other.units()),
    {
        self.units_cmp(other) == 1
    }

    /// Whether the two representations denote one value.
    pub fn eq_units(&self, other: &Dec) -> (r: bool)
        requires
            self.wf(),
            other.wf(),
        ensures
            r == (self.units() == other.units()),
    {
        self.units_cmp(other) == 0
    }
}

/// Integer division truncated toward zero, for a positive divisor.
pub open spec fn trunc_div(m: int, p: int) -> int {
    if m >= 0 {
        m / p
    } else {
        -((-m) / p)
    }
}

/// What [`quantize`] returns: a representation with at most `quantization`
/// digits after the point, its mantissa truncated toward zero. A value that
/// already carries no more digits than asked for is returned unchanged.
pub open spec fn spec_quantize(d: Dec, quantization: u32) -> Dec {
    if d.scale <= quantization {
        d
    } else {
        Dec {
            mantissa: trunc_div(d.mantissa as int, pow10((d.scale - quantization) as nat)) as i128,
            scale: quantization,
        }
    }
}

/// Return a quantized zero value with a specific number of digits past the
/// decimal point.
pub fn quantized_zero(quantization: u32) -> (r: Dec)
    requires
        quantization <= MAX_SCALE,
    ensures
        r == (Dec { mantissa: 0, scale: quantization }),
        r.wf(),
        r.units() == 0,
{
    Dec { mantissa: 0, scale: quantization }
}

/// The smallest representable unit at a given number of decimal places:
/// 0 gives 1, 1 gives 0.1, 2 gives 0.01, and so on.
pub fn quantum(quantization: u32) -> (r: Dec)
    requires
        quantization <= MAX_SCALE,
    ensures
        r == (Dec { mantissa: 1, scale: quantization }),
        r.wf(),
        r.units() == pow10((MAX_SCALE - quantization) as nat),
        r.units() >= 1,
{
    proof {
        lemma_pow10_pos((MAX_SCALE - quantization) as nat);
    }
    Dec { mantissa: 1, scale: quantization }
}

/// Truncates a decimal value toward zero to a currency-quantized value. For
/// instance, 2.034 becomes 2.03 at a quantization of 2, and -2.039 becomes
/// -2.03: the quantizer never rounds away from zero. Exact conservation is
/// the remainder distributor's burden, not this function's.
pub fn quantize(amount: &Dec, quantization: u32) -> (r: Dec)
    requires
        amount.wf(),
    ensures
        r == spec_quantize(*amount, quantization),
        r.wf(),
{
    if amount.scale <= quantization {
        return *amount;
    }
    let p = pow10_i128(amount.scale - quantization);
    let mag: u128 = if amount.mantissa < 0 {
        (-amount.mantissa) as u128
    } else {
        amount.mantissa as u128
    };
    let q: u128 = mag / (p as u128);
    proof {
        assert(q <= mag) by (nonlinear_arith)
            requires
                q == mag as int / p as int && p >= 1 && mag >= 0,
        ;
    }
    let m: i128 = if amount.mantissa < 0 {
        -(q as i128)
    } else {
        q as i128
    };
    Dec { mantissa: m, scale: quantization }
}

/// The units of a value whose scale is at most `q` are a multiple of the
/// quantum at `q`.
pub proof fn lemma_units_multiple(d: Dec, q: u32)
    requires
        d.wf(),
        d.scale <= q <= MAX_SCALE,
    ensures
        d.units() % pow10((MAX_SCALE - q) as nat) == 0,
{
    let ka = (q - d.scale) as nat;
    let kc = (MAX_SCALE - q) as nat;
    lemma_pow10_adds(ka, kc);
    lemma_pow10_pos(ka);
    lemma_pow10_pos(kc);
    assert(d.mantissa * (pow10(ka) * pow10(kc)) == (d.mantissa * pow10(ka)) * pow10(kc))
        by (nonlinear_arith);
    assert((d.mantissa * pow10(ka)) * pow10(kc) % pow10(kc) == 0) by (nonlinear_arith)
        requires
            pow10(kc) >= 1,
    ;
}

/// What [`Dec::add_exact`] returns: the two mantissas are brought to the
/// larger scale and added. `None` when a rescaled mantissa or the sum
/// escapes the machine integer, or the sum does not fit in 96 bits: the sum
/// is then not representable here, and a caller treats that as overflow.
pub open spec fn spec_add_exact(a: Dec, b: Dec) -> Option<Dec> {
    let smax = scale_max(a.scale, b.scale);
    let ma = a.mantissa * pow10((smax - a.scale) as nat);
    let mb = b.mantissa * pow10((smax - b.scale) as nat);
    if ma < i128::MIN || ma > i128::MAX || mb < i128::MIN || mb > i128::MAX {
        None
    } else if -MAX_MANTISSA <= ma + mb <= MAX_MANTISSA {
        Some(Dec { mantissa: (ma + mb) as i128, scale: smax })
    } else {
        None
    }
}

impl Dec {
    /// Exact addition: the result denotes precisely the sum of the two
    /// values, or `None` when that sum cannot be represented at the larger
    /// of the two scales.
    pub fn add_exact(&self, other: &Dec) -> (r: Option<Dec>)
        requires
            self.wf(),
            other.wf(),
        ensures
            r == spec_add_exact(*self, *other),
            r is Some ==> r->Some_0.wf() && r->Some_0.units() == self.units() + other.units()
                && r->Some_0.scale == scale_max(self.scale, other.scale),
    {
        let smax = if self.scale >= other.scale {
            self.scale
        } else {
            other.scale
        };
        let pa = pow10_i128(smax - self.scale);
        let pb = pow10_i128(smax - other.scale);
        let ma = match self.mantissa.checked_mul(pa) {
            Some(v) => v,
            None => {
                return None;
            },
        };
        let mb = match other.mantissa.checked_mul(pb) {
            Some(v) => v,
            None => {
                return None;
            },
        };
        let sum = match ma.checked_add(mb) {
            Some(v) => v,
            None => {
                return None;
            },
        };
        if -MAX_MANTISSA <= sum && sum <= MAX_MANTISSA {
            proof {
                lemma_align_units(*self, smax);
                lemma_align_units(*other, smax);
                let pc = pow10((MAX_SCALE - smax) as nat);
                assert((ma + mb) * pc == ma * pc + mb * pc) by (nonlinear_arith);
            }
            Some(Dec { mantissa: sum, scale: smax })
        } else {
            None
        }
    }

    /// Exact subtraction, by adding the negation.
    pub fn sub_exact(&self, other: &Dec) -> (r: Option<Dec>)
        requires
            self.wf(),
            other.wf(),
        ensures
            r == spec_add_exact(
                *self,
                Dec { mantissa: (-other.mantissa) as i128, scale: other.scale },
            ),
            r is Some ==> r->Some_0.wf() && r->Some_0.units() == self.units() - other.units()
                && r->Some_0.scale == scale_max(self.scale, other.scale),
    {
        let n = other.neg();
        self.add_exact(&n)
    }
}

/// A positive multiple of a positive number is at least that number.
pub proof fn lemma_multiple_ge(x: int, m: int)
    requires
        m >= 1,
        x % m == 0,
        x > 0,
    ensures
        x >= m,
{
    vstd::arithmetic::div_mod::lemma_fundamental_div_mod(x, m);
    assert(x == m * (x / m));
    assert(x / m >= 1) by (nonlinear_arith)
        requires
            m >= 1 && x == m * (x / m) && x > 0,
    ;
    assert(m * (x / m) >= m) by (nonlinear_arith)
        requires
            m >= 1 && x / m >= 1,
    ;
}

/// The negation of a multiple stays a multiple.
pub proof fn lemma_neg_multiple(x: int, m: int)
    requires
        m >= 1,
        x % m == 0,
    ensures
        (-x) % m == 0,
{
    vstd::arithmetic::div_mod::lemma_fundamental_div_mod(x, m);
    let k = x / m;
    assert(-x == (-k) * m) by (nonlinear_arith)
        requires
            x == m * k,
    ;
    vstd::arithmetic::div_mod::lemma_mod_multiples_basic(-k, m);
}

/// The difference of two multiples stays a multiple.
pub proof fn lemma_multiple_sub(x: int, a: int, m: int)
    requires
        m >= 1,
        x % m == 0,
        a % m == 0,
    ensures
        (x - a) % m == 0,
{
    vstd::arithmetic::div_mod::lemma_fundamental_div_mod(x, m);
    vstd::arithmetic::div_mod::lemma_fundamental_div_mod(a, m);
    let k1 = x / m;
    let k2 = a / m;
    assert(x - a == (k1 - k2) * m) by (nonlinear_arith)
        requires
            x == m * k1 && a == m * k2,
    ;
    vstd::arithmetic::div_mod::lemma_mod_multiples_basic(k1 - k2, m);
}

/// Quantization is idempotent: quantizing a value twice at one scale gives
/// exactly what quantizing it once gives.
pub proof fn lemma_quantize_idempotent(x: Dec, s: u32)
    ensures
        spec_quantize(spec_quantize(x, s), s) == spec_quantize(x, s),
{
}

/// An inequality between products with one positive factor transfers to
/// the other factors.
pub(crate) proof fn lemma_mul_le_cancel(a: int, b: int, p: int)
    requires
        p >= 1,
        a * p <= b * p,
    ensures
        a <= b,
{
    assert(a <= b) by (nonlinear_arith)
        requires
            p >= 1 && a * p <= b * p,
    ;
}

/// Adding one scale-`q` value to another cannot overflow while both the
/// operand and the sum stay within the representable band at that scale.
pub(crate) proof fn lemma_exact_add_in_band(a: Dec, b: Dec, q: u32)
    requires
        a.wf(),
        b.wf(),
        q <= MAX_SCALE,
        a.scale <= q,
        b.scale == q,
        -(MAX_MANTISSA * pow10((MAX_SCALE - q) as nat)) <= a.units() <= MAX_MANTISSA * pow10(
            (MAX_SCALE - q) as nat,
        ),
        -(MAX_MANTISSA * pow10((MAX_SCALE - q) as nat)) <= a.units() + b.units() <= MAX_MANTISSA
            * pow10((MAX_SCALE - q) as nat),
    ensures
        spec_add_exact(a, b) is Some,
{
    let qu = pow10((MAX_SCALE - q) as nat);
    lemma_pow10_pos((MAX_SCALE - q) as nat);
    lemma_align_units(a, q);
    let ma = a.mantissa * pow10((q - a.scale) as nat);
    assert(a.units() == ma * qu);
    assert(-MAX_MANTISSA <= ma <= MAX_MANTISSA) by {
        lemma_mul_le_cancel(ma, MAX_MANTISSA as int, qu);
        lemma_mul_le_cancel(-MAX_MANTISSA as int, ma, qu);
        assert((-MAX_MANTISSA) * qu == -(MAX_MANTISSA * qu)) by (nonlinear_arith);
    }
    let mb = b.mantissa * pow10((q - b.scale) as nat);
    assert(pow10(0) == 1);
    assert(mb == b.mantissa) by (nonlinear_arith)
        requires
            mb == b.mantissa * 1int,
    ;
    assert(b.units() == b.mantissa * qu);
    assert(a.units() + b.units() == (ma + mb) * qu) by (nonlinear_arith)
        requires
            a.units() == ma * qu && b.units() == mb * qu,
    ;
    assert(-MAX_MANTISSA <= ma + mb <= MAX_MANTISSA) by {
        lemma_mul_le_cancel(ma + mb, MAX_MANTISSA as int, qu);
        lemma_mul_le_cancel(-MAX_MANTISSA as int, ma + mb, qu);
        assert((-MAX_MANTISSA) * qu == -(MAX_MANTISSA * qu)) by (nonlinear_arith);
    }
}

/// A value whose units are a whole number of quanta is already quantized:
/// truncation changes nothing.
pub proof fn lemma_multiple_quantize_identity(d: Dec, q: u32)
    requires
        d.wf(),
        q <= MAX_SCALE,
        d.units() % pow10((MAX_SCALE - q) as nat) == 0,
    ensures
        spec_quantize(d, q).units() == d.units(),
{
    let qu = pow10((MAX_SCALE - q) as nat);
    lemma_pow10_pos((MAX_SCALE - q) as nat);
    lemma_quantize_value(d, q);
    vstd::arithmetic::div_mod::lemma_fundamental_div_mod(d.units(), qu);
    assert((d.units() / qu) * qu == qu * (d.units() / qu)) by (nonlinear_arith);
    if d.units() < 0 {
        lemma_neg_multiple(d.units(), qu);
        vstd::arithmetic::div_mod::lemma_fundamental_div_mod(-d.units(), qu);
        assert(((-d.units()) / qu) * qu == qu * ((-d.units()) / qu)) by (nonlinear_arith);
        assert((-((-d.units()) / qu)) * qu == -(((-d.units()) / qu) * qu)) by (nonlinear_arith);
    }
}

/// What quantization means for the value: the count of `10^-28` units is
/// truncated toward zero to a whole multiple of the quantum at the asked
/// scale.
pub proof fn lemma_quantize_value(x: Dec, q: u32)
    requires
        x.wf(),
        q <= MAX_SCALE,
    ensures
        spec_quantize(x, q).units() == trunc_div(x.units(), pow10((MAX_SCALE - q) as nat)) * pow10(
            (MAX_SCALE - q) as nat,
        ),
{
    let m = pow10((MAX_SCALE - q) as nat);
    lemma_pow10_pos((MAX_SCALE - q) as nat);
    if x.scale <= q {
        // The value is already a whole number of quanta, so truncation
        // returns it unchanged.
        lemma_units_multiple(x, q);
        vstd::arithmetic::div_mod::lemma_fundamental_div_mod(x.units(), m);
        assert((x.units() / m) * m == m * (x.units() / m)) by (nonlinear_arith);
        if x.units() < 0 {
            lemma_neg_multiple(x.units(), m);
            vstd::arithmetic::div_mod::lemma_fundamental_div_mod(-x.units(), m);
            assert(((-x.units()) / m) * m == m * ((-x.units()) / m)) by (nonlinear_arith);
            assert((-((-x.units()) / m)) * m == -(((-x.units()) / m) * m)) by (nonlinear_arith);
        }
    } else {
        let k = (x.scale - q) as nat;
        let c = (MAX_SCALE - x.scale) as nat;
        let pk = pow10(k);
        let pc = pow10(c);
        lemma_pow10_pos(k);
        lemma_pow10_pos(c);
        lemma_pow10_adds(c, k);
        let mag = if x.mantissa >= 0 {
            x.mantissa as int
        } else {
            -x.mantissa as int
        };
        // Dividing the unit count by the quantum is dividing the mantissa by
        // ten to the dropped digits: the common factor cancels.
        vstd::arithmetic::div_mod::lemma_div_multiples_vanish(mag, pc);
        vstd::arithmetic::div_mod::lemma_div_denominator(mag * pc, pc, pk);
        assert(mag * pc == pc * mag) by (nonlinear_arith);
        assert((mag * pc) / m == mag / pk);
        vstd::arithmetic::div_mod::lemma_div_nonincreasing(mag, pk);
        vstd::arithmetic::div_mod::lemma_div_pos_is_pos(mag, pk);
        let r = spec_quantize(x, q);
        assert(mag >= 0);
        assert(mag * pc >= 0) by (nonlinear_arith)
            requires
                mag >= 0 && pc >= 1,
        ;
        if x.mantissa >= 0 {
            assert(x.units() == mag * pc);
            assert(x.units() >= 0);
            assert(trunc_div(x.units(), m) == (mag * pc) / m);
            assert(r.mantissa == mag / pk);
            assert(r.units() == (mag / pk) * m);
        } else {
            assert(x.units() == -(mag * pc) && r.units() == (-(mag / pk)) * m && (-(mag / pk)) * m
                == -((mag / pk) * m)) by (nonlinear_arith)
                requires
                    mag == -x.mantissa && x.units() == x.mantissa * pc && r.units() == r.mantissa
                        * m && r.mantissa == -(mag / pk),
            ;
            assert(x.mantissa < 0);
            assert(mag * pc > 0 ==> x.units() < 0);
            assert(x.units() <= 0) by (nonlinear_arith)
                requires
                    x.units() == -(mag * pc) && mag * pc >= 0,
            ;
            if x.units() == 0 {
                assert(mag * pc == 0);
                assert(mag == 0) by (nonlinear_arith)
                    requires
                        mag * pc == 0 && pc >= 1 && mag >= 0,
                ;
                assert(false);
            }
            assert(trunc_div(x.units(), m) == -((mag * pc) / m));
        }
    }
}

/// What rust_decimal's `checked_add` returns for the representation
/// `(am, ascale) + (bm, bscale)`: mantissa and scale of the sum, or `None`
/// on overflow. When the sum cannot be held exactly in 96 bits the crate
/// rounds at a reduced scale, so only the facts stated at [`dec_add`] are
/// known of this name.
pub uninterp spec fn add_rep(am: int, ascale: int, bm: int, bscale: int) -> Option<(int, int)>;

/// What rust_decimal's `checked_mul` returns, as [`add_rep`] for addition.
pub uninterp spec fn mul_rep(am: int, ascale: int, bm: int, bscale: int) -> Option<(int, int)>;

/// What rust_decimal's `checked_div` returns, as [`add_rep`] for addition.
pub uninterp spec fn div_rep(am: int, ascale: int, bm: int, bscale: int) -> Option<(int, int)>;

/// What rust_decimal's `Decimal::from_str_exact` makes of a string: the
/// representation parsed from it, or `None` where the string is not a plain
/// decimal numeral.
pub uninterp spec fn parse_rep(s: Seq<char>) -> Option<(int, int)>;

/// What rust_decimal's `Decimal` display gives for a representation: the
/// digits of the mantissa with a point placed `scale` digits from the end.
pub uninterp spec fn string_rep(m: int, scale: int) -> Seq<char>;

/// A mantissa and scale pair as a decimal, for reading the named
/// representation results in contracts.
pub open spec fn rep_to_dec(r: Option<(int, int)>) -> Option<Dec> {
    match r {
        None => None,
        Some(p) => Some(Dec { mantissa: p.0 as i128, scale: p.1 as u32 }),
    }
}

/// The decimal a string parses to, as the outside crate parses it.
pub open spec fn spec_parse(s: Seq<char>) -> Option<Dec> {
    rep_to_dec(parse_rep(s))
}

/// The sum of two decimals, as the outside crate computes it.
pub open spec fn spec_add(a: Dec, b: Dec) -> Option<Dec> {
    rep_to_dec(add_rep(a.mantissa as int, a.scale as int, b.mantissa as int, b.scale as int))
}

/// The difference of two decimals: the sum with the negated subtrahend.
pub open spec fn spec_sub(a: Dec, b: Dec) -> Option<Dec> {
    spec_add(a, Dec { mantissa: (-b.mantissa) as i128, scale: b.scale })
}

/// The product of two decimals, as the outside crate computes it.
pub open spec fn spec_mul(a: Dec, b: Dec) -> Option<Dec> {
    rep_to_dec(mul_rep(a.mantissa as int, a.scale as int, b.mantissa as int, b.scale as int))
}

/// The quotient of two decimals, as the outside crate computes it.
pub open spec fn spec_div(a: Dec, b: Dec) -> Option<Dec> {
    rep_to_dec(div_rep(a.mantissa as int, a.scale as int, b.mantissa as int, b.scale as int))
}

/// Relies on rust_decimal's `Decimal::checked_add`. Its source commits the
/// exact sum at the larger of the two scales whenever the rescaled mantissas
/// and their sum fit in 96 bits, returns the other operand unchanged when
/// one is zero, and rounds at a reduced scale otherwise, so the result's
/// scale never exceeds the larger operand scale; `None` only on overflow
/// beyond any representable scale.
#[verifier::external_body]
pub fn dec_add(a: &Dec, b: &Dec) -> (r: Option<Dec>)
    requires
        a.wf(),
        b.wf(),
    ensures
        r == rep_to_dec(
            add_rep(a.mantissa as int, a.scale as int, b.mantissa as int, b.scale as int),
        ),
        r is Some ==> r->Some_0.wf() && r->Some_0.scale <= scale_max(a.scale, b.scale),
        a.mantissa == 0 ==> r == Some(*b),
        a.mantissa != 0 && b.mantissa == 0 ==> r == Some(*a),
        ({
            let smax = scale_max(a.scale, b.scale);
            let ma = a.mantissa * pow10((smax - a.scale) as nat);
            let mb = b.mantissa * pow10((smax - b.scale) as nat);
            (a.mantissa != 0 && b.mantissa != 0 && -MAX_MANTISSA <= ma <= MAX_MANTISSA
                && -MAX_MANTISSA <= mb <= MAX_MANTISSA && -MAX_MANTISSA <= ma + mb <= MAX_MANTISSA)
                ==> r == Some((Dec { mantissa: (ma + mb) as i128, scale: smax }))
        }),
{
    let da = rust_decimal::Decimal::from_i128_with_scale(a.mantissa, a.scale);
    let db = rust_decimal::Decimal::from_i128_with_scale(b.mantissa, b.scale);
    da.checked_add(db).map(|d| Dec { mantissa: d.mantissa(), scale: d.scale() })
}

/// The difference, through [`dec_add`] on the negated subtrahend, which is
/// how the outside crate's own subtraction behaves.
pub fn dec_sub(a: &Dec, b: &Dec) -> (r: Option<Dec>)
    requires
        a.wf(),
        b.wf(),
    ensures
        r == spec_sub(*a, *b),
        r is Some ==> r->Some_0.wf() && r->Some_0.scale <= scale_max(a.scale, b.scale),
        b.mantissa == 0 && a.mantissa != 0 ==> r == Some(*a),
        ({
            let nb = Dec { mantissa: (-b.mantissa) as i128, scale: b.scale };
            let smax = scale_max(a.scale, b.scale);
            let ma = a.mantissa * pow10((smax - a.scale) as nat);
            let mb = nb.mantissa * pow10((smax - b.scale) as nat);
            (a.mantissa != 0 && b.mantissa != 0 && -MAX_MANTISSA <= ma <= MAX_MANTISSA
                && -MAX_MANTISSA <= mb <= MAX_MANTISSA && -MAX_MANTISSA <= ma + mb <= MAX_MANTISSA)
                ==> r == Some((Dec { mantissa: (ma + mb) as i128, scale: smax }))
        }),
{
    let nb = b.neg();
    dec_add(a, &nb)
}

/// Relies on rust_decimal's `Decimal::checked_mul`. Its source takes the
/// exact 192-bit product at the summed scale, keeps it verbatim when it fits
/// in 96 bits at a scale of at most 28, rounds at a reduced scale otherwise,
/// and yields zero at scale zero when either factor is zero.
#[verifier::external_body]
pub fn dec_mul(a: &Dec, b: &Dec) -> (r: Option<Dec>)
    requires
        a.wf(),
        b.wf(),
    ensures
        r == rep_to_dec(
            mul_rep(a.mantissa as int, a.scale as int, b.mantissa as int, b.scale as int),
        ),
        r is Some ==> r->Some_0.wf(),
        a.mantissa == 0 || b.mantissa == 0 ==> r == Some((Dec { mantissa: 0, scale: 0 })),
        (a.mantissa != 0 && b.mantissa != 0 && a.scale + b.scale <= MAX_SCALE && -MAX_MANTISSA
            <= a.mantissa * b.mantissa <= MAX_MANTISSA) ==> r == Some(
            (Dec { mantissa: (a.mantissa * b.mantissa) as i128, scale: (a.scale + b.scale) as u32 }),
        ),
{
    let da = rust_decimal::Decimal::from_i128_with_scale(a.mantissa, a.scale);
    let db = rust_decimal::Decimal::from_i128_with_scale(b.mantissa, b.scale);
    da.checked_mul(db).map(|d| Dec { mantissa: d.mantissa(), scale: d.scale() })
}

/// Relies on rust_decimal's `Decimal::checked_div`. Its source long-divides
/// to the highest precision that 96 bits and a scale of 28 allow, rounding
/// the last digit half-to-even; a zero dividend gives zero at scale zero.
/// `None` only when the integer part alone overflows.
#[verifier::external_body]
pub fn dec_div(a: &Dec, b: &Dec) -> (r: Option<Dec>)
    requires
        a.wf(),
        b.wf(),
        b.mantissa != 0,
    ensures
        r == rep_to_dec(
            div_rep(a.mantissa as int, a.scale as int, b.mantissa as int, b.scale as int),
        ),
        r is Some ==> r->Some_0.wf(),
        a.mantissa == 0 ==> r == Some((Dec { mantissa: 0, scale: 0 })),
{
    let da = rust_decimal::Decimal::from_i128_with_scale(a.mantissa, a.scale);
    let db = rust_decimal::Decimal::from_i128_with_scale(b.mantissa, b.scale);
    da.checked_div(db).map(|d| Dec { mantissa: d.mantissa(), scale: d.scale() })
}

/// Relies on rust_decimal's `Decimal::from_str_exact`: parses a plain
/// decimal numeral (optional sign, digits, one optional point) exactly, and
/// rejects anything it cannot hold without rounding. The error keeps the
/// parser's own message.
#[verifier::external_body]
pub fn parse_dec(s: &str) -> (r: Result<Dec, String>)
    ensures
        (r is Ok) == (parse_rep(s@) is Some),
        r is Ok ==> r->Ok_0.wf() && parse_rep(s@) == Some(
            (r->Ok_0.mantissa as int, r->Ok_0.scale as int),
        ),
{
    match rust_decimal::Decimal::from_str_exact(s) {
        Ok(d) => Ok(Dec { mantissa: d.mantissa(), scale: d.scale() }),
        Err(e) => Err(e.to_string()),
    }
}

/// Relies on rust_decimal's `Decimal` display: renders the mantissa's
/// digits with the decimal point `scale` digits from the end, keeping
/// trailing zeros.
#[verifier::external_body]
pub fn dec_to_string(d: &Dec) -> (r: String)
    requires
        d.wf(),
    ensures
        r@ == string_rep(d.mantissa as int, d.scale as int),
{
    rust_decimal::Decimal::from_i128_with_scale(d.mantissa, d.scale).to_string()
}

/// Returns a string with the quantized decimal value for precise
/// reconstruction elsewhere.
pub fn value_string(amount: &Dec, quantization: u32) -> (r: String)
    requires
        amount.wf(),
    ensures
        r@ == string_rep(
            spec_quantize(*amount, quantization).mantissa as int,
            spec_quantize(*amount, quantization).scale as int,
        ),
{
    let q = quantize(amount, quantization);
    dec_to_string(&q)
}

} // verus!
