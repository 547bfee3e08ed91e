//! Exact decimal numbers: an integer mantissa scaled by a power of ten.
//!
//! A literal such as `1.25` is held as mantissa `125` at scale `2`, so the
//! arithmetic of the expression language (addition, subtraction and
//! multiplication) is exact. Each operation reports, instead of a wrong
//! answer, when a result's mantissa leaves the machine range.

use vstd::prelude::*;

verus! {

/// Mathematical model of a decimal number: the value `mantissa / 10^scale`.
pub struct SpecVal {
    pub mantissa: int,
    pub scale: nat,
}

/// `10^n` over the naturals.
pub open spec fn pow10(n: nat) -> nat
    decreases n,
{
    if n == 0 {
        1
    } else {
        10 * pow10((n - 1) as nat)
    }
}

/// Whether `c` is a decimal digit.
pub open spec fn is_digit_char(c: char) -> bool {
    48 <= c as u32 <= 57
}

/// The numeric value of a digit character.
pub open spec fn digit_val(c: char) -> int {
    c as u32 - 48
}

/// The number a digit sequence denotes, most significant digit first.
pub open spec fn digits_val(d: Seq<char>) -> int
    decreases d.len(),
{
    if d.len() == 0 {
        0
    } else {
        10 * digits_val(d.drop_last()) + digit_val(d.last())
    }
}

pub proof fn lemma_digits_val_nonneg(d: Seq<char>)
    requires
        forall|n: int| 0 <= n < d.len() ==> is_digit_char(d[n]),
    ensures
        digits_val(d) >= 0,
    decreases d.len(),
{
    if d.len() > 0 {
        lemma_digits_val_nonneg(d.drop_last());
    }
}

/// Appending digits never shrinks the number a digit run denotes.
pub proof fn lemma_digits_val_extend(d: Seq<char>, e: Seq<char>)
    requires
        forall|n: int| 0 <= n < e.len() ==> is_digit_char(e[n]),
        d.is_prefix_of(e),
    ensures
        digits_val(e) >= digits_val(d),
    decreases e.len(),
{
    if e.len() > d.len() {
        assert(d.is_prefix_of(e.drop_last()));
        lemma_digits_val_extend(d, e.drop_last());
        lemma_digits_val_nonneg(e.drop_last());
    } else {
        assert(e =~= d);
    }
}

/// A decimal number the machine can hold: the value `mantissa / 10^scale`.
#[derive(Clone, Copy, Debug, PartialEq, Eq, Structural)]
pub struct Value {
    pub mantissa: i64,
    pub scale: u32,
}

impl View for Value {
    type V = SpecVal;

    open spec fn view(&self) -> SpecVal {
        SpecVal { mantissa: self.mantissa as int, scale: self.scale as nat }
    }
}

pub open spec fn mantissa_in_range(m: int) -> bool {
    i64::MIN <= m <= i64::MAX
}

/// The exact sum, written at the larger of the two scales.
pub open spec fn spec_add(a: SpecVal, b: SpecVal) -> SpecVal {
    let s = if a.scale >= b.scale { a.scale } else { b.scale };
    SpecVal {
        mantissa: a.mantissa * pow10((s - a.scale) as nat) + b.mantissa * pow10(
            (s - b.scale) as nat,
        ),
        scale: s,
    }
}

/// The exact difference, written at the larger of the two scales.
pub open spec fn spec_sub(a: SpecVal, b: SpecVal) -> SpecVal {
    let s = if a.scale >= b.scale { a.scale } else { b.scale };
    SpecVal {
        mantissa: a.mantissa * pow10((s - a.scale) as nat) - b.mantissa * pow10(
            (s - b.scale) as nat,
        ),
        scale: s,
    }
}

/// The exact product; scales add.
pub open spec fn spec_mul(a: SpecVal, b: SpecVal) -> SpecVal {
    SpecVal { mantissa: a.mantissa * b.mantissa, scale: a.scale + b.scale }
}

/// Whether a decimal fits the machine representation.
pub open spec fn val_fits(v: SpecVal) -> bool {
    mantissa_in_range(v.mantissa) && v.scale <= u32::MAX
}

/// A sum is representable exactly when its mantissa fits the machine word.
pub open spec fn can_add(a: SpecVal, b: SpecVal) -> bool {
    mantissa_in_range(spec_add(a, b).mantissa)
}

/// A difference is representable exactly when its mantissa fits the machine word.
pub open spec fn can_sub(a: SpecVal, b: SpecVal) -> bool {
    mantissa_in_range(spec_sub(a, b).mantissa)
}

/// A product is representable when its mantissa and its scale both fit.
pub open spec fn can_mul(a: SpecVal, b: SpecVal) -> bool {
    mantissa_in_range(spec_mul(a, b).mantissa) && a.scale + b.scale <= u32::MAX
}

proof fn lemma_pow10_positive(n: nat)
    ensures
        pow10(n) >= 1,
    decreases n,
{
    if n > 0 {
        lemma_pow10_positive((n - 1) as nat);
    }
}

proof fn lemma_pow10_monotone(a: nat, b: nat)
    requires
        a <= b,
    ensures
        pow10(a) <= pow10(b),
    decreases b,
{
    if a < b {
        lemma_pow10_monotone(a, (b - 1) as nat);
        lemma_pow10_positive((b - 1) as nat);
    }
}

proof fn lemma_pow10_19_value()
    ensures
        pow10(19) == 10000000000000000000,
{
    reveal_with_fuel(pow10, 20);
}

proof fn lemma_pow10_20_value()
    ensures
        pow10(20) == 100000000000000000000,
{
    reveal_with_fuel(pow10, 21);
}

/// A nonzero mantissa scaled by at least `10^20` lands far outside the
/// machine range, whatever the sign.
proof fn lemma_scaled_term_large(m: int, d: nat)
    requires
        m != 0,
        d >= 20,
    ensures
        m * pow10(d) >= pow10(20) || m * pow10(d) <= -pow10(20),
{
    lemma_pow10_monotone(20, d);
    lemma_pow10_20_value();
    let p = pow10(d) as int;
    if m >= 1 {
        assert(m * p >= p) by (nonlinear_arith)
            requires
                m >= 1,
                p >= 1,
        ;
    } else {
        assert(m * p <= -p) by (nonlinear_arith)
            requires
                m <= -1,
                p >= 1,
        ;
    }
}

/// Aligning two decimals at the larger scale: the smaller-scale mantissa is
/// scaled by the difference, the other is unchanged.
proof fn lemma_aligned_terms(a: SpecVal, b: SpecVal)
    requires
        a.scale <= b.scale,
    ensures
        spec_add(a, b).scale == b.scale,
        spec_add(a, b).mantissa == a.mantissa * pow10((b.scale - a.scale) as nat) + b.mantissa,
        spec_sub(a, b).mantissa == a.mantissa * pow10((b.scale - a.scale) as nat) - b.mantissa,
        spec_add(b, a).scale == b.scale,
        spec_add(b, a).mantissa == b.mantissa + a.mantissa * pow10((b.scale - a.scale) as nat),
        spec_sub(b, a).mantissa == b.mantissa - a.mantissa * pow10((b.scale - a.scale) as nat),
{
    reveal_with_fuel(pow10, 1);
    assert(pow10(0) == 1);
    assert(a.mantissa * pow10(0) == a.mantissa) by (nonlinear_arith)
        requires
            pow10(0) == 1,
    ;
    assert(b.mantissa * pow10(0) == b.mantissa) by (nonlinear_arith)
        requires
            pow10(0) == 1,
    ;
}

impl Value {
    pub fn new(mantissa: i64, scale: u32) -> (r: Value)
        ensures
            r@ == (SpecVal { mantissa: mantissa as int, scale: scale as nat }),
    {
        Value { mantissa, scale }
    }

    /// `10^d` as a machine integer, for small exponents.
    fn pow10_i128(d: u32) -> (p: i128)
        requires
            d <= 19,
        ensures
            p == pow10(d as nat),
    {
        let mut p: i128 = 1;
        let mut i: u32 = 0;
        while i < d
            invariant
                i <= d <= 19,
                p == pow10(i as nat),
            decreases d - i,
        {
            proof {
                lemma_pow10_monotone(i as nat, 18);
                reveal_with_fuel(pow10, 20);
            }
            p = p * 10;
            i = i + 1;
        }
        p
    }

    /// `m * 10^d`, exactly; `None` only for a nonzero mantissa pushed past
    /// what even a double-width word holds.
    fn scale_mantissa(m: i64, d: u32) -> (r: Option<i128>)
        ensures
            r matches Some(v) ==> v == m * pow10(d as nat) && -9223372036854775808
                * 10000000000000000000 <= v <= 9223372036854775808 * 10000000000000000000,
            r is None ==> m != 0 && d >= 20,
    {
        if m == 0 {
            proof {
                lemma_pow10_positive(d as nat);
                assert(0int * pow10(d as nat) == 0) by (nonlinear_arith);
            }
            return Some(0);
        }
        if d >= 20 {
            return None;
        }
        let p = Self::pow10_i128(d);
        proof {
            lemma_pow10_positive(d as nat);
            lemma_pow10_monotone(d as nat, 19);
            lemma_pow10_19_value();
            assert((m as int) * (p as int) <= 9223372036854775808 * 10000000000000000000
                && (m as int) * (p as int) >= -9223372036854775808 * 10000000000000000000)
                by (nonlinear_arith)
                requires
                    -9223372036854775808 <= m as int <= 9223372036854775807,
                    1 <= p as int <= 10000000000000000000,
            ;
        }
        Some((m as i128) * p)
    }

    /// Exact addition; `None` exactly when the sum's mantissa leaves the
    /// machine range.
    pub fn checked_add(self, other: Value) -> (r: Option<Value>)
        ensures
            match r {
                Some(v) => can_add(self@, other@) && v@ == spec_add(self@, other@),
                None => !can_add(self@, other@),
            },
    {
        proof {
            reveal_with_fuel(pow10, 1);
        }
        if self.scale <= other.scale {
            let d = other.scale - self.scale;
            match Self::scale_mantissa(self.mantissa, d) {
                None => {
                    proof {
                        lemma_aligned_terms(self@, other@);
                        lemma_scaled_term_large(self.mantissa as int, d as nat);
                        lemma_pow10_20_value();
                    }
                    None
                },
                Some(t) => {
                    proof {
                        lemma_aligned_terms(self@, other@);
                    }
                    let sum = t + other.mantissa as i128;
                    if sum < i64::MIN as i128 || sum > i64::MAX as i128 {
                        None
                    } else {
                        Some(Value { mantissa: sum as i64, scale: other.scale })
                    }
                },
            }
        } else {
            let d = self.scale - other.scale;
            match Self::scale_mantissa(other.mantissa, d) {
                None => {
                    proof {
                        lemma_aligned_terms(other@, self@);
                        lemma_scaled_term_large(other.mantissa as int, d as nat);
                        lemma_pow10_20_value();
                    }
                    None
                },
                Some(t) => {
                    proof {
                        lemma_aligned_terms(other@, self@);
                    }
                    let sum = self.mantissa as i128 + t;
                    if sum < i64::MIN as i128 || sum > i64::MAX as i128 {
                        None
                    } else {
                        Some(Value { mantissa: sum as i64, scale: self.scale })
                    }
                },
            }
        }
    }

    /// Exact subtraction; `None` exactly when the difference's mantissa
    /// leaves the machine range.
    pub fn checked_sub(self, other: Value) -> (r: Option<Value>)
        ensures
            match r {
                Some(v) => can_sub(self@, other@) && v@ == spec_sub(self@, other@),
                None => !can_sub(self@, other@),
            },
    {
        proof {
            reveal_with_fuel(pow10, 1);
        }
        if self.scale <= other.scale {
            let d = other.scale - self.scale;
            match Self::scale_mantissa(self.mantissa, d) {
                None => {
                    proof {
                        lemma_aligned_terms(self@, other@);
                        lemma_scaled_term_large(self.mantissa as int, d as nat);
                        lemma_pow10_20_value();
                    }
                    None
                },
                Some(t) => {
                    proof {
                        lemma_aligned_terms(self@, other@);
                    }
                    let diff = t - other.mantissa as i128;
                    if diff < i64::MIN as i128 || diff > i64::MAX as i128 {
                        None
                    } else {
                        Some(Value { mantissa: diff as i64, scale: other.scale })
                    }
                },
            }
        } else {
            let d = self.scale - other.scale;
            match Self::scale_mantissa(other.mantissa, d) {
                None => {
                    proof {
                        lemma_aligned_terms(other@, self@);
                        lemma_scaled_term_large(other.mantissa as int, d as nat);
                        lemma_pow10_20_value();
                    }
                    None
                },
                Some(t) => {
                    proof {
                        lemma_aligned_terms(other@, self@);
                    }
                    let diff = self.mantissa as i128 - t;
                    if diff < i64::MIN as i128 || diff > i64::MAX as i128 {
                        None
                    } else {
                        Some(Value { mantissa: diff as i64, scale: self.scale })
                    }
                },
            }
        }
    }

    /// Exact multiplication; `None` exactly when the product's mantissa or
    /// scale leaves the machine range.
    pub fn checked_mul(self, other: Value) -> (r: Option<Value>)
        ensures
            match r {
                Some(v) => can_mul(self@, other@) && v@ == spec_mul(self@, other@),
                None => !can_mul(self@, other@),
            },
    {
        proof {
            assert((self.mantissa as int) * (other.mantissa as int) < 170141183460469231731687303715884105727
                && (self.mantissa as int) * (other.mantissa as int) > -170141183460469231731687303715884105727)
                by (nonlinear_arith)
                requires
                    -9223372036854775808 <= self.mantissa as int <= 9223372036854775807,
                    -9223372036854775808 <= other.mantissa as int <= 9223372036854775807,
            ;
        }
        let prod = self.mantissa as i128 * other.mantissa as i128;
        let s = self.scale as u64 + other.scale as u64;
        if prod < i64::MIN as i128 || prod > i64::MAX as i128 || s > u32::MAX as u64 {
            None
        } else {
            Some(Value { mantissa: prod as i64, scale: s as u32 })
        }
    }
}

} // verus!
