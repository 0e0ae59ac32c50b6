use vstd::prelude::*;
use vstd::arithmetic::power2::{
    lemma2_to64, lemma2_to64_rest, lemma_pow2_adds, lemma_pow2_pos, lemma_pow2_strictly_increases,
    lemma_pow2_unfold, pow2,
};
use vstd::std_specs::cmp::PartialEqSpecImpl;

verus! {

/// A double-precision number, carried by its IEEE-754 bit pattern.
///
/// The pattern is moved and stored as it is; nothing here does arithmetic on
/// it. Two numbers compare as doubles do: the two zeros are equal, and a NaN
/// equals nothing, not even itself.
#[derive(Clone, Copy, Debug)]
pub struct Number {
    pub bits: u64,
}

/// The sign bit of a pattern, as a number.
pub const SIGN_BIT: u64 = 0x8000000000000000;

/// The pattern of positive infinity: every pattern above it, the sign bit
/// left out, is a NaN.
pub const INFINITY_BITS: u64 = 0x7ff0000000000000;

impl PartialEq for Number {
    fn eq(&self, other: &Number) -> (r: bool) {
        let a = self.bits % SIGN_BIT;
        let b = other.bits % SIGN_BIT;
        a <= INFINITY_BITS && b <= INFINITY_BITS && (self.bits == other.bits || (a == 0 && b == 0))
    }
}

impl PartialEqSpecImpl for Number {
    open spec fn obeys_eq_spec() -> bool {
        true
    }

    open spec fn eq_spec(&self, other: &Number) -> bool {
        self.same(*other)
    }
}

impl Default for Number {
    fn default() -> (r: Number)
        ensures
            r == Number::zero(),
    {
        Number { bits: 0 }
    }
}

/// The exponent of the highest power of two that is at most `v`; zero for
/// zero.
pub open spec fn exponent_of(v: nat) -> nat
    decreases v,
{
    if v <= 1 {
        0
    } else {
        1 + exponent_of(v / 2)
    }
}

/// The bit pattern of the double nearest to `v`, a tie going to the one
/// whose last bit is zero: the sign bit clear, then eleven bits of the
/// exponent plus 1023, then the fifty-two bits that follow the leading one.
pub open spec fn double_bits_of(v: nat) -> nat {
    if v == 0 {
        0
    } else {
        let e = exponent_of(v);
        if e <= 52 {
            ((1023 + e) * pow2(52) + v * pow2((52 - e) as nat) - pow2(52)) as nat
        } else {
            let unit = pow2((e - 52) as nat);
            let kept = v / unit;
            let lost = v % unit;
            let up: nat = if 2 * lost > unit || (2 * lost == unit && kept % 2 == 1) {
                1
            } else {
                0
            };
            ((1023 + e) * pow2(52) + kept - pow2(52) + up) as nat
        }
    }
}

/// A number between two successive powers of two has the exponent of the
/// lower one.
proof fn lemma_exponent_of(v: nat, e: nat)
    requires
        pow2(e) <= v < pow2(e + 1),
    ensures
        exponent_of(v) == e,
    decreases e,
{
    lemma2_to64();
    if e == 0 {
        assert(v == 1);
    } else {
        lemma_pow2_unfold(e);
        lemma_pow2_unfold(e + 1);
        lemma_exponent_of(v / 2, (e - 1) as nat);
    }
}

/// What is kept of a number with exponent `e` above 52 has 53 bits.
proof fn lemma_kept_bounds(v: nat, e: nat, unit: nat)
    requires
        52 <= e,
        pow2(e) <= v < pow2(e + 1),
        unit == pow2((e - 52) as nat),
    ensures
        unit > 0,
        pow2(52) <= v / unit < pow2(53),
{
    lemma_pow2_adds(52, (e - 52) as nat);
    lemma_pow2_adds(53, (e - 52) as nat);
    lemma_pow2_pos((e - 52) as nat);
    let a = pow2(52);
    let b = pow2(53);
    assert(a * unit <= v < b * unit);
    assert(a <= v / unit < b) by (nonlinear_arith)
        requires
            a * unit <= v < b * unit,
            unit > 0,
    ;
}

impl Number {
    /// The double nearest to `v`, a tie going to the one whose last bit is
    /// zero.
    pub open spec fn of_int(v: usize) -> Number {
        Number { bits: double_bits_of(v as nat) as u64 }
    }

    /// The double nearest to `v`, as a cast of `v` gives it.
    pub fn from_int(v: usize) -> (r: Number)
        ensures
            r == Number::of_int(v),
            r.bits == double_bits_of(v as nat),
    {
        let v: u64 = v as u64;
        if v == 0 {
            return Number { bits: 0 };
        }
        proof {
            lemma2_to64();
            lemma2_to64_rest();
        }
        let mut e: u64 = 0;
        let mut p: u64 = 1;
        while e < 63 && p <= v / 2
            invariant
                e <= 63,
                p == pow2(e as nat),
                p <= v,
            decreases 63 - e,
        {
            proof {
                lemma_pow2_unfold((e + 1) as nat);
            }
            p = p * 2;
            e = e + 1;
        }
        proof {
            lemma_pow2_unfold((e + 1) as nat);
            assert(v < pow2((e + 1) as nat));
            lemma_exponent_of(v as nat, e as nat);
        }
        if e <= 52 {
            let mut s: u64 = 1;
            let mut k: u64 = e;
            while k < 52
                invariant
                    e <= k <= 52,
                    s == pow2((k - e) as nat),
                    pow2(k as nat) <= v * s < pow2((k + 1) as nat),
                    pow2(53) == 0x20000000000000,
                    pow2(52) == 0x10000000000000,
                    s <= 0x10000000000000,
                decreases 52 - k,
            {
                proof {
                    if k + 1 - e < 52 {
                        lemma_pow2_strictly_increases((k + 1 - e) as nat, 52);
                    }
                    lemma_pow2_unfold((k + 1 - e) as nat);
                    lemma_pow2_unfold((k + 1) as nat);
                    lemma_pow2_unfold((k + 2) as nat);
                    assert(v * (s * 2) == (v * s) * 2) by (nonlinear_arith);
                }
                s = s * 2;
                k = k + 1;
            }
            let m: u64 = v * s;
            Number { bits: (1023 + e) * 0x10000000000000 + (m - 0x10000000000000) }
        } else {
            let mut unit: u64 = 1;
            let mut k: u64 = 52;
            while k < e
                invariant
                    52 <= k <= e <= 63,
                    unit == pow2((k - 52) as nat),
                    unit <= 0x800,
                    pow2(11) == 0x800,
                decreases e - k,
            {
                proof {
                    lemma_pow2_unfold((k + 1 - 52) as nat);
                    if k + 1 - 52 < 11 {
                        lemma_pow2_strictly_increases((k + 1 - 52) as nat, 11);
                    }
                }
                unit = unit * 2;
                k = k + 1;
            }
            proof {
                lemma_kept_bounds(v as nat, e as nat, unit as nat);
            }
            let kept: u64 = v / unit;
            let lost: u64 = v % unit;
            let up: u64 = if lost > unit - lost || (lost == unit - lost && kept % 2 == 1) {
                1
            } else {
                0
            };
            Number { bits: (1023 + e) * 0x10000000000000 + (kept - 0x10000000000000) + up }
        }
    }

    /// The pattern without its sign bit.
    pub open spec fn magnitude(self) -> nat {
        (self.bits % SIGN_BIT) as nat
    }

    /// That the pattern is one of a NaN: all exponent bits set, and some bit
    /// after them.
    pub open spec fn is_nan(self) -> bool {
        self.magnitude() > INFINITY_BITS
    }

    /// That the two numbers are equal as doubles: neither is a NaN, and they
    /// have the same pattern or are both zero.
    pub open spec fn same(self, other: Number) -> bool {
        &&& !self.is_nan()
        &&& !other.is_nan()
        &&& self.bits == other.bits || (self.magnitude() == 0 && other.magnitude() == 0)
    }

    /// Positive zero, the pattern of all zero bits.
    pub open spec fn zero() -> Number {
        Number { bits: 0 }
    }

    /// The number with the pattern `bits`.
    pub fn from_bits(bits: u64) -> (r: Number)
        ensures
            r.bits == bits,
    {
        Number { bits }
    }

    /// The pattern of the number.
    pub fn to_bits(&self) -> (r: u64)
        ensures
            r == self.bits,
    {
        self.bits
    }
}

} // verus!
