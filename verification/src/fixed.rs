//! Signed fixed-point numbers as the consensus math uses them.
//!
//! A value is held by its two's-complement bit pattern: `I32F32` stands for
//! `bits / 2^32`, `I64F64` for `bits / 2^64` and `I110F18` for `bits / 2^18`.
//! The arithmetic itself is done by the `substrate_fixed` crate; each wrapper
//! below states, over the bit patterns, what that crate computes.
use vstd::prelude::*;

verus! {

/// `2^32`, the scale of an `I32F32`.
pub open spec fn scale32() -> int { 0x1_0000_0000 }

/// `2^64`, the scale of an `I64F64`.
pub open spec fn scale64() -> int { 0x1_0000_0000_0000_0000 }

/// `2^18`, the scale of an `I110F18`.
pub open spec fn scale18() -> int { 0x4_0000 }

/// Clamps an integer into the range of `i64`.
pub open spec fn sat64(x: int) -> int {
    if x > i64::MAX { i64::MAX as int } else if x < i64::MIN { i64::MIN as int } else { x }
}

/// Clamps an integer into the range of `i128`.
pub open spec fn sat128(x: int) -> int {
    if x > i128::MAX { i128::MAX as int } else if x < i128::MIN { i128::MIN as int } else { x }
}

/// Integer division rounding toward zero (Rust's `/` on integers).
pub open spec fn trunc_div(x: int, y: int) -> int {
    let q = abs(x) / abs(y);
    if (x < 0) != (y < 0) { -q } else { q }
}

/// Absolute value.
pub open spec fn abs(x: int) -> int {
    if x < 0 { -x } else { x }
}

/// A 64-bit fixed-point number with 32 fractional bits.
#[derive(Clone, Copy, Debug, PartialEq, Eq, Structural)]
pub struct I32F32 {
    pub bits: i64,
}

/// A 128-bit fixed-point number with 64 fractional bits.
#[derive(Clone, Copy, Debug, PartialEq, Eq, Structural)]
pub struct I64F64 {
    pub bits: i128,
}

/// A 128-bit fixed-point number with 18 fractional bits.
#[derive(Clone, Copy, Debug, PartialEq, Eq, Structural)]
pub struct I110F18 {
    pub bits: i128,
}

/// Bit pattern of the saturating sum of two `I32F32`.
pub open spec fn add32(a: int, b: int) -> int { sat64(a + b) }

/// Bit pattern of the saturating difference of two `I32F32`.
pub open spec fn sub32(a: int, b: int) -> int { sat64(a - b) }

/// Bit pattern of the saturating product of two `I32F32` (rounded toward minus infinity).
pub open spec fn mul32(a: int, b: int) -> int { sat64((a * b) / scale32()) }

/// Bit pattern of the saturating quotient of two `I32F32` (rounded toward zero).
pub open spec fn div32(a: int, b: int) -> int { sat64(trunc_div(a * scale32(), b)) }

/// Whether the exact product of two `I32F32` is representable.
pub open spec fn mul32_fits(a: int, b: int) -> bool {
    i64::MIN <= (a * b) / scale32() <= i64::MAX
}

/// Whether the exact quotient of two `I32F32` is representable.
pub open spec fn div32_fits(a: int, b: int) -> bool {
    b != 0 && i64::MIN <= trunc_div(a * scale32(), b) <= i64::MAX
}

impl I32F32 {
    /// The value zero.
    pub fn zero() -> (r: I32F32)
        ensures
            r.bits == 0,
    {
        I32F32 { bits: 0 }
    }

    /// The value one.
    pub fn one() -> (r: I32F32)
        ensures
            r.bits == scale32(),
    {
        I32F32 { bits: 0x1_0000_0000 }
    }

    /// The value of a whole number that fits in 31 bits.
    pub fn from_int(x: u32) -> (r: I32F32)
        requires
            x <= i32::MAX,
        ensures
            r.bits == x * scale32(),
    {
        proof {
            assert(x * scale32() <= i32::MAX * scale32()) by (nonlinear_arith)
                requires x <= i32::MAX;
        }
        I32F32 { bits: (x as i64) * 0x1_0000_0000 }
    }

    /// Saturating addition (`I32F32::saturating_add`).
    pub(crate) fn saturating_add(self, rhs: I32F32) -> (r: I32F32)
        ensures
            r.bits == add32(self.bits as int, rhs.bits as int),
    {
        match self.bits.checked_add(rhs.bits) {
            Some(b) => I32F32 { bits: b },
            None => I32F32 { bits: if rhs.bits > 0 { i64::MAX } else { i64::MIN } },
        }
    }

    /// Saturating subtraction (`I32F32::saturating_sub`).
    pub(crate) fn saturating_sub(self, rhs: I32F32) -> (r: I32F32)
        ensures
            r.bits == sub32(self.bits as int, rhs.bits as int),
    {
        match self.bits.checked_sub(rhs.bits) {
            Some(b) => I32F32 { bits: b },
            None => I32F32 { bits: if rhs.bits < 0 { i64::MAX } else { i64::MIN } },
        }
    }

    /// Saturating multiplication (`I32F32::saturating_mul`).
    #[verifier::external_body]
    pub(crate) fn saturating_mul(self, rhs: I32F32) -> (r: I32F32)
        ensures
            r.bits == mul32(self.bits as int, rhs.bits as int),
    {
        let a = substrate_fixed::types::I32F32::from_bits(self.bits);
        let b = substrate_fixed::types::I32F32::from_bits(rhs.bits);
        I32F32 { bits: a.saturating_mul(b).to_bits() }
    }

    /// Saturating division (`I32F32::saturating_div`), which panics on a zero divisor.
    #[verifier::external_body]
    pub(crate) fn saturating_div(self, rhs: I32F32) -> (r: I32F32)
        requires
            rhs.bits != 0,
        ensures
            r.bits == div32(self.bits as int, rhs.bits as int),
    {
        let a = substrate_fixed::types::I32F32::from_bits(self.bits);
        let b = substrate_fixed::types::I32F32::from_bits(rhs.bits);
        I32F32 { bits: a.saturating_div(b).to_bits() }
    }

    /// Checked multiplication (`I32F32::checked_mul`).
    #[verifier::external_body]
    pub(crate) fn checked_mul(self, rhs: I32F32) -> (r: Option<I32F32>)
        ensures
            r.is_some() <==> mul32_fits(self.bits as int, rhs.bits as int),
            r.is_some() ==> r.unwrap().bits == (self.bits * rhs.bits) / scale32(),
    {
        let a = substrate_fixed::types::I32F32::from_bits(self.bits);
        let b = substrate_fixed::types::I32F32::from_bits(rhs.bits);
        match a.checked_mul(b) {
            Some(p) => Some(I32F32 { bits: p.to_bits() }),
            None => None,
        }
    }

    /// Checked division (`I32F32::checked_div`); `None` for a zero divisor or on overflow.
    #[verifier::external_body]
    pub(crate) fn checked_div(self, rhs: I32F32) -> (r: Option<I32F32>)
        ensures
            r.is_some() <==> div32_fits(self.bits as int, rhs.bits as int),
            r.is_some() ==> r.unwrap().bits == trunc_div(self.bits * scale32(), rhs.bits as int),
    {
        let a = substrate_fixed::types::I32F32::from_bits(self.bits);
        let b = substrate_fixed::types::I32F32::from_bits(rhs.bits);
        match a.checked_div(b) {
            Some(q) => Some(I32F32 { bits: q.to_bits() }),
            None => None,
        }
    }

    /// The integer part as a `u16` (`to_num::<u16>`), for values in `[0, 65536)`.
    #[verifier::external_body]
    pub(crate) fn to_u16(self) -> (r: u16)
        requires
            0 <= self.bits as int / scale32() <= u16::MAX,
        ensures
            r == self.bits as int / scale32(),
    {
        substrate_fixed::types::I32F32::from_bits(self.bits).to_num::<u16>()
    }

    /// Rounds to the nearest whole number, ties away from zero (`round`).
    #[verifier::external_body]
    pub(crate) fn round(self) -> (r: I32F32)
        requires
            self.bits <= i64::MAX - scale32() / 2,
        ensures
            r.bits == round32(self.bits as int),
    {
        I32F32 { bits: substrate_fixed::types::I32F32::from_bits(self.bits).round().to_bits() }
    }
}

/// Bit pattern of an `I32F32` rounded to the nearest whole number, ties away from zero.
pub open spec fn round32(a: int) -> int {
    let fl = (a / scale32()) * scale32();
    let frac = a - fl;
    if frac < scale32() / 2 {
        fl
    } else if frac == scale32() / 2 && a < 0 {
        fl
    } else {
        fl + scale32()
    }
}


/// Whether the exact product of two `I64F64` is representable.
pub open spec fn mul64_fits(a: int, b: int) -> bool {
    i128::MIN <= (a * b) / scale64() <= i128::MAX
}

/// Whether the exact quotient of two `I64F64` is representable.
pub open spec fn div64_fits(a: int, b: int) -> bool {
    b != 0 && i128::MIN <= trunc_div(a * scale64(), b) <= i128::MAX
}

/// Bit pattern of the saturating quotient of two `I64F64` (rounded toward zero).
pub open spec fn div64(a: int, b: int) -> int { sat128(trunc_div(a * scale64(), b)) }

impl I64F64 {
    /// The value zero.
    pub fn zero() -> (r: I64F64)
        ensures
            r.bits == 0,
    {
        I64F64 { bits: 0 }
    }

    /// The value of a whole number below `2^63` (`I64F64::from_num` on a `u64`).
    pub fn from_u64(x: u64) -> (r: I64F64)
        requires
            x <= i64::MAX,
        ensures
            r.bits == x * scale64(),
    {
        proof {
            assert(x * scale64() <= i64::MAX * scale64()) by (nonlinear_arith)
                requires x <= i64::MAX;
        }
        I64F64 { bits: (x as i128) * 0x1_0000_0000_0000_0000 }
    }

    /// The exact value of an `I32F32` (`I64F64::from_num` on an `I32F32`).
    pub fn from_i32f32(x: I32F32) -> (r: I64F64)
        ensures
            r.bits == x.bits * scale32(),
    {
        proof {
            assert(i64::MIN * scale32() <= x.bits * scale32() <= i64::MAX * scale32()) by (nonlinear_arith)
                requires i64::MIN <= x.bits <= i64::MAX;
        }
        I64F64 { bits: (x.bits as i128) * 0x1_0000_0000 }
    }

    /// Checked addition (`I64F64::checked_add`).
    pub fn checked_add(self, rhs: I64F64) -> (r: Option<I64F64>)
        ensures
            r.is_some() <==> i128::MIN <= self.bits + rhs.bits <= i128::MAX,
            r.is_some() ==> r.unwrap().bits == self.bits + rhs.bits,
    {
        match self.bits.checked_add(rhs.bits) {
            Some(b) => Some(I64F64 { bits: b }),
            None => None,
        }
    }

    /// Saturating addition (`I64F64::saturating_add`).
    pub fn saturating_add(self, rhs: I64F64) -> (r: I64F64)
        ensures
            r.bits == sat128(self.bits + rhs.bits),
    {
        match self.bits.checked_add(rhs.bits) {
            Some(b) => I64F64 { bits: b },
            None => I64F64 { bits: if rhs.bits > 0 { i128::MAX } else { i128::MIN } },
        }
    }

    /// Saturating subtraction (`I64F64::saturating_sub`).
    pub fn saturating_sub(self, rhs: I64F64) -> (r: I64F64)
        ensures
            r.bits == sat128(self.bits - rhs.bits),
    {
        match self.bits.checked_sub(rhs.bits) {
            Some(b) => I64F64 { bits: b },
            None => I64F64 { bits: if rhs.bits < 0 { i128::MAX } else { i128::MIN } },
        }
    }

    /// Checked multiplication (`I64F64::checked_mul`).
    #[verifier::external_body]
    pub(crate) fn checked_mul(self, rhs: I64F64) -> (r: Option<I64F64>)
        ensures
            r.is_some() <==> mul64_fits(self.bits as int, rhs.bits as int),
            r.is_some() ==> r.unwrap().bits == (self.bits * rhs.bits) / scale64(),
    {
        let a = substrate_fixed::types::I64F64::from_bits(self.bits);
        let b = substrate_fixed::types::I64F64::from_bits(rhs.bits);
        match a.checked_mul(b) {
            Some(p) => Some(I64F64 { bits: p.to_bits() }),
            None => None,
        }
    }

    /// Checked division (`I64F64::checked_div`); `None` for a zero divisor or on overflow.
    #[verifier::external_body]
    pub(crate) fn checked_div(self, rhs: I64F64) -> (r: Option<I64F64>)
        ensures
            r.is_some() <==> div64_fits(self.bits as int, rhs.bits as int),
            r.is_some() ==> r.unwrap().bits == trunc_div(self.bits * scale64(), rhs.bits as int),
    {
        let a = substrate_fixed::types::I64F64::from_bits(self.bits);
        let b = substrate_fixed::types::I64F64::from_bits(rhs.bits);
        match a.checked_div(b) {
            Some(q) => Some(I64F64 { bits: q.to_bits() }),
            None => None,
        }
    }

    /// Saturating division (`I64F64::saturating_div`), which panics on a zero divisor.
    #[verifier::external_body]
    pub(crate) fn saturating_div(self, rhs: I64F64) -> (r: I64F64)
        requires
            rhs.bits != 0,
        ensures
            r.bits == div64(self.bits as int, rhs.bits as int),
    {
        let a = substrate_fixed::types::I64F64::from_bits(self.bits);
        let b = substrate_fixed::types::I64F64::from_bits(rhs.bits);
        I64F64 { bits: a.saturating_div(b).to_bits() }
    }

    /// The integer part as a `u64` (`to_num::<u64>`), for values in `[0, 2^64)`.
    #[verifier::external_body]
    pub(crate) fn to_u64(self) -> (r: u64)
        requires
            0 <= self.bits as int / scale64() <= u64::MAX,
        ensures
            r == self.bits as int / scale64(),
    {
        substrate_fixed::types::I64F64::from_bits(self.bits).to_num::<u64>()
    }

    /// Conversion to `I32F32` dropping the extra fractional bits
    /// (`I32F32::from_num` on an `I64F64`), for values that fit.
    #[verifier::external_body]
    pub(crate) fn to_i32f32(self) -> (r: I32F32)
        requires
            i64::MIN <= self.bits as int / scale32() <= i64::MAX,
        ensures
            r.bits == self.bits as int / scale32(),
    {
        I32F32 { bits: substrate_fixed::types::I32F32::from_num(substrate_fixed::types::I64F64::from_bits(self.bits)).to_bits() }
    }
}

/// Whether the exact product of two `I110F18` is representable.
pub open spec fn mul18_fits(a: int, b: int) -> bool {
    i128::MIN <= (a * b) / scale18() <= i128::MAX
}

/// Whether the exact quotient of two `I110F18` is representable.
pub open spec fn div18_fits(a: int, b: int) -> bool {
    b != 0 && i128::MIN <= trunc_div(a * scale18(), b) <= i128::MAX
}

/// Bit pattern of the saturating product of two `I110F18` (rounded toward minus infinity).
pub open spec fn mul18(a: int, b: int) -> int { sat128((a * b) / scale18()) }

/// Bit pattern of the saturating quotient of two `I110F18` (rounded toward zero).
pub open spec fn div18(a: int, b: int) -> int { sat128(trunc_div(a * scale18(), b)) }

impl I110F18 {
    /// The value of a whole number (`I110F18::from_num` on a `u64`).
    pub fn from_u64(x: u64) -> (r: I110F18)
        ensures
            r.bits == x * scale18(),
    {
        proof {
            assert(0 <= x * scale18() <= u64::MAX * scale18()) by (nonlinear_arith)
                requires 0 <= x <= u64::MAX, scale18() > 0;
        }
        I110F18 { bits: (x as i128) * 0x4_0000 }
    }

    /// Saturating addition (`I110F18::saturating_add`).
    pub fn saturating_add(self, rhs: I110F18) -> (r: I110F18)
        ensures
            r.bits == sat128(self.bits + rhs.bits),
    {
        match self.bits.checked_add(rhs.bits) {
            Some(b) => I110F18 { bits: b },
            None => I110F18 { bits: if rhs.bits > 0 { i128::MAX } else { i128::MIN } },
        }
    }

    /// Saturating subtraction (`I110F18::saturating_sub`).
    pub fn saturating_sub(self, rhs: I110F18) -> (r: I110F18)
        ensures
            r.bits == sat128(self.bits - rhs.bits),
    {
        match self.bits.checked_sub(rhs.bits) {
            Some(b) => I110F18 { bits: b },
            None => I110F18 { bits: if rhs.bits < 0 { i128::MAX } else { i128::MIN } },
        }
    }

    /// Checked multiplication (`I110F18::checked_mul`).
    #[verifier::external_body]
    pub(crate) fn checked_mul(self, rhs: I110F18) -> (r: Option<I110F18>)
        ensures
            r.is_some() <==> mul18_fits(self.bits as int, rhs.bits as int),
            r.is_some() ==> r.unwrap().bits == (self.bits * rhs.bits) / scale18(),
    {
        let a = substrate_fixed::types::I110F18::from_bits(self.bits);
        let b = substrate_fixed::types::I110F18::from_bits(rhs.bits);
        match a.checked_mul(b) {
            Some(p) => Some(I110F18 { bits: p.to_bits() }),
            None => None,
        }
    }

    /// Checked division (`I110F18::checked_div`); `None` for a zero divisor or on overflow.
    #[verifier::external_body]
    pub(crate) fn checked_div(self, rhs: I110F18) -> (r: Option<I110F18>)
        ensures
            r.is_some() <==> div18_fits(self.bits as int, rhs.bits as int),
            r.is_some() ==> r.unwrap().bits == trunc_div(self.bits * scale18(), rhs.bits as int),
    {
        let a = substrate_fixed::types::I110F18::from_bits(self.bits);
        let b = substrate_fixed::types::I110F18::from_bits(rhs.bits);
        match a.checked_div(b) {
            Some(q) => Some(I110F18 { bits: q.to_bits() }),
            None => None,
        }
    }

    /// The integer part as a `u64` (`to_num::<u64>`), for values in `[0, 2^64)`.
    #[verifier::external_body]
    pub(crate) fn to_u64(self) -> (r: u64)
        requires
            0 <= self.bits as int / scale18() <= u64::MAX,
        ensures
            r == self.bits as int / scale18(),
    {
        substrate_fixed::types::I110F18::from_bits(self.bits).to_num::<u64>()
    }

    /// Saturating multiplication (`I110F18::saturating_mul`).
    #[verifier::external_body]
    pub(crate) fn saturating_mul(self, rhs: I110F18) -> (r: I110F18)
        ensures
            r.bits == mul18(self.bits as int, rhs.bits as int),
    {
        let a = substrate_fixed::types::I110F18::from_bits(self.bits);
        let b = substrate_fixed::types::I110F18::from_bits(rhs.bits);
        I110F18 { bits: a.saturating_mul(b).to_bits() }
    }

    /// Saturating division (`I110F18::saturating_div`), which panics on a zero divisor.
    #[verifier::external_body]
    pub(crate) fn saturating_div(self, rhs: I110F18) -> (r: I110F18)
        requires
            rhs.bits != 0,
        ensures
            r.bits == div18(self.bits as int, rhs.bits as int),
    {
        let a = substrate_fixed::types::I110F18::from_bits(self.bits);
        let b = substrate_fixed::types::I110F18::from_bits(rhs.bits);
        I110F18 { bits: a.saturating_div(b).to_bits() }
    }
}

/// A common positive factor of dividend and divisor cancels in a floor
/// division.
pub proof fn lemma_div_cancel(x: int, y: int, c: int)
    requires
        x >= 0,
        y > 0,
        c > 0,
    ensures
        (x * c) / (y * c) == x / y,
{
    let q = x / y;
    let r = x % y;
    vstd::arithmetic::div_mod::lemma_fundamental_div_mod(x, y);
    vstd::arithmetic::div_mod::lemma_mod_bound(x, y);
    assert(x * c == q * (y * c) + r * c) by (nonlinear_arith)
        requires x == y * q + r;
    assert(0 <= r * c < y * c) by (nonlinear_arith)
        requires 0 <= r < y, c > 0;
    vstd::arithmetic::div_mod::lemma_fundamental_div_mod_converse(x * c, y * c, q, r * c);
}

} // verus!
