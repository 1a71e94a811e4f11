//! The arithmetic that mixing and filtering share: fixed-point accumulators
//! that wrap, and floating-point ones.
use crate::float;
use crate::float::Format;
use vstd::arithmetic::div_mod::*;
use vstd::prelude::*;

verus! {

/// The value modulo `2^32`, as a signed number.
pub open spec fn wrap32(t: int) -> int {
    (t + 0x8000_0000) % 0x1_0000_0000 - 0x8000_0000
}

/// The arithmetic of a mixing or filtering kernel.
#[derive(Clone, Copy, Debug, PartialEq, Eq, Structural)]
pub enum Arith {
    /// 16-bit samples, 32-bit accumulator.
    S16,
    /// The same, with clipped results.
    S16Clip,
    /// 32-bit samples, 64-bit accumulator.
    S32,
    /// Single precision.
    Flt,
    /// Double precision.
    Dbl,
    /// The low 16 bits of each sample, 32-bit accumulator.
    Low16,
}

/// The value modulo `2^16`, as a signed number.
pub open spec fn wrap16(t: int) -> int {
    (t + 0x8000) % 0x1_0000 - 0x8000
}

/// The value modulo `2^64`, as a signed number.
pub open spec fn wrap64(t: int) -> int {
    (t + 0x8000_0000_0000_0000) % 0x1_0000_0000_0000_0000 - 0x8000_0000_0000_0000
}

/// A signed number as a bit pattern of 16 bits.
pub open spec fn raw16(v: int) -> u64 {
    (v % 0x1_0000) as u64
}

/// A signed number as a bit pattern of 32 bits.
pub open spec fn raw32(v: int) -> u64 {
    (v % 0x1_0000_0000) as u64
}

/// Gain times sample. Integer gains are numbers, floating ones bit patterns.
pub open spec fn product(a: Arith, c: int, x: u64) -> int {
    match a {
        Arith::S16 | Arith::S16Clip | Arith::Low16 => wrap32(c * wrap16(x as int)),
        Arith::S32 => wrap64(c * wrap32(x as int)),
        Arith::Flt => float::mul_bits(Format::Binary32, c as u64, x) as int,
        Arith::Dbl => float::mul_bits(Format::Binary64, c as u64, x) as int,
    }
}

/// Sum of two accumulators.
pub open spec fn acc_sum(a: Arith, u: int, v: int) -> int {
    match a {
        Arith::S16 | Arith::S16Clip | Arith::Low16 => wrap32(u + v),
        Arith::S32 => wrap64(u + v),
        Arith::Flt => float::add_bits(Format::Binary32, u as u64, v as u64) as int,
        Arith::Dbl => float::add_bits(Format::Binary64, u as u64, v as u64) as int,
    }
}

/// A gain that fits the arithmetic.
pub open spec fn gain_ok(a: Arith, c: int) -> bool {
    match a {
        Arith::S16 | Arith::S16Clip | Arith::Low16 | Arith::S32 => i32::MIN <= c <= i32::MAX,
        Arith::Flt => 0 <= c <= u32::MAX,
        Arith::Dbl => 0 <= c <= u64::MAX,
    }
}

/// An accumulator that fits the arithmetic.
pub open spec fn acc_ok(a: Arith, acc: int) -> bool {
    match a {
        Arith::S16 | Arith::S16Clip | Arith::Low16 => i32::MIN <= acc <= i32::MAX,
        Arith::S32 => i64::MIN <= acc <= i64::MAX,
        Arith::Flt => 0 <= acc <= u32::MAX,
        Arith::Dbl => 0 <= acc <= u64::MAX,
    }
}

pub(crate) fn wrap_i128(t: i128, bits: u32) -> (r: i128)
    requires
        -0x4000_0000_0000_0000_0000_0000_0000_0000 <= t <= 0x3fff_ffff_ffff_ffff_ffff_ffff_ffff_ffff,
        bits == 16 || bits == 32 || bits == 64,
    ensures
        bits == 16 ==> r == wrap16(t as int),
        bits == 32 ==> r == wrap32(t as int),
        bits == 64 ==> r == wrap64(t as int),
{
    let u: u128 = (t + 0x4000_0000_0000_0000_0000_0000_0000_0000) as u128;
    match bits {
        16 => {
            proof {
                lemma_mod_multiples_vanish(0x4000_0000_0000_0000_0000_0000_0000, t + 0x8000, 0x1_0000);
            }
            ((u + 0x8000) % 0x1_0000) as i128 - 0x8000
        },
        32 => {
            proof {
                lemma_mod_multiples_vanish(
                    0x4000_0000_0000_0000_0000_0000,
                    t + 0x8000_0000,
                    0x1_0000_0000,
                );
            }
            ((u + 0x8000_0000) % 0x1_0000_0000) as i128 - 0x8000_0000
        },
        _ => {
            proof {
                lemma_mod_multiples_vanish(
                    0x4000_0000_0000_0000,
                    t + 0x8000_0000_0000_0000,
                    0x1_0000_0000_0000_0000,
                );
            }
            ((u + 0x8000_0000_0000_0000) % 0x1_0000_0000_0000_0000) as i128
                - 0x8000_0000_0000_0000
        },
    }
}

pub(crate) proof fn lemma_mul_bound(a: int, b: int, m: int, n: int)
    requires
        -m <= a <= m,
        -n <= b <= n,
        m >= 0,
        n >= 0,
    ensures
        -(m * n) <= a * b <= m * n,
{
    assert(-(m * n) <= a * b <= m * n) by (nonlinear_arith)
        requires
            -m <= a <= m,
            -n <= b <= n,
            m >= 0,
            n >= 0,
    ;
}

pub(crate) fn product_exec(a: Arith, c: i128, x: u64) -> (r: i128)
    requires
        gain_ok(a, c as int),
        a == Arith::Flt ==> x <= u32::MAX,
    ensures
        r == product(a, c as int, x),
        acc_ok(a, r as int),
{
    match a {
        Arith::S16 | Arith::S16Clip | Arith::Low16 => {
            let s: i128 = wrap_i128(x as i128, 16);
            proof {
                lemma_mul_bound(c as int, s as int, 0x8000_0000, 0x8000);
            }
            wrap_i128(c * s, 32)
        },
        Arith::S32 => {
            let s: i128 = wrap_i128(x as i128, 32);
            proof {
                lemma_mul_bound(c as int, s as int, 0x8000_0000, 0x8000_0000);
            }
            wrap_i128(c * s, 64)
        },
        Arith::Flt => float::mul_f(Format::Binary32, c as u64, x) as i128,
        Arith::Dbl => float::mul_f(Format::Binary64, c as u64, x) as i128,
    }
}

pub(crate) fn acc_sum_exec(a: Arith, u: i128, v: i128) -> (r: i128)
    requires
        acc_ok(a, u as int),
        acc_ok(a, v as int),
    ensures
        r == acc_sum(a, u as int, v as int),
        acc_ok(a, r as int),
{
    match a {
        Arith::S16 | Arith::S16Clip | Arith::Low16 => wrap_i128(u + v, 32),
        Arith::S32 => wrap_i128(u + v, 64),
        Arith::Flt => float::add_f(Format::Binary32, u as u64, v as u64) as i128,
        Arith::Dbl => float::add_f(Format::Binary64, u as u64, v as u64) as i128,
    }
}

pub(crate) fn unsigned(t: i128, modulus: u128) -> (r: u64)
    requires
        -0x8000_0000_0000_0000 <= t <= 0x7fff_ffff_ffff_ffff,
        modulus == 0x1_0000 || modulus == 0x1_0000_0000,
    ensures
        modulus == 0x1_0000 ==> r == raw16(t as int) && r < 0x1_0000,
        modulus == 0x1_0000_0000 ==> r == raw32(t as int) && r < 0x1_0000_0000,
{
    let u: u128 = (t + 0x1_0000_0000_0000_0000) as u128;
    if modulus == 0x1_0000 {
        (u % 0x1_0000) as u64
    } else {
        (u % 0x1_0000_0000) as u64
    }
}

/// `t` modulo `2^32`, as a signed number.
pub(crate) fn wrap32_i64(t: i64) -> (r: i32)
    ensures
        r == wrap32(t as int),
{
    let u: u128 = (t as i128 + 0x1_0000_0000_0000_0000 + 0x8000_0000) as u128;
    ((u % 0x1_0000_0000) as i64 - 0x8000_0000) as i32
}


} // verus!
