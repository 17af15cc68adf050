//! Rational time bases and exact timestamp rescaling between them.
//!
//! A stream expresses its timestamps in units of `num/den` seconds. Moving a
//! timestamp across a time-base boundary multiplies by the ratio of the two
//! bases and rounds to the nearest integer, halves rounded up, saturating at
//! the largest representable value.

use vstd::prelude::*;
use vstd::arithmetic::div_mod::{lemma_div_is_ordered, lemma_div_pos_is_pos};

verus! {

/// Largest admitted numerator or denominator; keeps rescaling arithmetic
/// exact in 128 bits.
pub const TB_MAX: u32 = 1048576;

/// A rational time base of `num/den` seconds per timestamp unit.
#[derive(Clone, Copy, PartialEq, Eq, Structural, Debug)]
pub struct TimeBase {
    pub num: u32,
    pub den: u32,
}

impl TimeBase {
    /// Positive and small enough for exact rescaling.
    pub open spec fn wf(self) -> bool {
        1 <= self.num <= TB_MAX && 1 <= self.den <= TB_MAX
    }

    pub fn new(num: u32, den: u32) -> (r: TimeBase)
        requires
            1 <= num <= TB_MAX,
            1 <= den <= TB_MAX,
        ensures
            r == (TimeBase { num, den }),
            r.wf(),
    {
        TimeBase { num, den }
    }

    /// The inverse base, as an encoder derives its time base from a frame
    /// rate.
    pub fn invert(self) -> (r: TimeBase)
        requires
            self.wf(),
        ensures
            r == (TimeBase { num: self.den, den: self.num }),
            r.wf(),
    {
        TimeBase { num: self.den, den: self.num }
    }
}

/// Nearest-integer value of `ts * (f.num/f.den) / (t.num/t.den)`, halves
/// rounded up, saturating at `i64::MAX`.
pub open spec fn rescale_spec(ts: int, f: TimeBase, t: TimeBase) -> int
    recommends
        ts >= 0,
        f.wf(),
        t.wf(),
{
    let raw = (2 * ts * f.num * t.den + f.den * t.num) / (2 * (f.den as int) * (t.num as int));
    if raw > i64::MAX {
        i64::MAX as int
    } else {
        raw
    }
}

/// Rescales a timestamp from time base `f` to time base `t`.
pub fn rescale_ts(ts: i64, f: TimeBase, t: TimeBase) -> (r: i64)
    requires
        ts >= 0,
        f.wf(),
        t.wf(),
    ensures
        r == rescale_spec(ts as int, f, t),
        r >= 0,
{
    proof {
        let ti = ts as int;
        let fnu = f.num as int;
        let fde = f.den as int;
        let tnu = t.num as int;
        let tde = t.den as int;
        assert(0 <= 2 * ti * fnu <= 2 * 0x7fffffffffffffff * 0x100000) by (nonlinear_arith)
            requires
                0 <= ti <= 0x7fffffffffffffff && 1 <= fnu <= 0x100000,
        ;
        assert((2 * ti * fnu) * tde <= 2 * 0x7fffffffffffffff * 0x100000 * 0x100000
            && 0 <= (2 * ti * fnu) * tde) by (nonlinear_arith)
            requires
                0 <= 2 * ti * fnu <= 2 * 0x7fffffffffffffff * 0x100000 && 1 <= tde <= 0x100000,
        ;
        assert(0 <= fde * tnu <= 0x100000 * 0x100000) by (nonlinear_arith)
            requires
                1 <= fde <= 0x100000 && 1 <= tnu <= 0x100000,
        ;
    }
    proof {
        assert(0 < 2 * (f.den as int) * (t.num as int) <= 2 * 0x100000 * 0x100000)
            by (nonlinear_arith)
            requires
                1 <= f.den as int <= 0x100000 && 1 <= t.num as int <= 0x100000,
        ;
    }
    let n: u128 = 2u128 * (ts as u128) * (f.num as u128) * (t.den as u128) + (f.den as u128) * (
    t.num as u128);
    let d: u128 = 2u128 * (f.den as u128) * (t.num as u128);
    let q = n / d;
    proof {
        lemma_div_pos_is_pos(n as int, d as int);
    }
    if q > 0x7fffffffffffffff {
        proof {
            assert(rescale_spec(ts as int, f, t) == i64::MAX);
        }
        i64::MAX
    } else {
        q as i64
    }
}

/// Rescaling keeps timestamp order: it never swaps two timestamps of one
/// stream.
pub proof fn lemma_rescale_monotone(a: int, b: int, f: TimeBase, t: TimeBase)
    requires
        0 <= a <= b,
        f.wf(),
        t.wf(),
    ensures
        rescale_spec(a, f, t) <= rescale_spec(b, f, t),
{
    let fnu = f.num as int;
    let fde = f.den as int;
    let tnu = t.num as int;
    let tde = t.den as int;
    let c = 2 * fde * tnu;
    let na = 2 * a * fnu * tde + fde * tnu;
    let nb = 2 * b * fnu * tde + fde * tnu;
    assert(na <= nb && c > 0) by (nonlinear_arith)
        requires
            na == 2 * a * fnu * tde + fde * tnu,
            nb == 2 * b * fnu * tde + fde * tnu,
            c == 2 * fde * tnu,
            0 <= a <= b && 1 <= fnu && 1 <= tde && 1 <= fde && 1 <= tnu,
    ;
    lemma_div_is_ordered(na, nb, c);
    assert(2 * a * f.num * t.den + f.den * t.num == na);
    assert(2 * b * f.num * t.den + f.den * t.num == nb);
}

/// Rescaling of an optional timestamp: absent stays absent.
pub open spec fn rescale_opt_spec(ts: Option<i64>, f: TimeBase, t: TimeBase) -> Option<i64> {
    match ts {
        Some(v) => Some(rescale_spec(v as int, f, t) as i64),
        None => None,
    }
}

/// Rescales a packet or frame timestamp when one is present.
pub fn rescale_opt(ts: Option<i64>, f: TimeBase, t: TimeBase) -> (r: Option<i64>)
    requires
        f.wf(),
        t.wf(),
        ts matches Some(v) ==> v >= 0,
    ensures
        r == rescale_opt_spec(ts, f, t),
        r matches Some(v) ==> v >= 0,
{
    match ts {
        Some(v) => Some(rescale_ts(v, f, t)),
        None => None,
    }
}

/// A nonnegative timestamp stays nonnegative and representable under
/// rescaling.
pub proof fn lemma_rescale_nonneg(ts: int, f: TimeBase, t: TimeBase)
    requires
        ts >= 0,
        f.wf(),
        t.wf(),
    ensures
        0 <= rescale_spec(ts, f, t) <= i64::MAX,
{
    let c = 2 * (f.den as int) * (t.num as int);
    let num = 2 * ts * (f.num as int) * (t.den as int) + (f.den as int) * (t.num as int);
    assert(num >= 0 && c > 0) by (nonlinear_arith)
        requires
            num == 2 * ts * (f.num as int) * (t.den as int) + (f.den as int) * (t.num as int),
            c == 2 * (f.den as int) * (t.num as int),
            ts >= 0 && 1 <= f.num && 1 <= t.den && 1 <= f.den && 1 <= t.num,
    ;
    lemma_div_pos_is_pos(num, c);
    assert(2 * ts * f.num * t.den + f.den * t.num == num);
}

} // verus!
