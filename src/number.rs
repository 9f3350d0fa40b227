use vstd::prelude::*;

use crate::text::{digit, digit_char, nat_text, push_nat_text};

verus! {

/// Fixed-point scale: a `Number` holds its value in millionths.
pub const SCALE: i64 = 1000000;

/// A decimal number with six fractional digits, held exactly as an integer
/// count of millionths.
#[derive(Clone, Copy, Debug, PartialEq, Eq, Structural)]
pub struct Number {
    pub units: i64,
}

pub open spec fn abs(x: int) -> int {
    if x < 0 {
        -x
    } else {
        x
    }
}

/// Integer division that rounds toward zero.
pub open spec fn tdiv(x: int, y: int) -> int
    recommends
        y != 0,
{
    let m = abs(x) / abs(y);
    if (x < 0) != (y < 0) {
        -m
    } else {
        m
    }
}

pub open spec fn fits_i64(x: int) -> bool {
    i64::MIN <= x <= i64::MAX
}

impl Number {
    pub fn is_zero(&self) -> (r: bool)
        ensures
            r == (self.units == 0),
    {
        self.units == 0
    }

    pub fn checked_add(&self, o: &Number) -> (r: Option<Number>)
        ensures
            fits_i64(self.units + o.units) <==> r is Some,
            r matches Some(x) ==> x.units == self.units + o.units,
    {
        let wide: i128 = self.units as i128 + o.units as i128;
        if wide < i64::MIN as i128 || wide > i64::MAX as i128 {
            None
        } else {
            Some(Number { units: wide as i64 })
        }
    }

    pub fn checked_sub(&self, o: &Number) -> (r: Option<Number>)
        ensures
            fits_i64(self.units - o.units) <==> r is Some,
            r matches Some(x) ==> x.units == self.units - o.units,
    {
        let wide: i128 = self.units as i128 - o.units as i128;
        if wide < i64::MIN as i128 || wide > i64::MAX as i128 {
            None
        } else {
            Some(Number { units: wide as i64 })
        }
    }

    /// The product, rounded toward zero to six fractional digits.
    pub fn checked_mul(&self, o: &Number) -> (r: Option<Number>)
        ensures
            fits_i64(tdiv(self.units * o.units, SCALE as int)) <==> r is Some,
            r matches Some(x) ==> x.units == tdiv(self.units * o.units, SCALE as int),
    {
        let a: i128 = self.units as i128;
        let b: i128 = o.units as i128;
        assert(-0x8000_0000_0000_0000 * 0x8000_0000_0000_0000 <= a * b
            <= 0x8000_0000_0000_0000 * 0x8000_0000_0000_0000) by (nonlinear_arith)
            requires
                -0x8000_0000_0000_0000 <= a <= 0x7fff_ffff_ffff_ffff,
                -0x8000_0000_0000_0000 <= b <= 0x7fff_ffff_ffff_ffff,
        ;
        let p: i128 = a * b;
        let q = trunc_div(p, SCALE as i128);
        if q < i64::MIN as i128 || q > i64::MAX as i128 {
            None
        } else {
            Some(Number { units: q as i64 })
        }
    }

    /// The quotient, rounded toward zero to six fractional digits.
    pub fn checked_div(&self, o: &Number) -> (r: Option<Number>)
        requires
            o.units != 0,
        ensures
            fits_i64(tdiv(self.units * SCALE, o.units as int)) <==> r is Some,
            r matches Some(x) ==> x.units == tdiv(self.units * SCALE, o.units as int),
    {
        let u: i128 = self.units as i128;
        assert(-0x8000_0000_0000_0000 * 1000000 <= u * 1000000 <= 0x8000_0000_0000_0000 * 1000000)
            by (nonlinear_arith)
            requires
                -0x8000_0000_0000_0000 <= u <= 0x7fff_ffff_ffff_ffff,
        ;
        let a: i128 = u * SCALE as i128;
        let q = trunc_div(a, o.units as i128);
        if q < i64::MIN as i128 || q > i64::MAX as i128 {
            None
        } else {
            Some(Number { units: q as i64 })
        }
    }

    pub fn checked_neg(&self) -> (r: Option<Number>)
        ensures
            fits_i64(-self.units) <==> r is Some,
            r matches Some(x) ==> x.units == -self.units,
    {
        if self.units == i64::MIN {
            None
        } else {
            Some(Number { units: -self.units })
        }
    }
}

/// The lowest `w` decimal digits of `f`, zero-padded.
pub open spec fn padded_digits(f: nat, w: nat) -> Seq<char>
    decreases w,
{
    if w == 0 {
        Seq::empty()
    } else {
        padded_digits(f / 10, (w - 1) as nat) + seq![digit_char((f % 10) as int)]
    }
}

/// The fractional digits of `f` over `w` places, without trailing zeros.
pub open spec fn frac_text(f: nat, w: nat) -> Seq<char>
    decreases w,
{
    if w == 0 {
        Seq::empty()
    } else if f % 10 == 0 {
        frac_text(f / 10, (w - 1) as nat)
    } else {
        padded_digits(f, w)
    }
}

/// Text of a number: its sign, its integral part, and the fractional
/// digits that are not trailing zeros (none at all for an integral value).
pub open spec fn number_text(n: Number) -> Seq<char> {
    let m = abs(n.units as int);
    let sign = if n.units < 0 {
        seq!['-']
    } else {
        Seq::empty()
    };
    let frac = if m % (SCALE as int) == 0 {
        Seq::empty()
    } else {
        seq!['.'] + frac_text((m % (SCALE as int)) as nat, 6)
    };
    sign + nat_text((m / (SCALE as int)) as nat) + frac
}

fn push_padded_digits(out: &mut Vec<char>, f: u64, w: u64)
    ensures
        final(out)@ == old(out)@ + padded_digits(f as nat, w as nat),
    decreases w,
{
    if w > 0 {
        push_padded_digits(out, f / 10, w - 1);
        out.push(digit(f % 10));
    }
}

impl Number {
    /// Appends the text of this number to `out`.
    pub fn push_text(&self, out: &mut Vec<char>)
        ensures
            final(out)@ == old(out)@ + number_text(*self),
    {
        let m: u64 = if self.units < 0 {
            (-(self.units as i128)) as u64
        } else {
            self.units as u64
        };
        assert(m == abs(self.units as int));
        if self.units < 0 {
            out.push('-');
        }
        push_nat_text(out, m / 1000000);
        let mut f: u64 = m % 1000000;
        if f != 0 {
            out.push('.');
            let mut w: u64 = 6;
            let ghost f0 = f;
            while w > 0 && f % 10 == 0
                invariant
                    w <= 6,
                    frac_text(f0 as nat, 6) == frac_text(f as nat, w as nat),
                    f != 0,
                decreases w,
            {
                f = f / 10;
                w = w - 1;
            }
            push_padded_digits(out, f, w);
        }
        assert(out@ =~= old(out)@ + number_text(*self));
    }
}

/// Truncating division on wide integers, within the range that the
/// arithmetic above produces.
fn trunc_div(x: i128, y: i128) -> (q: i128)
    requires
        y != 0,
        -0x4000_0000_0000_0000_0000_0000_0000_0000 <= x <= 0x4000_0000_0000_0000_0000_0000_0000_0000,
        -0x8000_0000_0000_0000 <= y <= 0x7fff_ffff_ffff_ffff,
    ensures
        q == tdiv(x as int, y as int),
{
    let ux: u128 = if x >= 0 { x as u128 } else { (-x) as u128 };
    let uy: u128 = if y >= 0 { y as u128 } else { (-y) as u128 };
    let m: u128 = ux / uy;
    assert(m <= ux) by (nonlinear_arith)
        requires m == ux / uy, uy >= 1;
    let mi: i128 = m as i128;
    let negative = (x < 0) != (y < 0);
    if negative { -mi } else { mi }
}

} // verus!
