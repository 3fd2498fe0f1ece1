//! Fixed-point decimal values carried through from the backend.
//!
//! A [`Dec`] holds what the backend's decimal library exposes of a value: a
//! 96-bit mantissa and a scale (the mantissa is the value times ten to the
//! scale).  The library never computes with these — they are parsed from
//! wire text by the decimal crate and carried to the presentation layer.

use vstd::prelude::*;
use core::str::FromStr;

verus! {

/// A decimal as mantissa and scale: the value is `mantissa / 10^scale`.
#[derive(Debug, Clone, Copy, PartialEq, Eq, Structural)]
pub struct Dec {
    pub mantissa: i128,
    pub scale: u32,
}

/// What the decimal crate parses a string to, if anything: a function of
/// the characters alone.
pub uninterp spec fn dec_of_str(s: Seq<char>) -> Option<(i128, u32)>;

/// What the decimal crate's `normalize` leaves of a value: zero becomes
/// plain zero, and otherwise trailing zeros of the mantissa are stripped
/// while the scale lasts.
pub open spec fn dec_normalized(mantissa: i128, scale: u32) -> (i128, u32)
    decreases scale,
{
    if mantissa == 0 {
        (0, 0)
    } else if scale > 0 && mantissa % 10 == 0 {
        dec_normalized((mantissa / 10) as i128, (scale - 1) as u32)
    } else {
        (mantissa, scale)
    }
}

/// Relies on `rust_decimal::Decimal::from_str`: the parse depends on the
/// characters alone; a parsed decimal's scale never exceeds 28 and its
/// mantissa fits 96 bits.
#[verifier::external_body]
pub fn parse_decimal(s: &str) -> (r: Option<Dec>)
    ensures
        match r {
            Some(d) => dec_of_str(s@) == Some((d.mantissa, d.scale)) && d.scale <= 28
                && -0x1000000000000000000000000 < d.mantissa < 0x1000000000000000000000000,
            None => dec_of_str(s@) is None,
        },
{
    match rust_decimal::Decimal::from_str(s) {
        Ok(d) => Some(Dec { mantissa: d.mantissa(), scale: d.scale() }),
        Err(_) => None,
    }
}

/// Relies on `rust_decimal::Decimal::normalize`: it strips trailing zeros
/// and turns negative zero into zero, exactly as [`dec_normalized`] says.
#[verifier::external_body]
pub fn normalize_dec(d: Dec) -> (r: Dec)
    requires
        d.scale <= 28,
        -0x1000000000000000000000000 < d.mantissa < 0x1000000000000000000000000,
    ensures
        (r.mantissa, r.scale) == dec_normalized(d.mantissa, d.scale),
{
    let n = rust_decimal::Decimal::from_i128_with_scale(d.mantissa, d.scale).normalize();
    Dec { mantissa: n.mantissa(), scale: n.scale() }
}

} // verus!
