//! Numbers as text, scaled by thousands, with two decimal places.

use vstd::prelude::*;
use crate::text::{decimal_string, decimal_text, digit_char, digit_str};

verus! {

/// The unit in which `x` is written: a thousand, a million or a thousand
/// millions where `x` reaches it, else one.
pub open spec fn scale_of(x: nat) -> nat {
    if x >= 1_000_000_000 {
        1_000_000_000
    } else if x >= 1_000_000 {
        1_000_000
    } else if x >= 1_000 {
        1_000
    } else {
        1
    }
}

/// `x` in hundredths of its unit, rounded to the nearest, a half upwards.
pub open spec fn hundredths(x: nat) -> nat {
    (x * 100 + scale_of(x) / 2) / scale_of(x)
}

/// The number of `h` hundredths with two decimal places.
pub open spec fn fixed_text(h: nat) -> Seq<char> {
    decimal_text(h / 100) + "."@ + seq![digit_char(h % 100 / 10)] + seq![digit_char(h % 10)]
}

/// `x` with two decimal places in its unit, then a space and the letter of
/// the unit where the unit is not one.
pub open spec fn metric_text(x: nat) -> Seq<char> {
    fixed_text(hundredths(x)) + if x >= 1_000_000_000 {
        " G"@
    } else if x >= 1_000_000 {
        " M"@
    } else if x >= 1_000 {
        " k"@
    } else {
        ""@
    }
}

/// `x` metres with two decimal places in their unit, then a space and the
/// unit.
pub open spec fn metres_text(x: nat) -> Seq<char> {
    fixed_text(hundredths(x)) + if x >= 1_000_000_000 {
        " Gm"@
    } else if x >= 1_000_000 {
        " Mm"@
    } else if x >= 1_000 {
        " km"@
    } else {
        " m"@
    }
}

/// `x` in hundredths of its unit.
pub fn scaled(x: u64) -> (h: u128)
    ensures
        h == hundredths(x as nat),
{
    let scale: u128 = if x >= 1_000_000_000 {
        1_000_000_000
    } else if x >= 1_000_000 {
        1_000_000
    } else if x >= 1_000 {
        1_000
    } else {
        1
    };
    ((x as u128) * 100 + scale / 2) / scale
}

/// The number of `h` hundredths with two decimal places.
pub fn fixed_string(h: u128) -> (r: String)
    ensures
        r@ == fixed_text(h as nat),
{
    let mut r = decimal_string(h / 100);
    r.append(".");
    r.append(digit_str((h % 100 / 10) as u8));
    r.append(digit_str((h % 10) as u8));
    r
}

/// `x` metres as text: see `metres_text`.
pub fn metres_string(x: u64) -> (r: String)
    ensures
        r@ == metres_text(x as nat),
{
    let mut r = fixed_string(scaled(x));
    if x >= 1_000_000_000 {
        r.append(" Gm");
    } else if x >= 1_000_000 {
        r.append(" Mm");
    } else if x >= 1_000 {
        r.append(" km");
    } else {
        r.append(" m");
    }
    r
}

/// A strength of `s` millionths in per cent with one decimal place, rounded
/// to the nearest, a half upwards; "NA" for no signal.
pub open spec fn strength_text(s: Option<u64>) -> Seq<char> {
    match s {
        Some(v) => {
            let tenths = ((v + 500) / 1000) as nat;
            decimal_text(tenths / 10) + "."@ + seq![digit_char(tenths % 10)] + " %"@
        },
        None => "NA"@,
    }
}

/// A strength as text: see `strength_text`.
pub fn format_strength(strength: Option<u64>) -> (r: String)
    ensures
        r@ == strength_text(strength),
{
    match strength {
        Some(v) => {
            let tenths: u128 = (v as u128 + 500) / 1000;
            let mut r = decimal_string(tenths / 10);
            r.append(".");
            r.append(digit_str((tenths % 10) as u8));
            r.append(" %");
            r
        },
        None => String::from_str("NA"),
    }
}

/// A number that is shown scaled by thousands.
#[derive(Debug, Default, Clone, Copy, PartialEq, Eq, PartialOrd, Ord)]
pub struct MetricPrefix(pub u64);

impl MetricPrefix {
    /// The number as text: see `metric_text`.
    pub fn to_string(&self) -> (r: String)
        ensures
            r@ == metric_text(self.0 as nat),
    {
        let x: u64 = self.0;
        let mut r = fixed_string(scaled(x));
        if x >= 1_000_000_000 {
            r.append(" G");
        } else if x >= 1_000_000 {
            r.append(" M");
        } else if x >= 1_000 {
            r.append(" k");
        } else {
            proof {
                reveal_strlit("");
            }
            assert(r@ + ""@ =~= r@);
        }
        r
    }
}

} // verus!
