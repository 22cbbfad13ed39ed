use crate::sink::{appends, Sink};
use vstd::prelude::*;

verus! {

/// The character for the digit `d`, which is below ten.
pub open spec fn digit(d: nat) -> char {
    (('0' as nat) + d) as char
}

/// The decimal text of `n`: no sign, no leading zero but for zero itself.
pub open spec fn decimal(n: nat) -> Seq<char>
    decreases n,
{
    if n < 10 {
        seq![digit(n)]
    } else {
        decimal(n / 10).push(digit(n % 10))
    }
}

/// The decimal text of `v`, with a minus sign in front if it is negative.
pub open spec fn signed_decimal(v: int) -> Seq<char> {
    if v < 0 {
        seq!['-'] + decimal((-v) as nat)
    } else {
        decimal(v as nat)
    }
}

/// The distance of `v` from zero.
pub fn magnitude(v: i64) -> (m: u64)
    ensures
        m == if v < 0 { -v } else { v as int },
{
    if v < 0 {
        // -(v + 1) fits where -v may not
        let below: i64 = -(v + 1);
        (below as u64) + 1
    } else {
        v as u64
    }
}

/// Writes `n` in decimal.
pub fn write_decimal<W: Sink>(writer: &mut W, n: u64) -> (r: Result<(), core::fmt::Error>)
    ensures
        appends(*old(writer), *final(writer), r, decimal(n as nat)),
    decreases n,
{
    if n >= 10 {
        match write_decimal(writer, n / 10) {
            Ok(()) => {},
            Err(e) => {
                return Err(e);
            },
        }
    }
    let d: u8 = (n % 10) as u8;
    let r = writer.write_char((48u8 + d) as char);
    proof {
        if n >= 10 {
            assert(old(writer).text() + decimal(n as nat / 10).push(digit(n as nat % 10)) =~= (
            old(writer).text() + decimal(n as nat / 10)).push(digit(n as nat % 10)));
        } else {
            assert(old(writer).text() + seq![digit(n as nat)] =~= old(writer).text().push(
                digit(n as nat),
            ));
        }
    }
    r
}

/// Writes `v` in decimal, with its sign if it is negative.
pub fn write_signed_decimal<W: Sink>(writer: &mut W, v: i64) -> (r: Result<(), core::fmt::Error>)
    ensures
        appends(*old(writer), *final(writer), r, signed_decimal(v as int)),
{
    if v < 0 {
        match writer.write_char('-') {
            Ok(()) => {},
            Err(e) => {
                return Err(e);
            },
        }
    }
    let r = write_decimal(writer, magnitude(v));
    proof {
        if v < 0 {
            assert(old(writer).text().push('-') + decimal((-v) as nat) =~= old(writer).text() + (
            seq!['-'] + decimal((-v) as nat)));
        }
    }
    r
}

} // verus!
