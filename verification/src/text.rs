//! Decimal text rendering shared by the display forms of the numeric types
//! and of expressions.

use vstd::prelude::*;
use vstd::string::StringExecFns;

verus! {

/// The character of one decimal digit.
pub open spec fn digit_char(d: int) -> char {
    ((48 + d) as u8) as char
}

/// The decimal digits of a non-negative number, most significant first.
pub open spec fn dec_str(n: int) -> Seq<char>
    decreases n,
{
    if n < 0 {
        Seq::empty()
    } else if n < 10 {
        seq![digit_char(n)]
    } else {
        dec_str(n / 10).push(digit_char(n % 10))
    }
}

/// The last `scale` decimal digits of a fraction part, zero-padded on the
/// left, most significant first.
pub open spec fn padded_digits(fp: int, scale: int) -> Seq<char>
    decreases scale,
{
    if scale <= 0 {
        Seq::empty()
    } else {
        padded_digits(fp / 10, scale - 1).push(digit_char(fp % 10))
    }
}

/// The fraction digits with trailing zeros removed.
pub open spec fn trimmed_digits(fp: int, scale: int) -> Seq<char>
    decreases scale,
{
    if scale <= 0 {
        Seq::empty()
    } else if fp % 10 == 0 {
        trimmed_digits(fp / 10, scale - 1)
    } else {
        padded_digits(fp, scale)
    }
}

/// One decimal digit as text.
pub fn digit_str(d: u64) -> (r: &'static str)
    requires
        d < 10,
    ensures
        r@ == seq![digit_char(d as int)],
{
    let r: &'static str = match d {
        0 => "0",
        1 => "1",
        2 => "2",
        3 => "3",
        4 => "4",
        5 => "5",
        6 => "6",
        7 => "7",
        8 => "8",
        _ => "9",
    };
    proof {
        reveal_strlit("0");
        reveal_strlit("1");
        reveal_strlit("2");
        reveal_strlit("3");
        reveal_strlit("4");
        reveal_strlit("5");
        reveal_strlit("6");
        reveal_strlit("7");
        reveal_strlit("8");
        reveal_strlit("9");
        assert(r@ =~= seq![digit_char(d as int)]);
    }
    r
}

/// The decimal representation of a number.
pub fn u64_to_string(n: u64) -> (r: String)
    ensures
        r@ == dec_str(n as int),
    decreases n,
{
    if n < 10 {
        digit_str(n).to_owned()
    } else {
        let mut s = u64_to_string(n / 10);
        let d = digit_str(n % 10);
        s.append(d);
        proof {
            assert(s@ =~= dec_str(n as int));
        }
        s
    }
}

/// The zero-padded fraction digits of a number.
pub fn padded_string(fp: u64, scale: u32) -> (r: String)
    ensures
        r@ == padded_digits(fp as int, scale as int),
    decreases scale,
{
    if scale == 0 {
        String::new()
    } else {
        let mut s = padded_string(fp / 10, scale - 1);
        let d = digit_str(fp % 10);
        s.append(d);
        proof {
            assert(s@ =~= padded_digits(fp as int, scale as int));
        }
        s
    }
}

/// The fraction digits of a number with trailing zeros removed.
pub fn trimmed_string(fp: u64, scale: u32) -> (r: String)
    ensures
        r@ == trimmed_digits(fp as int, scale as int),
    decreases scale,
{
    if scale == 0 {
        String::new()
    } else if fp % 10 == 0 {
        trimmed_string(fp / 10, scale - 1)
    } else {
        padded_string(fp, scale)
    }
}

} // verus!
