//! The bytes that carry meaning for the tokenizer, and the two byte classes
//! that several handlers consult.
use vstd::prelude::*;

verus! {

pub const SPACE: u8 = 0x20;

pub const LINE_FEED: u8 = 0x0a;

pub const TAB: u8 = 0x09;

pub const CARRIAGE_RETURN: u8 = 0x0d;

/// `"`
pub const QUOTE: u8 = 0x22;

/// `\`
pub const BACKSLASH: u8 = 0x5c;

/// `,`
pub const COMMA: u8 = 0x2c;

/// `:`
pub const COLON: u8 = 0x3a;

/// `.`
pub const DOT: u8 = 0x2e;

/// `+`
pub const PLUS: u8 = 0x2b;

/// `-`
pub const MINUS: u8 = 0x2d;

/// `{`
pub const OBJ_BEG: u8 = 0x7b;

/// `}`
pub const OBJ_END: u8 = 0x7d;

/// `[`
pub const ARR_BEG: u8 = 0x5b;

/// `]`
pub const ARR_END: u8 = 0x5d;

/// `0`
pub const DIGIT_0: u8 = 0x30;

/// `9`
pub const DIGIT_9: u8 = 0x39;

/// `e`, the exponent marker, also the last byte of `true` and `false`.
pub const LOWER_E: u8 = 0x65;

/// `n`, the first byte of `null`.
pub const LOWER_N: u8 = 0x6e;

/// `t`, the first byte of `true`.
pub const LOWER_T: u8 = 0x74;

/// `f`, the first byte of `false`.
pub const LOWER_F: u8 = 0x66;

/// `a`
pub const LOWER_A: u8 = 0x61;

/// `l`
pub const LOWER_L: u8 = 0x6c;

/// `r`
pub const LOWER_R: u8 = 0x72;

/// `s`
pub const LOWER_S: u8 = 0x73;

/// `u`
pub const LOWER_U: u8 = 0x75;

/// The bytes skipped between tokens: space, line feed, tab, carriage return.
pub open spec fn is_empty_char(b: u8) -> bool {
    b == SPACE || b == LINE_FEED || b == TAB || b == CARRIAGE_RETURN
}

/// The bytes of a number's body: the ten digits, both signs and the
/// lower-case exponent marker. The decimal point is not among them.
pub open spec fn is_digit_char(b: u8) -> bool {
    (DIGIT_0 <= b && b <= DIGIT_9) || b == PLUS || b == MINUS || b == LOWER_E
}

/// Tells whether `b` is one of the bytes skipped between tokens.
pub fn empty_char(b: u8) -> (r: bool)
    ensures
        r == is_empty_char(b),
{
    b == SPACE || b == LINE_FEED || b == TAB || b == CARRIAGE_RETURN
}

/// Tells whether `b` may stand in the body of a number.
pub fn digit_char(b: u8) -> (r: bool)
    ensures
        r == is_digit_char(b),
{
    (DIGIT_0 <= b && b <= DIGIT_9) || b == PLUS || b == MINUS || b == LOWER_E
}

} // verus!
