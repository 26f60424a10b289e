//! The byte classes of the grammar, each as a spec predicate and as the
//! executable test that computes it.

use vstd::prelude::*;

verus! {

pub const TAB: u8 = 0x09;
pub const LINE_FEED: u8 = 0x0A;
pub const CARRIAGE_RETURN: u8 = 0x0D;
pub const SPACE: u8 = 0x20;
pub const QUOTE: u8 = 0x22;
pub const HASH: u8 = 0x23;
pub const PLUS: u8 = 0x2B;
pub const MINUS: u8 = 0x2D;
pub const DOT: u8 = 0x2E;
pub const ZERO: u8 = 0x30;
pub const EQUALS: u8 = 0x3D;
pub const UNDERSCORE: u8 = 0x5F;
pub const LOWER_B: u8 = 0x62;
pub const LOWER_F: u8 = 0x66;
pub const LOWER_O: u8 = 0x6F;
pub const LOWER_T: u8 = 0x74;
pub const LOWER_X: u8 = 0x78;

/// The bytes of the literal `true`.
pub open spec fn true_text() -> Seq<u8> {
    seq![0x74u8, 0x72u8, 0x75u8, 0x65u8]
}

/// The bytes of the literal `false`.
pub open spec fn false_text() -> Seq<u8> {
    seq![0x66u8, 0x61u8, 0x6Cu8, 0x73u8, 0x65u8]
}

/// A space or a tab: the whitespace that may stand inside a line.
pub open spec fn is_blank(b: u8) -> bool {
    b == SPACE || b == TAB
}

#[verifier::when_used_as_spec(is_blank)]
pub fn blank(b: u8) -> (r: bool)
    ensures
        r == is_blank(b),
{
    b == SPACE || b == TAB
}

/// A byte that starts a line ending, valid or not.
pub open spec fn is_break(b: u8) -> bool {
    b == LINE_FEED || b == CARRIAGE_RETURN
}

#[verifier::when_used_as_spec(is_break)]
pub fn line_break(b: u8) -> (r: bool)
    ensures
        r == is_break(b),
{
    b == LINE_FEED || b == CARRIAGE_RETURN
}

/// An ASCII decimal digit.
pub open spec fn is_digit(b: u8) -> bool {
    0x30 <= b <= 0x39
}

#[verifier::when_used_as_spec(is_digit)]
pub fn digit(b: u8) -> (r: bool)
    ensures
        r == is_digit(b),
{
    0x30 <= b && b <= 0x39
}

/// `e` or `E`, which opens the exponent of a float.
pub open spec fn is_exponent_mark(b: u8) -> bool {
    b == 0x65 || b == 0x45
}

#[verifier::when_used_as_spec(is_exponent_mark)]
pub fn exponent_mark(b: u8) -> (r: bool)
    ensures
        r == is_exponent_mark(b),
{
    b == 0x65 || b == 0x45
}

/// The value of `b` as a digit of the given radix, if it is one. Hex digits
/// are taken in either case.
pub open spec fn digit_value(b: u8, radix: int) -> Option<int> {
    let v: int = if 0x30 <= b <= 0x39 {
        b - 0x30
    } else if 0x61 <= b <= 0x66 {
        b - 0x61 + 10
    } else if 0x41 <= b <= 0x46 {
        b - 0x41 + 10
    } else {
        16
    };
    if v < radix {
        Some(v)
    } else {
        None
    }
}

/// The radices an integer literal can be written in.
pub open spec fn is_radix(radix: int) -> bool {
    radix == 2 || radix == 8 || radix == 10 || radix == 16
}

pub fn digit_of(b: u8, radix: u8) -> (r: Option<u8>)
    requires
        is_radix(radix as int),
    ensures
        r matches Some(v) ==> digit_value(b, radix as int) == Some(v as int),
        r is None ==> digit_value(b, radix as int) is None,
{
    let v: u8 = if 0x30 <= b && b <= 0x39 {
        b - 0x30
    } else if 0x61 <= b && b <= 0x66 {
        b - 0x61 + 10
    } else if 0x41 <= b && b <= 0x46 {
        b - 0x41 + 10
    } else {
        16
    };
    if v < radix {
        Some(v)
    } else {
        None
    }
}

/// A byte that may stand in a float literal: a digit, an underscore, the
/// point or an exponent mark.
pub open spec fn is_float_byte(b: u8) -> bool {
    is_digit(b) || b == UNDERSCORE || b == DOT || is_exponent_mark(b)
}

/// The one-character text of a byte of a float literal other than the
/// underscore; `None` for every other byte.
pub fn float_byte_text(b: u8) -> (text: Option<&'static str>)
    ensures
        match text {
            Some(t) => is_float_byte(b) && b != UNDERSCORE && t@ == seq![b as char],
            None => !is_float_byte(b) || b == UNDERSCORE,
        },
{
    proof {
        reveal_strlit("0");
        reveal_strlit("1");
        reveal_strlit("2");
        reveal_strlit("3");
        reveal_strlit("4");
        reveal_strlit("5");
        reveal_strlit("6");
        reveal_strlit("7");
        reveal_strlit("8");
        reveal_strlit("9");
        reveal_strlit(".");
        reveal_strlit("e");
        reveal_strlit("E");
    }
    let text = if b == 0x30 {
        Some("0")
    } else if b == 0x31 {
        Some("1")
    } else if b == 0x32 {
        Some("2")
    } else if b == 0x33 {
        Some("3")
    } else if b == 0x34 {
        Some("4")
    } else if b == 0x35 {
        Some("5")
    } else if b == 0x36 {
        Some("6")
    } else if b == 0x37 {
        Some("7")
    } else if b == 0x38 {
        Some("8")
    } else if b == 0x39 {
        Some("9")
    } else if b == DOT {
        Some(".")
    } else if b == 0x65 {
        Some("e")
    } else if b == 0x45 {
        Some("E")
    } else {
        None
    };
    assert(text matches Some(t) ==> t@ =~= seq![b as char]);
    text
}

/// The characters that a sequence of ASCII bytes stands for.
pub open spec fn ascii_chars(bytes: Seq<u8>) -> Seq<char> {
    Seq::new(bytes.len(), |i: int| bytes[i] as char)
}

} // verus!
