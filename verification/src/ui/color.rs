//! Colours of the configuration, written as hexadecimal `rrggbb` or `rrggbbaa`.
use vstd::prelude::*;

verus! {

/// Value of an ASCII hexadecimal digit (either case).
pub open spec fn hex_digit(b: u8) -> Option<u8> {
    if 48 <= b <= 57 {
        Some((b - 48) as u8)
    } else if 97 <= b <= 102 {
        Some((b - 87) as u8)
    } else if 65 <= b <= 70 {
        Some((b - 55) as u8)
    } else {
        None
    }
}

/// The number a two-byte string denotes in base 16, as `u8::from_str_radix` reads it:
/// an optional `+` sign followed by digits only.
pub open spec fn hex_byte_spec(a: u8, b: u8) -> Option<u8> {
    if a == 43 {
        hex_digit(b)
    } else {
        match (hex_digit(a), hex_digit(b)) {
            (Some(x), Some(y)) => Some((x * 16 + y) as u8),
            _ => None,
        }
    }
}

/// A byte that continues a UTF-8 sequence: a string cannot be split before it.
pub open spec fn is_continuation(b: u8) -> bool {
    0x80 <= b < 0xc0
}

/// The string can be cut into its two-byte pairs: it has 6 or 8 bytes and no pair
/// starts inside a character.
pub open spec fn pairs_splittable(s: Seq<u8>) -> bool {
    (s.len() == 6 || s.len() == 8) ==> {
        &&& !is_continuation(s[2])
        &&& !is_continuation(s[4])
        &&& s.len() == 8 ==> !is_continuation(s[6])
    }
}

/// The pair at `at`, or `missing` when it is not a number.
pub open spec fn pair_or(s: Seq<u8>, at: int, missing: u8) -> u8 {
    match hex_byte_spec(s[at], s[at + 1]) {
        Some(v) => v,
        None => missing,
    }
}

/// The colour (red, green, blue, alpha) that the bytes `s` of a colour name (without
/// its leading `#` and surrounding white space) denote: with 6 bytes an opaque colour,
/// with 8 the last pair is the alpha; a pair that is not a number reads as `missing`
/// (as 255 for the alpha). Any other length denotes none.
pub open spec fn hex_color_spec(s: Seq<u8>, missing: u8) -> Option<(u8, u8, u8, u8)> {
    if s.len() == 6 {
        Some((pair_or(s, 0, missing), pair_or(s, 2, missing), pair_or(s, 4, missing), 255))
    } else if s.len() == 8 {
        Some((pair_or(s, 0, missing), pair_or(s, 2, missing), pair_or(s, 4, missing), pair_or(s, 6, 255)))
    } else {
        None
    }
}

fn hex_digit_exec(b: u8) -> (r: Option<u8>)
    ensures
        r == hex_digit(b),
{
    if 48 <= b && b <= 57 {
        Some(b - 48)
    } else if 97 <= b && b <= 102 {
        Some(b - 87)
    } else if 65 <= b && b <= 70 {
        Some(b - 55)
    } else {
        None
    }
}

/// The pair of bytes at `at` read in base 16, or `missing`; see `pair_or`.
fn pair_or_exec(s: &[u8], at: usize, missing: u8) -> (r: u8)
    requires
        at + 1 < s@.len(),
    ensures
        r == pair_or(s@, at as int, missing),
{
    let a = s[at];
    let b = s[at + 1];
    if a == 43 {
        match hex_digit_exec(b) {
            Some(v) => v,
            None => missing,
        }
    } else {
        match (hex_digit_exec(a), hex_digit_exec(b)) {
            (Some(x), Some(y)) => x * 16 + y,
            _ => missing,
        }
    }
}

/// The colour the bytes of a colour name denote; see `hex_color_spec`. The bytes are
/// those of a string that is read pair by pair, so it must be cuttable into its pairs.
pub fn parse_hex_color(s: &[u8], missing: u8) -> (r: Option<(u8, u8, u8, u8)>)
    requires
        pairs_splittable(s@),
    ensures
        r == hex_color_spec(s@, missing),
{
    let n = s.len();
    if n == 6 {
        Some((pair_or_exec(s, 0, missing), pair_or_exec(s, 2, missing), pair_or_exec(s, 4, missing), 255))
    } else if n == 8 {
        Some((
            pair_or_exec(s, 0, missing),
            pair_or_exec(s, 2, missing),
            pair_or_exec(s, 4, missing),
            pair_or_exec(s, 6, 255),
        ))
    } else {
        None
    }
}

} // verus!
