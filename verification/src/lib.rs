use vstd::prelude::*;

pub mod trigram;
pub mod corpus;
pub mod score;
pub mod laws;
pub mod debugstr;
pub mod codec;
pub mod rng;
pub mod search;

verus! {

/// True of the bytes that `u8::is_ascii_whitespace` accepts:
/// space, tab, line feed, form feed, carriage return.
pub open spec fn is_ws(b: u8) -> bool {
    b == 9 || b == 10 || b == 12 || b == 13 || b == 32
}

/// True of ASCII letters.
pub open spec fn is_alpha(b: u8) -> bool {
    (65 <= b && b <= 90) || (97 <= b && b <= 122)
}

/// True of ASCII letters and digits.
pub open spec fn is_alnum(b: u8) -> bool {
    is_alpha(b) || (48 <= b && b <= 57)
}

/// True of ASCII control bytes.
pub open spec fn is_control(b: u8) -> bool {
    b <= 31 || b == 127
}

/// True of ASCII graphic (visibly printable) bytes.
pub open spec fn is_graphic(b: u8) -> bool {
    33 <= b && b <= 126
}

/// Lower-case a single byte: letters `A`..`Z` gain the case bit, all else is kept.
pub open spec fn to_lower(b: u8) -> u8 {
    if 65 <= b && b <= 90 {
        (b + 32) as u8
    } else {
        b
    }
}

/// A byte string, lower-cased byte by byte.
pub open spec fn lower_seq(s: Seq<u8>) -> Seq<u8> {
    s.map_values(|b: u8| to_lower(b))
}

/// Lower-case an ASCII byte, as `u8::to_ascii_lowercase` does.
pub fn lower_byte(b: u8) -> (r: u8)
    ensures
        r == to_lower(b),
{
    if 65 <= b && b <= 90 {
        b + 32
    } else {
        b
    }
}

/// Exec test for ASCII whitespace, matching `is_ws`.
pub fn ws_byte(b: u8) -> (r: bool)
    ensures
        r == is_ws(b),
{
    b == 9 || b == 10 || b == 12 || b == 13 || b == 32
}

/// Exec test for ASCII letters, matching `is_alpha`.
pub fn alpha_byte(b: u8) -> (r: bool)
    ensures
        r == is_alpha(b),
{
    (65 <= b && b <= 90) || (97 <= b && b <= 122)
}

} // verus!
