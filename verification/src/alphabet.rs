//! The Base 64 alphabet of RFC 4648 and the value of each of its digits.
use vstd::prelude::*;

verus! {

/// The 64 digits, in the order of their values.
pub const TABLE: [char; 64] = [
    'A', 'B', 'C', 'D', 'E', 'F', 'G', 'H', 'I', 'J', 'K', 'L', 'M', 'N', 'O', 'P', 'Q', 'R', 'S',
    'T', 'U', 'V', 'W', 'X', 'Y', 'Z', 'a', 'b', 'c', 'd', 'e', 'f', 'g', 'h', 'i', 'j', 'k', 'l',
    'm', 'n', 'o', 'p', 'q', 'r', 's', 't', 'u', 'v', 'w', 'x', 'y', 'z', '0', '1', '2', '3', '4',
    '5', '6', '7', '8', '9', '+', '/',
];

/// The digit that stands for the 6-bit value `v`: `A`-`Z` for 0-25,
/// `a`-`z` for 26-51, `0`-`9` for 52-61, `+` for 62 and `/` for 63.
pub open spec fn digit_char(v: int) -> char {
    if v < 26 {
        ('A' as int + v) as char
    } else if v < 52 {
        ('a' as int + (v - 26)) as char
    } else if v < 62 {
        ('0' as int + (v - 52)) as char
    } else if v == 62 {
        '+'
    } else {
        '/'
    }
}

/// The 6-bit value of the digit `c`, or `None` where `c` is no digit.
pub open spec fn digit_value(c: char) -> Option<u8> {
    if 'A' <= c <= 'Z' {
        Some((c as int - 'A' as int) as u8)
    } else if 'a' <= c <= 'z' {
        Some((c as int - 'a' as int + 26) as u8)
    } else if '0' <= c <= '9' {
        Some((c as int - '0' as int + 52) as u8)
    } else if c == '+' {
        Some(62u8)
    } else if c == '/' {
        Some(63u8)
    } else {
        None
    }
}

/// Each entry of the table is the digit of its index.
pub proof fn lemma_table_is_alphabet()
    ensures
        forall|v: int| 0 <= v < 64 ==> #[trigger] TABLE@[v] == digit_char(v),
{
}

/// Every value has one digit, and that digit reads back as the value.
pub proof fn lemma_digit_roundtrip(v: int)
    requires
        0 <= v < 64,
    ensures
        digit_value(digit_char(v)) == Some(v as u8),
        digit_char(v) != '=',
        digit_char(v) != '\r',
        digit_char(v) != '\n',
{
}

} // verus!
