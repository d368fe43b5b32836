//! Decoding Base 64 text into bytes.
use std::borrow::Cow;
use std::str::Chars;
use vstd::prelude::*;
use vstd::std_specs::iter::IteratorSpec;

use crate::alphabet::digit_value;
use crate::strings::string_push;

verus! {

/// The digit values that `s` holds, read from the start up to the first pad
/// `=` or the end of the text. Line breaks (`\r`, `\n`) are skipped. Any other
/// character that is no digit makes it fail with that character (the first
/// such one).
pub open spec fn digits(s: Seq<char>) -> Result<Seq<u8>, char>
    decreases s.len(),
{
    if s.len() == 0 {
        Ok(seq![])
    } else if s[0] == '=' {
        Ok(seq![])
    } else if s[0] == '\r' || s[0] == '\n' {
        digits(s.drop_first())
    } else {
        match digit_value(s[0]) {
            Some(v) => prepend(seq![v], digits(s.drop_first())),
            None => Err(s[0]),
        }
    }
}

/// `r` with `front` put before the digits it holds; an error stays as is.
pub open spec fn prepend(front: Seq<u8>, r: Result<Seq<u8>, char>) -> Result<Seq<u8>, char> {
    match r {
        Ok(rest) => Ok(front + rest),
        Err(c) => Err(c),
    }
}

/// The bytes that a group of one to four digits stands for (digits past the
/// fourth are not part of the group). The group is read as a big-endian
/// number, a missing digit counting as zero, and cut into three bytes, of
/// which a group of `k` digits gives the first `k - 1`; a lone digit gives
/// the first byte.
pub open spec fn decode_group(d: Seq<u8>) -> Seq<u8>
    recommends
        d.len() >= 1,
{
    let d0 = d[0] as int;
    let d1 = if d.len() > 1 { d[1] as int } else { 0 };
    let d2 = if d.len() > 2 { d[2] as int } else { 0 };
    let d3 = if d.len() > 3 { d[3] as int } else { 0 };
    let bytes = seq![
        (d0 * 4 + d1 / 16) as u8,
        ((d1 % 16) * 16 + d2 / 4) as u8,
        ((d2 % 4) * 64 + d3) as u8,
    ];
    if d.len() <= 2 {
        bytes.take(1)
    } else if d.len() == 3 {
        bytes.take(2)
    } else {
        bytes
    }
}

/// The bytes that a sequence of digit values stands for: the bytes of its
/// groups of four, in order, the last group holding what is left.
pub open spec fn decode_digits(d: Seq<u8>) -> Seq<u8>
    decreases d.len(),
{
    if d.len() == 0 {
        seq![]
    } else if d.len() <= 4 {
        decode_group(d)
    } else {
        decode_group(d.take(4)) + decode_digits(d.skip(4))
    }
}

/// What decoding `text` gives: its bytes, or the first character that is
/// neither a digit, a pad nor a line break.
pub open spec fn spec_decode(text: Seq<char>) -> Result<Seq<u8>, char> {
    match digits(text) {
        Ok(d) => Ok(decode_digits(d)),
        Err(c) => Err(c),
    }
}

/// What reading one digit from `s` gives: line breaks are skipped, then
/// the end of the text or a pad give `Ok(None)`, a digit gives its value,
/// and any other character is the error.
pub open spec fn first_token(s: Seq<char>) -> Result<Option<u8>, char>
    decreases s.len(),
{
    if s.len() == 0 {
        Ok(None)
    } else if s[0] == '\r' || s[0] == '\n' {
        first_token(s.drop_first())
    } else if s[0] == '=' {
        Ok(None)
    } else {
        match digit_value(s[0]) {
            Some(v) => Ok(Some(v)),
            None => Err(s[0]),
        }
    }
}

/// What is left of `s` after reading one digit: the line breaks before it
/// and the character read (digit, pad or error) are gone.
pub open spec fn after_token(s: Seq<char>) -> Seq<char>
    decreases s.len(),
{
    if s.len() == 0 {
        s
    } else if s[0] == '\r' || s[0] == '\n' {
        after_token(s.drop_first())
    } else {
        s.drop_first()
    }
}

/// The message of the error for the character `c`.
pub open spec fn unknown_char_message(c: char) -> Seq<char> {
    "Unknown character to decode: '"@ + seq![c, '\'']
}

/// Appending a group of one to four digits to a whole number of groups
/// appends the bytes of that group.
pub proof fn lemma_decode_digits_append(a: Seq<u8>, g: Seq<u8>)
    requires
        a.len() % 4 == 0,
        1 <= g.len() <= 4,
    ensures
        decode_digits(a + g) == decode_digits(a) + decode_group(g),
    decreases a.len(),
{
    if a.len() == 0 {
        assert(a + g =~= g);
    } else {
        let ag = a + g;
        assert(ag.take(4) =~= a.take(4));
        assert(ag.skip(4) =~= a.skip(4) + g);
        lemma_decode_digits_append(a.skip(4), g);
        if a.len() == 4 {
            assert(a.skip(4) =~= Seq::<u8>::empty());
            assert(a.take(4) =~= a);
            assert(a.skip(4) + g =~= g);
        }
    }
}

fn unknown_char_error(c: char) -> (r: Cow<'static, str>)
    ensures
        r@ == unknown_char_message(c),
{
    let mut e = String::from_str("Unknown character to decode: '");
    proof {
        reveal_strlit("Unknown character to decode: '");
    }
    string_push(&mut e, c);
    string_push(&mut e, '\'');
    Cow::Owned(e)
}

/// Reads the next digit: `Ok(None)` at the end of the text or at a pad,
/// `Ok(Some(v))` for a digit of value `v`, an error for any other character
/// but a line break, which is skipped.
fn next(chars: &mut Chars<'_>) -> (r: crate::Result<Option<u8>>)
    requires
        (*old(chars)).decrease() is Some,
    ensures
        (*final(chars)).decrease() is Some,
        r matches Ok(Some(_)) ==> (*final(chars)).decrease()->0 < (*old(chars)).decrease()->0,
        (*final(chars)).remaining() == after_token((*old(chars)).remaining()),
        match first_token((*old(chars)).remaining()) {
            Ok(t) => r == Ok::<Option<u8>, Cow<'static, str>>(t),
            Err(c) => r matches Err(e) && e@ == unknown_char_message(c),
        },
        match r {
            Ok(None) => digits((*old(chars)).remaining()) == Ok::<Seq<u8>, char>(Seq::<u8>::empty()),
            Ok(Some(v)) => v < 64 && digits((*old(chars)).remaining()) == prepend(
                seq![v],
                digits((*final(chars)).remaining()),
            ),
            Err(e) => digits((*old(chars)).remaining()) is Err && e@ == unknown_char_message(
                digits((*old(chars)).remaining())->Err_0,
            ),
        },
    decreases (*old(chars)).decrease()->0,
{
    let ghost start = (*chars).remaining();
    let Some(c) = chars.next() else { return Ok(None) };
    assert(start.len() > 0);
    assert(c == start[0]);
    assert((*chars).remaining() == start.drop_first());
    let v: u32 = if 'A' <= c && c <= 'Z' {
        c as u32 - 'A' as u32
    } else if 'a' <= c && c <= 'z' {
        c as u32 - 'a' as u32 + 26
    } else if '0' <= c && c <= '9' {
        c as u32 - '0' as u32 + 52
    } else if c == '+' {
        62
    } else if c == '/' {
        63
    } else if c == '=' {
        return Ok(None);
    } else if c == '\r' || c == '\n' {
        return next(chars);
    } else {
        return Err(unknown_char_error(c));
    };
    Ok(Some(v as u8))
}

} // verus!

verus! {

proof fn lemma_prepend_prepend(a: Seq<u8>, b: Seq<u8>, r: Result<Seq<u8>, char>)
    ensures
        prepend(a, prepend(b, r)) == prepend(a + b, r),
{
    if let Ok(x) = r {
        assert(a + (b + x) =~= (a + b) + x);
    }
}

proof fn lemma_byte_arith(c0: int, c1: int, c2: int, c3: int)
    requires
        0 <= c0 < 64,
        0 <= c1 < 64,
        0 <= c2 < 64,
        0 <= c3 < 64,
    ensures
        ((c0 * 64) / 16) % 256 == c0 * 4,
        ((c0 * 64 + c1) / 16) % 256 == c0 * 4 + c1 / 16,
        ((((c0 * 64 + c1) * 64 + c2) * 64 + c3) / 256) % 256 == (c1 % 16) * 16 + c2 / 4,
        (((c0 * 64 + c1) * 64 + c2) * 64 + c3) % 256 == (c2 % 4) * 64 + c3,
{
    assert(((c0 * 64) / 16) % 256 == c0 * 4) by (nonlinear_arith)
        requires 0 <= c0 < 64;
    assert(((c0 * 64 + c1) / 16) % 256 == c0 * 4 + c1 / 16) by (nonlinear_arith)
        requires 0 <= c0 < 64, 0 <= c1 < 64;
    assert(((((c0 * 64 + c1) * 64 + c2) * 64 + c3) / 256) % 256 == (c1 % 16) * 16 + c2 / 4)
        by (nonlinear_arith)
        requires 0 <= c0 < 64, 0 <= c1 < 64, 0 <= c2 < 64, 0 <= c3 < 64;
    assert((((c0 * 64 + c1) * 64 + c2) * 64 + c3) % 256 == (c2 % 4) * 64 + c3)
        by (nonlinear_arith)
        requires 0 <= c0 < 64, 0 <= c1 < 64, 0 <= c2 < 64, 0 <= c3 < 64;
}

proof fn lemma_shift_in(n: u32, c: u32)
    requires
        n < 0x40000,
        c < 64,
    ensures
        (n << 6u32) | c == n * 64 + c,
        n << 6u32 == n * 64,
{
    assert((n << 6u32) | c == n * 64 + c) by (bit_vector)
        requires
            n < 0x40000,
            c < 64,
    ;
    assert(n << 6u32 == n * 64) by (bit_vector)
        requires
            n < 0x40000,
    ;
}

proof fn lemma_low_byte(n: u32)
    ensures
        ((n >> 4u32) & 0xffu32) == (n / 16) % 256,
        ((n >> 8u32) & 0xffu32) == (n / 256) % 256,
        (n & 0xffu32) == n % 256,
{
    assert(((n >> 4u32) & 0xffu32) == (n / 16) % 256) by (bit_vector);
    assert(((n >> 8u32) & 0xffu32) == (n / 256) % 256) by (bit_vector);
    assert((n & 0xffu32) == n % 256) by (bit_vector);
}

/// The bytes pushed for a group of `g.len()` digits, after a whole number
/// of groups, are those of the group.
proof fn lemma_group_pushed(done: Seq<u8>, g: Seq<u8>, pushed: Seq<u8>)
    requires
        done.len() % 4 == 0,
        1 <= g.len() <= 4,
        forall|k: int| 0 <= k < g.len() ==> g[k] < 64,
        pushed.len() == if g.len() == 1 { 1 } else { g.len() - 1 },
        pushed[0] == (((g[0] * 64 + if g.len() > 1 { g[1] as int } else { 0 }) / 16) % 256) as u8,
        g.len() >= 3 ==> pushed[1] == (((((g[0] * 64 + g[1]) * 64 + g[2]) * 64 + if g.len() > 3 {
            g[3] as int
        } else {
            0
        }) / 256) % 256) as u8,
        g.len() == 4 ==> pushed[2] == ((((g[0] * 64 + g[1]) * 64 + g[2]) * 64 + g[3]) % 256) as u8,
    ensures
        decode_digits(done) + pushed == decode_digits(done + g),
{
    lemma_decode_digits_append(done, g);
    let c0 = g[0] as int;
    let c1 = if g.len() > 1 { g[1] as int } else { 0 };
    let c2 = if g.len() > 2 { g[2] as int } else { 0 };
    let c3 = if g.len() > 3 { g[3] as int } else { 0 };
    lemma_byte_arith(c0, c1, c2, c3);
    assert(pushed =~= decode_group(g));
}

/// Decode a Base64-encoded string
///
/// This function returns a [`Vec<u8>`] with the content of
/// the given string.
///
/// The text does not need to be padded with '='. Decoding stops at the first
/// '=', skips line breaks and fails on the first other character that is no
/// Base 64 digit.
pub fn decode(text: &str) -> (r: crate::Result<Vec<u8>>)
    ensures
        r is Ok <==> spec_decode(text@) is Ok,
        r matches Ok(bytes) ==> bytes@ == spec_decode(text@)->Ok_0,
        r matches Err(e) ==> e@ == unknown_char_message(spec_decode(text@)->Err_0),
{
    let len = text.len();
    let capacity = len / 4 * 3 + len % 4;
    let mut decoded = Vec::<u8>::with_capacity(capacity);
    let mut chars = text.chars();
    let ghost mut done: Seq<u8> = seq![];
    proof {
        assert(chars.remaining() == text@);
        if let Ok(d) = digits(text@) {
            assert(done + d =~= d);
        }
    }
    loop
        invariant_except_break
            digits(text@) == prepend(done, digits(chars.remaining())),
            chars.decrease() is Some,
            done.len() % 4 == 0,
            decoded@ == decode_digits(done),
        ensures
            digits(text@) is Ok,
            decoded@ == decode_digits(digits(text@)->Ok_0),
        decreases chars.decrease()->0,
    {
        let ghost rem0 = chars.remaining();
        let ghost before = decoded@;
        let mut n: u32 = 0;
        let c0 = match next(&mut chars) {
            Ok(Some(c)) => c,
            Ok(None) => {
                assert(done + Seq::<u8>::empty() =~= done);
                break;
            },
            Err(e) => return Err(e),
        };
        let ghost rem1 = chars.remaining();
        proof {
            lemma_shift_in(n, c0 as u32);
        }
        n = (n << 6) | c0 as u32;
        proof {
            lemma_shift_in(n, 0);
        }
        let c1 = match next(&mut chars) {
            Ok(Some(c)) => c,
            Ok(None) => {
                proof {
                    lemma_low_byte(n << 6);
                }
                decoded.push((((n << 6) >> 4) & 0xff) as u8);
                proof {
                    lemma_group_pushed(done, seq![c0], decoded@.skip(before.len() as int));
                    assert(before + decoded@.skip(before.len() as int) =~= decoded@);
                    lemma_prepend_prepend(done, seq![c0], Ok(Seq::<u8>::empty()));
                    assert(seq![c0] + Seq::<u8>::empty() =~= seq![c0]);
                }
                break;
            },
            Err(e) => return Err(e),
        };
        let ghost rem2 = chars.remaining();
        proof {
            lemma_shift_in(n, c1 as u32);
        }
        n = (n << 6) | c1 as u32;
        proof {
            lemma_low_byte(n);
        }
        decoded.push(((n >> 4) & 0xff) as u8);
        let c2 = match next(&mut chars) {
            Ok(Some(c)) => c,
            Ok(None) => {
                proof {
                    lemma_group_pushed(done, seq![c0, c1], decoded@.skip(before.len() as int));
                    assert(before + decoded@.skip(before.len() as int) =~= decoded@);
                    lemma_prepend_prepend(seq![c0], seq![c1], Ok(Seq::<u8>::empty()));
                    lemma_prepend_prepend(done, seq![c0] + seq![c1], Ok(Seq::<u8>::empty()));
                    assert(seq![c0] + seq![c1] + Seq::<u8>::empty() =~= seq![c0, c1]);
                }
                break;
            },
            Err(e) => return Err(e),
        };
        let ghost rem3 = chars.remaining();
        proof {
            lemma_shift_in(n, c2 as u32);
        }
        n = (n << 6) | c2 as u32;
        proof {
            lemma_shift_in(n, 0);
        }
        let c3 = match next(&mut chars) {
            Ok(Some(c)) => c,
            Ok(None) => {
                proof {
                    lemma_low_byte(n << 6);
                }
                decoded.push((((n << 6) >> 8) & 0xff) as u8);
                proof {
                    lemma_group_pushed(done, seq![c0, c1, c2], decoded@.skip(before.len() as int));
                    assert(before + decoded@.skip(before.len() as int) =~= decoded@);
                    lemma_prepend_prepend(seq![c1], seq![c2], Ok(Seq::<u8>::empty()));
                    lemma_prepend_prepend(seq![c0], seq![c1] + seq![c2], Ok(Seq::<u8>::empty()));
                    lemma_prepend_prepend(done, seq![c0] + (seq![c1] + seq![c2]), Ok(Seq::<u8>::empty()));
                    assert(seq![c0] + (seq![c1] + seq![c2]) + Seq::<u8>::empty() =~= seq![c0, c1, c2]);
                }
                break;
            },
            Err(e) => return Err(e),
        };
        proof {
            lemma_shift_in(n, c3 as u32);
        }
        n = (n << 6) | c3 as u32;
        proof {
            lemma_low_byte(n);
        }
        decoded.push(((n >> 8) & 0xff) as u8);
        decoded.push((n & 0xff) as u8);
        proof {
            let g = seq![c0, c1, c2, c3];
            lemma_group_pushed(done, g, decoded@.skip(before.len() as int));
            assert(before + decoded@.skip(before.len() as int) =~= decoded@);
            let r4 = digits(chars.remaining());
            lemma_prepend_prepend(seq![c2], seq![c3], r4);
            lemma_prepend_prepend(seq![c1], seq![c2] + seq![c3], r4);
            lemma_prepend_prepend(seq![c0], seq![c1] + (seq![c2] + seq![c3]), r4);
            lemma_prepend_prepend(done, seq![c0] + (seq![c1] + (seq![c2] + seq![c3])), r4);
            assert(seq![c0] + (seq![c1] + (seq![c2] + seq![c3])) =~= g);
            done = done + g;
        }
    }
    Ok(decoded)
}

} // verus!
