//! The few `String` operations of std that vstd leaves without a contract,
//! and a comparison of an argument with a flag.
use vstd::prelude::*;

verus! {

/// `String::with_capacity`: an empty string with room reserved for
/// `capacity` bytes. std panics on a capacity above `isize::MAX` bytes. The
/// contract states that the string is empty; the room reserved is left
/// unsaid, as the allocator decides it.
#[verifier::external_body]
pub(crate) fn string_with_capacity(capacity: usize) -> (s: String)
    requires
        capacity <= isize::MAX,
    ensures
        s@ == Seq::<char>::empty(),
{
    String::with_capacity(capacity)
}

/// `String::push`: appends one character. std panics where the capacity
/// it needs passes `isize::MAX` bytes, and a full string grows to twice its
/// length. A character takes at most four bytes, and an ASCII character one,
/// so the `requires` keeps twice the new length within that.
#[verifier::external_body]
pub(crate) fn string_push(s: &mut String, c: char)
    requires
        if vstd::utf8::is_ascii_chars(old(s)@.push(c)) {
            2 * (old(s)@.len() + 1) <= isize::MAX
        } else {
            8 * (old(s)@.len() + 1) <= isize::MAX
        },
    ensures
        final(s)@ == old(s)@.push(c),
{
    s.push(c)
}

/// Whether `arg` is exactly `flag`.
pub(crate) fn is_flag(arg: &String, flag: &str) -> (b: bool)
    ensures
        b == (arg@ == flag@),
{
    let f = String::from_str(flag);
    *arg == f
}

/// The text that the error of a failed `String::from_utf8` shows (its
/// `Display`), such as "invalid utf-8 sequence of 1 bytes from index 0". It
/// depends on the bytes alone.
pub uninterp spec fn utf8_error_text(bytes: Seq<u8>) -> Seq<char>;

/// `String::from_utf8`: the bytes as a string where they are UTF-8, and
/// otherwise the text of its error, converted from the error by `Display`.
/// The contract states that it succeeds exactly on valid UTF-8 and then holds
/// the characters that the bytes encode, by vstd's account of UTF-8; the
/// error's text is named as a function of the bytes.
#[verifier::external_body]
pub(crate) fn string_from_utf8(bytes: Vec<u8>) -> (r: Result<String, String>)
    ensures
        r is Ok <==> vstd::utf8::valid_utf8(bytes@),
        r matches Ok(s) ==> s@ == vstd::utf8::decode_utf8(bytes@),
        r matches Err(m) ==> m@ == utf8_error_text(bytes@),
{
    match String::from_utf8(bytes) {
        Ok(s) => Ok(s),
        Err(e) => Err(e.to_string()),
    }
}

} // verus!
