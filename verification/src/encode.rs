//! Encoding bytes as Base 64 text.
use vstd::prelude::*;

use crate::alphabet::{TABLE, digit_char, lemma_table_is_alphabet};
use crate::strings::{string_push, string_with_capacity};

verus! {

/// The four characters that encode a group of one to three bytes (bytes past
/// the third are not part of the group). The group is read as a big-endian
/// number, a missing byte counting as zero, and cut into four 6-bit digits;
/// a digit made only of missing bytes is written as the pad `=`.
pub open spec fn encode_group(g: Seq<u8>) -> Seq<char>
    recommends
        g.len() >= 1,
{
    let b0 = g[0] as int;
    let b1 = if g.len() > 1 { g[1] as int } else { 0 };
    let b2 = if g.len() > 2 { g[2] as int } else { 0 };
    seq![
        digit_char(b0 / 4),
        digit_char((b0 % 4) * 16 + b1 / 16),
        if g.len() > 1 { digit_char((b1 % 16) * 4 + b2 / 64) } else { '=' },
        if g.len() > 2 { digit_char(b2 % 64) } else { '=' },
    ]
}

/// The Base 64 encoding of `bytes`: the encodings of its groups of three,
/// in order, the last group holding what is left.
pub open spec fn spec_encode(bytes: Seq<u8>) -> Seq<char>
    decreases bytes.len(),
{
    if bytes.len() == 0 {
        seq![]
    } else if bytes.len() <= 3 {
        encode_group(bytes)
    } else {
        encode_group(bytes.take(3)) + spec_encode(bytes.skip(3))
    }
}

/// The encoding of a sequence of groups of one to three bytes: the
/// encodings of the groups, one after the other.
pub open spec fn encode_groups(groups: Seq<Seq<u8>>) -> Seq<char>
    decreases groups.len(),
{
    if groups.len() == 0 {
        seq![]
    } else {
        encode_groups(groups.drop_last()) + encode_group(groups.last())
    }
}

/// The bytes of a text of ASCII characters.
pub open spec fn ascii_bytes(s: Seq<char>) -> Seq<u8> {
    s.map_values(|c: char| c as u8)
}

/// The number of characters in the encoding of `n` bytes.
pub open spec fn encoded_len(n: nat) -> nat {
    4 * ((n + 2) / 3)
}

/// The encoding of `n` bytes has `4 * ceil(n / 3)` characters.
pub proof fn lemma_encoded_len(bytes: Seq<u8>)
    ensures
        spec_encode(bytes).len() == encoded_len(bytes.len()),
    decreases bytes.len(),
{
    if bytes.len() > 3 {
        lemma_encoded_len(bytes.skip(3));
    }
}

/// The encoding of a group is ASCII.
proof fn lemma_group_ascii(g: Seq<u8>)
    requires
        g.len() >= 1,
    ensures
        vstd::utf8::is_ascii_chars(encode_group(g)),
{
}

proof fn lemma_sextets(b0: u8, b1: u8, b2: u8)
    ensures
        (b0 >> 2u8) & 0x3fu8 == b0 / 4,
        (b0 << 4u8) & 0x3fu8 == (b0 % 4) * 16,
        ((b0 << 4u8) | (b1 >> 4u8)) & 0x3fu8 == (b0 % 4) * 16 + b1 / 16,
        (b1 << 2u8) & 0x3fu8 == (b1 % 16) * 4,
        ((b1 << 2u8) | (b2 >> 6u8)) & 0x3fu8 == (b1 % 16) * 4 + b2 / 64,
        b2 & 0x3fu8 == b2 % 64,
{
    assert((b0 >> 2u8) & 0x3fu8 == b0 / 4) by (bit_vector);
    assert((b0 << 4u8) & 0x3fu8 == (b0 % 4) * 16) by (bit_vector);
    assert(((b0 << 4u8) | (b1 >> 4u8)) & 0x3fu8 == (b0 % 4) * 16 + b1 / 16) by (bit_vector);
    assert((b1 << 2u8) & 0x3fu8 == (b1 % 16) * 4) by (bit_vector);
    assert(((b1 << 2u8) | (b2 >> 6u8)) & 0x3fu8 == (b1 % 16) * 4 + b2 / 64) by (bit_vector);
    assert(b2 & 0x3fu8 == b2 % 64) by (bit_vector);
}

/// Encodes one group of one to three bytes; bytes past the third are not
/// read.
pub(crate) fn encode_chunk(bytes: &[u8]) -> (buf: [char; 4])
    requires
        bytes@.len() >= 1,
    ensures
        buf@ == encode_group(bytes@),
{
    proof {
        lemma_table_is_alphabet();
    }
    let mut buf = ['='; 4];
    let b0 = bytes[0];
    let b1 = if bytes.len() > 1 { bytes[1] } else { 0 };
    let b2 = if bytes.len() > 2 { bytes[2] } else { 0 };
    proof {
        lemma_sextets(b0, b1, b2);
    }
    buf[0] = TABLE[((b0 >> 2) & 0b111111) as usize];
    if bytes.len() == 1 {
        buf[1] = TABLE[((b0 << 4) & 0b111111) as usize];
        assert(buf@ =~= encode_group(bytes@));
        return buf;
    }
    buf[1] = TABLE[((b0 << 4 | b1 >> 4) & 0b111111) as usize];
    if bytes.len() == 2 {
        buf[2] = TABLE[((b1 << 2) & 0b111111) as usize];
        assert(buf@ =~= encode_group(bytes@));
        return buf;
    }
    buf[2] = TABLE[((b1 << 2 | b2 >> 6) & 0b111111) as usize];
    buf[3] = TABLE[(b2 & 0b111111) as usize];
    assert(buf@ =~= encode_group(bytes@));
    buf
}

/// Encode the given byte array to a Base 64 String
///
/// The result has `4 * ceil(bytes.len() / 3)` characters, so the capacity
/// reserved up front is never exceeded.
pub fn encode(bytes: &[u8]) -> (result: String)
    requires
        2 * encoded_len(bytes@.len()) <= isize::MAX,
    ensures
        result@ == spec_encode(bytes@),
        result@.len() == encoded_len(bytes@.len()),
{
    let len = bytes.len();
    let mut capacity = (len / 3) * 4;
    if len % 3 != 0 {
        capacity += 4;
    }
    assert(capacity == encoded_len(len as nat));
    let mut result = string_with_capacity(capacity);
    let mut i: usize = 0;
    proof {
        lemma_encoded_len(bytes@);
        assert(bytes@.skip(0) =~= bytes@);
    }
    while i < len
        invariant
            len == bytes@.len(),
            i <= len,
            2 * encoded_len(len as nat) <= isize::MAX,
            vstd::utf8::is_ascii_chars(result@),
            spec_encode(bytes@).len() == encoded_len(len as nat),
            spec_encode(bytes@) == result@ + spec_encode(bytes@.skip(i as int)),
        decreases len - i,
    {
        let end = if len - i > 3 { i + 3 } else { len };
        let chunk = encode_chunk(&bytes[i..end]);
        proof {
            lemma_group_ascii(bytes@.subrange(i as int, end as int));
            let rest = bytes@.skip(i as int);
            assert(bytes@.subrange(i as int, end as int) =~= if rest.len() <= 3 { rest } else { rest.take(3) });
            if rest.len() > 3 {
                assert(rest.skip(3) =~= bytes@.skip(end as int));
            } else {
                assert(bytes@.skip(end as int) =~= Seq::<u8>::empty());
            }
        }
        let ghost before = result@;
        proof {
            lemma_encoded_len(bytes@.skip(i as int));
        }
        let mut k: usize = 0;
        while k < 4
            invariant
                k <= 4,
                result@ == before + chunk@.take(k as int),
                before.len() + 4 <= encoded_len(len as nat),
                2 * encoded_len(len as nat) <= isize::MAX,
                vstd::utf8::is_ascii_chars(result@),
                vstd::utf8::is_ascii_chars(chunk@),
            decreases 4 - k,
        {
            proof {
                assert(vstd::utf8::is_ascii_chars(result@.push(chunk@[k as int])));
            }
            string_push(&mut result, chunk[k]);
            proof {
                assert(chunk@.take(k as int).push(chunk@[k as int]) =~= chunk@.take(k + 1));
            }
            k += 1;
        }
        assert(chunk@.take(4) =~= chunk@);
        i = end;
    }
    result
}

} // verus!
