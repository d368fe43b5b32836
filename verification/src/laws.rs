//! What holds of encoding and decoding together.
use vstd::prelude::*;

use crate::alphabet::{digit_value, lemma_digit_roundtrip};
use crate::decode::{decode_digits, decode_group, digits, prepend, spec_decode};
use crate::encode::{encode_group, encode_groups, spec_encode};

verus! {

/// The digit values that the encoding of a group of one to three bytes
/// writes before its pads.
pub open spec fn group_values(g: Seq<u8>) -> Seq<u8> {
    let b0 = g[0] as int;
    let b1 = if g.len() > 1 { g[1] as int } else { 0 };
    let b2 = if g.len() > 2 { g[2] as int } else { 0 };
    let all = seq![
        (b0 / 4) as u8,
        ((b0 % 4) * 16 + b1 / 16) as u8,
        ((b1 % 16) * 4 + b2 / 64) as u8,
        (b2 % 64) as u8,
    ];
    all.take(g.len() + 1int)
}

/// Reading the encoding of a group: a whole group gives its four values and
/// reading goes on; a short one gives its values and reading stops at its pad.
proof fn lemma_digits_of_group(g: Seq<u8>, rest: Seq<char>)
    requires
        1 <= g.len() <= 3,
    ensures
        g.len() == 3 ==> digits(encode_group(g) + rest) == prepend(group_values(g), digits(rest)),
        g.len() < 3 ==> digits(encode_group(g) + rest) == Ok::<Seq<u8>, char>(group_values(g)),
{
    let e = encode_group(g);
    let v = seq![
        (g[0] as int / 4) as u8,
        ((g[0] as int % 4) * 16 + (if g.len() > 1 { g[1] as int } else { 0 }) / 16) as u8,
        (((if g.len() > 1 { g[1] as int } else { 0 }) % 16) * 4 + (if g.len() > 2 { g[2] as int } else { 0 }) / 64) as u8,
        ((if g.len() > 2 { g[2] as int } else { 0 }) % 64) as u8,
    ];
    assert(v.take(g.len() + 1int) =~= group_values(g));
    lemma_digit_roundtrip(v[0] as int);
    lemma_digit_roundtrip(v[1] as int);
    lemma_digit_roundtrip(v[2] as int);
    lemma_digit_roundtrip(v[3] as int);
    let s = e + rest;
    let s1 = s.drop_first();
    let s2 = s1.drop_first();
    let s3 = s2.drop_first();
    let s4 = s3.drop_first();
    assert(s4 =~= rest);
    if g.len() == 1 {
        assert(s2[0] == '=');
        assert(digits(s2) == Ok::<Seq<u8>, char>(Seq::<u8>::empty()));
        assert(digits(s1) == Ok::<Seq<u8>, char>(seq![v[1]] + Seq::<u8>::empty()));
        assert(seq![v[1]] + Seq::<u8>::empty() =~= seq![v[1]]);
        assert(seq![v[0]] + seq![v[1]] =~= group_values(g));
    } else if g.len() == 2 {
        assert(s3[0] == '=');
        assert(digits(s3) == Ok::<Seq<u8>, char>(Seq::<u8>::empty()));
        assert(digits(s2) == Ok::<Seq<u8>, char>(seq![v[2]] + Seq::<u8>::empty()));
        assert(seq![v[2]] + Seq::<u8>::empty() =~= seq![v[2]]);
        assert(seq![v[0]] + (seq![v[1]] + seq![v[2]]) =~= group_values(g));
    } else {
        assert(digits(s3) == prepend(seq![v[3]], digits(rest)));
        assert(digits(s2) == prepend(seq![v[2]], prepend(seq![v[3]], digits(rest))));
        if let Ok(x) = digits(rest) {
            assert(seq![v[0]] + (seq![v[1]] + (seq![v[2]] + (seq![v[3]] + x)))
                =~= group_values(g) + x);
        }
    }
}

/// The digits of a group decode back to the group.
proof fn lemma_group_values_decode(g: Seq<u8>)
    requires
        1 <= g.len() <= 3,
    ensures
        decode_group(group_values(g)) == g,
{
    let b0 = g[0] as int;
    let b1 = if g.len() > 1 { g[1] as int } else { 0 };
    let b2 = if g.len() > 2 { g[2] as int } else { 0 };
    assert(b0 / 4 * 4 + ((b0 % 4) * 16 + b1 / 16) / 16 == b0);
    assert(((((b0 % 4) * 16 + b1 / 16) % 16) * 16 + ((b1 % 16) * 4 + b2 / 64) / 4) == b1);
    assert(((((b1 % 16) * 4 + b2 / 64) % 4) * 64 + b2 % 64) == b2);
    assert(decode_group(group_values(g)) =~= g);
}

/// Decoding the encoding of any bytes gives those bytes back.
pub proof fn lemma_decode_encode(bytes: Seq<u8>)
    ensures
        spec_decode(spec_encode(bytes)) == Ok::<Seq<u8>, char>(bytes),
    decreases bytes.len(),
{
    if bytes.len() == 0 {
        assert(digits(spec_encode(bytes)) == Ok::<Seq<u8>, char>(Seq::<u8>::empty()));
        assert(bytes =~= Seq::<u8>::empty());
    } else if bytes.len() <= 3 {
        lemma_digits_of_group(bytes, Seq::<char>::empty());
        assert(spec_encode(bytes) + Seq::<char>::empty() =~= spec_encode(bytes));
        lemma_group_values_decode(bytes);
    } else {
        let g = bytes.take(3);
        let rest = bytes.skip(3);
        lemma_decode_encode(rest);
        lemma_digits_of_group(g, spec_encode(rest));
        lemma_group_values_decode(g);
        let d = digits(spec_encode(rest))->Ok_0;
        let all = group_values(g) + d;
        assert(spec_encode(bytes) == encode_group(g) + spec_encode(rest));
        assert(digits(spec_encode(bytes)) == Ok::<Seq<u8>, char>(all));
        assert(all.take(4) =~= group_values(g));
        assert(all.skip(4) =~= d);
        assert(g + rest =~= bytes);
        assert(decode_digits(d) == rest);
        assert(d.len() > 0);
        assert(decode_digits(all) == g + rest);
    }
}

/// Decoding stops at the first pad: whatever follows it, from the pad on,
/// changes nothing. So the text need not be padded.
pub proof fn lemma_decode_stops_at_pad(text: Seq<char>, tail: Seq<char>)
    requires
        tail.len() > 0,
        tail[0] == '=',
    ensures
        spec_decode(text + tail) == spec_decode(text),
{
    lemma_digits_stop_at_pad(text, tail);
}

proof fn lemma_digits_stop_at_pad(text: Seq<char>, tail: Seq<char>)
    requires
        tail.len() > 0,
        tail[0] == '=',
    ensures
        digits(text + tail) == digits(text),
    decreases text.len(),
{
    if text.len() > 0 {
        assert((text + tail).drop_first() =~= text.drop_first() + tail);
        lemma_digits_stop_at_pad(text.drop_first(), tail);
    } else {
        assert(text + tail =~= tail);
    }
}

/// A line break anywhere in the text changes nothing of what decoding gives.
pub proof fn lemma_decode_skips_line_breaks(before: Seq<char>, c: char, after: Seq<char>)
    requires
        c == '\r' || c == '\n',
    ensures
        spec_decode(before + seq![c] + after) == spec_decode(before + after),
{
    lemma_digits_skip_line_break(before, c, after);
}

proof fn lemma_digits_skip_line_break(before: Seq<char>, c: char, after: Seq<char>)
    requires
        c == '\r' || c == '\n',
    ensures
        digits(before + seq![c] + after) == digits(before + after),
    decreases before.len(),
{
    if before.len() > 0 {
        assert((before + seq![c] + after).drop_first() =~= before.drop_first() + seq![c] + after);
        assert((before + after).drop_first() =~= before.drop_first() + after);
        lemma_digits_skip_line_break(before.drop_first(), c, after);
    } else {
        assert(before + seq![c] + after =~= seq![c] + after);
        assert((seq![c] + after).drop_first() =~= after);
        assert(before + after =~= after);
    }
}

/// Appending a group of one to three bytes to a whole number of groups
/// appends the encoding of that group.
proof fn lemma_encode_append(a: Seq<u8>, g: Seq<u8>)
    requires
        a.len() % 3 == 0,
        1 <= g.len() <= 3,
    ensures
        spec_encode(a + g) == spec_encode(a) + encode_group(g),
    decreases a.len(),
{
    if a.len() == 0 {
        assert(a + g =~= g);
    } else {
        let ag = a + g;
        assert(ag.take(3) =~= a.take(3));
        assert(ag.skip(3) =~= a.skip(3) + g);
        lemma_encode_append(a.skip(3), g);
        if a.len() == 3 {
            assert(a.skip(3) =~= Seq::<u8>::empty());
            assert(a.take(3) =~= a);
            assert(a.skip(3) + g =~= g);
        }
    }
}

/// Encoding bytes whose first part is a whole number of groups of three is
/// encoding the two parts one after the other.
pub proof fn lemma_encode_concat(a: Seq<u8>, b: Seq<u8>)
    requires
        a.len() % 3 == 0,
    ensures
        spec_encode(a + b) == spec_encode(a) + spec_encode(b),
    decreases a.len(),
{
    if a.len() == 0 {
        assert(a + b =~= b);
        assert(spec_encode(a) + spec_encode(b) =~= spec_encode(b));
    } else {
        let ab = a + b;
        lemma_encode_concat(a.skip(3), b);
        assert(ab.take(3) =~= a.take(3));
        assert(ab.skip(3) =~= a.skip(3) + b);
        if a.len() == 3 {
            assert(a.take(3) =~= a);
            assert(a.skip(3) =~= Seq::<u8>::empty());
            assert(a.skip(3) + b =~= b);
            assert(spec_encode(a.skip(3)) =~= Seq::<char>::empty());
            if b.len() == 0 {
                assert(ab =~= a);
                assert(spec_encode(a) + spec_encode(b) =~= spec_encode(a));
            } else {
                assert(spec_encode(ab) == encode_group(a) + spec_encode(b));
            }
        } else {
            assert(spec_encode(ab) == encode_group(a.take(3)) + spec_encode(a.skip(3) + b));
            assert(encode_group(a.take(3)) + (spec_encode(a.skip(3)) + spec_encode(b)) =~= (
            encode_group(a.take(3)) + spec_encode(a.skip(3))) + spec_encode(b));
        }
    }
}

/// Encoding groups one after the other, where every group but the last
/// holds three bytes, is encoding all their bytes at once.
pub proof fn lemma_encode_groups_flatten(groups: Seq<Seq<u8>>)
    requires
        forall|i: int| 0 <= i < groups.len() ==> 1 <= #[trigger] groups[i].len() <= 3,
        forall|i: int| 0 <= i < groups.len() - 1 ==> #[trigger] groups[i].len() == 3,
    ensures
        encode_groups(groups) == spec_encode(groups.flatten()),
    decreases groups.len(),
{
    groups.lemma_flatten_and_flatten_alt_are_equivalent();
    if groups.len() > 0 {
        let front = groups.drop_last();
        let g = groups.last();
        lemma_encode_groups_flatten(front);
        front.lemma_flatten_and_flatten_alt_are_equivalent();
        lemma_flatten_full_len(front);
        lemma_encode_append(front.flatten(), g);
    } else {
        assert(groups.flatten() =~= Seq::<u8>::empty());
    }
}

proof fn lemma_flatten_full_len(groups: Seq<Seq<u8>>)
    requires
        forall|i: int| 0 <= i < groups.len() ==> #[trigger] groups[i].len() == 3,
    ensures
        groups.flatten_alt().len() == 3 * groups.len(),
        groups.flatten().len() == 3 * groups.len(),
    decreases groups.len(),
{
    groups.lemma_flatten_and_flatten_alt_are_equivalent();
    if groups.len() > 0 {
        lemma_flatten_full_len(groups.drop_last());
    }
}

/// The number of pads that end the encoding of `n` bytes.
pub open spec fn pad_count(n: nat) -> nat {
    if n % 3 == 0 {
        0
    } else {
        (3 - n % 3) as nat
    }
}

/// The encoding of any bytes, with its pads cut off, still decodes to those
/// bytes: the text need not be padded.
pub proof fn lemma_decode_unpadded(bytes: Seq<u8>)
    ensures
        spec_encode(bytes).len() >= pad_count(bytes.len()),
        spec_decode(
            spec_encode(bytes).take(spec_encode(bytes).len() - pad_count(bytes.len())),
        ) == Ok::<Seq<u8>, char>(bytes),
{
    let e = spec_encode(bytes);
    let n = bytes.len();
    crate::encode::lemma_encoded_len(bytes);
    lemma_decode_encode(bytes);
    if pad_count(n) == 0 {
        assert(e.take(e.len() as int) =~= e);
    } else {
        let q = (n / 3) * 3;
        let a = bytes.take(q as int);
        let g = bytes.skip(q as int);
        assert(a + g =~= bytes);
        lemma_encode_append(a, g);
        crate::encode::lemma_encoded_len(a);
        let cut = e.len() - pad_count(n);
        let body = e.take(cut);
        let tail = e.skip(cut);
        assert(body + tail =~= e);
        assert(tail[0] == '=');
        lemma_decode_stops_at_pad(body, tail);
    }
}

/// The encoding holds digits and pads only, and a pad only where the last
/// group is short.
pub proof fn lemma_encode_alphabet(bytes: Seq<u8>)
    ensures
        forall|i: int|
            0 <= i < spec_encode(bytes).len() ==> (digit_value(#[trigger] spec_encode(bytes)[i])
                is Some || spec_encode(bytes)[i] == '='),
        forall|i: int|
            0 <= i < spec_encode(bytes).len() - pad_count(bytes.len()) ==> digit_value(
                #[trigger] spec_encode(bytes)[i],
            ) is Some,
    decreases bytes.len(),
{
    let e = spec_encode(bytes);
    crate::encode::lemma_encoded_len(bytes);
    if bytes.len() == 0 {
    } else if bytes.len() <= 3 {
        lemma_group_alphabet(bytes);
    } else {
        let g = bytes.take(3);
        let rest = bytes.skip(3);
        lemma_group_alphabet(g);
        lemma_encode_alphabet(rest);
        assert(rest.len() % 3 == bytes.len() % 3);
        assert forall|i: int| 0 <= i < e.len() implies (digit_value(#[trigger] e[i]) is Some
            || e[i] == '=') && (i < e.len() - pad_count(bytes.len()) ==> digit_value(e[i]) is Some) by {
            if i >= 4 {
                assert(e[i] == spec_encode(rest)[i - 4]);
            } else {
                assert(e[i] == encode_group(g)[i]);
            }
        }
    }
}

proof fn lemma_group_alphabet(g: Seq<u8>)
    requires
        1 <= g.len() <= 3,
    ensures
        forall|i: int|
            0 <= i < 4 ==> (digit_value(#[trigger] encode_group(g)[i]) is Some || encode_group(g)[i]
                == '='),
        forall|i: int| 0 <= i < g.len() + 1 ==> digit_value(#[trigger] encode_group(g)[i]) is Some,
        encode_group(g).len() == 4,
{
    let b0 = g[0] as int;
    let b1 = if g.len() > 1 { g[1] as int } else { 0 };
    let b2 = if g.len() > 2 { g[2] as int } else { 0 };
    lemma_digit_roundtrip(b0 / 4);
    lemma_digit_roundtrip((b0 % 4) * 16 + b1 / 16);
    lemma_digit_roundtrip((b1 % 16) * 4 + b2 / 64);
    lemma_digit_roundtrip(b2 % 64);
}

} // verus!
