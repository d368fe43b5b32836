//! An encoding reader that hands out whole groups of four characters only.
use std::io::{Error, ErrorKind, Read};
use vstd::prelude::*;

use crate::encode::{ascii_bytes, encode_chunk, encode_group, encode_groups, spec_encode};
use crate::laws::lemma_encode_groups_flatten;

verus! {

#[verifier::external_type_specification]
pub struct ExErrorKind(ErrorKind);

/// The inner reader, with a record of what it gave so far.
#[verifier::reject_recursive_types(T)]
pub struct Source<T> {
    reader: T,
    /// Every byte the reader handed over, in order.
    log: Ghost<Seq<u8>>,
    /// Whether the last read reported the end (read no byte).
    ended: Ghost<bool>,
    /// How many errors the reader reported.
    errors: Ghost<nat>,
    /// Whether some read handed over fewer bytes than it was asked for.
    shortfall: Ghost<bool>,
}

/// `Read::read` of the inner reader. Its outcome depends on the reader alone.
/// The contract states what the documentation of `Read` asks of every
/// implementation: the buffer keeps its length, `Ok(n)` has
/// `n <= buf.len()` and hands over the first `n` bytes of the buffer, `Ok(0)`
/// reports the end of the reader, and an error reads no byte. The record of
/// the source notes the outcome, and whether a read handed over fewer bytes
/// than the buffer asked for.
#[verifier::external_body]
fn read_into<T: Read>(src: &mut Source<T>, buf: &mut [u8]) -> (r: std::io::Result<usize>)
    ensures
        final(buf)@.len() == old(buf)@.len(),
        final(src).shortfall@ == (old(src).shortfall@ || (r matches Ok(n) && n < old(buf)@.len())),
        match r {
            Ok(n) => {
                &&& n <= old(buf)@.len()
                &&& final(src).log@ == old(src).log@ + final(buf)@.take(n as int)
                &&& final(src).ended@ == (n == 0)
                &&& final(src).errors@ == old(src).errors@
            },
            Err(_) => {
                &&& final(src).log@ == old(src).log@
                &&& final(src).ended@ == old(src).ended@
                &&& final(src).errors@ == old(src).errors@ + 1
            },
        },
{
    src.reader.read(buf)
}

/// `Error::new`: an I/O error of the given kind and message. Nothing of the
/// error is stated.
#[verifier::external_body]
fn io_error(kind: ErrorKind, message: &'static str) -> Error {
    Error::new(kind, message)
}

/// This is a Base 64 Encoder Reader
///
/// It takes a [reader](Read) and converts it's
/// output to Base 64.
#[verifier::reject_recursive_types(T)]
pub struct Base64Encoder<T> {
    reader: Source<T>,
    finished: bool,
    /// Every group of bytes read from the reader and encoded, in order.
    groups: Ghost<Seq<Seq<u8>>>,
    /// Every byte handed out, in order.
    produced: Ghost<Seq<u8>>,
}

impl<T> Base64Encoder<T> {
    /// Whether the reader ran out or a padded group was handed out.
    pub closed spec fn finished(self) -> bool {
        self.finished
    }

    /// The groups of bytes read from the reader and encoded so far.
    pub closed spec fn groups(self) -> Seq<Seq<u8>> {
        self.groups@
    }

    /// The bytes handed out so far.
    pub closed spec fn produced(self) -> Seq<u8> {
        self.produced@
    }

    /// Every byte the inner reader handed over so far, in order.
    pub closed spec fn log(self) -> Seq<u8> {
        self.reader.log@
    }

    /// Whether the inner reader reported its end at the last read.
    pub closed spec fn reader_ended(self) -> bool {
        self.reader.ended@
    }

    /// How many errors the inner reader reported.
    pub closed spec fn reader_errors(self) -> nat {
        self.reader.errors@
    }

    /// What was handed out is the encoding of the groups; the groups are the
    /// bytes the reader handed over, one group per read, all of three bytes
    /// but a last one; and the encoder is finished exactly when the reader
    /// reported its end or a short group was encoded.
    pub closed spec fn faithful(self) -> bool {
        &&& self.produced@ == ascii_bytes(encode_groups(self.groups@))
        &&& self.groups@.flatten_alt() == self.reader.log@
        &&& forall|i: int| 0 <= i < self.groups@.len() ==> 1 <= #[trigger] self.groups@[i].len() <= 3
        &&& forall|i: int| 0 <= i < self.groups@.len() - 1 ==> #[trigger] self.groups@[i].len() == 3
        &&& self.finished <==> (self.reader.ended@ || (self.groups@.len() > 0
            && self.groups@.last().len() < 3))
        &&& self.reader.ended@ ==> self.reader.shortfall@
        &&& self.reader.shortfall@ ==> self.finished
        &&& !self.reader.shortfall@ ==> forall|i: int|
            0 <= i < self.groups@.len() ==> #[trigger] self.groups@[i].len() == 3
    }

    /// Whether some read of the inner reader handed over fewer bytes than it
    /// was asked for.
    pub closed spec fn reader_shortfall(self) -> bool {
        self.reader.shortfall@
    }
}

/// What a faithful encoder handed out is the encoding of every byte its reader
/// handed over.
pub proof fn lemma_group_output_is_encoding<T>(e: Base64Encoder<T>)
    requires
        e.faithful(),
    ensures
        e.produced() == ascii_bytes(spec_encode(e.log())),
{
    let groups = e.groups();
    groups.lemma_flatten_and_flatten_alt_are_equivalent();
    lemma_encode_groups_flatten(groups);
}

/// The encoder asks the inner reader for three bytes per group: while every
/// read handed over all it was asked for, every group encoded holds three
/// bytes and the encoder is not finished, so what it handed out is the
/// encoding of the bytes read, without a pad. A short, padded group comes only
/// from a read that handed over fewer than three bytes, and ends the encoding.
pub proof fn lemma_groups_full_while_reader_delivers<T>(e: Base64Encoder<T>)
    requires
        e.faithful(),
    ensures
        !e.reader_shortfall() ==> !e.finished() && forall|i: int|
            0 <= i < e.groups().len() ==> #[trigger] e.groups()[i].len() == 3,
        !e.reader_shortfall() ==> e.log().len() == 3 * e.groups().len(),
        e.reader_shortfall() ==> e.finished(),
        e.produced() == ascii_bytes(spec_encode(e.log())),
{
    lemma_group_output_is_encoding(e);
    if !e.reader_shortfall() {
        lemma_full_groups_len(e.groups());
    }
}

proof fn lemma_full_groups_len(groups: Seq<Seq<u8>>)
    requires
        forall|i: int| 0 <= i < groups.len() ==> #[trigger] groups[i].len() == 3,
    ensures
        groups.flatten_alt().len() == 3 * groups.len(),
    decreases groups.len(),
{
    if groups.len() > 0 {
        lemma_full_groups_len(groups.drop_last());
    }
}

impl<T: Read> Base64Encoder<T> {
    /// Creates a [Base64Encoder] with a given [reader](Read)
    pub fn new(reader: T) -> (e: Self)
        ensures
            !e.finished(),
            e.groups() == Seq::<Seq<u8>>::empty(),
            e.produced() == Seq::<u8>::empty(),
            e.log() == Seq::<u8>::empty(),
            !e.reader_ended(),
            e.reader_errors() == 0,
            e.faithful(),
    {
        let e = Self {
            reader: Source {
                reader,
                log: Ghost(Seq::empty()),
                ended: Ghost(false),
                errors: Ghost(0),
                shortfall: Ghost(false),
            },
            finished: false,
            groups: Ghost(Seq::empty()),
            produced: Ghost(Seq::empty()),
        };
        assert(e.groups@.flatten_alt() =~= Seq::<u8>::empty());
        assert(ascii_bytes(encode_groups(e.groups@)) =~= Seq::<u8>::empty());
        e
    }
}

impl<T: Read> Read for Base64Encoder<T> {
    /// Read the next chunk of data into buf.
    ///
    /// When the reader has finished, returns 0.
    ///
    /// If the length of buf is less than 4, this
    /// function returns an Error.
    ///
    /// The loop compares the count of bytes written with a quarter of the
    /// length of `buf`, so at most one group is encoded per call while `buf`
    /// is shorter than 20 bytes.
    #[verifier::rlimit(40)]
    fn read(&mut self, buf: &mut [u8]) -> (r: std::io::Result<usize>)
        ensures
            final(buf)@.len() == old(buf)@.len(),
            old(buf)@.len() < 4 ==> r is Err && *final(self) == *old(self) && final(buf)@ == old(
                buf,
            )@,
            old(self).finished() && old(buf)@.len() >= 4 ==> (r matches Ok(n) && n == 0)
                && *final(self) == *old(self) && final(buf)@ == old(buf)@,
            old(self).finished() ==> final(self).finished(),
            old(self).groups().len() <= final(self).groups().len(),
            final(self).groups().subrange(0, old(self).groups().len() as int) == old(self).groups(),
            forall|i: int|
                old(self).groups().len() <= i < final(self).groups().len() ==> 1
                    <= #[trigger] final(self).groups()[i].len() <= 3,
            r is Err && old(buf)@.len() >= 4 ==> final(self).reader_errors() > old(
                self,
            ).reader_errors(),
            old(self).faithful() && r is Ok ==> final(self).faithful(),
            r matches Ok(n) ==> {
                &&& n % 4 == 0
                &&& n <= old(buf)@.len()
                &&& n == 0 || n < old(buf)@.len() / 4 + 4
                &&& n < old(buf)@.len() / 4 ==> final(self).finished()
                &&& final(buf)@.take(n as int) == ascii_bytes(
                    encode_groups(final(self).groups().skip(old(self).groups().len() as int)),
                )
                &&& final(self).produced() == old(self).produced() + final(buf)@.take(n as int)
                &&& final(buf)@.skip(n as int) == old(buf)@.skip(n as int)
                &&& final(self).reader_errors() == old(self).reader_errors()
            },
    {
        if buf.len() < 4 {
            return Err(io_error(ErrorKind::InvalidInput, "Buffer too small"));
        }
        let mut group = [0_u8; 3];
        let mut count: usize = 0;
        let ghost start = self.groups@.len();
        proof {
            assert(self.groups@.skip(start as int) =~= Seq::<Seq<u8>>::empty());
            assert(buf@.take(0) =~= Seq::<u8>::empty());
            assert(ascii_bytes(encode_groups(Seq::<Seq<u8>>::empty())) =~= Seq::<u8>::empty());
            assert(self.groups@.subrange(0, start as int) =~= self.groups@);
            assert(self.produced@ + Seq::<u8>::empty() =~= self.produced@);
        }
        while count < buf.len() / 4 && !self.finished
            invariant
                buf@.len() == old(buf)@.len(),
                buf@.len() >= 4,
                count % 4 == 0,
                count <= buf.len(),
                count == 0 || count < buf@.len() / 4 + 4,
                start == old(self).groups().len(),
                start <= self.groups@.len(),
                self.groups@.subrange(0, start as int) == old(self).groups(),
                forall|i: int| start <= i < self.groups@.len() ==> 1 <= #[trigger] self.groups@[i].len() <= 3,
                buf@.take(count as int) == ascii_bytes(encode_groups(self.groups@.skip(start as int))),
                self.produced@ == old(self).produced@ + buf@.take(count as int),
                buf@.skip(count as int) == old(buf)@.skip(count as int),
                old(self).finished ==> self.finished && count == 0 && *self == *old(self),
                old(self).faithful() ==> self.faithful(),
                self.reader.errors@ == old(self).reader.errors@,
            ensures
                count >= buf@.len() / 4 || self.finished,
            decreases buf@.len() - count,
        {
            let ghost before = *self;
            let n = match read_into(&mut self.reader, &mut group) {
                Ok(n) => n,
                Err(e) => return Err(e),
            };
            if n == 0 {
                self.finished = true;
                proof {
                    if old(self).faithful() {
                        assert(self.groups@ == before.groups@);
                    }
                }
                break;
            }
            let chunk = encode_chunk(&group[0..n]);
            let ghost g = group@.subrange(0, n as int);
            let ghost pre = buf@;
            let ghost groups_before = self.groups@;
            let ghost src_after = self.reader;
            assert(count + 4 <= buf.len());
            let mut i: usize = 0;
            let mut padded = false;
            while i < 4
                invariant
                    i <= 4,
                    count + 4 <= buf.len(),
                    buf@.len() == pre.len(),
                    forall|j: int| 0 <= j < count ==> buf@[j] == pre[j],
                    forall|j: int| count + 4 <= j < buf@.len() ==> buf@[j] == pre[j],
                    forall|j: int| 0 <= j < i ==> buf@[count + j] == (chunk@[j] as u8),
                    padded <==> exists|j: int| 0 <= j < i && chunk@[j] == '=',
                    self.finished == (before.finished || padded),
                    self.groups@ == groups_before,
                    self.reader == src_after,
                    !before.finished,
                    self.produced == before.produced,
                decreases 4 - i,
            {
                buf[count + i] = chunk[i] as u8;
                if chunk[i] == '=' {
                    self.finished = true;
                    padded = true;
                }
                i += 1;
            }
            proof {
                let gs = self.groups@.skip(start as int);
                assert(self.groups@.push(g).skip(start as int) =~= gs.push(g));
                assert(gs.push(g).drop_last() =~= gs);
                assert(buf@.take(count + 4) =~= pre.take(count as int) + ascii_bytes(encode_group(g)));
                assert(ascii_bytes(encode_groups(gs) + encode_group(g)) =~= ascii_bytes(encode_groups(gs))
                    + ascii_bytes(encode_group(g)));
                assert(buf@.skip(count + 4) =~= pre.skip(count + 4));
                assert(pre.skip(count + 4) =~= pre.skip(count as int).skip(4));
                assert(old(buf)@.skip(count + 4) =~= old(buf)@.skip(count as int).skip(4));
                assert(self.groups@.push(g).subrange(0, start as int) =~= self.groups@.subrange(0, start as int));
                assert(group@.take(n as int) =~= g);
                lemma_padded_iff_short(g);
                assert(padded <==> g.len() < 3);
                if old(self).faithful() {
                    lemma_faithful_group_push(before, g);
                    assert(self.reader.shortfall@ == (before.reader.shortfall@ || n < 3));
                    assert(!self.reader.shortfall@ ==> g.len() == 3);
                }
                assert(self.produced@ + ascii_bytes(encode_group(g)) =~= old(self).produced@
                    + buf@.take(count + 4));
                self.groups = Ghost(self.groups@.push(g));
                self.produced = Ghost(self.produced@ + ascii_bytes(encode_group(g)));
                assert(self.groups@.last() == g);
                assert(self.reader.log@ == before.reader.log@ + g);
            }
            count += 4;
        }
        proof {
            assert(buf@.skip(0) =~= buf@);
            assert(old(buf)@.skip(0) =~= old(buf)@);
        }
        Ok(count)
    }
}

/// A group's encoding holds a pad exactly when the group is short.
proof fn lemma_padded_iff_short(g: Seq<u8>)
    requires
        1 <= g.len() <= 3,
    ensures
        (exists|j: int| 0 <= j < 4 && encode_group(g)[j] == '=') <==> g.len() < 3,
{
    let b0 = g[0] as int;
    let b1 = if g.len() > 1 { g[1] as int } else { 0 };
    let b2 = if g.len() > 2 { g[2] as int } else { 0 };
    crate::alphabet::lemma_digit_roundtrip(b0 / 4);
    crate::alphabet::lemma_digit_roundtrip((b0 % 4) * 16 + b1 / 16);
    crate::alphabet::lemma_digit_roundtrip((b1 % 16) * 4 + b2 / 64);
    crate::alphabet::lemma_digit_roundtrip(b2 % 64);
    if g.len() < 3 {
        assert(encode_group(g)[3] == '=');
    }
}

/// Encoding one more group, read from the reader while the encoder was not
/// finished, keeps the encoder faithful.
proof fn lemma_faithful_group_push<T>(e: Base64Encoder<T>, g: Seq<u8>)
    requires
        e.faithful(),
        !e.finished,
        1 <= g.len() <= 3,
    ensures
        e.groups@.push(g).flatten_alt() == e.reader.log@ + g,
        forall|i: int| 0 <= i < e.groups@.push(g).len() - 1 ==> #[trigger] e.groups@.push(g)[i].len() == 3,
        forall|i: int| 0 <= i < e.groups@.push(g).len() ==> 1 <= #[trigger] e.groups@.push(g)[i].len() <= 3,
        ascii_bytes(encode_groups(e.groups@.push(g))) == e.produced@ + ascii_bytes(encode_group(g)),
{
    let gs = e.groups@;
    assert(gs.push(g).drop_last() =~= gs);
    assert(ascii_bytes(encode_groups(gs) + encode_group(g)) =~= ascii_bytes(encode_groups(gs))
        + ascii_bytes(encode_group(g)));
    assert forall|i: int| 0 <= i < gs.push(g).len() - 1 implies #[trigger] gs.push(g)[i].len() == 3 by {
        if i == gs.len() - 1 {
            assert(gs[i] == gs.last());
        }
    }
}

} // verus!
