//! Encoding what a reader yields, as a reader of the encoded text.
use std::io::{BufRead, Bytes, Read};
use vstd::prelude::*;

use crate::encode::{ascii_bytes, encode_chunk, encode_group, encode_groups, spec_encode};
use crate::laws::lemma_encode_groups_flatten;

verus! {

#[verifier::external_type_specification]
#[verifier::external_body]
pub struct ExIoError(std::io::Error);

#[verifier::external_type_specification]
#[verifier::external_body]
#[verifier::reject_recursive_types(R)]
pub struct ExBytes<R>(Bytes<R>);

/// The inner reader, as an iterator over its bytes, with a record of what it
/// gave so far.
#[verifier::reject_recursive_types(T)]
pub struct ByteSource<T> {
    bytes: Bytes<T>,
    /// Every byte the reader yielded, in order.
    log: Ghost<Seq<u8>>,
    /// Whether the last call that was no error reported the end of the
    /// reader (an error leaves it as it was).
    at_end: Ghost<bool>,
    /// Whether a byte ever came after the reader reported its end.
    resumed: Ghost<bool>,
    /// How many errors the reader reported.
    errors: Ghost<nat>,
}

/// `Read::bytes`: the reader as an iterator over its bytes, which has
/// yielded nothing yet.
#[verifier::external_body]
fn bytes_of<T: BufRead>(reader: T) -> (src: ByteSource<T>)
    ensures
        src.log@ == Seq::<u8>::empty(),
        !src.at_end@,
        !src.resumed@,
        src.errors@ == 0,
{
    ByteSource {
        bytes: reader.bytes(),
        log: Ghost(Seq::empty()),
        at_end: Ghost(false),
        resumed: Ghost(false),
        errors: Ghost(0),
    }
}

/// `Iterator::next` on `Bytes`: the next byte the reader yields, its end
/// (`None`) or an I/O error. Which of them comes depends on the reader alone
/// and is left unsaid; the contract records the outcome: a byte is appended
/// to the record of bytes yielded, an end is noted, an error is counted.
#[verifier::external_body]
fn next_byte<T: BufRead>(src: &mut ByteSource<T>) -> (r: Option<std::io::Result<u8>>)
    ensures
        final(src).resumed@ == (old(src).resumed@ || (old(src).at_end@ && r matches Some(Ok(_)))),
        match r {
            Some(Ok(b)) => final(src).log@ == old(src).log@.push(b) && !final(src).at_end@
                && final(src).errors@ == old(src).errors@,
            None => final(src).log@ == old(src).log@ && final(src).at_end@ && final(src).errors@
                == old(src).errors@,
            Some(Err(_)) => final(src).log@ == old(src).log@ && final(src).at_end@
                == old(src).at_end@ && final(src).errors@ == old(src).errors@ + 1,
        },
{
    src.bytes.next()
}

/// The encoder's progress: the encoded group not yet handed out, and what
/// was read and handed out so far.
#[derive(Clone, Copy)]
struct Progress {
    /// The four characters of the last group read, as bytes.
    chunk: [u8; 4],
    /// How many of them were handed out already.
    offset: usize,
    /// Every group of bytes read from the reader and encoded, in order.
    groups: Ghost<Seq<Seq<u8>>>,
    /// Every byte handed out, in order.
    produced: Ghost<Seq<u8>>,
}

impl Progress {
    spec fn pending(self) -> Seq<u8> {
        self.chunk@.subrange(self.offset as int, 4)
    }

    #[verifier::type_invariant]
    spec fn wf(self) -> bool {
        &&& self.offset <= 4
        &&& forall|i: int| 0 <= i < self.groups@.len() ==> 1 <= #[trigger] self.groups@[i].len() <= 3
        &&& self.produced@ + self.pending() == ascii_bytes(encode_groups(self.groups@))
    }
}

/// The groups encoded are the bytes the reader yielded, cut into groups of
/// three, of which only the last can be short, and then only once the reader
/// reported its end.
spec fn faithful_state<T>(p: Progress, src: ByteSource<T>) -> bool {
    &&& p.groups@.flatten_alt() == src.log@
    &&& forall|i: int| 0 <= i < p.groups@.len() ==> 1 <= #[trigger] p.groups@[i].len() <= 3
    &&& forall|i: int| 0 <= i < p.groups@.len() - 1 ==> #[trigger] p.groups@[i].len() == 3
    &&& p.groups@.len() > 0 && p.groups@.last().len() < 3 ==> src.at_end@
    &&& p.produced@ + p.pending() == ascii_bytes(encode_groups(p.groups@))
}

/// This is a Base 64 Encoder Reader
///
/// It takes a [reader](Read) and converts it's
/// output to Base 64.
#[verifier::reject_recursive_types(T)]
pub struct Base64Encoder<T> {
    progress: Progress,
    reader: ByteSource<T>,
}

impl<T> Base64Encoder<T> {
    /// The groups of bytes read from the reader and encoded so far.
    pub closed spec fn groups(self) -> Seq<Seq<u8>> {
        self.progress.groups@
    }

    /// The bytes handed out so far.
    pub closed spec fn produced(self) -> Seq<u8> {
        self.progress.produced@
    }

    /// The encoded bytes read but not handed out yet.
    pub closed spec fn pending(self) -> Seq<u8> {
        self.progress.pending()
    }

    /// Every byte the inner reader yielded so far, in order.
    pub closed spec fn log(self) -> Seq<u8> {
        self.reader.log@
    }

    /// Whether the inner reader reported its end at the last attempt to read it.
    pub closed spec fn reader_ended(self) -> bool {
        self.reader.at_end@
    }

    /// Whether the inner reader ever yielded a byte after reporting its end.
    pub closed spec fn resumed(self) -> bool {
        self.reader.resumed@
    }

    /// How many errors the inner reader reported.
    pub closed spec fn reader_errors(self) -> nat {
        self.reader.errors@
    }

    /// The groups encoded are exactly the bytes the inner reader yielded, in
    /// groups of three but for a last one cut short by the reader's end, and
    /// what was handed out followed by what is pending is their encoding.
    pub closed spec fn faithful(self) -> bool {
        faithful_state(self.progress, self.reader)
    }
}

/// When the encoder is faithful and holds nothing pending, what it handed out
/// is the encoding of every byte its reader yielded.
pub proof fn lemma_output_is_encoding<T>(e: Base64Encoder<T>)
    requires
        e.faithful(),
        e.pending().len() == 0,
    ensures
        e.produced() == ascii_bytes(spec_encode(e.log())),
{
    let groups = e.groups();
    groups.lemma_flatten_and_flatten_alt_are_equivalent();
    lemma_encode_groups_flatten(groups);
    assert(e.produced() + e.pending() =~= e.produced());
}

impl<T: BufRead> Base64Encoder<T> {
    /// Creates a [Base64Encoder] with a given [reader](Read)
    pub fn new(reader: T) -> (e: Self)
        ensures
            e.groups() == Seq::<Seq<u8>>::empty(),
            e.produced() == Seq::<u8>::empty(),
            e.pending() == Seq::<u8>::empty(),
            e.log() == Seq::<u8>::empty(),
            !e.reader_ended(),
            !e.resumed(),
            e.reader_errors() == 0,
            e.faithful(),
    {
        let chunk: [u8; 4] = [0; 4];
        assert(chunk@.subrange(4, 4) =~= Seq::<u8>::empty());
        assert(ascii_bytes(encode_groups(Seq::<Seq<u8>>::empty())) =~= Seq::<u8>::empty());
        let progress = Progress {
            chunk,
            offset: 4,
            groups: Ghost(Seq::empty()),
            produced: Ghost(Seq::empty()),
        };
        let e = Self { reader: bytes_of(reader), progress };
        assert(e.pending() =~= Seq::<u8>::empty());
        assert(e.produced() + e.pending() =~= Seq::<u8>::empty());
        assert(e.groups().flatten_alt() =~= Seq::<u8>::empty());
        e
    }

    /// Reads up to three bytes into `slice`: `Ok(Ok(()))` when three came,
    /// `Ok(Err(n))` when the reader ended after `n < 3` of them, an error when
    /// the reader reported one (the bytes read before it stay in `slice`).
    fn try_read_exact(&mut self, slice: &mut [u8]) -> (r: std::io::Result<Result<(), usize>>)
        requires
            old(slice)@.len() >= 3,
        ensures
            final(self).progress == old(self).progress,
            final(slice)@.len() == old(slice)@.len(),
            final(self).reader.resumed@ == (old(self).reader.resumed@ || (old(self).reader.at_end@
                && final(self).reader.log@.len() > old(self).reader.log@.len())),
            match r {
                Ok(Ok(())) => {
                    &&& final(self).reader.log@ == old(self).reader.log@ + final(slice)@.take(3)
                    &&& final(slice)@.skip(3) == old(slice)@.skip(3)
                    &&& !final(self).reader.at_end@
                    &&& final(self).reader.errors@ == old(self).reader.errors@
                },
                Ok(Err(n)) => {
                    &&& n < 3
                    &&& final(self).reader.log@ == old(self).reader.log@ + final(slice)@.take(
                        n as int,
                    )
                    &&& final(slice)@.skip(n as int) == old(slice)@.skip(n as int)
                    &&& final(self).reader.at_end@
                    &&& final(self).reader.errors@ == old(self).reader.errors@
                },
                Err(_) => exists|k: int|
                    0 <= k < 3 && final(self).reader.log@ == old(self).reader.log@
                        + (*final(slice))@.take(k) && (*final(slice))@.skip(k)
                        == (*old(slice))@.skip(k) && final(self).reader.errors@
                        == old(self).reader.errors@ + 1,
            },
    {
        let mut num: usize = 0;
        proof {
            assert(slice@.take(0) =~= Seq::<u8>::empty());
            assert(self.reader.log@ + Seq::<u8>::empty() =~= self.reader.log@);
        }
        while num < 3
            invariant
                num <= 3,
                slice@.len() == old(slice)@.len(),
                old(slice)@.len() >= 3,
                slice@.skip(num as int) == old(slice)@.skip(num as int),
                self.progress == old(self).progress,
                self.reader.log@ == old(self).reader.log@ + slice@.take(num as int),
                num > 0 ==> !self.reader.at_end@,
                num == 0 ==> self.reader.at_end@ == old(self).reader.at_end@,
                self.reader.resumed@ == (old(self).reader.resumed@ || (old(self).reader.at_end@
                    && num > 0)),
                self.reader.errors@ == old(self).reader.errors@,
            decreases 3 - num,
        {
            num += 1;
            let b = match next_byte(&mut self.reader) {
                None => return Ok(Err(num - 1)),
                Some(Ok(b)) => b,
                Some(Err(e)) => return Err(e),
            };
            let ghost pre = slice@;
            slice[num - 1] = b;
            proof {
                assert(slice@.skip(num as int) =~= pre.skip(num as int));
                assert(pre.skip(num as int) =~= pre.skip(num - 1).skip(1));
                assert(old(slice)@.skip(num as int) =~= old(slice)@.skip(num - 1).skip(1));
                assert(slice@.take(num as int) =~= pre.take(num - 1).push(b));
            }
        }
        Ok(Ok(()))
    }
}

/// Adding a group at the end adds its encoding at the end.
proof fn lemma_encode_groups_push(groups: Seq<Seq<u8>>, g: Seq<u8>)
    ensures
        ascii_bytes(encode_groups(groups.push(g))) == ascii_bytes(encode_groups(groups))
            + ascii_bytes(encode_group(g)),
{
    assert(groups.push(g).drop_last() =~= groups);
    assert(ascii_bytes(encode_groups(groups) + encode_group(g)) =~= ascii_bytes(
        encode_groups(groups),
    ) + ascii_bytes(encode_group(g)));
}

/// Adding a group to faithful groups keeps them faithful when the group is
/// what the reader just yielded, and is full unless the reader just ended.
proof fn lemma_faithful_push<T>(p: Progress, src: ByteSource<T>, g: Seq<u8>, new_src: ByteSource<T>)
    requires
        faithful_state(p, src),
        1 <= g.len() <= 3,
        new_src.log@ == src.log@ + g,
        g.len() < 3 ==> new_src.at_end@,
        !src.at_end@,
    ensures
        p.groups@.push(g).flatten_alt() == new_src.log@,
        forall|i: int| 0 <= i < p.groups@.push(g).len() - 1 ==> #[trigger] p.groups@.push(g)[i].len() == 3,
        forall|i: int| 0 <= i < p.groups@.push(g).len() ==> 1 <= #[trigger] p.groups@.push(g)[i].len() <= 3,
        p.groups@.push(g).last().len() < 3 ==> new_src.at_end@,
{
    assert(p.groups@.push(g).drop_last() =~= p.groups@);
    assert forall|i: int| 0 <= i < p.groups@.push(g).len() - 1 implies #[trigger] p.groups@.push(g)[i].len() == 3 by {
        if i < p.groups@.len() - 1 {
        } else {
            assert(p.groups@[i] == p.groups@.last());
        }
    }
}

impl<T: BufRead> Read for Base64Encoder<T> {
    /// Read the next chunk of data into buf.
    ///
    /// When the reader has finished, returns 0.
    fn read(&mut self, buf: &mut [u8]) -> (r: std::io::Result<usize>)
        ensures
            final(buf)@.len() == old(buf)@.len(),
            old(self).groups().len() <= final(self).groups().len(),
            final(self).groups().subrange(0, old(self).groups().len() as int) == old(self).groups(),
            forall|i: int|
                0 <= i < final(self).groups().len() ==> 1 <= #[trigger] final(self).groups()[i].len()
                    <= 3,
            final(self).produced() + final(self).pending() == ascii_bytes(
                encode_groups(final(self).groups()),
            ),
            old(self).resumed() ==> final(self).resumed(),
            old(self).faithful() && r is Ok && !final(self).resumed() ==> final(self).faithful(),
            old(buf)@.len() == 0 ==> *final(self) == *old(self),
            old(buf)@.len() <= old(self).pending().len() ==> (r matches Ok(n) && n
                == (*old(buf))@.len()),
            match r {
                Ok(n) => {
                    &&& n <= old(buf)@.len()
                    &&& final(self).produced() == old(self).produced() + final(buf)@.take(n as int)
                    &&& final(buf)@.skip(n as int) == old(buf)@.skip(n as int)
                    &&& n < old(buf)@.len() ==> final(self).pending().len() == 0
                        && final(self).reader_ended()
                    &&& final(self).reader_errors() == old(self).reader_errors()
                },
                Err(_) => {
                    &&& final(self).reader_errors() > old(self).reader_errors()
                    &&& exists|k: int|
                        0 <= k <= old(buf)@.len() && final(self).produced() == old(self).produced()
                            + final(buf)@.take(k) && final(buf)@.skip(k) == old(buf)@.skip(k)
                },
            },
    {
        let mut p = self.progress;
        proof {
            use_type_invariant(&p);
            assert(old(buf)@.take(0) =~= Seq::<u8>::empty());
            assert(p.produced@ + Seq::<u8>::empty() =~= p.produced@);
            assert(p.groups@.subrange(0, p.groups@.len() as int) =~= p.groups@);
        }
        let len = buf.len();
        let mut count: usize = 0;
        'main: while len - count > 0
            invariant
                len == old(buf)@.len(),
                count <= len,
                buf@.len() == len,
                p.produced@ == old(self).produced() + buf@.take(count as int),
                buf@.skip(count as int) == old(buf)@.skip(count as int),
                old(self).groups().len() <= p.groups@.len(),
                p.groups@.subrange(0, old(self).groups().len() as int) == old(self).groups(),
                self.progress == old(self).progress,
                old(self).reader.resumed@ ==> self.reader.resumed@,
                old(self).faithful() && !self.reader.resumed@ ==> faithful_state(p, self.reader),
                old(buf)@.len() <= old(self).pending().len() ==> count + (4 - p.offset) >= len,
                len == 0 ==> p == old(self).progress && self.reader == old(self).reader,
                self.reader.errors@ == old(self).reader.errors@,
            ensures
                count <= len,
                buf@.len() == len,
                p.produced@ == old(self).produced() + buf@.take(count as int),
                buf@.skip(count as int) == old(buf)@.skip(count as int),
                old(self).groups().len() <= p.groups@.len(),
                p.groups@.subrange(0, old(self).groups().len() as int) == old(self).groups(),
                count < len ==> p.pending().len() == 0 && self.reader.at_end@,
                old(self).reader.resumed@ ==> self.reader.resumed@,
                old(self).faithful() && !self.reader.resumed@ ==> faithful_state(p, self.reader),
                old(buf)@.len() <= old(self).pending().len() ==> count == len,
                len == 0 ==> p == old(self).progress && self.reader == old(self).reader,
                self.reader.errors@ == old(self).reader.errors@,
            decreases len - count,
        {
            proof {
                use_type_invariant(&p);
            }
            if p.offset == 4 {
                let mut slice = [0u8; 3];
                let ghost src0 = self.reader;
                let n = match self.try_read_exact(&mut slice) {
                    Ok(Ok(())) => 3,
                    Ok(Err(0)) => {
                        break 'main;
                    },
                    Ok(Err(n)) => n,
                    Err(e) => {
                        self.progress = p;
                        return Err(e);
                    },
                };
                let enc = encode_chunk(&slice[0..n]);
                let mut chunk = [0u8; 4];
                let mut i: usize = 0;
                while i < 4
                    invariant
                        i <= 4,
                        forall|j: int| 0 <= j < i ==> chunk@[j] == (enc@[j] as u8),
                    decreases 4 - i,
                {
                    chunk[i] = enc[i] as u8;
                    i += 1;
                }
                let ghost g = slice@.subrange(0, n as int);
                proof {
                    lemma_encode_groups_push(p.groups@, g);
                    assert(chunk@.subrange(0, 4) =~= ascii_bytes(encode_group(g)));
                    assert(p.pending() =~= Seq::<u8>::empty());
                    assert(p.produced@ + Seq::<u8>::empty() =~= p.produced@);
                    assert(p.groups@.push(g).subrange(0, old(self).groups().len() as int)
                        =~= p.groups@.subrange(0, old(self).groups().len() as int));
                    assert(slice@.take(n as int) =~= g);
                    if old(self).faithful() && !self.reader.resumed@ {
                        assert(!src0.at_end@);
                        lemma_faithful_push(p, src0, g, self.reader);
                    }
                }
                p = Progress {
                    chunk,
                    offset: 0,
                    groups: Ghost(p.groups@.push(g)),
                    produced: p.produced,
                };
                proof {
                    use_type_invariant(&p);
                }
            }
            let ghost count0 = count;
            proof {
                use_type_invariant(&p);
            }
            while p.offset < 4
                invariant
                    count0 <= count,
                    count == count0 ==> p.offset < 4,
                    len == old(buf)@.len(),
                    count < len,
                    buf@.len() == len,
                    p.produced@ == old(self).produced() + buf@.take(count as int),
                    buf@.skip(count as int) == old(buf)@.skip(count as int),
                    old(self).groups().len() <= p.groups@.len(),
                    p.groups@.subrange(0, old(self).groups().len() as int) == old(self).groups(),
                    self.progress == old(self).progress,
                    old(self).reader.resumed@ ==> self.reader.resumed@,
                    old(self).faithful() && !self.reader.resumed@ ==> faithful_state(p, self.reader),
                    old(buf)@.len() <= old(self).pending().len() ==> count + (4 - p.offset) >= len,
                    self.reader.errors@ == old(self).reader.errors@,
                decreases 4 - p.offset,
            {
                proof {
                    use_type_invariant(&p);
                }
                let b = p.chunk[p.offset];
                let ghost pre = buf@;
                buf[count] = b;
                proof {
                    assert(buf@.skip(count + 1) =~= pre.skip(count + 1));
                    assert(pre.skip(count + 1) =~= pre.skip(count as int).skip(1));
                    assert(old(buf)@.skip(count + 1) =~= old(buf)@.skip(count as int).skip(1));
                    assert(p.produced@.push(b) + p.chunk@.subrange(p.offset + 1, 4)
                        =~= p.produced@ + p.chunk@.subrange(p.offset as int, 4));
                    assert(buf@.take(count as int) =~= pre.take(count as int));
                    assert(buf@.take(count + 1) =~= buf@.take(count as int).push(b));
                    assert(old(self).produced() + buf@.take(count + 1) =~= (old(self).produced()
                        + buf@.take(count as int)).push(b));
                    assert(buf@.skip(count + 1) =~= old(buf)@.skip(count + 1));
                }
                p = Progress { offset: p.offset + 1, produced: Ghost(p.produced@.push(b)), ..p };
                proof {
                    use_type_invariant(&p);
                }
                count += 1;
                if count == len {
                    break 'main;
                }
            }
        }
        self.progress = p;
        proof {
            use_type_invariant(&self.progress);
        }
        Ok(count)
    }
}

} // verus!
