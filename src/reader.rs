//! Streaming UTF-8 decoding over a byte source, through a fixed buffer.
use vstd::prelude::*;
use vstd::string::StringSliceAdditionalSpecFns;
use vstd::utf8::*;
use crate::scanner_lite::{first_char, is_char_prefix_len, is_suffix_of, skip_prefix_bytes};
use crate::utf8::{
    is_longest_valid_prefix, lemma_boundary_concat, lemma_valid_prefix_boundary, lemma_encode_concat, lemma_first_width,
    leading_byte_width, valid_prefix_len,
};

verus! {

broadcast use vstd::string::group_string_axioms;

/// Why a byte source could not fill a buffer.
#[derive(Debug, PartialEq, Eq)]
pub enum FillError<E> {
    /// No bytes were transferred; the same fill may simply be tried again.
    Interrupted,
    /// Any other failure, handed on to the caller as it is.
    Other(E),
}

/// Why a reader could not produce the next chunk or character.
#[derive(Debug, PartialEq, Eq)]
pub enum ReadError<E> {
    /// The buffered bytes cannot begin with any valid UTF-8 codepoint.
    InvalidData,
    /// The byte source failed.
    Source(E),
}

/// What the reader does after one fill.
enum FillStep<E> {
    /// Fill again.
    More,
    /// The source is exhausted: stop filling.
    Ended,
    /// The source failed with this error.
    Failed(E),
}

/// Whether `a` is a prefix of `b`.
pub open spec fn is_prefix(a: Seq<u8>, b: Seq<u8>) -> bool {
    a.len() <= b.len() && b.subrange(0, a.len() as int) == a
}

/// The number of bytes a fill that writes as much as fits hands out into
/// `room` bytes when `left` bytes remain.
pub open spec fn fill_size(room: nat, left: int) -> int {
    if room < left {
        room as int
    } else {
        left
    }
}

/// Something that fills byte buffers: a file, a socket, an in-memory array.
///
/// A source may expose a model of itself (`is_modeled`): the whole content
/// it hands out, the part delivered so far, whether it never fails and
/// whether each fill writes as much as fits. A source that keeps the
/// defaults promises only the facts on lengths and interruptions.
pub trait ByteSource {
    type Error;

    /// Whether the spec functions below describe this source.
    open spec fn is_modeled(&self) -> bool {
        false
    }

    /// All the bytes the source holds, delivered or not.
    open spec fn content(&self) -> Seq<u8> {
        Seq::empty()
    }

    /// The bytes handed out so far, in order: a prefix of `content`.
    open spec fn delivered(&self) -> Seq<u8> {
        Seq::empty()
    }

    /// Whether every fill succeeds.
    open spec fn never_fails(&self) -> bool {
        false
    }

    /// Whether every fill writes as many of the remaining bytes as fit.
    open spec fn fills_greedily(&self) -> bool {
        false
    }

    /// A bound on the interruptions the source may still report in a row.
    /// The default, none, suits a source that never reports one.
    open spec fn interruptions_left(&self) -> nat {
        0
    }

    /// Writes up to `buf.len()` bytes at the front of `buf`, which is never
    /// empty, and returns how many; 0 means that the source is exhausted.
    fn fill(&mut self, buf: &mut [u8]) -> (r: Result<usize, FillError<Self::Error>>)
        requires
            old(buf)@.len() > 0,
        ensures
            final(buf)@.len() == old(buf)@.len(),
            r matches Ok(n) ==> n <= old(buf)@.len(),
            r matches Err(FillError::Interrupted) ==> final(self).interruptions_left()
                < old(self).interruptions_left(),
            final(self).is_modeled() == old(self).is_modeled(),
            final(self).is_modeled() ==> {
                &&& final(self).content() == old(self).content()
                &&& final(self).never_fails() == old(self).never_fails()
                &&& final(self).fills_greedily() == old(self).fills_greedily()
                &&& final(self).delivered().len() <= final(self).content().len()
                &&& final(self).delivered() == final(self).content().subrange(
                    0,
                    final(self).delivered().len() as int,
                )
                &&& (old(self).never_fails() ==> r is Ok)
                &&& (r matches Ok(n) ==> final(self).delivered() == old(self).delivered()
                    + final(buf)@.subrange(0, n as int))
                &&& (r matches Ok(0) ==> final(self).delivered() == final(self).content())
                &&& (r is Err ==> final(self).delivered() == old(self).delivered())
                &&& (old(self).fills_greedily() ==> (r matches Ok(n) && n == fill_size(
                    old(buf)@.len(),
                    old(self).content().len() - old(self).delivered().len(),
                )))
            },
    ;
}

/// A byte source over bytes held in memory. Each fill hands out as many of
/// the remaining bytes as fit, and never fails.
pub struct BytesSource {
    data: Vec<u8>,
    pos: usize,
}

impl BytesSource {
    #[verifier::type_invariant]
    closed spec fn inv(&self) -> bool {
        self.pos <= self.data@.len()
    }

    closed spec fn sent(&self) -> int {
        if self.pos <= self.data@.len() {
            self.pos as int
        } else {
            self.data@.len() as int
        }
    }

    /// Creates a source that hands out `data`.
    pub fn new(data: Vec<u8>) -> (r: Self)
        ensures
            r.is_modeled(),
            r.never_fails(),
            r.fills_greedily(),
            r.content() == data@,
            r.delivered() == Seq::<u8>::empty(),
            is_prefix(r.delivered(), r.content()),
    {
        let r = BytesSource { data, pos: 0 };
        proof {
            assert(r.data@.subrange(0, 0) =~= Seq::<u8>::empty());
        }
        r
    }
}

impl ByteSource for BytesSource {
    type Error = ();

    open spec fn is_modeled(&self) -> bool {
        true
    }

    closed spec fn content(&self) -> Seq<u8> {
        self.data@
    }

    closed spec fn delivered(&self) -> Seq<u8> {
        self.data@.subrange(0, self.sent())
    }

    open spec fn never_fails(&self) -> bool {
        true
    }

    open spec fn fills_greedily(&self) -> bool {
        true
    }

    fn fill(&mut self, buf: &mut [u8]) -> (r: Result<usize, FillError<()>>) {
        proof {
            use_type_invariant(&*self);
        }
        let total = self.data.len();
        let left = total - self.pos;
        let n = if buf.len() < left {
            buf.len()
        } else {
            left
        };
        let mut i: usize = 0;
        while i < n
            invariant
                n <= buf@.len(),
                n <= self.data@.len() - self.pos,
                total == self.data@.len(),
                self.pos <= self.data@.len(),
                buf@.len() == old(buf)@.len(),
                i <= n,
                forall|j: int| 0 <= j < i ==> buf@[j] == self.data@[self.pos + j],
            decreases n - i,
        {
            buf[i] = self.data[self.pos + i];
            i = i + 1;
        }
        proof {
            assert(self.data@.subrange(0, self.pos + n) =~= self.data@.subrange(0, self.pos as int)
                + buf@.subrange(0, n as int));
            assert(self.data@.subrange(0, self.data@.len() as int) =~= self.data@);
        }
        self.pos = self.pos + n;
        Ok(n)
    }
}

/// Once a reader over a modelled source has reported that no data is left,
/// the chunks it returned, one after another, are exactly the content of the
/// source that had not been delivered before the reader took it.
pub proof fn lemma_chunks_reproduce_input<Inner: ByteSource>(r: Utf8ChunkReader<Inner>)
    requires
        r.wf(),
        r.source().is_modeled(),
        r.data().len() == 0,
        r.ended(),
    ensures
        r.base() + r.emitted() == r.source().content(),
{
    assert(r.emitted@ + r.pending() =~= r.emitted@);
}

/// Once a character reader over a modelled source reports that no data is
/// left, the characters it returned encode exactly the content not delivered
/// before the reader took the source; from a fresh source, they are the
/// decoded content.
pub proof fn lemma_chars_reproduce_input<Inner: ByteSource>(r: Utf8CharReader<Inner>)
    requires
        r.wf(),
        r.chunk_reader().source().is_modeled(),
        r.chunk_reader().data().len() == 0,
        r.chunk_reader().ended(),
        encode_utf8(r.returned()) == r.chunk_reader().emitted(),
    ensures
        r.chunk_reader().base() + encode_utf8(r.returned()) == r.chunk_reader().source().content(),
        r.chunk_reader().base().len() == 0 ==> r.returned() == decode_utf8(
            r.chunk_reader().source().content(),
        ),
{
    lemma_chunks_reproduce_input(r.reader);
    encode_utf8_decode_utf8(r.returned@);
    if r.reader.base@.len() == 0 {
        assert(r.reader.base@ + encode_utf8(r.returned@) =~= encode_utf8(r.returned@));
    }
}

/// With a buffer of at least four bytes over a modelled source whose content
/// is valid UTF-8, the reader never reaches the state that it reports as
/// invalid data: once the buffer holds bytes and is full, or the source has
/// ended, a non-empty prefix of them is valid.
pub proof fn lemma_valid_input_never_rejected<Inner: ByteSource>(r: Utf8ChunkReader<Inner>)
    requires
        r.wf(),
        r.source().is_modeled(),
        r.base().len() == 0,
        r.capacity() >= 4,
        valid_utf8(r.source().content()),
        r.chunk_bytes().len() == 0,
        r.data().len() > 0,
        r.data().len() == r.capacity() || r.ended(),
    ensures
        !is_longest_valid_prefix(r.data(), 0),
{
    let c = r.inner.content();
    assert(r.base@ + r.received@ =~= r.received@);
    let rest = c.subrange(r.received@.len() as int, c.len() as int);
    assert(r.received@ + rest =~= c);
    if r.ended() {
        assert(rest.len() == 0);
    }
    lemma_valid_continuation(r, rest);
}

proof fn lemma_valid_continuation<Inner: ByteSource>(r: Utf8ChunkReader<Inner>, rest: Seq<u8>)
    requires
        r.wf(),
        r.capacity() >= 4,
        valid_utf8(r.received() + rest),
        r.ended() ==> rest.len() == 0,
        r.chunk_bytes().len() == 0,
        r.data().len() > 0,
        r.data().len() == r.capacity() || r.ended(),
    ensures
        !is_longest_valid_prefix(r.data(), 0),
{
    let e = r.emitted@;
    let p = r.data();
    assert(r.pending() =~= p);
    let b = r.received() + rest;
    assert(b.subrange(0, e.len() as int) =~= e);
    lemma_valid_prefix_boundary(b, e.len() as int);
    valid_utf8_split(b, e.len() as int);
    let x = b.subrange(e.len() as int, b.len() as int);
    assert(x =~= p + rest);
    let l = length_of_first_scalar(x);
    assert(x[0] == p[0]);
    if r.ended() {
        assert(x =~= p);
    }
    assert(l <= p.len());
    reveal_with_fuel(is_char_boundary, 2);
    assert(is_char_boundary(pop_first_scalar(x), 0));
    assert(is_char_boundary(x, l));
    valid_utf8_split(x, l);
    assert(p.subrange(0, l) =~= x.subrange(0, l));
}

/// Reads chunks of valid UTF-8 from a byte source through a buffer of fixed
/// capacity.
///
/// A codepoint that a fill splits stays at the end of the buffer and is
/// completed by the next fill.
pub struct Utf8ChunkReader<Inner> {
    inner: Inner,
    buf: Vec<u8>,
    /// number of bytes in `buf`
    len: usize,
    /// number of bytes at the front of `buf` that make up whole, valid
    /// codepoints
    len_utf8: usize,
    /// the bytes the source had delivered before this reader took it
    base: Ghost<Seq<u8>>,
    /// every byte the source has delivered to this reader, in order
    received: Ghost<Seq<u8>>,
    /// whether the last fill of the last read reported the source's end
    ended: Ghost<bool>,
    /// every chunk returned so far, one after the other
    emitted: Ghost<Seq<u8>>,
}

impl<Inner: ByteSource> Utf8ChunkReader<Inner> {
    /// The reader's own consistency: the chunks returned so far, followed by
    /// the bytes held back, are what the source delivered to the reader.
    pub closed spec fn wf(&self) -> bool {
        &&& self.len_utf8 <= self.len <= self.buf@.len()
        &&& valid_utf8(self.buf@.subrange(0, self.len_utf8 as int))
        &&& valid_utf8(self.emitted@)
        &&& self.emitted@ + self.buf@.subrange(self.len_utf8 as int, self.len as int)
            == self.received@
        &&& self.inner.is_modeled() ==> self.inner.delivered() == self.base@ + self.received@
        &&& self.inner.is_modeled() ==> is_prefix(self.inner.delivered(), self.inner.content())
        &&& self.ended@ ==> self.inner.is_modeled() ==> self.inner.delivered() == self.inner.content()
    }

    /// The bytes the source had delivered before the reader took it.
    pub closed spec fn base(&self) -> Seq<u8> {
        self.base@
    }

    /// Every byte the source has delivered to this reader, in order.
    pub closed spec fn received(&self) -> Seq<u8> {
        self.received@
    }

    /// Whether the last fill of the last read reported the source's end.
    pub closed spec fn ended(&self) -> bool {
        self.ended@
    }

    /// The size of the buffer.
    pub closed spec fn capacity(&self) -> nat {
        self.buf@.len()
    }

    /// The bytes in the buffer.
    pub closed spec fn data(&self) -> Seq<u8> {
        self.buf@.subrange(0, self.len as int)
    }

    /// The bytes of the current chunk.
    pub closed spec fn chunk_bytes(&self) -> Seq<u8> {
        self.buf@.subrange(0, self.len_utf8 as int)
    }

    /// The bytes after the current chunk, held back for the next one.
    pub closed spec fn pending(&self) -> Seq<u8> {
        self.buf@.subrange(self.len_utf8 as int, self.len as int)
    }

    /// All the chunks returned so far, concatenated.
    pub closed spec fn emitted(&self) -> Seq<u8> {
        self.emitted@
    }

    /// The byte source.
    pub closed spec fn source(&self) -> Inner {
        self.inner
    }

    /// Creates a reader that fills `buf` from `inner`.
    pub fn new(buf: Vec<u8>, inner: Inner) -> (r: Self)
        requires
            inner.is_modeled() ==> is_prefix(inner.delivered(), inner.content()),
        ensures
            r.wf(),
            r.capacity() == buf@.len(),
            r.data() == Seq::<u8>::empty(),
            r.chunk_bytes() == Seq::<u8>::empty(),
            r.pending() == Seq::<u8>::empty(),
            r.emitted() == Seq::<u8>::empty(),
            r.received() == Seq::<u8>::empty(),
            r.base() == inner.delivered(),
            !r.ended(),
            r.source() == inner,
    {
        let ghost d = inner.delivered();
        let r = Utf8ChunkReader {
            inner,
            buf,
            len: 0,
            len_utf8: 0,
            base: Ghost(d),
            received: Ghost(Seq::empty()),
            ended: Ghost(false),
            emitted: Ghost(Seq::empty()),
        };
        proof {
            assert(r.buf@.subrange(0, 0) =~= Seq::<u8>::empty());
            assert(r.emitted@ + r.buf@.subrange(0, 0) =~= Seq::<u8>::empty());
            assert(d + Seq::<u8>::empty() =~= d);
        }
        r
    }

    /// What a call of `read_chunk` does, from state `before` to state
    /// `after`, returning `r`. `fresh` below is what the source delivered
    /// during the call.
    pub open spec fn read_chunk_post(
        before: Self,
        after: Self,
        r: Result<bool, ReadError<Inner::Error>>,
    ) -> bool {
        let fresh = after.received().subrange(
            before.received().len() as int,
            after.received().len() as int,
        );
        &&& after.wf()
        &&& after.capacity() == before.capacity()
        &&& after.base() == before.base()
        &&& after.source().is_modeled() == before.source().is_modeled()
        &&& before.received().len() <= after.received().len()
        &&& after.received().subrange(0, before.received().len() as int) == before.received()
        &&& after.source().is_modeled() ==> after.source().delivered() == before.source().delivered()
            + fresh
        &&& after.source().is_modeled() ==> {
            &&& after.source().content() == before.source().content()
            &&& is_prefix(after.source().delivered(), after.source().content())
            &&& after.source().never_fails() == before.source().never_fails()
            &&& after.source().fills_greedily() == before.source().fills_greedily()
        }
        &&& after.ended() ==> after.source().is_modeled() ==> after.source().delivered()
            == after.source().content()
        &&& (r matches Err(ReadError::Source(_))) ==> !(before.source().is_modeled()
            && before.source().never_fails())
        &&& before.pending().len() == before.capacity() > 0 ==> (r matches Ok(true)) || (
        r matches Err(ReadError::InvalidData))
        &&& after.data() == before.pending() + fresh
        &&& after.data().len() <= after.capacity()
        &&& after.chunk_bytes() == after.data().subrange(0, after.chunk_bytes().len() as int)
        &&& after.capacity() == 0 ==> (r matches Ok(false))
        &&& match r {
            Ok(true) => {
                &&& after.chunk_bytes().len() > 0
                &&& is_longest_valid_prefix(after.data(), after.chunk_bytes().len() as int)
                &&& after.emitted() == before.emitted() + after.chunk_bytes()
                &&& (after.data().len() == after.capacity() || after.ended())
            },
            Ok(false) => {
                &&& before.pending().len() == 0
                &&& after.data().len() == 0
                &&& after.chunk_bytes().len() == 0
                &&& after.emitted() == before.emitted()
                &&& (after.capacity() > 0 ==> after.ended())
            },
            Err(ReadError::InvalidData) => {
                &&& after.data().len() > 0
                &&& is_longest_valid_prefix(after.data(), 0)
                &&& after.chunk_bytes().len() == 0
                &&& after.emitted() == before.emitted()
                &&& (after.data().len() == after.capacity() || after.ended())
            },
            Err(ReadError::Source(_)) => {
                &&& after.chunk_bytes().len() == 0
                &&& after.emitted() == before.emitted()
            },
        }
    }

    /// Takes in the result of one fill of `buf[len..]`: `Ok(0)` ends the
    /// filling, `Ok(n)` counts the `n` bytes written, an interruption counts
    /// nothing and asks for the same fill again, and any other failure is
    /// handed back as it is.
    fn absorb_fill(&mut self, filled: Result<usize, FillError<Inner::Error>>) -> (r: FillStep<Inner::Error>)
        requires
            old(self).len < old(self).buf@.len() <= usize::MAX,
            filled matches Ok(n) ==> old(self).len + n <= old(self).buf@.len(),
        ensures
            final(self).buf == old(self).buf,
            final(self).inner == old(self).inner,
            final(self).len_utf8 == old(self).len_utf8,
            final(self).emitted == old(self).emitted,
            final(self).base == old(self).base,
            match filled {
                Ok(n) => if n == 0 {
                    &&& r == FillStep::<Inner::Error>::Ended
                    &&& final(self).len == old(self).len
                    &&& final(self).received == old(self).received
                    &&& final(self).ended@
                } else {
                    &&& r == FillStep::<Inner::Error>::More
                    &&& final(self).len == old(self).len + n
                    &&& final(self).received@ == old(self).received@ + old(self).buf@.subrange(
                        old(self).len as int,
                        old(self).len + n,
                    )
                    &&& final(self).ended == old(self).ended
                },
                Err(FillError::Interrupted) => {
                    &&& r == FillStep::<Inner::Error>::More
                    &&& final(self).len == old(self).len
                    &&& final(self).received == old(self).received
                    &&& final(self).ended == old(self).ended
                },
                Err(FillError::Other(e)) => {
                    &&& r == FillStep::Failed(e)
                    &&& final(self).len == old(self).len
                    &&& final(self).received == old(self).received
                    &&& final(self).ended == old(self).ended
                },
            },
    {
        match filled {
            Ok(0) => {
                proof {
                    self.ended = Ghost(true);
                }
                FillStep::Ended
            },
            Ok(n) => {
                proof {
                    self.received = Ghost(
                        self.received@ + self.buf@.subrange(self.len as int, self.len + n),
                    );
                }
                self.len = self.len + n;
                FillStep::More
            },
            Err(FillError::Interrupted) => FillStep::More,
            Err(FillError::Other(e)) => FillStep::Failed(e),
        }
    }

    /// Gives back the buffer and the byte source.
    pub fn into_parts(self) -> (r: (Vec<u8>, Inner))
        ensures
            r.0@.len() == self.capacity(),
            r.1 == self.source(),
    {
        (self.buf, self.inner)
    }

    /// Gets the current chunk: `""` before the first chunk and after the end
    /// or an error, else a non-empty string.
    pub fn chunk(&self) -> (r: &str)
        requires
            self.wf(),
        ensures
            r.spec_bytes() == self.chunk_bytes(),
    {
        let (front, _) = self.buf.as_slice().split_at(self.len_utf8);
        match core::str::from_utf8(front) {
            Ok(s) => s,
            Err(_) => "",
        }
    }

    /// Moves the held-back bytes to the front of the buffer.
    fn shift_pending(&mut self)
        requires
            old(self).wf(),
        ensures
            final(self).len == old(self).len - old(self).len_utf8,
            final(self).len_utf8 == 0,
            final(self).buf@.len() == old(self).buf@.len(),
            final(self).data() == old(self).pending(),
            final(self).emitted == old(self).emitted,
            final(self).received == old(self).received,
            final(self).ended == old(self).ended,
            final(self).base == old(self).base,
            final(self).inner == old(self).inner,
    {
        let start = self.len_utf8;
        let tail_len = self.len - self.len_utf8;
        let ghost b0 = self.buf@;
        let mut i: usize = 0;
        while i < tail_len
            invariant
                start + tail_len <= self.buf@.len(),
                start + tail_len == old(self).len,
                self.buf@.len() == b0.len(),
                self.emitted == old(self).emitted,
                self.received == old(self).received,
                self.ended == old(self).ended,
                self.base == old(self).base,
                self.inner == old(self).inner,
                i <= tail_len,
                forall|j: int| 0 <= j < i ==> self.buf@[j] == b0[start + j],
                forall|j: int| i <= j < self.buf@.len() ==> self.buf@[j] == b0[j],
            decreases tail_len - i,
        {
            let b = self.buf[start + i];
            self.buf.set(i, b);
            i = i + 1;
        }
        self.len = tail_len;
        self.len_utf8 = 0;
        proof {
            assert(self.data() =~= b0.subrange(start as int, start + tail_len));
        }
    }

    /// Reads the next chunk of valid UTF-8; returns `Ok(false)` once the
    /// source has no more data.
    ///
    /// The bytes held back by the last call move to the front of the buffer;
    /// the source then fills the rest of it, one `fill` of `buf[len..]` after
    /// another, until the buffer is full or the source reports its end. The
    /// chunk is the longest valid UTF-8 prefix of what the buffer holds.
    pub fn read_chunk(&mut self) -> (r: Result<bool, ReadError<Inner::Error>>)
        requires
            old(self).wf(),
        ensures
            Self::read_chunk_post(*old(self), *final(self), r),
    {
        let ghost e0 = self.emitted@;
        let ghost pend0 = self.pending();
        let ghost r0 = self.received@;
        self.shift_pending();
        proof {
            self.ended = Ghost(false);
            assert(self.buf@.subrange(0, 0) =~= Seq::<u8>::empty());
            assert(self.pending() =~= self.data());
            assert(self.data().subrange(0, 0) =~= Seq::<u8>::empty());
            assert(r0.subrange(0, r0.len() as int) =~= r0);
            assert(r0.subrange(r0.len() as int, r0.len() as int) =~= Seq::<u8>::empty());
            assert(pend0 + Seq::<u8>::empty() =~= pend0);
        }
        let cap = self.buf.len();
        let mut at_end = false;
        while self.len < cap && !at_end
            invariant
                cap == self.buf@.len(),
                cap == old(self).buf@.len(),
                e0 == old(self).emitted@,
                pend0 == old(self).pending(),
                r0 == old(self).received@,
                self.base == old(self).base,
                self.inner.is_modeled() == old(self).inner.is_modeled(),
                self.len_utf8 == 0,
                self.len <= cap,
                self.emitted@ == e0,
                valid_utf8(e0),
                r0.len() <= self.received@.len(),
                self.received@.subrange(0, r0.len() as int) == r0,
                e0 + self.data() == self.received@,
                self.data() == pend0 + self.received@.subrange(r0.len() as int, self.received@.len() as int),
                self.inner.is_modeled() ==> self.inner.delivered() == self.base@ + self.received@,
                self.inner.is_modeled() ==> old(self).inner.delivered() == self.base@ + r0,
                self.inner.is_modeled() ==> is_prefix(self.inner.delivered(), self.inner.content()),
                self.inner.is_modeled() ==> {
                    &&& self.inner.content() == old(self).inner.content()
                    &&& self.inner.never_fails() == old(self).inner.never_fails()
                    &&& self.inner.fills_greedily() == old(self).inner.fills_greedily()
                },
                pend0.len() <= self.len,
                self.ended@ ==> self.inner.is_modeled() ==> self.inner.delivered() == self.inner.content(),
                at_end == self.ended@,
            decreases if at_end { 0int } else { 1int }, cap - self.len, self.inner.interruptions_left(),
        {
            let len = self.len;
            let ghost b0 = self.buf@;
            let ghost rec0 = self.received@;
            let filled = {
                let (_front, room) = self.buf.as_mut_slice().split_at_mut(len);
                self.inner.fill(room)
            };
            proof {
                assert(self.buf@.subrange(0, len as int) =~= b0.subrange(0, len as int));
            }
            let step = self.absorb_fill(filled);
            proof {
                assert(self.data() =~= b0.subrange(0, len as int) + self.received@.subrange(
                    rec0.len() as int,
                    self.received@.len() as int,
                ));
                assert(self.received@.subrange(0, r0.len() as int) =~= rec0.subrange(0, r0.len() as int));
                assert(self.received@.subrange(r0.len() as int, self.received@.len() as int)
                    =~= rec0.subrange(r0.len() as int, rec0.len() as int) + self.received@.subrange(
                    rec0.len() as int,
                    self.received@.len() as int,
                ));
                assert(e0 + self.data() =~= self.received@);
                assert(self.data() =~= pend0 + self.received@.subrange(r0.len() as int, self.received@.len() as int));
                assert(self.base@ + self.received@ =~= self.base@ + rec0 + self.received@.subrange(
                    rec0.len() as int,
                    self.received@.len() as int,
                ));
            }
            match step {
                FillStep::More => {},
                FillStep::Ended => {
                    at_end = true;
                },
                FillStep::Failed(e) => {
                    proof {
                        assert(self.buf@.subrange(0, 0) =~= Seq::<u8>::empty());
                        assert(self.pending() =~= self.data());
                        assert(self.data().subrange(0, 0) =~= Seq::<u8>::empty());
                        assert(self.base@ + self.received@ =~= self.base@ + r0 + self.received@.subrange(
                            r0.len() as int,
                            self.received@.len() as int,
                        ));
                    }
                    return Err(ReadError::Source(e));
                },
            }
        }
        proof {
            assert(self.buf@.subrange(0, 0) =~= Seq::<u8>::empty());
            assert(self.pending() =~= self.data());
            assert(self.data().subrange(0, 0) =~= Seq::<u8>::empty());
            assert(self.base@ + self.received@ =~= self.base@ + r0 + self.received@.subrange(
                r0.len() as int,
                self.received@.len() as int,
            ));
        }
        if self.len == 0 {
            proof {
                assert(e0 + self.data() =~= e0);
            }
            return Ok(false);
        }
        let (filled, _) = self.buf.as_slice().split_at(self.len);
        let valid = valid_prefix_len(filled);
        if valid == 0 {
            return Err(ReadError::InvalidData);
        }
        let ghost d = self.data();
        self.len_utf8 = valid;
        proof {
            assert(self.chunk_bytes() =~= d.subrange(0, valid as int));
            assert(self.pending() =~= d.subrange(valid as int, d.len() as int));
            assert(d =~= self.chunk_bytes() + self.pending());
            valid_utf8_concat(e0, self.chunk_bytes());
            self.emitted = Ghost(e0 + self.chunk_bytes());
            assert(self.emitted@ + self.pending() =~= e0 + d);
        }
        Ok(true)
    }
}

/// Reads valid UTF-8 from a byte source one codepoint at a time, through a
/// buffer of fixed capacity.
pub struct Utf8CharReader<Inner> {
    reader: Utf8ChunkReader<Inner>,
    /// byte offset of the next unread codepoint in the current chunk
    pos: usize,
    /// every codepoint returned so far
    returned: Ghost<Seq<char>>,
}

/// The bytes of `s` after its first `n`, which make up whole characters, are
/// the encoding of the characters that follow them.
proof fn lemma_after_prefix(s: &str, rest: &str, n: int)
    requires
        is_suffix_of(rest@, s@),
        encode_utf8(s@.subrange(0, s@.len() - rest@.len())).len() == n,
    ensures
        0 <= n <= s.spec_bytes().len(),
        s.spec_bytes().subrange(n, s.spec_bytes().len() as int) == rest.spec_bytes(),
{
    let k = s@.len() - rest@.len();
    assert(s@ =~= s@.subrange(0, k) + rest@);
    lemma_boundary_concat(s@.subrange(0, k), rest@);
}

impl<Inner: ByteSource> Utf8CharReader<Inner> {
    /// The reader's own consistency: the codepoints returned so far,
    /// followed by the unread part of the current chunk, are the chunks
    /// read so far.
    pub closed spec fn wf(&self) -> bool {
        &&& self.reader.wf()
        &&& self.pos <= self.reader.chunk_bytes().len()
        &&& is_char_prefix_len(decode_utf8(self.reader.chunk_bytes()), self.pos as int)
        &&& encode_utf8(self.returned@) + self.unread_bytes() == self.reader.emitted()
    }

    /// The bytes of the current chunk not yet decoded.
    pub closed spec fn unread_bytes(&self) -> Seq<u8> {
        self.reader.chunk_bytes().subrange(self.pos as int, self.reader.chunk_bytes().len() as int)
    }

    /// Every codepoint returned so far.
    pub closed spec fn returned(&self) -> Seq<char> {
        self.returned@
    }

    /// The chunk reader underneath.
    pub closed spec fn chunk_reader(&self) -> Utf8ChunkReader<Inner> {
        self.reader
    }

    /// Creates a reader that fills `buf` from `inner`.
    pub fn new(buf: Vec<u8>, inner: Inner) -> (r: Self)
        requires
            inner.is_modeled() ==> is_prefix(inner.delivered(), inner.content()),
        ensures
            r.wf(),
            r.returned() == Seq::<char>::empty(),
            r.unread_bytes() == Seq::<u8>::empty(),
            r.chunk_reader().chunk_bytes() == Seq::<u8>::empty(),
            r.chunk_reader().pending() == Seq::<u8>::empty(),
            r.chunk_reader().emitted() == Seq::<u8>::empty(),
            r.chunk_reader().received() == Seq::<u8>::empty(),
            r.chunk_reader().base() == inner.delivered(),
            !r.chunk_reader().ended(),
            r.chunk_reader().capacity() == buf@.len(),
            r.chunk_reader().source() == inner,
    {
        let reader = Utf8ChunkReader::new(buf, inner);
        let r = Utf8CharReader { reader, pos: 0, returned: Ghost(Seq::empty()) };
        proof {
            let cb = r.reader.chunk_bytes();
            assert(cb =~= Seq::<u8>::empty());
            assert(decode_utf8(cb) =~= Seq::<char>::empty());
            assert(encode_utf8(decode_utf8(cb).subrange(0, 0)).len() == 0);
            assert(encode_utf8(Seq::<char>::empty()) =~= Seq::<u8>::empty());
            assert(r.unread_bytes() =~= Seq::<u8>::empty());
            assert(encode_utf8(r.returned@) + r.unread_bytes() =~= r.reader.emitted());
        }
        r
    }

    /// Decodes the next codepoint of the current chunk, if one is left.
    fn next_in_chunk(&mut self) -> (r: Option<char>)
        requires
            old(self).wf(),
        ensures
            final(self).wf(),
            final(self).reader == old(self).reader,
            old(self).unread_bytes().len() > 0 ==> r == Some(decode_utf8(old(self).unread_bytes())[0]),
            old(self).unread_bytes().len() == 0 ==> r is None,
            match r {
                Some(c) => final(self).returned() == old(self).returned().push(c),
                None => final(self).returned() == old(self).returned() && old(self).unread_bytes().len() == 0,
            },
    {
        let chunk = self.reader.chunk();
        proof {
            encode_utf8_decode_utf8(chunk@);
        }
        let rest = skip_prefix_bytes(chunk, self.pos);
        proof {
            lemma_after_prefix(chunk, rest, self.pos as int);
            encode_utf8_decode_utf8(rest@);
        }
        match first_char(rest) {
            None => None,
            Some(c) => {
                proof {
                    lemma_first_width(rest@);
                }
                let w = leading_byte_width(rest.as_bytes()[0]);
                let ghost k = chunk@.len() - rest@.len();
                proof {
                    lemma_encode_concat(seq![c], rest@.subrange(1, rest@.len() as int));
                    assert(rest@ =~= seq![c] + rest@.subrange(1, rest@.len() as int));
                    assert(chunk@.subrange(0, k + 1) =~= chunk@.subrange(0, k) + seq![c]);
                    lemma_encode_concat(chunk@.subrange(0, k), seq![c]);
                    assert(encode_utf8(seq![c]).len() == w);
                    let old_unread = self.unread_bytes();
                    assert(old_unread == encode_utf8(seq![c]) + encode_utf8(rest@.subrange(1, rest@.len() as int)));
                    lemma_encode_concat(self.returned@, seq![c]);
                    self.returned = Ghost(self.returned@.push(c));
                    assert(self.returned@ =~= old(self).returned@ + seq![c]);
                }
                self.pos = self.pos + w;
                proof {
                    assert(self.unread_bytes() =~= old(self).unread_bytes().subrange(w as int, old(self).unread_bytes().len() as int));
                    assert(encode_utf8(self.returned@) + self.unread_bytes() =~= encode_utf8(old(self).returned@) + old(self).unread_bytes());
                }
                Some(c)
            },
        }
    }

    /// Reads the next codepoint; returns `Ok(None)` once the source has no
    /// more data.
    pub fn read_char(&mut self) -> (r: Result<Option<char>, ReadError<Inner::Error>>)
        requires
            old(self).wf(),
        ensures
            final(self).wf(),
            match r {
                Ok(Some(c)) => final(self).returned() == old(self).returned().push(c),
                _ => final(self).returned() == old(self).returned(),
            },
            old(self).unread_bytes().len() > 0 ==> {
                &&& r == Ok::<Option<char>, ReadError<Inner::Error>>(
                    Some(decode_utf8(old(self).unread_bytes())[0]),
                )
                &&& final(self).chunk_reader() == old(self).chunk_reader()
            },
            old(self).unread_bytes().len() == 0 ==> match r {
                Ok(Some(c)) => {
                    &&& Utf8ChunkReader::read_chunk_post(
                        old(self).chunk_reader(),
                        final(self).chunk_reader(),
                        Ok(true),
                    )
                    &&& c == decode_utf8(final(self).chunk_reader().chunk_bytes())[0]
                },
                Ok(None) => Utf8ChunkReader::read_chunk_post(
                    old(self).chunk_reader(),
                    final(self).chunk_reader(),
                    Ok(false),
                ),
                Err(e) => Utf8ChunkReader::read_chunk_post(
                    old(self).chunk_reader(),
                    final(self).chunk_reader(),
                    Err(e),
                ),
            },
            r matches Ok(None) ==> encode_utf8(final(self).returned())
                == final(self).chunk_reader().emitted(),
    {
        if let Some(c) = self.next_in_chunk() {
            return Ok(Some(c));
        }
        let result = self.reader.read_chunk();
        self.pos = 0;
        proof {
            let cb = self.reader.chunk_bytes();
            encode_utf8_decode_utf8(decode_utf8(cb));
            assert(decode_utf8(cb).subrange(0, 0) =~= Seq::<char>::empty());
            assert(encode_utf8(Seq::<char>::empty()) =~= Seq::<u8>::empty());
            assert(self.unread_bytes() =~= cb);
            assert(old(self).unread_bytes() =~= Seq::<u8>::empty());
            assert(encode_utf8(self.returned@) + old(self).unread_bytes() =~= encode_utf8(self.returned@));
        }
        match result {
            Ok(true) => {
                proof {
                    let cb = self.reader.chunk_bytes();
                    decode_utf8_encode_utf8(cb);
                    assert(decode_utf8(cb).len() > 0);
                }
                match self.next_in_chunk() {
                    Some(c) => Ok(Some(c)),
                    None => Ok(None),
                }
            },
            Ok(false) => {
                proof {
                    assert(self.reader.chunk_bytes() =~= Seq::<u8>::empty());
                    assert(encode_utf8(self.returned@) + self.unread_bytes() =~= encode_utf8(self.returned@));
                }
                Ok(None)
            },
            Err(e) => {
                proof {
                    assert(self.reader.chunk_bytes() =~= Seq::<u8>::empty());
                }
                Err(e)
            },
        }
    }
}

} // verus!