//! Byte sources: where the decoder gets its input.

use vstd::prelude::*;
use vstd::slice::slice_subrange;
use crate::error::{Error, ErrorCode};
use crate::write::extend;

verus! {

/// Bytes handed out by a source: borrowed from the input for as long as the
/// input lives (`Long`), or from the source's buffer until the source is
/// used again (`Short`).
#[derive(Debug)]
pub enum EitherLifetime<'short, 'long> {
    /// Bytes that live until the source is used again.
    Short(&'short [u8]),
    /// Bytes that live as long as the input.
    Long(&'long [u8]),
}

impl<'short, 'long> EitherLifetime<'short, 'long> {
    /// The bytes, whichever way they are borrowed.
    pub open spec fn bytes(&self) -> Seq<u8> {
        match *self {
            EitherLifetime::Short(b) => b@,
            EitherLifetime::Long(b) => b@,
        }
    }

    /// Whether the bytes are borrowed from the input.
    pub open spec fn is_long(&self) -> bool {
        *self is Long
    }
}

/// Whether a buffer that holds `len` bytes and takes `limit` at most has
/// room for `more`.
pub open spec fn buffer_takes(len: nat, limit: Option<nat>, more: nat) -> bool {
    match limit {
        Some(l) => len + more <= l,
        None => true,
    }
}

/// What a source stands for: the input that is left, and its buffer.
pub struct Input {
    /// The input that has not been taken yet.
    pub remaining: Seq<u8>,
    /// How many bytes have been taken: the offset that errors report.
    pub position: nat,
    /// What the buffer holds.
    pub buffer: Seq<u8>,
    /// How many bytes the buffer takes, if it is bounded.
    pub buffer_limit: Option<nat>,
}

impl Input {
    /// The same input with its next `n` bytes taken.
    pub open spec fn skip(self, n: nat) -> Input {
        Input {
            remaining: self.remaining.skip(n as int),
            position: self.position + n,
            buffer: self.buffer,
            buffer_limit: self.buffer_limit,
        }
    }

    /// The same input with another content of the buffer.
    pub open spec fn with_buffer(self, buffer: Seq<u8>) -> Input {
        Input {
            remaining: self.remaining,
            position: self.position,
            buffer,
            buffer_limit: self.buffer_limit,
        }
    }

    /// Whether `other` is the same input, but perhaps for what the buffer
    /// holds.
    pub open spec fn same_but_buffer(self, other: Input) -> bool {
        other == self.with_buffer(other.buffer)
    }

    /// Whether `e` reports that the input ends too early: the code given,
    /// at the offset of the input's end.
    pub open spec fn is_eof(self, e: Error, code: ErrorCode) -> bool {
        e.code == code && e.offset == self.position + self.remaining.len()
    }

    /// Whether `e` reports that the buffer has no room.
    pub open spec fn is_overflow(self, e: Error) -> bool {
        e.code == ErrorCode::ScratchTooSmall && e.offset == self.position
    }

    /// Taking nothing leaves the input as it is.
    pub proof fn lemma_skip_none(self)
        ensures
            self.skip(0) == self,
    {
        assert(self.remaining.skip(0) =~= self.remaining);
    }

    /// Taking `n` bytes and then `m` is taking `n + m`.
    pub proof fn lemma_skip_twice(self, n: nat, m: nat)
        requires
            n + m <= self.remaining.len(),
        ensures
            self.skip(n).skip(m) == self.skip(n + m),
            self.remaining.skip(n as int).skip(m as int) == self.remaining.skip((n + m) as int),
    {
        assert(self.remaining.skip(n as int).skip(m as int) =~= self.remaining.skip((n + m) as int));
    }

    /// Whether the offsets fit 64 bits and the buffer is within its limit.
    pub open spec fn bounded(self) -> bool {
        self.position + self.remaining.len() <= u64::MAX && buffer_takes(
            self.buffer.len(),
            self.buffer_limit,
            0,
        )
    }
}

/// A source of bytes for the decoder, with a buffer in which strings that
/// come in pieces are put together.
pub trait Read<'de>: Sized {
    /// What makes the source well-formed.
    spec fn inv(&self) -> bool;

    /// What the source stands for.
    spec fn input(&self) -> Input;

    /// Whether `read` hands out bytes borrowed from the input.
    spec fn borrows_reads() -> bool;

    /// Whether `take_buffer` hands out bytes borrowed from the input.
    spec fn borrows_buffer() -> bool;

    /// A well-formed source has offsets that fit 64 bits, and a buffer
    /// within its limit.
    proof fn lemma_inv(&self)
        requires
            self.inv(),
        ensures
            self.input().bounded(),
    ;

    /// Takes the next byte, if there is one.
    fn next(&mut self) -> (r: Result<Option<u8>, Error>)
        requires
            old(self).inv(),
        ensures
            final(self).inv(),
            if old(self).input().remaining.len() == 0 {
                r == Ok::<Option<u8>, Error>(None) && final(self).input() == old(self).input()
            } else {
                r == Ok::<Option<u8>, Error>(Some(old(self).input().remaining[0])) && final(self).input() == old(self).input().skip(1)
            },
    ;

    /// Shows the next byte, if there is one, and leaves it in place.
    fn peek(&mut self) -> (r: Result<Option<u8>, Error>)
        requires
            old(self).inv(),
        ensures
            final(self).inv(),
            final(self).input() == old(self).input(),
            r == Ok::<Option<u8>, Error>(
                if old(self).input().remaining.len() == 0 {
                    None
                } else {
                    Some(old(self).input().remaining[0])
                },
            ),
    ;

    /// Takes the byte that `peek` has shown.
    fn discard(&mut self)
        requires
            old(self).inv(),
            old(self).input().remaining.len() > 0,
        ensures
            final(self).inv(),
            final(self).input() == old(self).input().skip(1),
    ;

    /// Empties the buffer.
    fn clear_buffer(&mut self)
        requires
            old(self).inv(),
        ensures
            final(self).inv(),
            final(self).input() == old(self).input().with_buffer(Seq::empty()),
    ;

    /// Takes the next `n` bytes and appends them to the buffer. Where the
    /// input is shorter, or the buffer has no room, nothing is taken.
    fn read_to_buffer(&mut self, n: usize) -> (r: Result<(), Error>)
        requires
            old(self).inv(),
        ensures
            final(self).inv(),
            match r {
                Ok(()) => n <= old(self).input().remaining.len() && buffer_takes(
                    old(self).input().buffer.len(),
                    old(self).input().buffer_limit,
                    n as nat,
                ) && final(self).input() == old(self).input().skip(n as nat).with_buffer(
                    old(self).input().buffer + old(self).input().remaining.take(n as int),
                ),
                Err(e) => final(self).input() == old(self).input() && if n > old(self).input().remaining.len() {
                    old(self).input().is_eof(e, ErrorCode::EofWhileParsingString)
                } else {
                    !buffer_takes(
                        old(self).input().buffer.len(),
                        old(self).input().buffer_limit,
                        n as nat,
                    ) && old(self).input().is_overflow(e)
                },
            },
    ;

    /// Hands out what the buffer holds.
    fn take_buffer<'a>(&'a mut self) -> (r: EitherLifetime<'a, 'de>)
        requires
            old(self).inv(),
        ensures
            final(self).inv(),
            r.bytes() == old(self).input().buffer,
            r.is_long() == Self::borrows_buffer(),
            old(self).input().same_but_buffer(final(self).input()),
    ;

    /// Takes the next `n` bytes and hands them out; the buffer may be used
    /// for it. Where the input is shorter, or the bytes have to go through
    /// the buffer and it has no room, nothing is taken.
    fn read<'a>(&'a mut self, n: usize) -> (r: Result<EitherLifetime<'a, 'de>, Error>)
        requires
            old(self).inv(),
        ensures
            final(self).inv(),
            match r {
                Ok(bytes) => n <= old(self).input().remaining.len() && (Self::borrows_reads()
                    || buffer_takes(0, old(self).input().buffer_limit, n as nat)) && old(self).input().skip(n as nat).same_but_buffer(final(self).input()) && bytes.bytes()
                    == old(self).input().remaining.take(n as int) && bytes.is_long()
                    == Self::borrows_reads(),
                Err(e) => old(self).input().same_but_buffer(final(self).input()) && if n > old(self).input().remaining.len() {
                    old(self).input().is_eof(e, ErrorCode::EofWhileParsingString)
                } else {
                    !Self::borrows_reads() && !buffer_takes(
                        0,
                        old(self).input().buffer_limit,
                        n as nat,
                    ) && old(self).input().is_overflow(e)
                },
            },
    ;

    /// Takes as many bytes as `buf` holds and puts them there. Where the
    /// input is shorter, nothing is taken and `buf` stays as it is.
    fn read_into(&mut self, buf: &mut [u8]) -> (r: Result<(), Error>)
        requires
            old(self).inv(),
        ensures
            final(self).inv(),
            final(buf)@.len() == old(buf)@.len(),
            match r {
                Ok(()) => old(buf)@.len() <= old(self).input().remaining.len() && final(self).input()
                    == old(self).input().skip(old(buf)@.len()) && final(buf)@ == old(self).input().remaining.take(old(buf)@.len() as int),
                Err(e) => final(self).input() == old(self).input() && final(buf)@ == old(buf)@
                    && old(buf)@.len() > old(self).input().remaining.len() && old(self).input().is_eof(e, ErrorCode::EofWhileParsingValue),
            },
    ;

    /// How many bytes have been taken.
    fn offset(&self) -> (o: u64)
        requires
            self.inv(),
        ensures
            o == self.input().position,
    ;
}

/// A source that can tell its position as a `usize`.
pub trait Offset<'de>: Read<'de> {
    /// How many bytes have been taken.
    fn byte_offset(&self) -> (o: usize)
        requires
            self.inv(),
        ensures
            o == self.input().position,
    ;
}

/// A source that reads from a slice. Reads are borrowed from the slice;
/// strings that come in pieces are put together in a buffer of its own.
pub struct SliceRead<'a> {
    slice: &'a [u8],
    scratch: Vec<u8>,
    index: usize,
}

impl<'a> SliceRead<'a> {
    /// A source that reads `slice` from its start.
    pub fn new(slice: &'a [u8]) -> (r: SliceRead<'a>)
        ensures
            r.inv(),
            r.input() == (Input {
                remaining: slice@,
                position: 0,
                buffer: Seq::empty(),
                buffer_limit: None,
            }),
    {
        let len = slice.len();
        let r = SliceRead { slice, scratch: Vec::new(), index: 0 };
        assert(slice@.skip(0) =~= slice@);
        r
    }

    /// The index behind the next `n` bytes, or the error that the input
    /// ends before it.
    fn end(&self, n: usize, code: ErrorCode) -> (r: Result<usize, Error>)
        requires
            self.inv(),
        ensures
            match r {
                Ok(end) => n <= self.input().remaining.len() && end == self.index + n,
                Err(e) => n > self.input().remaining.len() && self.input().is_eof(e, code),
            },
    {
        if n <= self.slice.len() - self.index {
            Ok(self.index + n)
        } else {
            Err(Error::syntax(code, self.slice.len() as u64))
        }
    }
}

impl<'a> Read<'a> for SliceRead<'a> {
    closed spec fn inv(&self) -> bool {
        self.index <= self.slice@.len() <= usize::MAX
    }

    closed spec fn input(&self) -> Input {
        Input {
            remaining: self.slice@.skip(self.index as int),
            position: self.index as nat,
            buffer: self.scratch@,
            buffer_limit: None,
        }
    }

    open spec fn borrows_reads() -> bool {
        true
    }

    open spec fn borrows_buffer() -> bool {
        false
    }

    proof fn lemma_inv(&self) {
    }

    fn next(&mut self) -> (r: Result<Option<u8>, Error>) {
        if self.index < self.slice.len() {
            let ch = self.slice[self.index];
            self.index += 1;
            assert(self.slice@.skip(self.index as int) =~= old(self).input().remaining.skip(1));
            Ok(Some(ch))
        } else {
            assert(old(self).input().remaining.skip(0) =~= old(self).input().remaining);
            Ok(None)
        }
    }

    fn peek(&mut self) -> (r: Result<Option<u8>, Error>) {
        assert(old(self).input().remaining.skip(0) =~= old(self).input().remaining);
        if self.index < self.slice.len() {
            Ok(Some(self.slice[self.index]))
        } else {
            Ok(None)
        }
    }

    fn discard(&mut self) {
        assert(self.input().remaining.len() == self.slice@.len() - self.index);
        self.index += 1;
        assert(self.slice@.skip(self.index as int) =~= old(self).input().remaining.skip(1));
    }

    fn clear_buffer(&mut self) {
        assert(old(self).input().remaining.skip(0) =~= old(self).input().remaining);
        self.scratch.clear();
    }

    fn read_to_buffer(&mut self, n: usize) -> (r: Result<(), Error>) {
        assert(old(self).input().remaining.skip(0) =~= old(self).input().remaining);
        let end = match self.end(n, ErrorCode::EofWhileParsingString) {
            Ok(end) => end,
            Err(e) => {
                return Err(e);
            },
        };
        let piece = slice_subrange(self.slice, self.index, end);
        extend(&mut self.scratch, piece);
        self.index = end;
        assert(piece@ =~= old(self).input().remaining.take(n as int));
        assert(self.slice@.skip(self.index as int) =~= old(self).input().remaining.skip(n as int));
        Ok(())
    }

    fn take_buffer<'s>(&'s mut self) -> (r: EitherLifetime<'s, 'a>) {
        assert(old(self).input().remaining.skip(0) =~= old(self).input().remaining);
        EitherLifetime::Short(self.scratch.as_slice())
    }

    fn read<'s>(&'s mut self, n: usize) -> (r: Result<EitherLifetime<'s, 'a>, Error>) {
        assert(old(self).input().remaining.skip(0) =~= old(self).input().remaining);
        let end = match self.end(n, ErrorCode::EofWhileParsingString) {
            Ok(end) => end,
            Err(e) => {
                return Err(e);
            },
        };
        let whole: &'a [u8] = self.slice;
        let piece = slice_subrange(whole, self.index, end);
        self.index = end;
        assert(piece@ =~= old(self).input().remaining.take(n as int));
        assert(self.slice@.skip(self.index as int) =~= old(self).input().remaining.skip(n as int));
        Ok(EitherLifetime::Long(piece))
    }

    fn read_into(&mut self, buf: &mut [u8]) -> (r: Result<(), Error>) {
        assert(old(self).input().remaining.skip(0) =~= old(self).input().remaining);
        let n = buf.len();
        let end = match self.end(n, ErrorCode::EofWhileParsingValue) {
            Ok(end) => end,
            Err(e) => {
                return Err(e);
            },
        };
        let start = self.index;
        let mut i: usize = 0;
        while i < n
            invariant
                i <= n,
                n == buf@.len(),
                start + n <= self.slice@.len() <= usize::MAX,
                start == self.index,
                *self == *old(self),
                forall|j: int| 0 <= j < i ==> buf@[j] == self.slice@[start + j],
            decreases n - i,
        {
            buf[i] = self.slice[start + i];
            i += 1;
        }
        self.index = end;
        assert(buf@ =~= old(self).input().remaining.take(n as int));
        assert(self.slice@.skip(self.index as int) =~= old(self).input().remaining.skip(n as int));
        Ok(())
    }

    fn offset(&self) -> (o: u64) {
        self.index as u64
    }
}

impl<'a> Offset<'a> for SliceRead<'a> {
    fn byte_offset(&self) -> (o: usize) {
        self.index
    }
}

/// A source that owns the bytes a stream has delivered. Nothing it hands
/// out is borrowed from the input: every read goes through its buffer and
/// lives until the source is used again.
pub struct IoRead {
    reader: Vec<u8>,
    index: usize,
    scratch: Vec<u8>,
}

impl IoRead {
    /// A source that reads `reader` from its start.
    pub fn new(reader: Vec<u8>) -> (r: IoRead)
        ensures
            r.inv(),
            r.input() == (Input {
                remaining: reader@,
                position: 0,
                buffer: Seq::empty(),
                buffer_limit: None,
            }),
    {
        let len = reader.len();
        let r = IoRead { reader, index: 0, scratch: Vec::new() };
        assert(r.reader@.skip(0) =~= r.reader@);
        r
    }

    /// The index behind the next `n` bytes, or the error that the input
    /// ends before it.
    fn end(&self, n: usize, code: ErrorCode) -> (r: Result<usize, Error>)
        requires
            self.inv(),
        ensures
            match r {
                Ok(end) => n <= self.input().remaining.len() && end == self.index + n,
                Err(e) => n > self.input().remaining.len() && self.input().is_eof(e, code),
            },
    {
        if n <= self.reader.len() - self.index {
            Ok(self.index + n)
        } else {
            Err(Error::syntax(code, self.reader.len() as u64))
        }
    }
}

impl<'de> Read<'de> for IoRead {
    closed spec fn inv(&self) -> bool {
        self.index <= self.reader@.len() <= usize::MAX
    }

    closed spec fn input(&self) -> Input {
        Input {
            remaining: self.reader@.skip(self.index as int),
            position: self.index as nat,
            buffer: self.scratch@,
            buffer_limit: None,
        }
    }

    open spec fn borrows_reads() -> bool {
        false
    }

    open spec fn borrows_buffer() -> bool {
        false
    }

    proof fn lemma_inv(&self) {
    }

    fn next(&mut self) -> (r: Result<Option<u8>, Error>) {
        if self.index < self.reader.len() {
            let ch = self.reader[self.index];
            self.index += 1;
            assert(self.reader@.skip(self.index as int) =~= old(self).input().remaining.skip(1));
            Ok(Some(ch))
        } else {
            Ok(None)
        }
    }

    fn peek(&mut self) -> (r: Result<Option<u8>, Error>) {
        if self.index < self.reader.len() {
            Ok(Some(self.reader[self.index]))
        } else {
            Ok(None)
        }
    }

    fn discard(&mut self) {
        assert(self.input().remaining.len() == self.reader@.len() - self.index);
        self.index += 1;
        assert(self.reader@.skip(self.index as int) =~= old(self).input().remaining.skip(1));
    }

    fn clear_buffer(&mut self) {
        self.scratch.clear();
    }

    fn read_to_buffer(&mut self, n: usize) -> (r: Result<(), Error>) {
        let end = match self.end(n, ErrorCode::EofWhileParsingString) {
            Ok(end) => end,
            Err(e) => {
                return Err(e);
            },
        };
        let piece = slice_subrange(self.reader.as_slice(), self.index, end);
        extend(&mut self.scratch, piece);
        self.index = end;
        assert(piece@ =~= old(self).input().remaining.take(n as int));
        assert(self.reader@.skip(self.index as int) =~= old(self).input().remaining.skip(n as int));
        Ok(())
    }

    fn take_buffer<'s>(&'s mut self) -> (r: EitherLifetime<'s, 'de>) {
        EitherLifetime::Short(self.scratch.as_slice())
    }

    fn read<'s>(&'s mut self, n: usize) -> (r: Result<EitherLifetime<'s, 'de>, Error>) {
        self.clear_buffer();
        match self.read_to_buffer(n) {
            Ok(()) => {},
            Err(e) => {
                return Err(e);
            },
        }
        assert(Seq::<u8>::empty() + old(self).input().remaining.take(n as int) =~= old(self).input().remaining.take(n as int));
        Ok(self.take_buffer())
    }

    fn read_into(&mut self, buf: &mut [u8]) -> (r: Result<(), Error>) {
        let n = buf.len();
        let end = match self.end(n, ErrorCode::EofWhileParsingValue) {
            Ok(end) => end,
            Err(e) => {
                return Err(e);
            },
        };
        let start = self.index;
        let mut i: usize = 0;
        while i < n
            invariant
                i <= n,
                n == buf@.len(),
                start + n <= self.reader@.len() <= usize::MAX,
                start == self.index,
                *self == *old(self),
                forall|j: int| 0 <= j < i ==> buf@[j] == self.reader@[start + j],
            decreases n - i,
        {
            buf[i] = self.reader[start + i];
            i += 1;
        }
        self.index = end;
        assert(buf@ =~= old(self).input().remaining.take(n as int));
        assert(self.reader@.skip(self.index as int) =~= old(self).input().remaining.skip(n as int));
        Ok(())
    }

    fn offset(&self) -> (o: u64) {
        self.index as u64
    }
}

impl<'de> Offset<'de> for IoRead {
    fn byte_offset(&self) -> (o: usize) {
        self.index
    }
}

/// A source that reads from a slice and puts strings that come in pieces
/// together in a buffer of fixed size, which the caller lends it.
pub struct SliceReadFixed<'a, 'b> {
    slice: &'a [u8],
    scratch: &'b mut [u8],
    index: usize,
    scratch_index: usize,
}

impl<'a, 'b> SliceReadFixed<'a, 'b> {
    /// A source that reads `slice` from its start and uses `scratch` as its
    /// buffer.
    pub fn new(slice: &'a [u8], scratch: &'b mut [u8]) -> (r: SliceReadFixed<'a, 'b>)
        ensures
            r.inv(),
            r.input() == (Input {
                remaining: slice@,
                position: 0,
                buffer: Seq::empty(),
                buffer_limit: Some(old(scratch)@.len()),
            }),
    {
        let len = slice.len();
        let room = scratch.len();
        let r = SliceReadFixed { slice, scratch, index: 0, scratch_index: 0 };
        assert(slice@.skip(0) =~= slice@);
        assert(r.scratch@.take(0) =~= Seq::<u8>::empty());
        r
    }

    /// The index behind the next `n` bytes, or the error that the input
    /// ends before it.
    fn end(&self, n: usize, code: ErrorCode) -> (r: Result<usize, Error>)
        requires
            self.inv(),
        ensures
            match r {
                Ok(end) => n <= self.input().remaining.len() && end == self.index + n,
                Err(e) => n > self.input().remaining.len() && self.input().is_eof(e, code),
            },
    {
        if n <= self.slice.len() - self.index {
            Ok(self.index + n)
        } else {
            Err(Error::syntax(code, self.slice.len() as u64))
        }
    }
}

impl<'a, 'b> Read<'a> for SliceReadFixed<'a, 'b> {
    closed spec fn inv(&self) -> bool {
        &&& self.index <= self.slice@.len() <= usize::MAX
        &&& self.scratch_index <= self.scratch@.len() <= usize::MAX
    }

    closed spec fn input(&self) -> Input {
        Input {
            remaining: self.slice@.skip(self.index as int),
            position: self.index as nat,
            buffer: self.scratch@.take(self.scratch_index as int),
            buffer_limit: Some(self.scratch@.len()),
        }
    }

    open spec fn borrows_reads() -> bool {
        true
    }

    open spec fn borrows_buffer() -> bool {
        false
    }

    proof fn lemma_inv(&self) {
    }

    fn next(&mut self) -> (r: Result<Option<u8>, Error>) {
        if self.index < self.slice.len() {
            let ch = self.slice[self.index];
            self.index += 1;
            assert(self.slice@.skip(self.index as int) =~= old(self).input().remaining.skip(1));
            Ok(Some(ch))
        } else {
            Ok(None)
        }
    }

    fn peek(&mut self) -> (r: Result<Option<u8>, Error>) {
        if self.index < self.slice.len() {
            Ok(Some(self.slice[self.index]))
        } else {
            Ok(None)
        }
    }

    fn discard(&mut self) {
        assert(self.input().remaining.len() == self.slice@.len() - self.index);
        self.index += 1;
        assert(self.slice@.skip(self.index as int) =~= old(self).input().remaining.skip(1));
    }

    fn clear_buffer(&mut self) {
        self.scratch_index = 0;
        assert(self.scratch@.take(0) =~= Seq::<u8>::empty());
    }

    fn read_to_buffer(&mut self, n: usize) -> (r: Result<(), Error>) {
        let end = match self.end(n, ErrorCode::EofWhileParsingString) {
            Ok(end) => end,
            Err(e) => {
                return Err(e);
            },
        };
        if n > self.scratch.len() - self.scratch_index {
            return Err(Error::scratch_too_small(self.index as u64));
        }
        let from = self.index;
        let to = self.scratch_index;
        let mut i: usize = 0;
        while i < n
            invariant
                i <= n,
                from + n <= self.slice@.len() <= usize::MAX,
                to + n <= self.scratch@.len() <= usize::MAX,
                self.scratch@.len() == old(self).scratch@.len(),
                self.slice == old(self).slice,
                self.index == from == old(self).index,
                self.scratch_index == to == old(self).scratch_index,
                self.scratch@.take(to as int) == old(self).scratch@.take(to as int),
                forall|j: int|
                    to <= j < to + i ==> #[trigger] self.scratch@[j] == self.slice@[j - to + from],
            decreases n - i,
        {
            let ghost before = self.scratch@;
            self.scratch[to + i] = self.slice[from + i];
            assert(self.scratch@.take(to as int) =~= before.take(to as int));
            i += 1;
        }
        self.index = end;
        self.scratch_index = to + n;
        assert(self.scratch@.take(self.scratch_index as int) =~= old(self).input().buffer + old(self).input().remaining.take(n as int));
        assert(self.slice@.skip(self.index as int) =~= old(self).input().remaining.skip(n as int));
        Ok(())
    }

    fn take_buffer<'s>(&'s mut self) -> (r: EitherLifetime<'s, 'a>) {
        let whole: &[u8] = &*self.scratch;
        EitherLifetime::Short(slice_subrange(whole, 0, self.scratch_index))
    }

    fn read<'s>(&'s mut self, n: usize) -> (r: Result<EitherLifetime<'s, 'a>, Error>) {
        let end = match self.end(n, ErrorCode::EofWhileParsingString) {
            Ok(end) => end,
            Err(e) => {
                return Err(e);
            },
        };
        let whole: &'a [u8] = self.slice;
        let piece = slice_subrange(whole, self.index, end);
        self.index = end;
        assert(piece@ =~= old(self).input().remaining.take(n as int));
        assert(self.slice@.skip(self.index as int) =~= old(self).input().remaining.skip(n as int));
        Ok(EitherLifetime::Long(piece))
    }

    fn read_into(&mut self, buf: &mut [u8]) -> (r: Result<(), Error>) {
        let n = buf.len();
        let end = match self.end(n, ErrorCode::EofWhileParsingValue) {
            Ok(end) => end,
            Err(e) => {
                return Err(e);
            },
        };
        let start = self.index;
        let mut i: usize = 0;
        while i < n
            invariant
                i <= n,
                n == buf@.len(),
                start + n <= self.slice@.len() <= usize::MAX,
                start == self.index,
                *self == *old(self),
                forall|j: int| 0 <= j < i ==> buf@[j] == self.slice@[start + j],
            decreases n - i,
        {
            buf[i] = self.slice[start + i];
            i += 1;
        }
        self.index = end;
        assert(buf@ =~= old(self).input().remaining.take(n as int));
        assert(self.slice@.skip(self.index as int) =~= old(self).input().remaining.skip(n as int));
        Ok(())
    }

    fn offset(&self) -> (o: u64) {
        self.index as u64
    }
}

/// A source that reads from a slice it may write to. Strings that come in
/// pieces are put together in the part of the slice that has been read, so
/// that everything it hands out is borrowed from the slice.
pub struct MutSliceRead<'a> {
    /// The part of the input that is still in use: whatever was handed out
    /// is cut off at its front.
    slice: &'a mut [u8],
    /// Where in `slice` the next byte lies.
    index: usize,
    /// How much of the input was cut off.
    before: usize,
    /// The buffer is what lies before this place in `slice`.
    buffer_end: usize,
}

impl<'a> MutSliceRead<'a> {
    /// A source that reads `slice` from its start.
    pub fn new(slice: &'a mut [u8]) -> (r: MutSliceRead<'a>)
        ensures
            r.inv(),
            r.input() == (Input {
                remaining: old(slice)@,
                position: 0,
                buffer: Seq::empty(),
                buffer_limit: None,
            }),
    {
        let len = slice.len();
        let r = MutSliceRead { slice, index: 0, before: 0, buffer_end: 0 };
        assert(r.slice@.skip(0) =~= r.slice@);
        assert(r.slice@.take(0) =~= Seq::<u8>::empty());
        r
    }

    /// The index behind the next `n` bytes, or the error that the input
    /// ends before it.
    fn end(&self, n: usize, code: ErrorCode) -> (r: Result<usize, Error>)
        requires
            self.inv(),
        ensures
            match r {
                Ok(end) => n <= self.input().remaining.len() && end == self.index + n,
                Err(e) => n > self.input().remaining.len() && self.input().is_eof(e, code),
            },
    {
        if n <= self.slice.len() - self.index {
            Ok(self.index + n)
        } else {
            Err(Error::syntax(code, (self.before + self.slice.len()) as u64))
        }
    }

    /// Cuts off what lies before the next byte and hands it out.
    fn cut(&mut self) -> (front: &'a [u8])
        requires
            old(self).inv(),
        ensures
            final(self).inv(),
            front@ == old(self).slice@.take(old(self).index as int),
            final(self).input() == old(self).input().with_buffer(Seq::empty()),
    {
        let mut whole: &'a mut [u8] = &mut [];
        core::mem::swap(&mut self.slice, &mut whole);
        let (left, right) = whole.split_at_mut(self.index);
        self.slice = right;
        self.before = self.before + self.index;
        self.index = 0;
        self.buffer_end = 0;
        assert(self.slice@.skip(0) =~= old(self).input().remaining);
        assert(self.slice@.take(0) =~= Seq::<u8>::empty());
        let front: &'a [u8] = left;
        front
    }
}

impl<'a> Read<'a> for MutSliceRead<'a> {
    closed spec fn inv(&self) -> bool {
        &&& self.buffer_end <= self.index <= self.slice@.len()
        &&& self.before + self.slice@.len() <= usize::MAX
    }

    closed spec fn input(&self) -> Input {
        Input {
            remaining: self.slice@.skip(self.index as int),
            position: (self.before + self.index) as nat,
            buffer: self.slice@.take(self.buffer_end as int),
            buffer_limit: None,
        }
    }

    open spec fn borrows_reads() -> bool {
        true
    }

    open spec fn borrows_buffer() -> bool {
        true
    }

    proof fn lemma_inv(&self) {
    }

    fn next(&mut self) -> (r: Result<Option<u8>, Error>) {
        if self.index < self.slice.len() {
            let ch = self.slice[self.index];
            self.index += 1;
            assert(self.slice@.skip(self.index as int) =~= old(self).input().remaining.skip(1));
            Ok(Some(ch))
        } else {
            Ok(None)
        }
    }

    fn peek(&mut self) -> (r: Result<Option<u8>, Error>) {
        if self.index < self.slice.len() {
            Ok(Some(self.slice[self.index]))
        } else {
            Ok(None)
        }
    }

    fn discard(&mut self) {
        assert(self.input().remaining.len() == self.slice@.len() - self.index);
        self.index += 1;
        assert(self.slice@.skip(self.index as int) =~= old(self).input().remaining.skip(1));
    }

    fn clear_buffer(&mut self) {
        let _ = self.cut();
    }

    fn read_to_buffer(&mut self, n: usize) -> (r: Result<(), Error>) {
        let end = match self.end(n, ErrorCode::EofWhileParsingString) {
            Ok(end) => end,
            Err(e) => {
                return Err(e);
            },
        };
        let from = self.index;
        let to = self.buffer_end;
        let mut i: usize = 0;
        while i < n
            invariant
                i <= n,
                to <= from,
                from + n <= self.slice@.len() <= usize::MAX,
                self.slice@.len() == old(self).slice@.len(),
                self.index == from == old(self).index,
                self.buffer_end == to == old(self).buffer_end,
                self.before == old(self).before,
                self.slice@.take(to as int) == old(self).slice@.take(to as int),
                self.slice@.skip(from + i) == old(self).slice@.skip(from + i),
                forall|j: int|
                    to <= j < to + i ==> #[trigger] self.slice@[j] == old(self).slice@[j - to + from],
            decreases n - i,
        {
            let ghost before = self.slice@;
            let byte = self.slice[from + i];
            self.slice[to + i] = byte;
            assert(self.slice@.take(to as int) =~= before.take(to as int));
            assert(self.slice@.skip(from + i + 1) =~= before.skip(from + i).skip(1));
            assert(old(self).slice@.skip(from + i + 1) =~= old(self).slice@.skip(from + i).skip(1));
            assert(before[from + i] == before.skip(from + i)[0]);
            i += 1;
        }
        self.index = end;
        self.buffer_end = to + n;
        assert(self.slice@.take(self.buffer_end as int) =~= old(self).input().buffer + old(self).input().remaining.take(n as int));
        assert(self.slice@.skip(self.index as int) =~= old(self).input().remaining.skip(n as int));
        Ok(())
    }

    fn take_buffer<'s>(&'s mut self) -> (r: EitherLifetime<'s, 'a>) {
        let end = self.buffer_end;
        let front = self.cut();
        let buffer = slice_subrange(front, 0, end);
        assert(buffer@ =~= old(self).input().buffer);
        EitherLifetime::Long(buffer)
    }

    fn read<'s>(&'s mut self, n: usize) -> (r: Result<EitherLifetime<'s, 'a>, Error>) {
        self.clear_buffer();
        match self.read_to_buffer(n) {
            Ok(()) => {},
            Err(e) => {
                return Err(e);
            },
        }
        assert(Seq::<u8>::empty() + old(self).input().remaining.take(n as int) =~= old(self).input().remaining.take(n as int));
        Ok(self.take_buffer())
    }

    fn read_into(&mut self, buf: &mut [u8]) -> (r: Result<(), Error>) {
        let n = buf.len();
        let end = match self.end(n, ErrorCode::EofWhileParsingValue) {
            Ok(end) => end,
            Err(e) => {
                return Err(e);
            },
        };
        let start = self.index;
        let mut i: usize = 0;
        while i < n
            invariant
                i <= n,
                n == buf@.len(),
                start + n <= self.slice@.len() <= usize::MAX,
                start == self.index,
                *self == *old(self),
                forall|j: int| 0 <= j < i ==> buf@[j] == self.slice@[start + j],
            decreases n - i,
        {
            buf[i] = self.slice[start + i];
            i += 1;
        }
        self.index = end;
        assert(buf@ =~= old(self).input().remaining.take(n as int));
        assert(self.slice@.skip(self.index as int) =~= old(self).input().remaining.skip(n as int));
        Ok(())
    }

    fn offset(&self) -> (o: u64) {
        (self.before + self.index) as u64
    }
}

impl<'a, 'b> Offset<'a> for SliceReadFixed<'a, 'b> {
    fn byte_offset(&self) -> (o: usize) {
        self.index
    }
}

impl<'a> Offset<'a> for MutSliceRead<'a> {
    fn byte_offset(&self) -> (o: usize) {
        self.before + self.index
    }
}

} // verus!
