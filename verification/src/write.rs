//! Byte sinks: where the encoder puts what it writes.

use vstd::prelude::*;
use crate::error::{Error, ErrorCode};

verus! {

/// Whether `more` bytes still go into a sink that holds `len` bytes and
/// takes `limit` bytes at most; a sink without a limit takes any.
pub open spec fn fits(len: nat, limit: Option<nat>, more: nat) -> bool {
    match limit {
        Some(l) => len + more <= l,
        None => true,
    }
}

/// What a sink holds after `chunks` were offered to it one after another
/// and the first that did not fit ended the writing.
pub open spec fn written_after(written: Seq<u8>, limit: Option<nat>, chunks: Seq<Seq<u8>>) -> Seq<u8>
    decreases chunks.len(),
{
    if chunks.len() == 0 {
        written
    } else if fits(written.len(), limit, chunks[0].len()) {
        written_after(written + chunks[0], limit, chunks.drop_first())
    } else {
        written
    }
}

/// Whether a sink takes all of `chunks`, offered one after another.
pub open spec fn all_fit(len: nat, limit: Option<nat>, chunks: Seq<Seq<u8>>) -> bool
    decreases chunks.len(),
{
    chunks.len() == 0 || (fits(len, limit, chunks[0].len()) && all_fit(
        len + chunks[0].len(),
        limit,
        chunks.drop_first(),
    ))
}

/// All of `chunks` laid end to end.
pub open spec fn concat(chunks: Seq<Seq<u8>>) -> Seq<u8>
    decreases chunks.len(),
{
    if chunks.len() == 0 {
        Seq::empty()
    } else {
        chunks[0] + concat(chunks.drop_first())
    }
}

/// The error of a result, if it is one.
pub open spec fn failure<T>(r: Result<T, Error>) -> Option<Error> {
    match r {
        Ok(_) => None,
        Err(e) => Some(e),
    }
}

/// How a write of `chunks` ended: what the sink holds now, and whether the
/// call reports an error. `before` is what it held, `limit` what it takes
/// at most. A failure is a `ScratchTooSmall` at the length the sink had
/// reached.
pub open spec fn write_outcome(
    before: Seq<u8>,
    limit: Option<nat>,
    chunks: Seq<Seq<u8>>,
    after: Seq<u8>,
    failed: Option<Error>,
) -> bool {
    &&& after == written_after(before, limit, chunks)
    &&& failed is None <==> all_fit(before.len(), limit, chunks)
    &&& failed matches Some(e) ==> e.code == ErrorCode::ScratchTooSmall && e.offset == after.len()
}

/// A sink for bytes.
pub trait Write: Sized {
    /// What makes the sink well-formed.
    spec fn inv(&self) -> bool;

    /// The bytes the sink has taken so far, in order.
    spec fn written(&self) -> Seq<u8>;

    /// How many bytes the sink takes in all, if it is bounded.
    spec fn limit(&self) -> Option<nat>;

    /// Takes all of `buf`, or nothing of it when it does not fit.
    fn write_all(&mut self, buf: &[u8]) -> (r: Result<(), Error>)
        requires
            old(self).inv(),
        ensures
            final(self).inv(),
            final(self).limit() == old(self).limit(),
            write_outcome(
                old(self).written(),
                old(self).limit(),
                seq![buf@],
                final(self).written(),
                failure(r),
            ),
    ;
}

/// A sink that takes all its chunks holds them end to end afterwards.
pub proof fn lemma_all_fit_written(written: Seq<u8>, limit: Option<nat>, chunks: Seq<Seq<u8>>)
    requires
        all_fit(written.len(), limit, chunks),
    ensures
        written_after(written, limit, chunks) == written + concat(chunks),
    decreases chunks.len(),
{
    if chunks.len() == 0 {
        assert(written + concat(chunks) =~= written);
    } else {
        lemma_all_fit_written(written + chunks[0], limit, chunks.drop_first());
        assert(written + chunks[0] + concat(chunks.drop_first()) =~= written + concat(chunks));
    }
}

/// A sink without a limit takes everything.
pub proof fn lemma_unbounded_fits(len: nat, chunks: Seq<Seq<u8>>)
    ensures
        all_fit(len, None, chunks),
    decreases chunks.len(),
{
    if chunks.len() > 0 {
        lemma_unbounded_fits(len + chunks[0].len(), chunks.drop_first());
    }
}

/// Writing `first` and then `second` is writing the two lists as one.
pub proof fn lemma_written_after_append(
    written: Seq<u8>,
    limit: Option<nat>,
    first: Seq<Seq<u8>>,
    second: Seq<Seq<u8>>,
)
    ensures
        all_fit(written.len(), limit, first + second) == (all_fit(written.len(), limit, first)
            && all_fit(written_after(written, limit, first).len(), limit, second)),
        written_after(written, limit, first + second) == if all_fit(written.len(), limit, first) {
            written_after(written_after(written, limit, first), limit, second)
        } else {
            written_after(written, limit, first)
        },
    decreases first.len(),
{
    if first.len() == 0 {
        assert(first + second =~= second);
    } else {
        let both = first + second;
        assert(both[0] == first[0]);
        assert(both.drop_first() =~= first.drop_first() + second);
        if fits(written.len(), limit, first[0].len()) {
            lemma_written_after_append(written + first[0], limit, first.drop_first(), second);
        }
    }
}

/// The outcome of offering one chunk.
pub proof fn lemma_one_chunk(written: Seq<u8>, limit: Option<nat>, chunk: Seq<u8>)
    ensures
        all_fit(written.len(), limit, seq![chunk]) == fits(written.len(), limit, chunk.len()),
        written_after(written, limit, seq![chunk]) == if fits(written.len(), limit, chunk.len()) {
            written + chunk
        } else {
            written
        },
{
    let chunks = seq![chunk];
    assert(chunks[0] == chunk);
    assert(chunks.drop_first() =~= Seq::<Seq<u8>>::empty());
    assert(all_fit(written.len() + chunk.len(), limit, chunks.drop_first()));
    assert(written_after(written + chunk, limit, chunks.drop_first()) == written + chunk);
}

/// Appends `bytes` to `out`.
pub fn extend(out: &mut Vec<u8>, bytes: &[u8])
    ensures
        final(out)@ == old(out)@ + bytes@,
{
    let mut i: usize = 0;
    while i < bytes.len()
        invariant
            i <= bytes@.len(),
            out@ == old(out)@ + bytes@.take(i as int),
        decreases bytes@.len() - i,
    {
        out.push(bytes[i]);
        assert(bytes@.take(i as int).push(bytes@[i as int]) =~= bytes@.take(i + 1));
        i += 1;
    }
    assert(bytes@.take(i as int) =~= bytes@);
}

impl Write for Vec<u8> {
    open spec fn inv(&self) -> bool {
        true
    }

    open spec fn written(&self) -> Seq<u8> {
        self@
    }

    open spec fn limit(&self) -> Option<nat> {
        None
    }

    fn write_all(&mut self, buf: &[u8]) -> (r: Result<(), Error>) {
        proof {
            lemma_one_chunk(self@, None, buf@);
        }
        extend(self, buf);
        Ok(())
    }
}

/// A sink that fills a slice from its start and fails when the slice is
/// full.
pub struct SliceWrite<'a> {
    /// The slice that is written to.
    pub slice: &'a mut [u8],
    /// How many bytes were written: the next byte goes to this place.
    pub index: usize,
}

impl<'a> SliceWrite<'a> {
    /// A sink that writes into `slice`, starting at its first byte. What
    /// the sink has written is what the slice holds up to
    /// `bytes_written`.
    pub fn new(slice: &'a mut [u8]) -> (w: SliceWrite<'a>)
        ensures
            w.inv(),
            w.index == 0,
            w.slice@ == old(slice)@,
            final(slice)@ == final(w.slice)@,
    {
        SliceWrite { slice, index: 0 }
    }

    /// How many bytes were written.
    pub fn bytes_written(&self) -> (n: usize)
        ensures
            n == self.index,
    {
        self.index
    }
}

impl<'a> Write for SliceWrite<'a> {
    open spec fn inv(&self) -> bool {
        self.index <= self.slice@.len()
    }

    open spec fn written(&self) -> Seq<u8> {
        self.slice@.take(self.index as int)
    }

    open spec fn limit(&self) -> Option<nat> {
        Some(self.slice@.len())
    }

    fn write_all(&mut self, buf: &[u8]) -> (r: Result<(), Error>)
        ensures
            final(final(self).slice)@ == final(old(self).slice)@,
    {
        proof {
            lemma_one_chunk(self.written(), self.limit(), buf@);
        }
        if self.slice.len() - self.index < buf.len() {
            return Err(Error::scratch_too_small(self.index as u64));
        }
        let start = self.index;
        let mut i: usize = 0;
        while i < buf.len()
            invariant
                i <= buf@.len(),
                start == old(self).index,
                self.index == start + i,
                self.slice@.len() == old(self).slice@.len(),
                start + buf@.len() <= self.slice@.len(),
                final(self.slice)@ == final(old(self).slice)@,
                self.slice@.take(self.index as int) == old(self).slice@.take(start as int) + buf@.take(
                    i as int,
                ),
            decreases buf@.len() - i,
        {
            let ghost before = self.slice@;
            self.slice[self.index] = buf[i];
            assert(self.slice@.take(self.index + 1) =~= before.take(self.index as int).push(
                buf@[i as int],
            ));
            assert(buf@.take(i as int).push(buf@[i as int]) =~= buf@.take(i + 1));
            self.index += 1;
            i += 1;
        }
        assert(buf@.take(i as int) =~= buf@);
        Ok(())
    }
}

} // verus!
