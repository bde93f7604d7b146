//! The bookkeeping behind stream adapters: which compressed bytes a writer
//! still owes the sink behind it, and what a reader has to do next before it
//! can hand out decompressed bytes.
//!
//! Neither type performs any input or output. A driver asks for the next step,
//! performs it on the encoder, the decoder or the inner stream, and reports
//! what came of it.

use crate::error::Error;
use crate::error::Result;
use vstd::prelude::*;

verus! {

// ---------------------------------------------------------------------------
// Compressing.

/// Forwards compressed bytes to an inner sink, each of them at most once.
pub struct Writer<W> {
    /// The sink.
    pub inner: W,
    /// Compressed bytes that the sink has not been given yet.
    pub pending: Vec<u8>,
    /// Every byte the encoder has produced.
    pub encoded: Ghost<Seq<u8>>,
    /// Every byte that was taken for the sink.
    pub forwarded: Ghost<Seq<u8>>,
}

impl<W> Writer<W> {
    /// What was taken for the sink, followed by what is pending, is what the
    /// encoder produced.
    pub open spec fn wf(self) -> bool {
        self.forwarded@ + self.pending@ == self.encoded@
    }

    /// A writer in front of `inner`, with nothing to forward yet.
    pub fn new(inner: W) -> (r: Writer<W>)
        ensures
            r.wf(),
            r.inner == inner,
            r.pending@ == Seq::<u8>::empty(),
            r.encoded@ == Seq::<u8>::empty(),
    {
        Writer {
            inner,
            pending: Vec::new(),
            encoded: Ghost(Seq::empty()),
            forwarded: Ghost(Seq::empty()),
        }
    }

    /// A writer in front of `inner` for an encoder that the caller has
    /// configured: `opened` holds the bytes that the encoder had ready when it
    /// was opened, or why it refused its options.
    pub fn with_options(inner: W, opened: Result<Vec<u8>>) -> (r: Result<Writer<W>>)
        ensures
            opened matches Err(e) ==> r == Err::<Writer<W>, Error>(e),
            opened matches Ok(bytes) ==> r is Ok && r->Ok_0.wf() && r->Ok_0.inner == inner
                && r->Ok_0.pending@ == bytes@ && r->Ok_0.encoded@ == bytes@,
    {
        let bytes: Vec<u8> = opened?;
        let ghost first = bytes@;
        proof {
            assert(Seq::<u8>::empty() + first =~= first);
        }
        Ok(
            Writer {
                inner,
                pending: bytes,
                encoded: Ghost(first),
                forwarded: Ghost(Seq::empty()),
            },
        )
    }

    /// A writer in front of `inner` for an encoder opened on a dictionary.
    pub fn with_prepared_dict(inner: W, opened: Result<Vec<u8>>) -> (r: Result<Writer<W>>)
        ensures
            opened matches Err(e) ==> r == Err::<Writer<W>, Error>(e),
            opened matches Ok(bytes) ==> r is Ok && r->Ok_0.wf() && r->Ok_0.inner == inner
                && r->Ok_0.pending@ == bytes@ && r->Ok_0.encoded@ == bytes@,
    {
        Writer::with_options(inner, opened)
    }

    /// The sink. Compressed bytes may still be pending, so what it has received
    /// is the whole frame only once `finish` has returned.
    pub fn get_ref(&self) -> (r: &W)
        ensures
            *r == self.inner,
    {
        &self.inner
    }

    /// How many compressed bytes are pending.
    pub fn pending_output_len(&self) -> (r: usize)
        ensures
            r == self.pending@.len(),
    {
        self.pending.len()
    }

    /// Takes note of an encoder step: of the bytes it produced, which count
    /// whether or not the step succeeded, and of how it ended.
    pub fn encoded(&mut self, output: &[u8], outcome: Result<()>) -> (r: Result<()>)
        requires
            old(self).wf(),
        ensures
            final(self).wf(),
            r == outcome,
            final(self).inner == old(self).inner,
            final(self).pending@ == old(self).pending@ + output@,
            final(self).encoded@ == old(self).encoded@ + output@,
            final(self).forwarded@ == old(self).forwarded@,
    {
        self.pending.extend_from_slice(output);
        assert(self.pending@ =~= old(self).pending@ + output@);
        self.encoded = Ghost(self.encoded@ + output@);
        proof {
            assert(self.forwarded@ + (old(self).pending@ + output@) =~= (self.forwarded@
                + old(self).pending@) + output@);
        }
        outcome
    }

    /// The bytes to hand to the sink now, or nothing where none are pending.
    ///
    /// They are taken whether or not handing them over succeeds: how far a
    /// failed write got is unknown, so they could only be written a second
    /// time.
    pub fn drain(&mut self) -> (r: Option<Vec<u8>>)
        requires
            old(self).wf(),
        ensures
            final(self).wf(),
            r is None <==> old(self).pending@.len() == 0,
            r matches Some(bytes) ==> bytes@ == old(self).pending@,
            final(self).inner == old(self).inner,
            final(self).pending@ == Seq::<u8>::empty(),
            final(self).encoded@ == old(self).encoded@,
            final(self).forwarded@ == old(self).forwarded@ + old(self).pending@,
    {
        let ghost due = self.pending@;
        proof {
            assert(self.forwarded@ + due + Seq::<u8>::empty() =~= self.forwarded@ + due);
        }
        if self.pending.len() == 0 {
            proof {
                assert(self.forwarded@ + due =~= self.forwarded@);
            }
            return None;
        }
        let mut bytes: Vec<u8> = Vec::new();
        std::mem::swap(&mut bytes, &mut self.pending);
        self.forwarded = Ghost(self.forwarded@ + due);
        Some(bytes)
    }

    /// Ends the frame: gives back the sink together with the bytes it is still
    /// owed, the tail that ending the frame produced among them. The sink is
    /// to be flushed after it has received them. Where ending the frame may
    /// fail, report it with `encoded` first: what is pending can then still be
    /// drained.
    pub fn finish(self, output: &[u8], outcome: Result<()>) -> (r: Result<(W, Option<Vec<u8>>)>)
        requires
            self.wf(),
        ensures
            outcome matches Err(e) ==> r == Err::<(W, Option<Vec<u8>>), Error>(e),
            outcome is Ok ==> r is Ok && r->Ok_0.0 == self.inner,
            outcome is Ok ==> (r->Ok_0.1 is None <==> self.pending@.len() + output@.len() == 0),
            outcome is Ok ==> (r->Ok_0.1 matches Some(bytes) ==> self.forwarded@ + bytes@
                == self.encoded@ + output@),
    {
        let mut this: Writer<W> = self;
        this.encoded(output, outcome)?;
        let due: Option<Vec<u8>> = this.drain();
        Ok((this.inner, due))
    }
}

// ---------------------------------------------------------------------------
// Decompressing.

/// What a reader needs before it can answer a request for bytes.
pub enum ReaderAction {
    /// Answer the request with these bytes; none of them means the end of the
    /// stream, or that the request had no room.
    Return(Vec<u8>),
    /// Pull a chunk from the source and report its size with `received`.
    Refill,
    /// Tell the decoder that no more input comes and report with `finished`.
    Finish,
}

/// Hands out decompressed bytes in the order the decoder produced them.
pub struct Reader<R> {
    /// The source.
    pub inner: R,
    /// Decompressed bytes that have not been handed out.
    pub pending: Vec<u8>,
    /// Compressed bytes that were pulled and not consumed.
    pub unconsumed: Vec<u8>,
    /// The source has ended.
    pub input_done: bool,
    /// The decoder has confirmed that the stream ended where a frame did.
    pub finished: bool,
    /// Every byte the decoder has produced.
    pub decoded: Ghost<Seq<u8>>,
    /// Every byte handed out.
    pub handed: Ghost<Seq<u8>>,
}

/// What a reader does next for a request of `room` bytes.
pub open spec fn reader_step(
    pending: Seq<u8>,
    input_done: bool,
    finished: bool,
    room: nat,
) -> ReaderStep {
    if room == 0 {
        ReaderStep::Return(0)
    } else if pending.len() > 0 {
        ReaderStep::Return(
            if room < pending.len() {
                room
            } else {
                pending.len()
            },
        )
    } else if finished {
        ReaderStep::Return(0)
    } else if input_done {
        ReaderStep::Finish
    } else {
        ReaderStep::Refill
    }
}

/// The kinds of step, with the number of bytes that a return hands out.
pub enum ReaderStep {
    Return(nat),
    Refill,
    Finish,
}

impl<R> Reader<R> {
    /// What was handed out, followed by what is pending, is what the decoder
    /// produced, and the decoder finishes only after the source has ended.
    pub open spec fn wf(self) -> bool {
        &&& self.handed@ + self.pending@ == self.decoded@
        &&& self.finished ==> self.input_done
    }

    /// Nothing pulled, nothing decoded.
    pub open spec fn fresh(self) -> bool {
        &&& self.wf()
        &&& self.pending@ == Seq::<u8>::empty()
        &&& self.unconsumed@ == Seq::<u8>::empty()
        &&& self.decoded@ == Seq::<u8>::empty()
        &&& !self.input_done
        &&& !self.finished
    }

    /// A reader on top of `inner`.
    pub fn new(inner: R) -> (r: Reader<R>)
        ensures
            r.fresh(),
            r.inner == inner,
    {
        Reader::with_options(inner)
    }

    /// A reader on top of `inner` for a decoder that the caller configures.
    pub fn with_options(inner: R) -> (r: Reader<R>)
        ensures
            r.fresh(),
            r.inner == inner,
    {
        let r: Reader<R> = Reader {
            inner,
            pending: Vec::new(),
            unconsumed: Vec::new(),
            input_done: false,
            finished: false,
            decoded: Ghost(Seq::empty()),
            handed: Ghost(Seq::empty()),
        };
        r
    }

    /// A reader on top of `inner` for a decoder opened on a dictionary.
    pub fn with_prepared_dict(inner: R) -> (r: Reader<R>)
        ensures
            r.fresh(),
            r.inner == inner,
    {
        Reader::with_options(inner)
    }

    /// The source.
    pub fn get_ref(&self) -> (r: &R)
        ensures
            *r == self.inner,
    {
        &self.inner
    }

    /// Gives back the source and drops what was not handed out.
    pub fn into_inner(self) -> (r: R)
        ensures
            r == self.inner,
    {
        self.inner
    }

    /// Gives back the source together with the compressed bytes that were
    /// pulled from it and not consumed.
    pub fn into_inner_with_remainder(self) -> (r: (R, Vec<u8>))
        ensures
            r.0 == self.inner,
            r.1@ == self.unconsumed@,
    {
        (self.inner, self.unconsumed)
    }

    /// How many decompressed bytes are pending.
    pub fn pending_output_len(&self) -> (r: usize)
        ensures
            r == self.pending@.len(),
    {
        self.pending.len()
    }

    /// What to do for a request of `room` bytes.
    pub fn read(&mut self, room: usize) -> (r: ReaderAction)
        requires
            old(self).wf(),
        ensures
            final(self).wf(),
            final(self).inner == old(self).inner,
            final(self).unconsumed@ == old(self).unconsumed@,
            final(self).input_done == old(self).input_done,
            final(self).finished == old(self).finished,
            final(self).decoded@ == old(self).decoded@,
            match reader_step(
                old(self).pending@,
                old(self).input_done,
                old(self).finished,
                room as nat,
            ) {
                ReaderStep::Return(n) => {
                    &&& r matches ReaderAction::Return(bytes)
                    &&& bytes@ == old(self).pending@.take(n as int)
                    &&& final(self).pending@ == old(self).pending@.skip(n as int)
                    &&& final(self).handed@ == old(self).handed@ + bytes@
                },
                ReaderStep::Refill => r is Refill && *final(self) == *old(self),
                ReaderStep::Finish => r is Finish && *final(self) == *old(self),
            },
    {
        let have: usize = self.pending.len();
        if room == 0 || (have == 0 && self.finished) {
            proof {
                assert(self.pending@.take(0) =~= Seq::<u8>::empty());
                assert(self.pending@.skip(0) =~= self.pending@);
                assert(self.handed@ + Seq::<u8>::empty() =~= self.handed@);
            }
            return ReaderAction::Return(Vec::new());
        }
        if have > 0 {
            let n: usize = if room < have {
                room
            } else {
                have
            };
            let ghost all = self.pending@;
            let mut bytes: Vec<u8> = Vec::new();
            bytes.extend_from_slice(&self.pending.as_slice()[0..n]);
            let mut rest: Vec<u8> = Vec::new();
            rest.extend_from_slice(&self.pending.as_slice()[n..have]);
            proof {
                assert(bytes@ =~= all.take(n as int));
                assert(rest@ =~= all.skip(n as int));
                assert(self.handed@ + all =~= (self.handed@ + bytes@) + rest@);
            }
            self.pending = rest;
            self.handed = Ghost(self.handed@ + bytes@);
            return ReaderAction::Return(bytes);
        }
        if self.input_done {
            ReaderAction::Finish
        } else {
            ReaderAction::Refill
        }
    }

    /// Takes note of a pull from the source that gave `count` bytes. The
    /// decoder is to be given them where the answer is true; no bytes at all
    /// mean that the source has ended.
    pub fn received(&mut self, count: usize) -> (r: bool)
        requires
            old(self).wf(),
        ensures
            final(self).wf(),
            r == (count > 0),
            final(self).input_done == (old(self).input_done || count == 0),
            final(self).finished == old(self).finished,
            final(self).inner == old(self).inner,
            final(self).pending@ == old(self).pending@,
            final(self).unconsumed@ == old(self).unconsumed@,
            final(self).decoded@ == old(self).decoded@,
            final(self).handed@ == old(self).handed@,
    {
        if count == 0 {
            self.input_done = true;
            false
        } else {
            true
        }
    }

    /// Takes note of a decoder step on a chunk: of the bytes it produced,
    /// which count whether or not the step succeeded, of the compressed bytes
    /// it left, and of how it ended.
    pub fn decoded(&mut self, output: &[u8], unconsumed: Vec<u8>, outcome: Result<()>) -> (r: Result<
        (),
    >)
        requires
            old(self).wf(),
        ensures
            final(self).wf(),
            r == outcome,
            final(self).inner == old(self).inner,
            final(self).pending@ == old(self).pending@ + output@,
            final(self).decoded@ == old(self).decoded@ + output@,
            final(self).handed@ == old(self).handed@,
            final(self).unconsumed@ == unconsumed@,
            final(self).input_done == old(self).input_done,
            final(self).finished == old(self).finished,
    {
        self.pending.extend_from_slice(output);
        assert(self.pending@ =~= old(self).pending@ + output@);
        self.decoded = Ghost(self.decoded@ + output@);
        proof {
            assert(self.handed@ + (old(self).pending@ + output@) =~= (self.handed@ + old(
                self,
            ).pending@) + output@);
        }
        self.unconsumed = unconsumed;
        outcome
    }

    /// Takes note of how the decoder ended, of the bytes it still produced and
    /// of the compressed bytes it left. Only a decoder that ended without an
    /// error lets the stream end: a truncated frame stays an error.
    pub fn finished(&mut self, output: &[u8], unconsumed: Vec<u8>, outcome: Result<()>) -> (r:
        Result<()>)
        requires
            old(self).wf(),
            old(self).input_done,
        ensures
            final(self).wf(),
            r == outcome,
            final(self).finished == (old(self).finished || outcome is Ok),
            final(self).inner == old(self).inner,
            final(self).pending@ == old(self).pending@ + output@,
            final(self).decoded@ == old(self).decoded@ + output@,
            final(self).handed@ == old(self).handed@,
            final(self).unconsumed@ == unconsumed@,
            final(self).input_done,
    {
        self.pending.extend_from_slice(output);
        assert(self.pending@ =~= old(self).pending@ + output@);
        self.decoded = Ghost(self.decoded@ + output@);
        proof {
            assert(self.handed@ + (old(self).pending@ + output@) =~= (self.handed@ + old(
                self,
            ).pending@) + output@);
        }
        self.unconsumed = unconsumed;
        if outcome.is_ok() {
            self.finished = true;
        }
        outcome
    }
}

/// A request with room comes back empty only once every decoded byte has been
/// handed out and the decoder has confirmed the end of the stream.
pub proof fn law_reader_ends_after_everything<R>(reader: Reader<R>, room: nat)
    requires
        reader.wf(),
        room > 0,
        reader_step(reader.pending@, reader.input_done, reader.finished, room)
            == ReaderStep::Return(0),
    ensures
        reader.handed@ == reader.decoded@,
        reader.finished,
        reader.input_done,
{
    assert(reader.handed@ + reader.pending@ =~= reader.handed@);
}

/// A reader that has ended stays ended, whatever is asked of it.
pub proof fn law_reader_stays_ended<R>(reader: Reader<R>, room: nat)
    requires
        reader.wf(),
        reader.finished,
        reader.pending@.len() == 0,
    ensures
        reader_step(reader.pending@, reader.input_done, reader.finished, room)
            == ReaderStep::Return(0),
{
}

/// A reader hands out what is pending, as much as is asked for and there; it
/// turns to the source only where nothing is pending, and to the end of the
/// frame only where the source has ended.
pub proof fn law_reader_hands_out_before_it_asks(
    pending: Seq<u8>,
    input_done: bool,
    finished: bool,
    room: nat,
)
    ensures
        ({
            let step = reader_step(pending, input_done, finished, room);
            &&& step matches ReaderStep::Return(n) ==> n <= room && n <= pending.len() && (n == room
                || n == pending.len())
            &&& room > 0 && pending.len() == 0 && !finished ==> !(step is Return)
            &&& step is Finish ==> pending.len() == 0 && input_done && !finished && room > 0
            &&& step is Refill ==> pending.len() == 0 && !input_done && !finished && room > 0
        }),
{
}

} // verus!
