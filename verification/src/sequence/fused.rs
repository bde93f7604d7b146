//! Decoding and executing the sequences of a block in one pass.

use crate::decode_out;
use crate::decode_out::DecodeOut;
use crate::entropy::bitstream::{BitDStream, BitDStreamStatus};
use crate::error::{Error, Result};
use crate::sequence::codes;
use crate::sequence::decode;
use crate::sequence::decode::{Decoding, Entries, States};
use crate::sequence::execute;
use crate::sequence::execute::{Block, Executing, Place};
use crate::sequence::repeat::{RepeatOffsets, SequenceCommand};
use crate::sequence::section::{KeptTables, ParsedSequenceSection, SequenceTablesState, Tables};
use crate::sequence::tables;
use crate::sequence::tables::{SequenceDTable, SequencePart};
use vstd::prelude::*;

verus! {

// ---------------------------------------------------------------------------
// Limits.

/// A caller's limit on the output, and how many bytes were produced that the
/// output no longer holds.
#[derive(Debug, Clone, Copy)]
pub struct OutputLimit {
    pub produced_before: u64,
    pub max_output_size: Option<usize>,
}

impl OutputLimit {
    /// How many bytes were produced once the output holds `out_len`; a number
    /// that does not fit in a word counts as the largest that does.
    pub open spec fn total(self, out_len: nat) -> nat {
        if self.produced_before + out_len > u64::MAX {
            u64::MAX as nat
        } else {
            self.produced_before as nat + out_len
        }
    }

    /// How many bytes more the limit allows.
    pub open spec fn room(self, out_len: nat) -> Result<nat> {
        match self.max_output_size {
            None => Ok(usize::MAX as nat),
            Some(max) => if self.total(out_len) > max {
                Err(
                    Error::OutputSizeTooLarge {
                        output_size: self.total(out_len) as u64,
                        max_output_size: max,
                    },
                )
            } else {
                Ok((max - self.total(out_len)) as nat)
            },
        }
    }

    /// The limit for an output that holds everything produced so far.
    pub fn whole_output(max_output_size: Option<usize>) -> (r: OutputLimit)
        ensures
            r == (OutputLimit { produced_before: 0, max_output_size }),
    {
        OutputLimit { produced_before: 0, max_output_size }
    }

    /// The limit for an output that no longer holds the first
    /// `produced_before` bytes.
    pub fn after(produced_before: u64, max_output_size: Option<usize>) -> (r: OutputLimit)
        ensures
            r == (OutputLimit { produced_before, max_output_size }),
    {
        OutputLimit { produced_before, max_output_size }
    }

    /// How many bytes were produced once the output holds `out_len`.
    pub fn produced(&self, out_len: usize) -> (r: u64)
        ensures
            r == self.total(out_len as nat),
    {
        if out_len as u64 > u64::MAX - self.produced_before {
            u64::MAX
        } else {
            self.produced_before + out_len as u64
        }
    }

    /// Refuses an output that has grown over the limit.
    pub fn check_total(&self, out_len: usize) -> (r: Result<()>)
        ensures
            match self.room(out_len as nat) {
                Ok(_) => r == Ok::<(), Error>(()),
                Err(e) => r == Err::<(), Error>(e),
            },
    {
        self.remaining(out_len)?;
        Ok(())
    }

    /// How many bytes more the limit allows.
    pub fn remaining(&self, out_len: usize) -> (r: Result<usize>)
        ensures
            match self.room(out_len as nat) {
                Ok(n) => r == Ok::<usize, Error>(n as usize) && n <= usize::MAX,
                Err(e) => r == Err::<usize, Error>(e),
            },
    {
        match self.max_output_size {
            None => Ok(usize::MAX),
            Some(max) => {
                let produced: u64 = self.produced(out_len);
                if produced > max as u64 {
                    return Err(
                        Error::OutputSizeTooLarge { output_size: produced, max_output_size: max },
                    );
                }
                Ok((max as u64 - produced) as usize)
            },
        }
    }
}

/// What a block may still produce: within the frame's block size, and within
/// the caller's limit.
pub struct Budget {
    pub limit: OutputLimit,
    pub start: nat,
    pub block: nat,
    pub output: nat,
}

impl Budget {
    /// The budget of a block that starts when the output holds `start` bytes.
    pub open spec fn of_block(limit: OutputLimit, start: nat, block_size_max: nat) -> Budget {
        Budget { limit, start, block: block_size_max, output: limit.room(start)->Ok_0 }
    }

    /// How much the block has produced.
    pub open spec fn spent(self, out_len: nat) -> nat {
        (out_len - self.start) as nat
    }

    /// The error of `additional` bytes more, where they are too many. A block
    /// that is larger than the format allows is damaged, whatever the caller
    /// allows.
    pub open spec fn error(self, out_len: nat, additional: nat) -> Option<Error> {
        let spent = self.spent(out_len);
        if spent + additional > self.block {
            Some(Error::Corruption("compressed block output exceeds the frame block size limit"))
        } else if spent + additional > self.output {
            if self.limit.total(out_len) + additional > u64::MAX {
                Some(
                    Error::OutputSizeTooLarge {
                        output_size: u64::MAX,
                        max_output_size: self.limit.max_output_size->0,
                    },
                )
            } else {
                Some(
                    Error::OutputSizeTooLarge {
                        output_size: (self.limit.total(out_len) + additional) as u64,
                        max_output_size: self.limit.max_output_size->0,
                    },
                )
            }
        } else {
            None
        }
    }
}

/// The error of a sequence that is over the budget.
fn sequence_budget_error(
    additional: usize,
    block_remaining: usize,
    out_len: usize,
    limit: OutputLimit,
    Ghost(budget): Ghost<Budget>,
) -> (r: Error)
    requires
        budget.limit == limit,
        budget.start <= out_len,
        budget.spent(out_len as nat) <= budget.block,
        block_remaining == budget.block - budget.spent(out_len as nat),
        budget.error(out_len as nat, additional as nat) is Some,
        limit.max_output_size is None ==> budget.output == usize::MAX,
        limit.max_output_size matches Some(max) ==> limit.total(budget.start) + budget.output
            == max,
        budget.block <= usize::MAX,
    ensures
        budget.error(out_len as nat, additional as nat) == Some(r),
{
    if additional > block_remaining {
        return Error::Corruption("compressed block output exceeds the frame block size limit");
    }
    match limit.max_output_size {
        Some(max_output_size) => {
            let produced: u64 = limit.produced(out_len);
            let output_size: u64 = if additional as u64 > u64::MAX - produced {
                u64::MAX
            } else {
                produced + additional as u64
            };
            Error::OutputSizeTooLarge { output_size, max_output_size }
        },
        None => {
            proof {
                assert(false);
            }
            Error::Corruption("compressed block output exceeds the frame block size limit")
        },
    }
}

// ---------------------------------------------------------------------------
// The pass.

/// Executes one sequence within the budget.
pub open spec fn execute_one(
    block: Block,
    budget: Budget,
    x: Executing,
    s: SequenceCommand,
) -> Result<Executing> {
    let total = s.literal_length as nat + s.match_length as nat;
    if x.used + s.literal_length > block.literals.len() {
        Err(Error::Corruption("sequence literal length exceeds literals buffer"))
    } else {
        match budget.error(x.out.len(), total) {
            Some(e) => Err(e),
            None => match x.reps.resolution(s.literal_length, s.offset_value) {
                Ok((offset, reps)) => block.put(x, s, offset, reps),
                Err(e) => match block.put_literals(x.out, x.used, s.literal_length as nat) {
                    Err(f) => Err(f),
                    Ok(_) => Err(e),
                },
            },
        }
    }
}

/// Decodes and executes `n` sequences from `d` on.
pub open spec fn run(
    block: Block,
    budget: Budget,
    t: Tables,
    d: Decoding,
    n: nat,
    x: Executing,
) -> Result<Executing>
    decreases n,
{
    if n == 0 {
        Ok(x)
    } else {
        let (s, r) = d.sequence(t);
        match execute_one(block, budget, x, s) {
            Err(e) => Err(e),
            Ok(y) => if n == 1 {
                if r.finished() {
                    Ok(y)
                } else {
                    Err(Error::Corruption("sequence bitstream was not fully consumed"))
                }
            } else {
                let next = d.next(t, r);
                if next.reading.overflow() {
                    Err(Error::Corruption("sequence bitstream overflow"))
                } else {
                    run(block, budget, t, next, (n - 1) as nat, y)
                }
            },
        }
    }
}

/// Copies the literals that are left, within the budget.
pub open spec fn finish(block: Block, budget: Budget, x: Executing) -> Result<Seq<u8>> {
    let left = (block.literals.len() - x.used) as nat;
    match budget.error(x.out.len(), left) {
        Some(e) => if e is OutputSizeTooLarge && budget.limit.total(x.out.len()) + left
            > u64::MAX {
            Err(Error::OutputSizeOverflow)
        } else {
            Err(e)
        },
        None => block.put_literals(x.out, x.used, left),
    }
}

/// What a block's section with `n` sequences makes of the output.
pub open spec fn block_output(
    block: Block,
    limit: OutputLimit,
    block_size_max: nat,
    kept: KeptTables,
    n: nat,
    bitstream: Seq<u8>,
    out: Seq<u8>,
    reps: RepeatOffsets,
) -> Result<(Seq<u8>, RepeatOffsets)> {
    let start = Executing { out, used: 0, reps };
    if n > 0 && !kept.complete() {
        Err(kept.missing())
    } else {
        match limit.room(out.len()) {
            Err(e) => Err(e),
            Ok(_) => {
                let budget = Budget::of_block(limit, out.len(), block_size_max);
                let end = if n == 0 {
                    Ok(start)
                } else if bitstream.len() == 0 {
                    Err(Error::SrcSizeWrong)
                } else if bitstream.last() == 0 {
                    Err(Error::Corruption("bitstream end marker is zero"))
                } else {
                    let t = kept.tables();
                    run(block, budget, t, Decoding::start(t, bitstream), n, start)
                };
                match end {
                    Err(e) => Err(e),
                    Ok(x) => match finish(block, budget, x) {
                        Err(e) => Err(e),
                        Ok(bytes) => Ok((bytes, x.reps)),
                    },
                }
            },
        }
    }
}

impl Budget {
    /// The numbers of the budget are words, and the caller's room is what the
    /// limit leaves.
    pub open spec fn wf(self) -> bool {
        &&& self.block <= usize::MAX
        &&& self.output <= usize::MAX
        &&& self.limit.max_output_size is None ==> self.output == usize::MAX
        &&& self.limit.max_output_size matches Some(max) ==> self.limit.total(self.start)
            + self.output == max
    }
}

/// What an executor is told about a block.
#[derive(Clone, Copy)]
pub struct BlockInput<'a> {
    pub frame_start: usize,
    pub window_size: usize,
    pub dictionary: Option<&'a [u8]>,
    pub literals: &'a [u8],
    pub limit: OutputLimit,
    pub start: usize,
    pub block_size_max: usize,
    pub output_room: usize,
}

impl<'a> BlockInput<'a> {
    /// The block, for an output of that capacity.
    pub open spec fn block(self, capacity: Option<nat>) -> Block {
        Block {
            capacity,
            place: Place {
                frame_start: self.frame_start as nat,
                window: self.window_size as nat,
                dictionary: execute::dictionary_view(self.dictionary),
            },
            literals: self.literals@,
        }
    }

    /// The budget of the block.
    pub open spec fn budget(self) -> Budget {
        Budget {
            limit: self.limit,
            start: self.start as nat,
            block: self.block_size_max as nat,
            output: self.output_room as nat,
        }
    }
}

/// Executes one sequence within the budget. Returns how many literals were
/// used.
fn execute_sequence(
    out: &mut DecodeOut,
    input: BlockInput,
    used: usize,
    repeat_offsets: &mut RepeatOffsets,
    s: SequenceCommand,
) -> (r: Result<usize>)
    requires
        old(out).wf(),
        old(repeat_offsets).wf(),
        input.frame_start <= input.start <= old(out)@.len(),
        used <= input.literals@.len(),
        input.budget().wf(),
        input.budget().error(old(out)@.len(), 0) is None,
        s.literal_length <= codes::LITERAL_LENGTH_MAX,
        s.match_length <= codes::MATCH_LENGTH_MAX,
    ensures
        final(out).wf(),
        final(repeat_offsets).wf(),
        final(out).capacity() == old(out).capacity(),
        old(out)@.is_prefix_of(final(out)@),
        match execute_one(
            input.block(old(out).capacity()),
            input.budget(),
            Executing { out: old(out)@, used: used as nat, reps: *old(repeat_offsets) },
            s,
        ) {
            Ok(y) => {
                &&& r is Ok && r->Ok_0 == y.used
                &&& y.used <= input.literals@.len()
                &&& y.out == final(out)@
                &&& y.reps == *final(repeat_offsets)
                &&& input.budget().error(final(out)@.len(), 0) is None
            },
            Err(e) => r == Err::<usize, Error>(e),
        },
{
    let ghost block = input.block(out.capacity());
    let ghost budget = input.budget();
    let literal_length: usize = s.literal_length as usize;
    let total: usize = literal_length + s.match_length as usize;
    if literal_length > input.literals.len() - used {
        return Err(Error::Corruption("sequence literal length exceeds literals buffer"));
    }
    let spent: usize = out.len() - input.start;
    let block_remaining: usize = input.block_size_max - spent;
    if total > block_remaining || total > input.output_room - spent {
        return Err(
            sequence_budget_error(total, block_remaining, out.len(), input.limit, Ghost(budget)),
        );
    }
    let end: usize = used + literal_length;
    let resolved = repeat_offsets.resolve(&s);
    out.append(&input.literals[used..end])?;
    let offset: u32 = resolved?;
    execute::append_match(
        out,
        input.frame_start,
        input.window_size,
        input.dictionary,
        offset as usize,
        s.match_length as usize,
    )?;
    Ok(end)
}

/// The entries that the states stand at.
fn entries_at(
    ll: &SequenceDTable,
    of: &SequenceDTable,
    ml: &SequenceDTable,
    states: States,
    Ghost(t): Ghost<Tables>,
    Ghost(d): Ghost<Decoding>,
) -> (r: Entries)
    requires
        t == (Tables {
            ll: tables::sequence_table(SequencePart::LiteralLength, *ll),
            of: tables::sequence_table(SequencePart::Offset, *of),
            ml: tables::sequence_table(SequencePart::MatchLength, *ml),
        }),
        d.within(t),
        d == states.with(d.reading),
    ensures
        r.stand_for(t, d),
{
    Entries {
        ll: ll.entries[states.ll.state],
        of: of.entries[states.of.state],
        ml: ml.entries[states.ml.state],
    }
}

/// Copies the literals that are left, within the budget.
fn append_trailing_literals(
    out: &mut DecodeOut,
    input: BlockInput,
    used: usize,
    Ghost(reps): Ghost<RepeatOffsets>,
) -> (r: Result<()>)
    requires
        old(out).wf(),
        input.start <= old(out)@.len(),
        used <= input.literals@.len(),
        input.budget().wf(),
        input.budget().error(old(out)@.len(), 0) is None,
    ensures
        final(out).wf(),
        final(out).capacity() == old(out).capacity(),
        old(out)@.is_prefix_of(final(out)@),
        match finish(
            input.block(old(out).capacity()),
            input.budget(),
            Executing { out: old(out)@, used: used as nat, reps },
        ) {
            Ok(bytes) => r == Ok::<(), Error>(()) && final(out)@ == bytes,
            Err(e) => r == Err::<(), Error>(e),
        },
{
    let left: usize = input.literals.len() - used;
    let spent: usize = out.len() - input.start;
    if left > input.block_size_max - spent {
        return Err(
            Error::Corruption("compressed block output exceeds the frame block size limit"),
        );
    }
    if left > input.output_room - spent {
        match input.limit.max_output_size {
            Some(max_output_size) => {
                let produced: u64 = input.limit.produced(out.len());
                if left as u64 > u64::MAX - produced {
                    return Err(Error::OutputSizeOverflow);
                }
                return Err(
                    Error::OutputSizeTooLarge {
                        output_size: produced + left as u64,
                        max_output_size,
                    },
                );
            },
            None => {
                proof {
                    assert(false);
                }
            },
        }
    }
    out.append(&input.literals[used..input.literals.len()])
}

/// Decodes and executes every sequence of a block. Returns how many literals
/// were used.
#[verifier::spinoff_prover]
fn execute_block_sequences(
    bitstream: &[u8],
    count: usize,
    ll: &SequenceDTable,
    of: &SequenceDTable,
    ml: &SequenceDTable,
    out: &mut DecodeOut,
    input: BlockInput,
    repeat_offsets: &mut RepeatOffsets,
    Ghost(t): Ghost<Tables>,
) -> (r: Result<usize>)
    requires
        t == (Tables {
            ll: tables::sequence_table(SequencePart::LiteralLength, *ll),
            of: tables::sequence_table(SequencePart::Offset, *of),
            ml: tables::sequence_table(SequencePart::MatchLength, *ml),
        }),
        t.wf(),
        count > 0,
        old(out).wf(),
        old(repeat_offsets).wf(),
        input.frame_start <= input.start == old(out)@.len(),
        input.budget().wf(),
    ensures
        final(out).wf(),
        final(repeat_offsets).wf(),
        final(out).capacity() == old(out).capacity(),
        old(out)@.is_prefix_of(final(out)@),
        bitstream@.len() == 0 ==> r == Err::<usize, Error>(Error::SrcSizeWrong),
        bitstream@.len() > 0 && bitstream@.last() == 0 ==> r == Err::<usize, Error>(
            Error::Corruption("bitstream end marker is zero"),
        ),
        bitstream@.len() > 0 && bitstream@.last() != 0 ==> match run(
            input.block(old(out).capacity()),
            input.budget(),
            t,
            Decoding::start(t, bitstream@),
            count as nat,
            Executing { out: old(out)@, used: 0, reps: *old(repeat_offsets) },
        ) {
            Ok(x) => {
                &&& r is Ok && r->Ok_0 == x.used
                &&& x.used <= input.literals@.len()
                &&& x.out == final(out)@
                &&& x.reps == *final(repeat_offsets)
                &&& input.budget().error(final(out)@.len(), 0) is None
            },
            Err(e) => r == Err::<usize, Error>(e),
        },
{
    let ghost block = input.block(out.capacity());
    let ghost budget = input.budget();
    let ghost x0 = Executing { out: out@, used: 0, reps: *repeat_offsets };
    let mut reader = BitDStream::new(bitstream)?;
    let mut states = decode::first_states(
        &mut reader,
        ll.table_log,
        of.table_log,
        ml.table_log,
        Ghost(t),
        Ghost(bitstream@),
    );
    let ghost start = Decoding::start(t, bitstream@);
    let mut used: usize = 0;
    let mut left: usize = count;
    while left > 1
        invariant
            1 <= left <= count,
            t == (Tables {
                ll: tables::sequence_table(SequencePart::LiteralLength, *ll),
                of: tables::sequence_table(SequencePart::Offset, *of),
                ml: tables::sequence_table(SequencePart::MatchLength, *ml),
            }),
            t.wf(),
            reader.wf(),
            states.with(reader@).within(t),
            out.wf(),
            repeat_offsets.wf(),
            bitstream@.len() > 0,
            bitstream@.last() != 0,
            input.frame_start <= input.start == old(out)@.len() <= out@.len(),
            old(out)@.is_prefix_of(out@),
            out.capacity() == old(out).capacity(),
            used <= input.literals@.len(),
            budget == input.budget(),
            budget.wf(),
            budget.error(out@.len(), 0) is None,
            block == input.block(old(out).capacity()),
            start == Decoding::start(t, bitstream@),
            x0 == (Executing { out: old(out)@, used: 0, reps: *old(repeat_offsets) }),
            run(block, budget, t, start, count as nat, x0) == run(
                block,
                budget,
                t,
                states.with(reader@),
                left as nat,
                Executing { out: out@, used: used as nat, reps: *repeat_offsets },
            ),
        decreases left,
    {
        let ghost d = states.with(reader@);
        let entries = entries_at(ll, of, ml, states, Ghost(t), Ghost(d));
        let s = decode::read_sequence(&mut reader, entries, Ghost(t), Ghost(d));
        states = decode::next_states(&mut reader, entries, Ghost(t), Ghost(d));
        used = execute_sequence(out, input, used, repeat_offsets, s)?;
        if reader.reload() == BitDStreamStatus::Overflow {
            return Err(Error::Corruption("sequence bitstream overflow"));
        }
        left = left - 1;
    }
    let ghost d = states.with(reader@);
    let entries = entries_at(ll, of, ml, states, Ghost(t), Ghost(d));
    let s = decode::read_sequence(&mut reader, entries, Ghost(t), Ghost(d));
    used = execute_sequence(out, input, used, repeat_offsets, s)?;
    if !reader.end_of_stream() {
        return Err(Error::Corruption("sequence bitstream was not fully consumed"));
    }
    Ok(used)
}

/// Makes the tables that hold baselines, and says how much the caller's limit
/// leaves.
fn decode_setup(tables: &mut SequenceTablesState, out_len: usize, limit: OutputLimit) -> (r: Result<
    usize,
>)
    requires
        old(tables).wf(),
    ensures
        final(tables).wf(),
        final(tables).kept() == old(tables).kept(),
        final(tables).plain() == old(tables).plain(),
        !old(tables).kept().complete() ==> r == Err::<usize, Error>(old(tables).kept().missing()),
        old(tables).kept().complete() ==> match limit.room(out_len as nat) {
            Ok(n) => {
                &&& r == Ok::<usize, Error>(n as usize)
                &&& n <= usize::MAX
                &&& final(tables).literal_lengths.expanded is Some
                &&& final(tables).offsets.expanded is Some
                &&& final(tables).match_lengths.expanded is Some
            },
            Err(e) => r == Err::<usize, Error>(e),
        },
{
    tables.literal_lengths.expand(
        SequencePart::LiteralLength,
        "missing literal-length FSE table",
    )?;
    tables.offsets.expand(SequencePart::Offset, "missing offset FSE table")?;
    tables.match_lengths.expand(SequencePart::MatchLength, "missing match-length FSE table")?;
    limit.remaining(out_len)
}

/// Decodes and executes the sequences of a block's section, and copies the
/// literals that are left. A block that fails leaves the output and the repeat
/// offsets as they were.
#[verifier::spinoff_prover]
pub fn decode_and_execute_sequences(
    section: &ParsedSequenceSection,
    tables: &mut SequenceTablesState,
    out: &mut DecodeOut,
    frame_start: usize,
    window_size: usize,
    block_size_max: usize,
    dictionary: Option<&[u8]>,
    literals: &[u8],
    repeat_offsets: &mut RepeatOffsets,
    limit: OutputLimit,
) -> (r: Result<()>)
    requires
        old(tables).wf(),
        old(out).wf(),
        old(repeat_offsets).wf(),
        frame_start <= old(out)@.len(),
    ensures
        final(tables).wf(),
        final(tables).kept() == old(tables).kept(),
        final(tables).plain() == old(tables).plain(),
        final(out).wf(),
        final(repeat_offsets).wf(),
        final(out).capacity() == old(out).capacity(),
        match block_output(
            Block {
                capacity: old(out).capacity(),
                place: Place {
                    frame_start: frame_start as nat,
                    window: window_size as nat,
                    dictionary: execute::dictionary_view(dictionary),
                },
                literals: literals@,
            },
            limit,
            block_size_max as nat,
            old(tables).kept(),
            section.number_of_sequences as nat,
            section.bitstream@,
            old(out)@,
            *old(repeat_offsets),
        ) {
            Ok((bytes, reps)) => {
                &&& r == Ok::<(), Error>(())
                &&& final(out)@ == bytes
                &&& *final(repeat_offsets) == reps
            },
            Err(e) => {
                &&& r == Err::<(), Error>(e)
                &&& final(out)@ == old(out)@
                &&& *final(repeat_offsets) == *old(repeat_offsets)
            },
        },
{
    let start: usize = out.len();
    let count: usize = section.number_of_sequences;
    let ghost kept = tables.kept();
    let output_room: usize = if count == 0 {
        limit.remaining(start)?
    } else {
        decode_setup(tables, start, limit)?
    };
    let input = BlockInput {
        frame_start,
        window_size,
        dictionary,
        literals,
        limit,
        start,
        block_size_max,
        output_room,
    };
    let saved = *repeat_offsets;
    let mut used: usize = 0;
    if count > 0 {
        let ll = match &tables.literal_lengths.expanded {
            Some(st) => st,
            None => {
                return Err(Error::Corruption("missing literal-length FSE table"));
            },
        };
        let of = match &tables.offsets.expanded {
            Some(st) => st,
            None => {
                return Err(Error::Corruption("missing offset FSE table"));
            },
        };
        let ml = match &tables.match_lengths.expanded {
            Some(st) => st,
            None => {
                return Err(Error::Corruption("missing match-length FSE table"));
            },
        };
        proof {
            tables.lemma_kept_wf();
        }
        used =
        match execute_block_sequences(
            section.bitstream,
            count,
            ll,
            of,
            ml,
            out,
            input,
            repeat_offsets,
            Ghost(kept.tables()),
        ) {
            Ok(used) => used,
            Err(e) => {
                out.truncate(start);
                *repeat_offsets = saved;
                return Err(e);
            },
        };
    }
    match append_trailing_literals(out, input, used, Ghost(*repeat_offsets)) {
        Ok(()) => Ok(()),
        Err(e) => {
            out.truncate(start);
            *repeat_offsets = saved;
            Err(e)
        },
    }
}

} // verus!
