//! Decoding the sequences of a block.

use crate::entropy::bitstream;
use crate::entropy::bitstream::{BitDStream, BitDStreamStatus, Reading};
use crate::entropy::fse::DTable;
use crate::entropy::fse_stream;
use crate::entropy::fse_stream::DState;
use crate::entropy::mem;
use crate::error::{Error, Result};
use crate::sequence::codes;
use crate::sequence::repeat::SequenceCommand;
use crate::sequence::section::{KeptTables, ParsedSequenceSection, SequenceTablesState, Tables};
use crate::sequence::tables;
use crate::sequence::tables::{PartEntry, SequenceDecodeEntry, SequencePart};
use vstd::arithmetic::power2::*;
use vstd::prelude::*;

verus! {

/// The states of the three tables, and what is left to read.
pub struct Decoding {
    pub ll: nat,
    pub of: nat,
    pub ml: nat,
    pub reading: Reading,
}

impl Decoding {
    /// The states are states of their tables.
    pub open spec fn within(self, t: Tables) -> bool {
        &&& self.ll < t.ll.entries.len()
        &&& self.of < t.of.entries.len()
        &&& self.ml < t.ml.entries.len()
        &&& self.reading.bits.wf()
    }

    /// Where a stream starts: the three states come first.
    pub open spec fn start(t: Tables, src: Seq<u8>) -> Decoding {
        let r0 = Reading::start(src);
        let r1 = r0.skip(t.ll.log);
        let r2 = r1.skip(t.of.log);
        Decoding {
            ll: r0.look(t.ll.log),
            of: r1.look(t.of.log),
            ml: r2.look(t.ml.log),
            reading: r2.skip(t.ml.log),
        }
    }

    /// The sequence that the states stand for, and what is left after its
    /// extra bits.
    pub open spec fn sequence(self, t: Tables) -> (SequenceCommand, Reading) {
        read_values(
            t.ll.entries[self.ll as int],
            t.of.entries[self.of as int],
            t.ml.entries[self.ml as int],
            self.reading,
        )
    }

    /// The next states, read from `r`.
    pub open spec fn next(self, t: Tables, r: Reading) -> Decoding {
        let el = t.ll.entries[self.ll as int];
        let eo = t.of.entries[self.of as int];
        let em = t.ml.entries[self.ml as int];
        let r1 = r.skip(el.nb);
        let r2 = r1.skip(em.nb);
        Decoding {
            ll: el.next + r.look_fast(el.nb),
            ml: em.next + r1.look_fast(em.nb),
            of: eo.next + r2.look_fast(eo.nb),
            reading: r2.skip(eo.nb),
        }
    }
}

/// The sequence of three entries, whose extra bits are read from `r`: those of
/// the offset first, then those of the match, then those of the literals.
pub open spec fn read_values(el: PartEntry, eo: PartEntry, em: PartEntry, r: Reading) -> (
    SequenceCommand,
    Reading,
) {
    let r1 = r.skip(eo.extra);
    let r2 = r1.skip(em.extra);
    (
        SequenceCommand {
            literal_length: (el.base + r2.look_fast(el.extra)) as u32,
            offset_value: (eo.base + r.look_fast(eo.extra)) as u32,
            match_length: (em.base + r1.look_fast(em.extra)) as u32,
        },
        r2.skip(el.extra),
    )
}

/// The `n` sequences of a stream from `d` on. Match lengths are summed up from
/// `total`, and their sum has to fit in a word.
pub open spec fn sequences_from(t: Tables, d: Decoding, n: nat, total: nat) -> Result<
    Seq<SequenceCommand>,
>
    decreases n,
{
    if n == 0 {
        Ok(Seq::empty())
    } else {
        let (s, r) = d.sequence(t);
        if total + s.match_length > usize::MAX {
            Err(Error::OutputSizeOverflow)
        } else if n == 1 {
            if r.finished() {
                Ok(seq![s])
            } else {
                Err(Error::Corruption("sequence bitstream was not fully consumed"))
            }
        } else {
            let next = d.next(t, r);
            if next.reading.overflow() {
                Err(Error::Corruption("sequence bitstream overflow"))
            } else {
                match sequences_from(t, next, (n - 1) as nat, total + s.match_length as nat) {
                    Ok(rest) => Ok(seq![s] + rest),
                    Err(e) => Err(e),
                }
            }
        }
    }
}

/// The `n` sequences that a bit stream holds.
pub open spec fn stream_sequences(t: Tables, src: Seq<u8>, n: nat) -> Result<Seq<SequenceCommand>> {
    if n == 0 {
        Ok(Seq::empty())
    } else if src.len() == 0 {
        Err(Error::SrcSizeWrong)
    } else if src.last() == 0 {
        Err(Error::Corruption("bitstream end marker is zero"))
    } else {
        sequences_from(t, Decoding::start(t, src), n, 0)
    }
}

/// The sum of the match lengths.
pub open spec fn match_bytes(sequences: Seq<SequenceCommand>) -> nat
    decreases sequences.len(),
{
    if sequences.len() == 0 {
        0
    } else {
        sequences[0].match_length as nat + match_bytes(sequences.drop_first())
    }
}

// ---------------------------------------------------------------------------
// The steps.

/// Reading keeps what is left well formed.
pub proof fn lemma_skip_wf(r: Reading, n: nat)
    requires
        r.bits.wf(),
    ensures
        r.skip(n).bits.wf(),
        r.look(n) < pow2(n),
        r.look_fast(n) < pow2(n),
{
    bitstream::lemma_look_bound(r, n);
}

/// What is read stays within the values and the states of the tables.
pub proof fn lemma_step(t: Tables, d: Decoding)
    requires
        t.wf(),
        d.within(t),
    ensures
        ({
            let el = t.ll.entries[d.ll as int];
            let eo = t.of.entries[d.of as int];
            let em = t.ml.entries[d.ml as int];
            let (s, r) = d.sequence(t);
            let r1 = d.reading.skip(eo.extra);
            let r2 = r1.skip(em.extra);
            &&& el.base + r2.look_fast(el.extra) <= codes::LITERAL_LENGTH_MAX
            &&& eo.base + d.reading.look_fast(eo.extra) <= u32::MAX
            &&& em.base + r1.look_fast(em.extra) <= codes::MATCH_LENGTH_MAX
            &&& s.literal_length <= codes::LITERAL_LENGTH_MAX
            &&& s.match_length <= codes::MATCH_LENGTH_MAX
            &&& s.literal_length == el.base + r2.look_fast(el.extra)
            &&& s.offset_value == eo.base + d.reading.look_fast(eo.extra)
            &&& s.match_length == em.base + r1.look_fast(em.extra)
            &&& r.bits.wf()
            &&& d.next(t, r).within(t)
        }),
{
    let el = t.ll.entries[d.ll as int];
    let eo = t.of.entries[d.of as int];
    let em = t.ml.entries[d.ml as int];
    let r0 = d.reading;
    let r1 = r0.skip(eo.extra);
    let r2 = r1.skip(em.extra);
    let r3 = r2.skip(el.extra);
    lemma_skip_wf(r0, eo.extra);
    lemma_skip_wf(r1, em.extra);
    lemma_skip_wf(r2, el.extra);
    lemma_skip_wf(r3, el.nb);
    lemma_skip_wf(r3.skip(el.nb), em.nb);
    lemma_skip_wf(r3.skip(el.nb).skip(em.nb), eo.nb);
}

/// Where a stream starts, the states are states of their tables.
pub proof fn lemma_start(t: Tables, src: Seq<u8>)
    requires
        t.wf(),
        Reading::start(src).bits.wf(),
    ensures
        Decoding::start(t, src).within(t),
{
    let r0 = Reading::start(src);
    lemma_skip_wf(r0, t.ll.log);
    lemma_skip_wf(r0.skip(t.ll.log), t.of.log);
    lemma_skip_wf(r0.skip(t.ll.log).skip(t.of.log), t.ml.log);
}

/// The three entries that a decoder stands at.
#[derive(Debug, Clone, Copy, PartialEq, Eq, Structural)]
pub struct Entries {
    pub ll: SequenceDecodeEntry,
    pub of: SequenceDecodeEntry,
    pub ml: SequenceDecodeEntry,
}

impl Entries {
    /// They are the entries of the states of `d`.
    pub open spec fn stand_for(self, t: Tables, d: Decoding) -> bool {
        &&& tables::sequence_entry(SequencePart::LiteralLength, self.ll)
            == t.ll.entries[d.ll as int]
        &&& tables::sequence_entry(SequencePart::Offset, self.of) == t.of.entries[d.of as int]
        &&& tables::sequence_entry(SequencePart::MatchLength, self.ml)
            == t.ml.entries[d.ml as int]
    }
}

/// The states of the three tables.
#[derive(Debug, Clone, Copy, PartialEq, Eq, Structural)]
pub struct States {
    pub ll: DState,
    pub of: DState,
    pub ml: DState,
}

impl States {
    /// The states and what is left to read.
    pub open spec fn with(self, reading: Reading) -> Decoding {
        Decoding {
            ll: self.ll.state as nat,
            of: self.of.state as nat,
            ml: self.ml.state as nat,
            reading,
        }
    }
}

/// Reads the extra bits of a sequence.
pub fn read_sequence(
    reader: &mut BitDStream,
    entries: Entries,
    Ghost(t): Ghost<Tables>,
    Ghost(d): Ghost<Decoding>,
) -> (r: SequenceCommand)
    requires
        old(reader).wf(),
        t.wf(),
        d.within(t),
        d.reading == old(reader)@,
        entries.stand_for(t, d),
    ensures
        final(reader).wf(),
        (r, final(reader)@) == d.sequence(t),
        r.literal_length <= codes::LITERAL_LENGTH_MAX,
        r.match_length <= codes::MATCH_LENGTH_MAX,
{
    proof {
        lemma_step(t, d);
        lemma2_to64();
        mem::lemma_pow2_monotone(entries.of.nb_additional_bits as nat, 31);
    }
    reader.reload();
    let offset_extra: u64 = reader.read_bits_fast(entries.of.nb_additional_bits as u32);
    reader.reload();
    let match_extra: u64 = reader.read_bits_fast(entries.ml.nb_additional_bits as u32);
    reader.reload();
    let literal_extra: u64 = reader.read_bits_fast(entries.ll.nb_additional_bits as u32);
    let offset_base: u64 = mem::power_of_two(entries.of.nb_additional_bits as u32);
    SequenceCommand {
        literal_length: entries.ll.baseline + literal_extra as u32,
        offset_value: (offset_base + offset_extra) as u32,
        match_length: entries.ml.baseline + match_extra as u32,
    }
}

fn next_state(reader: &mut BitDStream, entry: SequenceDecodeEntry) -> (r: DState)
    requires
        old(reader).wf(),
        entry.nb_bits <= 9,
    ensures
        final(reader).wf(),
        final(reader)@ == old(reader)@.skip(entry.nb_bits as nat),
        r.state == entry.new_state + old(reader)@.look_fast(entry.nb_bits as nat),
{
    proof {
        lemma2_to64();
        mem::lemma_pow2_monotone(entry.nb_bits as nat, 9);
    }
    reader.reload();
    let low: u64 = reader.read_bits_fast(entry.nb_bits as u32);
    DState { state: entry.new_state as usize + low as usize }
}

/// Moves the three states.
pub fn next_states(
    reader: &mut BitDStream,
    entries: Entries,
    Ghost(t): Ghost<Tables>,
    Ghost(d): Ghost<Decoding>,
) -> (r: States)
    requires
        old(reader).wf(),
        t.wf(),
        d.within(t),
        d.sequence(t).1 == old(reader)@,
        entries.stand_for(t, d),
    ensures
        final(reader).wf(),
        r.with(final(reader)@) == d.next(t, old(reader)@),
        r.with(final(reader)@).within(t),
{
    proof {
        lemma_step(t, d);
    }
    let ll = next_state(reader, entries.ll);
    let ml = next_state(reader, entries.ml);
    let of = next_state(reader, entries.of);
    States { ll, of, ml }
}

fn first_state(reader: &mut BitDStream, log: u32) -> (r: DState)
    requires
        old(reader).wf(),
        log <= 9,
    ensures
        final(reader).wf(),
        final(reader)@ == old(reader)@.skip(log as nat),
        r.state == old(reader)@.look(log as nat),
{
    proof {
        lemma2_to64();
        mem::lemma_pow2_monotone(log as nat, 9);
    }
    reader.reload();
    let value: u64 = reader.read_bits(log);
    DState { state: value as usize }
}

/// Reads the states that a stream starts with.
pub fn first_states(
    reader: &mut BitDStream,
    ll_log: u32,
    of_log: u32,
    ml_log: u32,
    Ghost(t): Ghost<Tables>,
    Ghost(src): Ghost<Seq<u8>>,
) -> (r: States)
    requires
        old(reader).wf(),
        t.wf(),
        old(reader)@ == Reading::start(src),
        ll_log == t.ll.log,
        of_log == t.of.log,
        ml_log == t.ml.log,
    ensures
        final(reader).wf(),
        r.with(final(reader)@) == Decoding::start(t, src),
        r.with(final(reader)@).within(t),
{
    proof {
        reader.lemma_view_wf();
        lemma_start(t, src);
    }
    let ll = first_state(reader, ll_log);
    let of = first_state(reader, of_log);
    let ml = first_state(reader, ml_log);
    States { ll, of, ml }
}

/// The entries that the states stand at in plain tables.
fn plain_entries(ll: &DTable, of: &DTable, ml: &DTable, states: States) -> (r: Entries)
    requires
        ll.symbols_below(codes::LITERAL_LENGTH_CODE_MAX as nat + 1),
        of.symbols_below(codes::OFFSET_CODE_MAX as nat + 1),
        ml.symbols_below(codes::MATCH_LENGTH_CODE_MAX as nat + 1),
        states.ll.state < ll.entries@.len(),
        states.of.state < of.entries@.len(),
        states.ml.state < ml.entries@.len(),
    ensures
        tables::sequence_entry(SequencePart::LiteralLength, r.ll) == tables::part_entry(
            SequencePart::LiteralLength,
            ll.entries@[states.ll.state as int],
        ),
        tables::sequence_entry(SequencePart::Offset, r.of) == tables::part_entry(
            SequencePart::Offset,
            of.entries@[states.of.state as int],
        ),
        tables::sequence_entry(SequencePart::MatchLength, r.ml) == tables::part_entry(
            SequencePart::MatchLength,
            ml.entries@[states.ml.state as int],
        ),
{
    Entries {
        ll: tables::expand_entry(SequencePart::LiteralLength, ll.entries[states.ll.state]),
        of: tables::expand_entry(SequencePart::Offset, of.entries[states.of.state]),
        ml: tables::expand_entry(SequencePart::MatchLength, ml.entries[states.ml.state]),
    }
}

// ---------------------------------------------------------------------------
// Whole streams.

/// What decoding the sequences of a block found besides them.
#[derive(Debug, Clone, Copy, PartialEq, Eq, Structural)]
pub struct DecodedSequenceStats {
    pub total_match_bytes: usize,
}

/// The match lengths of sequences that follow each other add up.
pub proof fn lemma_match_bytes_push(sequences: Seq<SequenceCommand>, s: SequenceCommand)
    ensures
        match_bytes(sequences.push(s)) == match_bytes(sequences) + s.match_length,
    decreases sequences.len(),
{
    if sequences.len() == 0 {
        assert(sequences.push(s).drop_first() =~= Seq::<SequenceCommand>::empty());
        assert(match_bytes(Seq::<SequenceCommand>::empty()) == 0);
    } else {
        lemma_match_bytes_push(sequences.drop_first(), s);
        assert(sequences.push(s).drop_first() =~= sequences.drop_first().push(s));
    }
}

/// The first sequences match no more than all of them.
pub proof fn lemma_match_bytes_prefix(sequences: Seq<SequenceCommand>, k: int)
    requires
        0 <= k <= sequences.len(),
    ensures
        match_bytes(sequences.take(k)) <= match_bytes(sequences),
    decreases sequences.len(),
{
    if k > 0 {
        lemma_match_bytes_prefix(sequences.drop_first(), k - 1);
        assert(sequences.take(k).drop_first() =~= sequences.drop_first().take(k - 1));
    }
}

/// What a section's sequences decode to with the plain tables.
pub open spec fn section_sequences(count: nat, plain: KeptTables, bitstream: Seq<u8>) -> Result<
    Seq<SequenceCommand>,
> {
    if count == 0 {
        Ok(Seq::empty())
    } else if !plain.complete() {
        Err(plain.missing())
    } else {
        stream_sequences(plain.tables(), bitstream, count)
    }
}

/// Decodes a section's sequences with the plain tables and sums up their match
/// lengths.
#[verifier::spinoff_prover]
#[verifier::rlimit(40)]
fn decode_commands(section: &ParsedSequenceSection, tables: &SequenceTablesState) -> (r: Result<
    (Vec<SequenceCommand>, usize),
>)
    requires
        tables.wf(),
    ensures
        match section_sequences(
            section.number_of_sequences as nat,
            tables.plain(),
            section.bitstream@,
        ) {
            Ok(decoded) => {
                &&& r matches Ok(x)
                &&& x.0@ == decoded
                &&& x.1 == match_bytes(decoded)
                &&& decoded.len() == section.number_of_sequences
            },
            Err(e) => r == Err::<(Vec<SequenceCommand>, usize), Error>(e),
        },
{
    let mut sequences: Vec<SequenceCommand> = Vec::new();
    let count: usize = section.number_of_sequences;
    if count == 0 {
        return Ok((sequences, 0));
    }
    let ll: &DTable = match &tables.literal_lengths.plain {
        Some(dt) => dt,
        None => {
            return Err(Error::Corruption("missing literal-length FSE table"));
        },
    };
    let of: &DTable = match &tables.offsets.plain {
        Some(dt) => dt,
        None => {
            return Err(Error::Corruption("missing offset FSE table"));
        },
    };
    let ml: &DTable = match &tables.match_lengths.plain {
        Some(dt) => dt,
        None => {
            return Err(Error::Corruption("missing match-length FSE table"));
        },
    };
    let ghost t = tables.plain().tables();
    proof {
        tables.lemma_plain_wf();
    }
    let mut reader = BitDStream::new(section.bitstream)?;
    let mut states = first_states(
        &mut reader,
        ll.table_log,
        of.table_log,
        ml.table_log,
        Ghost(t),
        Ghost(section.bitstream@),
    );
    let mut total: usize = 0;
    let mut left: usize = count;
    let ghost start = Decoding::start(t, section.bitstream@);
    while left > 1
        invariant
            1 <= left <= count,
            count == section.number_of_sequences,
            sequences@.len() == count - left,
            reader.wf(),
            t.wf(),
            tables.wf(),
            tables.plain().complete(),
            t == tables.plain().tables(),
            tables.literal_lengths.plain == Some(*ll),
            tables.offsets.plain == Some(*of),
            tables.match_lengths.plain == Some(*ml),
            section.bitstream@.len() > 0,
            section.bitstream@.last() != 0,
            start == Decoding::start(t, section.bitstream@),
            states.with(reader@).within(t),
            total == match_bytes(sequences@),
            sequences_from(t, start, count as nat, 0) == (match sequences_from(
                t,
                states.with(reader@),
                left as nat,
                total as nat,
            ) {
                Ok(rest) => Ok::<Seq<SequenceCommand>, Error>(sequences@ + rest),
                Err(e) => Err::<Seq<SequenceCommand>, Error>(e),
            }),
        decreases left,
    {
        let entries = plain_entries(ll, of, ml, states);
        let ghost d = states.with(reader@);
        let ghost before = sequences@;
        let s = read_sequence(&mut reader, entries, Ghost(t), Ghost(d));
        if s.match_length as usize > usize::MAX - total {
            return Err(Error::OutputSizeOverflow);
        }
        total = total + s.match_length as usize;
        sequences.push(s);
        states = next_states(&mut reader, entries, Ghost(t), Ghost(d));
        if reader.reload() == BitDStreamStatus::Overflow {
            return Err(Error::Corruption("sequence bitstream overflow"));
        }
        left = left - 1;
        proof {
            lemma_match_bytes_push(before, s);
            let rest = sequences_from(t, states.with(reader@), left as nat, total as nat);
            if rest is Ok {
                assert(before + (seq![s] + rest->Ok_0) =~= sequences@ + rest->Ok_0);
            }
        }
    }
    let entries = plain_entries(ll, of, ml, states);
    let ghost before = sequences@;
    let ghost d = states.with(reader@);
    let s = read_sequence(&mut reader, entries, Ghost(t), Ghost(d));
    if s.match_length as usize > usize::MAX - total {
        return Err(Error::OutputSizeOverflow);
    }
    total = total + s.match_length as usize;
    sequences.push(s);
    proof {
        lemma_match_bytes_push(before, s);
        assert(before + seq![s] =~= sequences@);
    }
    if !reader.end_of_stream() {
        return Err(Error::Corruption("sequence bitstream was not fully consumed"));
    }
    Ok((sequences, total))
}

/// Replaces a list of sequences by those of a section, decoded with the plain
/// tables, and sums up their match lengths. An error leaves the list empty.
pub fn decode_sequence_commands_into_stats(
    section: &ParsedSequenceSection,
    tables: &SequenceTablesState,
    sequences: &mut Vec<SequenceCommand>,
) -> (r: Result<DecodedSequenceStats>)
    requires
        tables.wf(),
    ensures
        match section_sequences(
            section.number_of_sequences as nat,
            tables.plain(),
            section.bitstream@,
        ) {
            Ok(decoded) => {
                &&& r matches Ok(stats)
                &&& stats.total_match_bytes == match_bytes(decoded)
                &&& final(sequences)@ == decoded
                &&& decoded.len() == section.number_of_sequences
            },
            Err(e) => r == Err::<DecodedSequenceStats, Error>(e) && final(sequences)@.len() == 0,
        },
{
    sequences.clear();
    let (decoded, total) = decode_commands(section, tables)?;
    *sequences = decoded;
    Ok(DecodedSequenceStats { total_match_bytes: total })
}

/// Decodes a section's sequences with the plain tables.
pub fn decode_sequence_commands(section: &ParsedSequenceSection, tables: &SequenceTablesState) -> (r:
    Result<Vec<SequenceCommand>>)
    requires
        tables.wf(),
    ensures
        match section_sequences(
            section.number_of_sequences as nat,
            tables.plain(),
            section.bitstream@,
        ) {
            Ok(decoded) => r is Ok && r->Ok_0@ == decoded,
            Err(e) => r == Err::<Vec<SequenceCommand>, Error>(e),
        },
{
    let mut sequences: Vec<SequenceCommand> = Vec::new();
    decode_sequence_commands_into_stats(section, tables, &mut sequences)?;
    Ok(sequences)
}

} // verus!
