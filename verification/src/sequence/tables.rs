//! The decode tables of the three parts of a sequence.
//!
//! Literal lengths, offsets and match lengths each have a table. A block names
//! for each part where its table comes from: the format itself, a single
//! code, a distribution in the block, or the block before.

use crate::entropy::fse;
use crate::entropy::fse::{DTable, DecodeEntry, SYMBOLVALUE_MAX};
use crate::entropy::ncount;
use crate::entropy::spread;
use crate::error::{Error, Result};
use crate::sequence::codes;
use vstd::arithmetic::power2::*;
use vstd::prelude::*;

verus! {

pub const LITERAL_LENGTH_DEFAULT_DISTRIBUTION: [i16; 36] = [
    4, 3, 2, 2, 2, 2, 2, 2, 2, 2, 2, 2, 2, 1, 1, 1, 2, 2, 2, 2, 2, 2, 2, 2, 2, 3, 2, 1, 1, 1, 1, 1,
    -1, -1, -1, -1,
];

pub const OFFSET_DEFAULT_DISTRIBUTION: [i16; 29] = [
    1, 1, 1, 1, 1, 1, 2, 2, 2, 1, 1, 1, 1, 1, 1, 1, 1, 1, 1, 1, 1, 1, 1, 1, -1, -1, -1, -1, -1,
];

pub const MATCH_LENGTH_DEFAULT_DISTRIBUTION: [i16; 53] = [
    1, 4, 3, 2, 2, 2, 2, 2, 2, 1, 1, 1, 1, 1, 1, 1, 1, 1, 1, 1, 1, 1, 1, 1, 1, 1, 1, 1, 1, 1, 1, 1,
    1, 1, 1, 1, 1, 1, 1, 1, 1, 1, 1, 1, 1, 1, -1, -1, -1, -1, -1, -1, -1,
];

/// The table log of the format's own literal length table.
pub const LL_DEFAULT_LOG: u32 = 6;

/// The table log of the format's own offset table.
pub const OF_DEFAULT_LOG: u32 = 5;

/// The table log of the format's own match length table.
pub const ML_DEFAULT_LOG: u32 = 6;

/// One part of a sequence.
#[derive(Debug, Clone, Copy, PartialEq, Eq, Structural)]
pub enum SequencePart {
    LiteralLength,
    Offset,
    MatchLength,
}

/// Where a part's table comes from.
#[derive(Debug, Clone, Copy, PartialEq, Eq, Structural)]
pub enum CompressionMode {
    /// The format's own table.
    Predefined,
    /// Every sequence has the same code.
    Rle,
    /// A distribution is written in the block.
    FseCompressed,
    /// The table of the block before.
    Repeat,
}

/// The sources of the three tables of a block.
#[derive(Debug, Clone, Copy, PartialEq, Eq, Structural)]
pub struct SequenceCompressionModes {
    pub literal_lengths: CompressionMode,
    pub offsets: CompressionMode,
    pub match_lengths: CompressionMode,
}

/// Which form of a table a caller wants left behind.
#[derive(Debug, Clone, Copy, PartialEq, Eq, Structural)]
pub enum TableTarget {
    /// Only the table that holds baselines; the plain one is taken away, so
    /// that an earlier block's cannot be taken for this block's.
    SequenceOnly,
    /// Both the table that holds baselines and the plain one.
    Both,
}

impl CompressionMode {
    /// The mode that two bits stand for.
    pub open spec fn of_number(n: nat) -> CompressionMode {
        if n == 0 {
            CompressionMode::Predefined
        } else if n == 1 {
            CompressionMode::Rle
        } else if n == 2 {
            CompressionMode::FseCompressed
        } else {
            CompressionMode::Repeat
        }
    }

    /// The two bits that stand for the mode.
    pub open spec fn number(self) -> nat {
        match self {
            CompressionMode::Predefined => 0,
            CompressionMode::Rle => 1,
            CompressionMode::FseCompressed => 2,
            CompressionMode::Repeat => 3,
        }
    }

    /// The mode that the two lowest bits stand for.
    pub fn from_bits(bits: u8) -> (r: CompressionMode)
        ensures
            r == CompressionMode::of_number((bits % 4) as nat),
    {
        let low: u8 = bits % 4;
        if low == 0 {
            CompressionMode::Predefined
        } else if low == 1 {
            CompressionMode::Rle
        } else if low == 2 {
            CompressionMode::FseCompressed
        } else {
            CompressionMode::Repeat
        }
    }

    /// The two bits that stand for the mode.
    pub fn bits(self) -> (r: u8)
        ensures
            r == self.number(),
            r < 4,
            CompressionMode::of_number(r as nat) == self,
    {
        match self {
            CompressionMode::Predefined => 0,
            CompressionMode::Rle => 1,
            CompressionMode::FseCompressed => 2,
            CompressionMode::Repeat => 3,
        }
    }
}

impl SequencePart {
    /// The largest code of the part.
    pub open spec fn code_max(self) -> u8 {
        match self {
            SequencePart::LiteralLength => codes::LITERAL_LENGTH_CODE_MAX,
            SequencePart::Offset => codes::OFFSET_CODE_MAX,
            SequencePart::MatchLength => codes::MATCH_LENGTH_CODE_MAX,
        }
    }

    /// The largest table log that a block may give the part.
    pub open spec fn log_max(self) -> nat {
        match self {
            SequencePart::Offset => 8,
            _ => 9,
        }
    }

    /// The distribution of the format's own table.
    pub open spec fn predefined(self) -> Seq<i16> {
        match self {
            SequencePart::LiteralLength => LITERAL_LENGTH_DEFAULT_DISTRIBUTION@,
            SequencePart::Offset => OFFSET_DEFAULT_DISTRIBUTION@,
            SequencePart::MatchLength => MATCH_LENGTH_DEFAULT_DISTRIBUTION@,
        }
    }

    /// The table log of the format's own table.
    pub open spec fn predefined_log(self) -> nat {
        match self {
            SequencePart::Offset => OF_DEFAULT_LOG as nat,
            _ => LL_DEFAULT_LOG as nat,
        }
    }

    /// What a code stands for without extra bits.
    pub open spec fn code_base(self, code: nat) -> nat {
        match self {
            SequencePart::LiteralLength => codes::literal_base(code),
            SequencePart::Offset => pow2(code),
            SequencePart::MatchLength => codes::match_base(code),
        }
    }

    /// How many extra bits a code has.
    pub open spec fn code_extra_bits(self, code: nat) -> nat {
        match self {
            SequencePart::LiteralLength => codes::literal_extra_bits(code),
            SequencePart::Offset => code,
            SequencePart::MatchLength => codes::match_extra_bits(code),
        }
    }

    /// The largest code of the part.
    pub fn max_symbol_value(self) -> (r: u8)
        ensures
            r == self.code_max(),
    {
        match self {
            SequencePart::LiteralLength => codes::LITERAL_LENGTH_CODE_MAX,
            SequencePart::Offset => codes::OFFSET_CODE_MAX,
            SequencePart::MatchLength => codes::MATCH_LENGTH_CODE_MAX,
        }
    }

    /// The largest code that the format's own table holds.
    pub fn default_max_symbol(self) -> (r: u8)
        ensures
            r == self.predefined().len() - 1,
    {
        match self {
            SequencePart::LiteralLength => 35,
            SequencePart::Offset => 28,
            SequencePart::MatchLength => 52,
        }
    }

    /// Whether the format's own table holds every code up to `max_symbol`.
    pub fn default_allowed(self, max_symbol: u8) -> (r: bool)
        ensures
            r == (max_symbol < self.predefined().len()),
    {
        max_symbol <= self.default_max_symbol()
    }

    /// The largest table log that a block may give the part.
    pub fn max_accuracy_log(self) -> (r: usize)
        ensures
            r == self.log_max(),
    {
        match self {
            SequencePart::Offset => 8,
            _ => 9,
        }
    }

    /// The distribution and the table log of the format's own table.
    pub fn default_distribution(self) -> (r: (Vec<i16>, u32))
        ensures
            r.0@ == self.predefined(),
            r.1 == self.predefined_log(),
            4 <= r.1 <= 6,
    {
        let mut counts: Vec<i16> = Vec::new();
        let log: u32 = match self {
            SequencePart::LiteralLength => {
                counts.extend_from_slice(LITERAL_LENGTH_DEFAULT_DISTRIBUTION.as_slice());
                LL_DEFAULT_LOG
            },
            SequencePart::Offset => {
                counts.extend_from_slice(OFFSET_DEFAULT_DISTRIBUTION.as_slice());
                OF_DEFAULT_LOG
            },
            SequencePart::MatchLength => {
                counts.extend_from_slice(MATCH_LENGTH_DEFAULT_DISTRIBUTION.as_slice());
                ML_DEFAULT_LOG
            },
        };
        proof {
            assert(counts@ =~= self.predefined());
        }
        (counts, log)
    }
}

/// The format's own distributions fill their tables, and every code of them
/// has states.
#[verifier::rlimit(30)]
pub proof fn lemma_predefined(part: SequencePart)
    ensures
        spread::counts_fill(part.predefined(), part.predefined().len(), part.predefined_log()),
        spread::walkable(part.predefined_log()),
        part.predefined().len() <= part.code_max() + 1,
        forall|i: int|
            0 <= i < part.predefined().len() ==> (#[trigger] part.predefined()[i]) >= -1
                && part.predefined()[i] != 0,
{
    lemma2_to64();
    let d = part.predefined();
    match part {
        SequencePart::LiteralLength => {
            assert(spread::slots_before(d, 36) == 64) by {
                reveal_with_fuel(spread::slots_before, 37);
            }
        },
        SequencePart::Offset => {
            assert(spread::slots_before(d, 29) == 32) by {
                reveal_with_fuel(spread::slots_before, 30);
            }
        },
        SequencePart::MatchLength => {
            assert(spread::slots_before(d, 53) == 64) by {
                reveal_with_fuel(spread::slots_before, 54);
            }
        },
    }
    assert(counts_sound(d, d.len())) by {
        reveal_with_fuel(counts_sound, 54);
    }
    assert forall|i: int| 0 <= i < d.len() implies (#[trigger] d[i]) >= -1 && d[i] != 0 by {
        lemma_counts_sound(d, d.len(), i);
    }
}

spec fn counts_sound(d: Seq<i16>, n: nat) -> bool
    decreases n,
{
    n == 0 || (counts_sound(d, (n - 1) as nat) && d[n - 1] >= -1 && d[n - 1] != 0)
}

proof fn lemma_counts_sound(d: Seq<i16>, n: nat, i: int)
    requires
        counts_sound(d, n),
        0 <= i < n,
    ensures
        d[i] >= -1,
        d[i] != 0,
    decreases n,
{
    if i + 1 < n {
        lemma_counts_sound(d, (n - 1) as nat, i);
    }
}

// ---------------------------------------------------------------------------
// What a table holds.

/// What a table was made from.
pub enum TableSource {
    /// A distribution over `n` codes for a table of `2^log` states.
    Distribution { counts: Seq<i16>, n: nat, log: nat },
    /// A single code.
    Only { code: u8 },
}

impl TableSource {
    /// The source can be made into a table of the part.
    pub open spec fn wf(self, part: SequencePart) -> bool {
        match self {
            TableSource::Distribution { counts, n, log } => {
                &&& spread::counts_fill(counts, n, log)
                &&& spread::walkable(log)
                &&& n <= part.code_max() + 1
            },
            TableSource::Only { code } => code <= part.code_max(),
        }
    }

    /// The table log.
    pub open spec fn log(self) -> nat {
        match self {
            TableSource::Distribution { counts, n, log } => log,
            TableSource::Only { code } => 0,
        }
    }

    /// The entries of the table.
    pub open spec fn entries(self) -> Seq<DecodeEntry> {
        match self {
            TableSource::Distribution { counts, n, log } => Seq::new(
                pow2(log),
                |u: int| fse::distribution_entry(counts, n, log, u),
            ),
            TableSource::Only { code } => seq![
                DecodeEntry { new_state: 0, symbol: code, nb_bits: 0 },
            ],
        }
    }
}

/// The plain table was made from the source.
pub open spec fn made_from(dt: DTable, source: TableSource) -> bool {
    dt.table_log == source.log() && dt.entries@ == source.entries()
}

/// The decode table of a distribution was made from it.
pub proof fn lemma_made_from_distribution(dt: DTable, counts: Seq<i16>, n: nat, log: nat)
    requires
        fse::decodes(dt, counts, n, log),
    ensures
        made_from(dt, TableSource::Distribution { counts, n, log }),
{
    reveal(fse::decodes);
    let source = TableSource::Distribution { counts, n, log };
    assert forall|u: int| 0 <= u < pow2(log) implies dt.entries@[u] == #[trigger] source.entries()[u] by {
        assert(fse::is_decode_entry(
            dt.entries@[u],
            counts,
            spread::spread(counts, n, log),
            log,
            u,
        ));
    }
    assert(dt.entries@ =~= source.entries());
}

/// One state of a part's table: the value that it stands for, the extra bits
/// that are added to it, and how to reach the next state.
pub struct PartEntry {
    pub base: nat,
    pub extra: nat,
    pub next: nat,
    pub nb: nat,
}

/// A part's table.
pub struct PartTable {
    pub log: nat,
    pub entries: Seq<PartEntry>,
}

impl PartTable {
    /// Every state leads to a state, and every value fits in a word.
    pub open spec fn wf(self) -> bool {
        &&& self.log <= 9
        &&& self.entries.len() == pow2(self.log)
        &&& forall|u: int|
            0 <= u < self.entries.len() ==> {
                &&& (#[trigger] self.entries[u]).nb <= self.log
                &&& self.entries[u].next + pow2(self.entries[u].nb) <= self.entries.len()
                &&& self.entries[u].extra <= 31
                &&& self.entries[u].base + pow2(self.entries[u].extra) <= u32::MAX + 1
            }
    }

    /// Every value is at most `max`.
    pub open spec fn values_at_most(self, max: nat) -> bool {
        forall|u: int|
            0 <= u < self.entries.len() ==> (#[trigger] self.entries[u]).base + pow2(
                self.entries[u].extra,
            ) <= max + 1
    }
}

/// The part's meaning of a plain entry.
pub open spec fn part_entry(part: SequencePart, e: DecodeEntry) -> PartEntry {
    PartEntry {
        base: part.code_base(e.symbol as nat),
        extra: part.code_extra_bits(e.symbol as nat),
        next: e.new_state as nat,
        nb: e.nb_bits as nat,
    }
}

/// The part's meaning of plain entries.
pub open spec fn part_table(part: SequencePart, log: nat, entries: Seq<DecodeEntry>) -> PartTable {
    PartTable {
        log,
        entries: Seq::new(entries.len(), |u: int| part_entry(part, entries[u])),
    }
}

/// The part's table of a source.
pub open spec fn source_table(part: SequencePart, source: TableSource) -> PartTable {
    part_table(part, source.log(), source.entries())
}

/// The part's table of a plain table.
pub open spec fn plain_table(part: SequencePart, dt: DTable) -> PartTable {
    part_table(part, dt.table_log as nat, dt.entries@)
}

/// The largest value that a part can have.
pub open spec fn value_max(part: SequencePart) -> nat {
    match part {
        SequencePart::LiteralLength => codes::LITERAL_LENGTH_MAX as nat,
        SequencePart::Offset => u32::MAX as nat,
        SequencePart::MatchLength => codes::MATCH_LENGTH_MAX as nat,
    }
}

/// The values of a code stay below the part's limit.
pub proof fn lemma_code_range(part: SequencePart, code: nat)
    requires
        code <= part.code_max(),
    ensures
        part.code_extra_bits(code) <= 31,
        part.code_base(code) + pow2(part.code_extra_bits(code)) <= value_max(part) + 1,
{
    let extra = part.code_extra_bits(code);
    lemma_pow2_pos(extra);
    match part {
        SequencePart::LiteralLength => {
            codes::law_literal_code_unique(code, (pow2(extra) - 1) as nat);
        },
        SequencePart::Offset => {
            codes::law_offset_code_unique(code, (pow2(extra) - 1) as nat);
        },
        SequencePart::MatchLength => {
            codes::law_match_code_unique(code, (pow2(extra) - 1) as nat);
        },
    }
}

/// A well-formed plain table means a well-formed part table.
pub proof fn lemma_plain_table_wf(part: SequencePart, dt: DTable)
    requires
        dt.wf(),
        dt.symbols_below(part.code_max() as nat + 1),
    ensures
        plain_table(part, dt).wf(),
        plain_table(part, dt).values_at_most(value_max(part)),
{
    let t = plain_table(part, dt);
    assert forall|u: int| 0 <= u < t.entries.len() implies {
        &&& (#[trigger] t.entries[u]).nb <= t.log
        &&& t.entries[u].next + pow2(t.entries[u].nb) <= t.entries.len()
        &&& t.entries[u].extra <= 31
        &&& t.entries[u].base + pow2(t.entries[u].extra) <= value_max(part) + 1
    } by {
        assert(dt.entries@[u].symbol < part.code_max() + 1);
        lemma_code_range(part, dt.entries@[u].symbol as nat);
    }
}

/// A decode entry that holds what its code stands for.
#[derive(Debug, Clone, Copy, PartialEq, Eq, Structural)]
pub struct SequenceDecodeEntry {
    pub new_state: u16,
    pub nb_bits: u8,
    pub nb_additional_bits: u8,
    pub baseline: u32,
}

/// A decode table whose entries hold what their codes stand for. An offset's
/// baseline is the power of two of its extra bits and is not stored.
pub struct SequenceDTable {
    pub table_log: u32,
    pub entries: Vec<SequenceDecodeEntry>,
}

/// The part's meaning of an entry that holds baselines.
pub open spec fn sequence_entry(part: SequencePart, e: SequenceDecodeEntry) -> PartEntry {
    PartEntry {
        base: if part == SequencePart::Offset {
            pow2(e.nb_additional_bits as nat)
        } else {
            e.baseline as nat
        },
        extra: e.nb_additional_bits as nat,
        next: e.new_state as nat,
        nb: e.nb_bits as nat,
    }
}

/// The part's table of a table that holds baselines.
pub open spec fn sequence_table(part: SequencePart, st: SequenceDTable) -> PartTable {
    PartTable {
        log: st.table_log as nat,
        entries: Seq::new(st.entries@.len(), |u: int| sequence_entry(part, st.entries@[u])),
    }
}

/// Puts into a plain entry what its code stands for.
pub fn expand_entry(part: SequencePart, e: DecodeEntry) -> (r: SequenceDecodeEntry)
    requires
        e.symbol <= part.code_max(),
    ensures
        sequence_entry(part, r) == part_entry(part, e),
{
    proof {
        match part {
            SequencePart::LiteralLength => {
                codes::lemma_literal_tables(e.symbol as nat);
            },
            SequencePart::Offset => {},
            SequencePart::MatchLength => {
                codes::lemma_match_tables(e.symbol as nat);
            },
        }
    }
    let (nb_additional_bits, baseline): (u8, u32) = match part {
        SequencePart::LiteralLength => (
            codes::LITERAL_LENGTH_EXTRA_BITS[e.symbol as usize],
            codes::LITERAL_LENGTH_BASELINES[e.symbol as usize],
        ),
        SequencePart::Offset => (e.symbol, 0),
        SequencePart::MatchLength => (
            codes::MATCH_LENGTH_EXTRA_BITS[e.symbol as usize],
            codes::MATCH_LENGTH_BASELINES[e.symbol as usize],
        ),
    };
    SequenceDecodeEntry {
        new_state: e.new_state,
        nb_bits: e.nb_bits,
        nb_additional_bits,
        baseline,
    }
}

/// Puts into each entry of a plain table what its code stands for.
pub fn build_sequence_dtable_from(part: SequencePart, dt: &DTable) -> (r: SequenceDTable)
    requires
        dt.wf(),
        dt.symbols_below(part.code_max() as nat + 1),
    ensures
        sequence_table(part, r) == plain_table(part, *dt),
{
    let mut entries: Vec<SequenceDecodeEntry> = Vec::new();
    let mut i: usize = 0;
    while i < dt.entries.len()
        invariant
            i <= dt.entries@.len(),
            dt.symbols_below(part.code_max() as nat + 1),
            entries@.len() == i,
            forall|u: int|
                0 <= u < i ==> sequence_entry(part, #[trigger] entries@[u]) == part_entry(
                    part,
                    dt.entries@[u],
                ),
        decreases dt.entries@.len() - i,
    {
        entries.push(expand_entry(part, dt.entries[i]));
        i = i + 1;
    }
    let r = SequenceDTable { table_log: dt.table_log, entries };
    proof {
        assert(sequence_table(part, r).entries =~= plain_table(part, *dt).entries);
    }
    r
}

// ---------------------------------------------------------------------------
// The tables that a decoder keeps from block to block.

/// A part's table as a decoder keeps it: with baselines, plain, or both.
pub struct PartTables {
    pub plain: Option<DTable>,
    pub expanded: Option<SequenceDTable>,
}

impl PartTables {
    /// The tables are tables of the part.
    pub open spec fn wf(self, part: SequencePart) -> bool {
        &&& self.plain matches Some(dt) ==> dt.wf() && dt.symbols_below(part.code_max() as nat + 1)
        &&& self.expanded matches Some(st) ==> sequence_table(part, st).wf() && sequence_table(
            part,
            st,
        ).values_at_most(value_max(part))
    }

    /// The table that sequences are decoded with.
    pub open spec fn table(self, part: SequencePart) -> Option<PartTable> {
        match self.expanded {
            Some(st) => Some(sequence_table(part, st)),
            None => match self.plain {
                Some(dt) => Some(plain_table(part, dt)),
                None => None,
            },
        }
    }

    /// The plain table.
    pub open spec fn plain_view(self, part: SequencePart) -> Option<PartTable> {
        match self.plain {
            Some(dt) => Some(plain_table(part, dt)),
            None => None,
        }
    }

    /// No table.
    pub fn none() -> (r: PartTables)
        ensures
            r.plain is None,
            r.expanded is None,
            forall|part: SequencePart| r.wf(part),
    {
        PartTables { plain: None, expanded: None }
    }

    /// Makes the table that holds baselines where only the plain one is there.
    /// Without either, `missing` is the error.
    pub fn expand(&mut self, part: SequencePart, missing: &'static str) -> (r: Result<()>)
        requires
            old(self).wf(part),
        ensures
            final(self).wf(part),
            final(self).plain == old(self).plain,
            final(self).table(part) == old(self).table(part),
            r == (if old(self).table(part) is Some {
                Ok::<(), Error>(())
            } else {
                Err::<(), Error>(Error::Corruption(missing))
            }),
            r is Ok ==> final(self).expanded is Some,
    {
        if self.expanded.is_none() {
            match &self.plain {
                Some(dt) => {
                    let st = build_sequence_dtable_from(part, dt);
                    proof {
                        lemma_plain_table_wf(part, *dt);
                    }
                    self.expanded = Some(st);
                },
                None => {
                    return Err(Error::Corruption(missing));
                },
            }
        }
        Ok(())
    }
}

/// Where a part's table comes from, and how many bytes of `src` tell it.
pub open spec fn named_source(part: SequencePart, mode: CompressionMode, src: Seq<u8>) -> Result<
    (TableSource, nat),
> {
    match mode {
        CompressionMode::Predefined => Ok(
            (
                TableSource::Distribution {
                    counts: part.predefined(),
                    n: part.predefined().len(),
                    log: part.predefined_log(),
                },
                0,
            ),
        ),
        CompressionMode::Rle => if src.len() == 0 {
            Err(Error::UnexpectedEof)
        } else if src[0] > part.code_max() {
            Err(Error::Corruption("sequence RLE symbol exceeds the supported code range"))
        } else {
            Ok((TableSource::Only { code: src[0] }, 1))
        },
        CompressionMode::FseCompressed => match ncount::parse_header(
            src,
            part.code_max() as nat + 1,
            part.log_max(),
        ) {
            Err(e) => Err(e),
            Ok(h) => Ok(
                (
                    TableSource::Distribution { counts: h.counts, n: h.counts.len(), log: h.log },
                    h.size,
                ),
            ),
        },
        CompressionMode::Repeat => Err(Error::Generic),
    }
}

/// The table that a block has for a part, and how many bytes of `src` tell it.
#[verifier::opaque]
pub open spec fn block_table(
    part: SequencePart,
    mode: CompressionMode,
    src: Seq<u8>,
    before: Option<PartTable>,
) -> Result<(PartTable, nat)> {
    if mode == CompressionMode::Repeat {
        match before {
            Some(table) => Ok((table, 0)),
            None => Err(
                Error::Corruption("sequence repeat mode requires a previous FSE table"),
            ),
        }
    } else {
        match named_source(part, mode, src) {
            Ok((source, size)) => Ok((source_table(part, source), size)),
            Err(e) => Err(e),
        }
    }
}

/// The plain table of a distribution that is known to fill its table.
fn distribution_table(part: SequencePart, counts: &[i16], log: u32) -> (r: DTable)
    requires
        spread::counts_fill(counts@, counts@.len(), log as nat),
        spread::walkable(log as nat),
        counts@.len() <= part.code_max() + 1,
    ensures
        r.wf(),
        r.symbols_below(part.code_max() as nat + 1),
        fse::decodes(r, counts@, counts@.len(), log as nat),
        made_from(
            r,
            TableSource::Distribution { counts: counts@, n: counts@.len(), log: log as nat },
        ),
{
    proof {
        fse::lemma_filling_numbered(counts@, counts@.len(), log as nat);
    }
    match fse::build_dtable(counts, (counts.len() - 1) as u32, log) {
        Ok(dt) => {
            proof {
                fse::lemma_decodes_wf(dt, counts@, counts@.len(), log as nat);
                lemma_made_from_distribution(dt, counts@, counts@.len(), log as nat);
            }
            dt
        },
        Err(_) => {
            proof {
                assert(false);
            }
            fse::build_rle_dtable(0)
        },
    }
}

/// The format's own plain table of a part.
pub fn predefined_sequence_dtable(part: SequencePart) -> (r: DTable)
    ensures
        r.wf(),
        r.symbols_below(part.code_max() as nat + 1),
        fse::decodes(r, part.predefined(), part.predefined().len(), part.predefined_log()),
        plain_table(part, r) == source_table(
            part,
            TableSource::Distribution {
                counts: part.predefined(),
                n: part.predefined().len(),
                log: part.predefined_log(),
            },
        ),
{
    let (counts, log) = part.default_distribution();
    proof {
        lemma_predefined(part);
    }
    distribution_table(part, counts.as_slice(), log)
}

/// Reads where a part's table comes from and keeps the table. Returns how many
/// bytes of `src` told it. On an error nothing is kept.
pub fn decode_seq_table(
    tables: &mut PartTables,
    src: &[u8],
    part: SequencePart,
    mode: CompressionMode,
    target: TableTarget,
) -> (r: Result<usize>)
    requires
        old(tables).wf(part),
    ensures
        final(tables).wf(part),
        match block_table(part, mode, src@, old(tables).table(part)) {
            Ok((table, size)) => {
                &&& r == Ok::<usize, Error>(size as usize)
                &&& size <= src@.len()
                &&& final(tables).table(part) == Some(table)
                &&& mode == CompressionMode::Repeat ==> *final(tables) == *old(tables)
                &&& mode != CompressionMode::Repeat ==> final(tables).expanded is Some
                &&& mode != CompressionMode::Repeat && target == TableTarget::Both
                    ==> final(tables).plain_view(part) == Some(table)
                &&& mode != CompressionMode::Repeat && target == TableTarget::SequenceOnly
                    ==> final(tables).plain is None
            },
            Err(e) => r == Err::<usize, Error>(e) && *final(tables) == *old(tables),
        },
{
    proof {
        reveal(block_table);
    }
    let (dt, size): (DTable, usize) = match mode {
        CompressionMode::Predefined => (predefined_sequence_dtable(part), 0),
        CompressionMode::Rle => {
            if src.len() == 0 {
                return Err(Error::UnexpectedEof);
            }
            let symbol: u8 = src[0];
            if symbol > part.max_symbol_value() {
                return Err(
                    Error::Corruption("sequence RLE symbol exceeds the supported code range"),
                );
            }
            let dt = fse::build_rle_dtable(symbol);
            proof {
                fse::lemma_decodes_only_wf(dt, symbol);
                assert(made_from(dt, TableSource::Only { code: symbol }));
            }
            (dt, 1)
        },
        CompressionMode::FseCompressed => {
            let max_symbol: u32 = part.max_symbol_value() as u32;
            let mut normalized: Vec<i16> = vec![0i16; SYMBOLVALUE_MAX + 1];
            let header = ncount::read_ncount(
                &mut normalized,
                max_symbol,
                src,
                part.max_accuracy_log(),
            )?;
            let n: usize = header.max_symbol_value as usize + 1;
            let counts: &[i16] = &normalized.as_slice()[0..n];
            let ghost h = ncount::parse_header(
                src@,
                part.code_max() as nat + 1,
                part.log_max(),
            )->Ok_0;
            proof {
                assert(counts@ =~= h.counts);
            }
            (distribution_table(part, counts, header.table_log), header.size)
        },
        CompressionMode::Repeat => {
            if tables.plain.is_none() && tables.expanded.is_none() {
                return Err(
                    Error::Corruption("sequence repeat mode requires a previous FSE table"),
                );
            }
            return Ok(0);
        },
    };
    proof {
        lemma_plain_table_wf(part, dt);
    }
    let st = build_sequence_dtable_from(part, &dt);
    *tables = PartTables {
        plain: if target == TableTarget::Both {
            Some(dt)
        } else {
            None
        },
        expanded: Some(st),
    };
    Ok(size)
}

} // verus!
