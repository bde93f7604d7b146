//! Choosing a table for each part of a block's sequences.

use crate::entropy::fse;
use crate::entropy::fse::CTable;
use crate::entropy::mem;
use crate::entropy::tally;
use crate::entropy::tally::Stats;
use crate::error::{Error, Result};
use crate::sequence::cost;
use crate::sequence::stats;
use crate::sequence::stats::SequenceCodeStats;
use crate::sequence::stream;
use crate::sequence::tables;
use crate::sequence::tables::{CompressionMode, SequencePart, TableSource};
use vstd::arithmetic::power2::*;
use vstd::prelude::*;

verus! {

/// Below this many sequences a quick choice keeps a valid table.
pub const FAST_SELECTOR_REPEAT_MAX_SEQUENCES: usize = 1000;

/// How hard an encoder looks for matches, in rising order.
#[derive(Debug, Clone, Copy, PartialEq, Eq, Structural)]
pub enum ParserStrategy {
    Fast,
    DoubleFast,
    Greedy,
    Lazy,
    Lazy2,
    BtLazy2,
    BtOpt,
    BtUltra,
    BtUltra2,
}

impl ParserStrategy {
    /// The strategy's place in the order, from one on.
    pub open spec fn rank(self) -> nat {
        match self {
            ParserStrategy::Fast => 1,
            ParserStrategy::DoubleFast => 2,
            ParserStrategy::Greedy => 3,
            ParserStrategy::Lazy => 4,
            ParserStrategy::Lazy2 => 5,
            ParserStrategy::BtLazy2 => 6,
            ParserStrategy::BtOpt => 7,
            ParserStrategy::BtUltra => 8,
            ParserStrategy::BtUltra2 => 9,
        }
    }

    /// The strategy's place in the order, from one on.
    pub fn zstd_rank(self) -> (r: u32)
        ensures
            r == self.rank(),
            1 <= r <= 9,
    {
        match self {
            ParserStrategy::Fast => 1,
            ParserStrategy::DoubleFast => 2,
            ParserStrategy::Greedy => 3,
            ParserStrategy::Lazy => 4,
            ParserStrategy::Lazy2 => 5,
            ParserStrategy::BtLazy2 => 6,
            ParserStrategy::BtOpt => 7,
            ParserStrategy::BtUltra => 8,
            ParserStrategy::BtUltra2 => 9,
        }
    }
}

/// Whether the next block may use a table again.
#[derive(Debug, Clone, Copy, PartialEq, Eq, Structural)]
pub enum SequenceRepeatMode {
    /// It may not.
    Never,
    /// It may where the table holds its codes.
    Check,
    /// It may, and the table holds every code.
    Valid,
}

/// A part's encode table, and which codes it can write.
pub struct SequenceEncodingTable {
    pub table: CTable,
    pub supported: Vec<bool>,
    pub source: Ghost<TableSource>,
}

impl SequenceEncodingTable {
    /// The table belongs to its source, and the supported codes are those that
    /// the source holds.
    pub open spec fn wf(self, part: SequencePart) -> bool {
        &&& stream::paired(self.table, part, self.source@)
        &&& self.supported@.len() == 256
        &&& forall|s: int|
            0 <= s < 256 ==> #[trigger] self.supported@[s] == stream::holds_code(
                self.source@,
                s as u8,
            )
    }
}

/// A part's table from the block before.
pub struct SequenceEncodingPartState {
    pub table: SequenceEncodingTable,
    pub repeat_mode: SequenceRepeatMode,
}

/// What a part's table from the block before is.
pub struct Kept {
    pub source: TableSource,
    pub mode: SequenceRepeatMode,
}

impl SequenceEncodingPartState {
    /// The table was made from a distribution.
    pub open spec fn wf(self, part: SequencePart) -> bool {
        &&& self.table.wf(part)
        &&& self.table.source@ is Distribution
    }
}

impl View for SequenceEncodingPartState {
    type V = Kept;

    open spec fn view(&self) -> Kept {
        Kept { source: self.table.source@, mode: self.repeat_mode }
    }
}

/// What is kept, where something is.
pub open spec fn kept_view(state: Option<&SequenceEncodingPartState>) -> Option<Kept> {
    match state {
        Some(s) => Some(s@),
        None => None,
    }
}

// ---------------------------------------------------------------------------
// The choice.

/// The table holds every code that occurs.
pub open spec fn holds_counted(source: TableSource, st: Stats) -> bool {
    forall|s: int|
        0 <= s <= st.max && #[trigger] st.counts[s] > 0 ==> stream::holds_code(source, s as u8)
}

/// The quick choice of strategies that look for matches quickly.
pub open spec fn quick_choice(part: SequencePart, st: Stats, prev: Option<Kept>, rank: nat) -> CompressionMode {
    let log = part.predefined_log();
    if st.max >= part.predefined().len() {
        CompressionMode::FseCompressed
    } else if prev is Some && prev->0.mode == SequenceRepeatMode::Valid && holds_counted(
        prev->0.source,
        st,
    ) && st.total < FAST_SELECTOR_REPEAT_MAX_SEQUENCES {
        CompressionMode::Repeat
    } else if st.total < pow2(log) * (10 - rank) as nat / 8 || st.most < st.total / pow2(
        (log - 1) as nat,
    ) {
        CompressionMode::Predefined
    } else {
        CompressionMode::FseCompressed
    }
}

/// What the codes cost in the table of the block before, in bits; without
/// bound where it may not be used or does not hold them.
pub open spec fn repeat_cost(st: Stats, prev: Option<Kept>) -> nat {
    match prev {
        Some(Kept { source: TableSource::Distribution { counts, n, log }, mode }) => if mode
            != SequenceRepeatMode::Never && holds_counted(
            TableSource::Distribution { counts, n, log },
            st,
        ) {
            cost::table_cost(counts, n, log, st)
        } else {
            u64::MAX as nat
        },
        _ => u64::MAX as nat,
    }
}

/// What the codes cost in the format's own table, in bits; without bound where
/// it does not hold them.
pub open spec fn basic_cost(part: SequencePart, st: Stats) -> nat {
    if st.max < part.predefined().len() {
        cost::predefined_cost(part, st)
    } else {
        u64::MAX as nat
    }
}

/// Where a part's table comes from.
pub open spec fn table_choice(
    part: SequencePart,
    st: Stats,
    prev: Option<Kept>,
    strategy: ParserStrategy,
) -> Result<CompressionMode> {
    if st.most == st.total {
        if st.max < part.predefined().len() && st.total <= 2 {
            Ok(CompressionMode::Predefined)
        } else {
            Ok(CompressionMode::Rle)
        }
    } else if strategy.rank() < ParserStrategy::Lazy.rank() {
        Ok(quick_choice(part, st, prev, strategy.rank()))
    } else {
        match cost::header_cost(part, st) {
            Err(e) => Err(e),
            Ok(header) => {
                let basic = basic_cost(part, st);
                let repeat = repeat_cost(st, prev);
                let compressed = header * 8 + cost::entropy_cost(st);
                if basic <= repeat && basic <= compressed {
                    Ok(CompressionMode::Predefined)
                } else if repeat <= compressed {
                    Ok(CompressionMode::Repeat)
                } else {
                    Ok(CompressionMode::FseCompressed)
                }
            },
        }
    }
}

impl SequenceEncodingTable {
    /// Whether the table can write every code that occurs.
    pub fn supports_all_from_stats(
        &self,
        st: &SequenceCodeStats,
        Ghost(part): Ghost<SequencePart>,
    ) -> (r: bool)
        requires
            self.wf(part),
            st.counts@.len() == 256,
        ensures
            r == holds_counted(self.source@, st@),
    {
        let mut s: usize = 0;
        while s <= st.max_symbol as usize
            invariant
                s <= st.max_symbol + 1,
                self.wf(part),
                st.counts@.len() == 256,
                forall|k: int|
                    0 <= k < s && #[trigger] st.counts@[k] > 0 ==> stream::holds_code(
                        self.source@,
                        k as u8,
                    ),
            decreases st.max_symbol + 1 - s,
        {
            if st.counts[s] > 0 && !self.supported[s] {
                proof {
                    assert(st@.counts[s as int] > 0);
                }
                return false;
            }
            s = s + 1;
        }
        true
    }

    /// Whether the table can write every code.
    pub fn supports_all(&self, codes: &[u8], Ghost(part): Ghost<SequencePart>) -> (r: bool)
        requires
            self.wf(part),
        ensures
            r == forall|i: int|
                0 <= i < codes@.len() ==> stream::holds_code(self.source@, #[trigger] codes@[i]),
    {
        let mut i: usize = 0;
        while i < codes.len()
            invariant
                i <= codes@.len(),
                self.wf(part),
                forall|k: int|
                    0 <= k < i ==> stream::holds_code(self.source@, #[trigger] codes@[k]),
            decreases codes@.len() - i,
        {
            if !self.supported[codes[i] as usize] {
                proof {
                    assert(!stream::holds_code(self.source@, codes@[i as int]));
                }
                return false;
            }
            i = i + 1;
        }
        true
    }
}

fn select_table_choice_fast_path(
    part: SequencePart,
    previous: Option<&SequenceEncodingPartState>,
    rank: u32,
    st: &SequenceCodeStats,
) -> (r: CompressionMode)
    requires
        rank <= 3,
        st.counts@.len() == 256,
        previous matches Some(p) ==> p.wf(part),
    ensures
        r == quick_choice(part, st@, kept_view(previous), rank as nat),
{
    if !part.default_allowed(st.max_symbol) {
        return CompressionMode::FseCompressed;
    }
    if let Some(entry) = previous {
        if entry.repeat_mode == SequenceRepeatMode::Valid && entry.table.supports_all_from_stats(
            st,
            Ghost(part),
        ) && st.total < FAST_SELECTOR_REPEAT_MAX_SEQUENCES {
            return CompressionMode::Repeat;
        }
    }
    let (_, default_log) = part.default_distribution();
    proof {
        lemma2_to64();
    }
    let size: usize = mem::power_of_two(default_log) as usize;
    let half: usize = mem::power_of_two(default_log - 1) as usize;
    let factor: usize = (10 - rank) as usize;
    assert(0 <= size * factor <= 640) by (nonlinear_arith)
        requires
            0 <= size <= 64,
            0 <= factor <= 10,
    ;
    let least: usize = size * factor / 8;
    if st.total < least || st.most_frequent < st.total / half {
        return CompressionMode::Predefined;
    }
    CompressionMode::FseCompressed
}

/// Chooses where a part's table comes from.
pub fn select_table_choice(
    part: SequencePart,
    previous: Option<&SequenceEncodingPartState>,
    parser_strategy: ParserStrategy,
    st: &SequenceCodeStats,
    Ghost(codes): Ghost<Seq<u8>>,
) -> (r: Result<CompressionMode>)
    requires
        st@ == tally::stats_of(codes),
        0 < codes.len() <= u32::MAX,
        st.max_symbol <= part.code_max(),
        previous matches Some(p) ==> p.wf(part),
    ensures
        r == table_choice(part, st@, kept_view(previous), parser_strategy),
        r == Ok::<CompressionMode, Error>(CompressionMode::Predefined) ==> st.max_symbol
            < part.predefined().len(),
        r == Ok::<CompressionMode, Error>(CompressionMode::Rle) ==> st.most_frequent == st.total,
        r == Ok::<CompressionMode, Error>(CompressionMode::Repeat) ==> previous is Some
            && previous->0.repeat_mode != SequenceRepeatMode::Never && holds_counted(
            previous->0.table.source@,
            st@,
        ),
        r == Ok::<CompressionMode, Error>(CompressionMode::FseCompressed) ==> st.most_frequent
            < st.total,
{
    proof {
        tally::lemma_stats(codes);
    }
    if st.most_frequent == st.total {
        if part.default_allowed(st.max_symbol) && st.total <= 2 {
            return Ok(CompressionMode::Predefined);
        }
        return Ok(CompressionMode::Rle);
    }
    let rank: u32 = parser_strategy.zstd_rank();
    if rank < 4 {
        return Ok(select_table_choice_fast_path(part, previous, rank, st));
    }
    let basic: u64 = if part.default_allowed(st.max_symbol) {
        cost::cross_entropy_cost_bits(part, st, Ghost(codes))
    } else {
        u64::MAX
    };
    let mut repeat: u64 = u64::MAX;
    if let Some(entry) = previous {
        if entry.repeat_mode != SequenceRepeatMode::Never && entry.table.supports_all_from_stats(
            st,
            Ghost(part),
        ) {
            let ghost source = entry.table.source@;
            repeat =
            cost::sequence_table_cost_bits(
                &entry.table.table,
                st,
                Ghost(codes),
                Ghost(source->counts),
                Ghost(source->n),
                Ghost(source->log),
            );
        }
    }
    let header: usize = cost::ncount_cost_bytes(part, st, Ghost(codes))?;
    let compressed: u64 = header as u64 * 8 + cost::entropy_cost_bits(st, Ghost(codes));
    if basic <= repeat && basic <= compressed {
        return Ok(CompressionMode::Predefined);
    }
    if repeat <= compressed {
        return Ok(CompressionMode::Repeat);
    }
    Ok(CompressionMode::FseCompressed)
}

} // verus!
