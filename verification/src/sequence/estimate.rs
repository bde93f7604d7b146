//! Estimating how large a block would be, to decide where to split one.

use crate::entropy::fse;
use crate::entropy::fse::CTable;
use crate::entropy::huff_compress;
use crate::entropy::huff_compress::estimate_literal_section_bytes_with_repeat;
use crate::entropy::huff_table::{CTableX1, Code};
use crate::entropy::tally;
use crate::entropy::tally::Stats;
use crate::sequence::choice;
use crate::sequence::choice::{Kept, SequenceEncodingPartState, SequenceRepeatMode};
use crate::sequence::cost;
use crate::sequence::repeat::SequenceCommand;
use crate::sequence::stats;
use crate::sequence::stats::{analyze_all_codes, extra_bits_of, SequenceCodeStats};
use crate::sequence::tables::SequencePart;
use crate::sequence::write::{KeptState, SequenceEncodingState};
use vstd::prelude::*;

verus! {

// ---------------------------------------------------------------------------
// Where literals start.

/// How many literals the first `n` sequences copy.
pub open spec fn literals_before(sequences: Seq<SequenceCommand>, n: nat) -> nat
    decreases n,
{
    if n == 0 {
        0
    } else {
        literals_before(sequences, (n - 1) as nat) + sequences[n - 1].literal_length as nat
    }
}

/// For each sequence where its literals start, and where they end in all.
pub fn build_literal_offset_table(sequences: &[SequenceCommand]) -> (r: Vec<usize>)
    requires
        literals_before(sequences@, sequences@.len()) <= usize::MAX,
    ensures
        r@.len() == sequences@.len() + 1,
        forall|i: int| 0 <= i < r@.len() ==> #[trigger] r@[i] == literals_before(sequences@, i as nat),
{
    let mut offsets: Vec<usize> = Vec::new();
    offsets.push(0);
    let mut total: usize = 0;
    let mut i: usize = 0;
    while i < sequences.len()
        invariant
            i <= sequences@.len(),
            literals_before(sequences@, sequences@.len()) <= usize::MAX,
            total == literals_before(sequences@, i as nat),
            offsets@.len() == i + 1,
            forall|k: int|
                0 <= k < offsets@.len() ==> #[trigger] offsets@[k] == literals_before(
                    sequences@,
                    k as nat,
                ),
        decreases sequences@.len() - i,
    {
        proof {
            lemma_literals_before(sequences@, (i + 1) as nat, sequences@.len());
        }
        total = total + sequences[i].literal_length as usize;
        offsets.push(total);
        i = i + 1;
    }
    offsets
}

proof fn lemma_literals_before(sequences: Seq<SequenceCommand>, m: nat, n: nat)
    requires
        m <= n,
    ensures
        literals_before(sequences, m) <= literals_before(sequences, n),
    decreases n,
{
    if m < n {
        lemma_literals_before(sequences, m, (n - 1) as nat);
    }
}

// ---------------------------------------------------------------------------
// One part.

/// The number, or the largest one there is a word for.
pub open spec fn capped(x: nat) -> nat {
    if x > u64::MAX {
        u64::MAX as nat
    } else {
        x
    }
}

fn capped_sum(a: u64, b: u64) -> (r: u64)
    ensures
        r == capped(a as nat + b as nat),
{
    if b > u64::MAX - a {
        u64::MAX
    } else {
        a + b
    }
}

/// What a part of a block's sequences is estimated to take, in bytes: its
/// codes with their extra bits, and the header of its table.
pub struct PartCost {
    pub symbols: nat,
    pub header: nat,
}

/// What the codes cost in a table made to measure, in bits; without bound where
/// there is none.
pub open spec fn fitted_cost(part: SequencePart, st: Stats) -> nat {
    match cost::fitted(part, st.counts, st.max, st.total) {
        Ok(Some((norm, log))) => cost::table_cost(norm, st.max + 1, log, st),
        _ => u64::MAX as nat,
    }
}

/// What the header and the codes of a table made to measure are expected to
/// cost, in bits; without bound where there is none.
pub open spec fn expected_cost(part: SequencePart, st: Stats) -> nat {
    match cost::header_cost(part, st) {
        Ok(header) => header * 8 + cost::entropy_cost(st),
        Err(_) => u64::MAX as nat,
    }
}

/// What a part is estimated to take: with the format's own table, with that of
/// the block before, or with one made to measure, whichever is expected to be
/// cheapest.
pub open spec fn part_cost(part: SequencePart, codes: Seq<u8>, prev: Option<Kept>) -> PartCost {
    let st = tally::stats_of(codes);
    let extra = stats::extra_width(part, codes, codes.len());
    let basic = choice::basic_cost(part, st);
    let repeat = choice::repeat_cost(st, prev);
    let expected = expected_cost(part, st);
    if st.total == 0 {
        PartCost { symbols: 0, header: 0 }
    } else if st.most == st.total {
        if st.max < part.predefined().len() && st.total <= 2 {
            PartCost { symbols: capped(basic + extra) / 8, header: 0 }
        } else {
            PartCost { symbols: extra / 8, header: 0 }
        }
    } else if basic <= repeat && basic <= expected {
        PartCost { symbols: capped(basic + extra) / 8, header: 0 }
    } else if repeat <= expected {
        PartCost { symbols: capped(repeat + extra) / 8, header: 0 }
    } else {
        PartCost {
            symbols: capped(fitted_cost(part, st) + extra) / 8,
            header: cost::header_cost(part, st)->Ok_0,
        }
    }
}

/// What a part is estimated to take, in bytes.
pub struct PartCostEstimate {
    /// Its codes and their extra bits.
    pub symbol_cost_bytes: u64,
    /// The header of its table.
    pub header_bytes: u64,
}

/// What the codes cost in a table made to measure, in bits.
fn estimate_fse_code_cost_bits(
    part: SequencePart,
    st: &SequenceCodeStats,
    Ghost(codes): Ghost<Seq<u8>>,
) -> (r: u64)
    requires
        st@ == tally::stats_of(codes),
        2 <= codes.len() <= u32::MAX,
        st.max_symbol <= part.code_max(),
    ensures
        r == fitted_cost(part, st@),
{
    proof {
        tally::lemma_stats(codes);
        cost::lemma_fitted(part, st.counts@, st.max_symbol as nat, st.total as nat);
    }
    match cost::fit_distribution(part, st.counts.as_slice(), st.max_symbol, st.total) {
        Ok(Some((norm, log))) => {
            proof {
                fse::lemma_filling_placeable(norm@, st.max_symbol as nat + 1, log as nat);
            }
            let ct: CTable = match fse::build_ctable(norm.as_slice(), st.max_symbol as u32, log) {
                Ok(ct) => ct,
                Err(_) => {
                    return u64::MAX;
                },
            };
            let ghost n = st.max_symbol as nat + 1;
            cost::sequence_table_cost_bits(
                &ct,
                st,
                Ghost(codes),
                Ghost(norm@),
                Ghost(n),
                Ghost(log as nat),
            )
        },
        _ => u64::MAX,
    }
}

/// What the codes cost in the table of the block before, in bits.
fn estimate_repeat_cost_bits(
    part: SequencePart,
    st: &SequenceCodeStats,
    previous: Option<&SequenceEncodingPartState>,
    Ghost(codes): Ghost<Seq<u8>>,
) -> (r: u64)
    requires
        st@ == tally::stats_of(codes),
        codes.len() <= u32::MAX,
        previous matches Some(p) ==> p.wf(part),
    ensures
        r == choice::repeat_cost(st@, choice::kept_view(previous)),
{
    proof {
        tally::lemma_stats(codes);
    }
    match previous {
        None => u64::MAX,
        Some(entry) => {
            if entry.repeat_mode == SequenceRepeatMode::Never
                || !entry.table.supports_all_from_stats(st, Ghost(part)) {
                return u64::MAX;
            }
            let ghost source = entry.table.source@;
            cost::sequence_table_cost_bits(
                &entry.table.table,
                st,
                Ghost(codes),
                Ghost(source->counts),
                Ghost(source->n),
                Ghost(source->log),
            )
        },
    }
}

/// Estimates what a part of a block's sequences takes.
pub fn estimate_part_cost(
    part: SequencePart,
    st: &SequenceCodeStats,
    previous: Option<&SequenceEncodingPartState>,
    Ghost(codes): Ghost<Seq<u8>>,
) -> (r: PartCostEstimate)
    requires
        st@ == tally::stats_of(codes),
        codes.len() <= u32::MAX,
        forall|i: int| 0 <= i < codes.len() ==> #[trigger] codes[i] <= part.code_max(),
        previous matches Some(p) ==> p.wf(part),
    ensures
        r.symbol_cost_bytes == part_cost(part, codes, choice::kept_view(previous)).symbols,
        r.header_bytes == part_cost(part, codes, choice::kept_view(previous)).header,
        r.symbol_cost_bytes <= u64::MAX / 8,
        r.header_bytes <= 291,
{
    if st.total == 0 {
        return PartCostEstimate { symbol_cost_bytes: 0, header_bytes: 0 };
    }
    proof {
        tally::lemma_stats(codes);
        let i = tally::lemma_largest_code_at(codes);
        assert(codes[i] <= part.code_max());
    }
    let extra: u64 = extra_bits_of(part, st, Ghost(codes));
    let basic: u64 = if part.default_allowed(st.max_symbol) {
        cost::cross_entropy_cost_bits(part, st, Ghost(codes))
    } else {
        u64::MAX
    };
    if st.most_frequent == st.total {
        if part.default_allowed(st.max_symbol) && st.total <= 2 {
            return PartCostEstimate {
                symbol_cost_bytes: capped_sum(basic, extra) / 8,
                header_bytes: 0,
            };
        }
        return PartCostEstimate { symbol_cost_bytes: extra / 8, header_bytes: 0 };
    }
    let repeat: u64 = estimate_repeat_cost_bits(part, st, previous, Ghost(codes));
    let (header, expected): (u64, u64) = match cost::ncount_cost_bytes(part, st, Ghost(codes)) {
        Ok(header) => (
            header as u64,
            header as u64 * 8 + cost::entropy_cost_bits(st, Ghost(codes)),
        ),
        Err(_) => (0, u64::MAX),
    };
    if basic <= repeat && basic <= expected {
        PartCostEstimate { symbol_cost_bytes: capped_sum(basic, extra) / 8, header_bytes: 0 }
    } else if repeat <= expected {
        PartCostEstimate { symbol_cost_bytes: capped_sum(repeat, extra) / 8, header_bytes: 0 }
    } else {
        let code_cost: u64 = estimate_fse_code_cost_bits(part, st, Ghost(codes));
        PartCostEstimate {
            symbol_cost_bytes: capped_sum(code_cost, extra) / 8,
            header_bytes: header,
        }
    }
}

// ---------------------------------------------------------------------------
// Literals.

/// What literals are estimated to take, in bytes.
pub open spec fn literal_cost(literals: Seq<u8>, prev: Option<Code>, disabled: bool) -> nat {
    let n = literals.len();
    let header: nat = if n >= 16384 {
        5
    } else if n >= 1024 {
        4
    } else {
        3
    };
    if disabled {
        n
    } else {
        match huff_compress::section_estimate(literals, prev) {
            Some(size) => header + size,
            None => header + n,
        }
    }
}

/// Estimates what literals take, in bytes.
pub fn estimate_literal_cost_bytes(
    literals: &[u8],
    previous: Option<&CTableX1>,
    literals_compression_disabled: bool,
) -> (r: u64)
    requires
        literals_compression_disabled || huff_compress::estimable(literals@),
        previous matches Some(t) ==> t.wf(),
    ensures
        r == literal_cost(
            literals@,
            huff_compress::code_of(previous),
            literals_compression_disabled,
        ),
        !literals_compression_disabled ==> r <= 0x2_0000_0000,
{
    let n: usize = literals.len();
    if literals_compression_disabled {
        return n as u64;
    }
    let header: u64 = if n >= 16384 {
        5
    } else if n >= 1024 {
        4
    } else {
        3
    };
    match estimate_literal_section_bytes_with_repeat(literals, previous) {
        Some(size) => header + size as u64,
        None => header + n as u64,
    }
}

// ---------------------------------------------------------------------------
// A block.

/// What a block is estimated to take, in bits.
pub open spec fn block_cost(
    literal_codes: Seq<u8>,
    offset_codes: Seq<u8>,
    match_codes: Seq<u8>,
    literals: Seq<u8>,
    tables: KeptState,
    prev: Option<Code>,
    disabled: bool,
) -> nat {
    let n = literal_codes.len();
    let ll = part_cost(SequencePart::LiteralLength, literal_codes, tables.ll);
    let of = part_cost(SequencePart::Offset, offset_codes, tables.of);
    let ml = part_cost(SequencePart::MatchLength, match_codes, tables.ml);
    let count: nat = if n < 128 {
        1
    } else if n < 0x7f00 {
        2
    } else {
        3
    };
    let lits = if literals.len() == 0 {
        0
    } else {
        literal_cost(literals, prev, disabled)
    };
    if n == 0 {
        literals.len() * 8 + 48
    } else {
        capped(
            8 * (ll.symbols + of.symbols + ml.symbols + ll.header + of.header + ml.header + 1
                + count + lits + 3),
        )
    }
}

/// The tables of a state that may be there.
pub open spec fn tables_of(state: Option<&SequenceEncodingState>) -> KeptState {
    match state {
        Some(s) => s@,
        None => KeptState { ll: None, of: None, ml: None },
    }
}

/// Estimates what a block takes, in bits, given the codes of its sequences, its
/// literals, and the tables of the block before.
pub fn estimate_subblock_cost_bits(
    literal_codes: &[u8],
    offset_codes: &[u8],
    match_codes: &[u8],
    literals: &[u8],
    prev_seq_tables: Option<&SequenceEncodingState>,
    prev_huf_table: Option<&CTableX1>,
    literals_compression_disabled: bool,
) -> (r: u64)
    requires
        literal_codes@.len() <= u32::MAX,
        offset_codes@.len() == literal_codes@.len(),
        match_codes@.len() == literal_codes@.len(),
        8 * literals@.len() + 48 <= u64::MAX,
        literal_codes@.len() == 0 || literals_compression_disabled || huff_compress::estimable(
            literals@,
        ),
        forall|i: int|
            0 <= i < literal_codes@.len() ==> #[trigger] literal_codes@[i]
                <= SequencePart::LiteralLength.code_max(),
        forall|i: int|
            0 <= i < offset_codes@.len() ==> #[trigger] offset_codes@[i]
                <= SequencePart::Offset.code_max(),
        forall|i: int|
            0 <= i < match_codes@.len() ==> #[trigger] match_codes@[i]
                <= SequencePart::MatchLength.code_max(),
        prev_seq_tables matches Some(s) ==> s.wf(),
        prev_huf_table matches Some(t) ==> t.wf(),
    ensures
        r == block_cost(
            literal_codes@,
            offset_codes@,
            match_codes@,
            literals@,
            tables_of(prev_seq_tables),
            huff_compress::code_of(prev_huf_table),
            literals_compression_disabled,
        ),
{
    let n: usize = literal_codes.len();
    if n == 0 {
        return literals.len() as u64 * 8 + 48;
    }
    let (ll_stats, of_stats, ml_stats) = analyze_all_codes(
        literal_codes,
        offset_codes,
        match_codes,
    );
    let (ll_prev, of_prev, ml_prev): (
        Option<&SequenceEncodingPartState>,
        Option<&SequenceEncodingPartState>,
        Option<&SequenceEncodingPartState>,
    ) = match prev_seq_tables {
        Some(state) => (
            state.literal_lengths.as_ref(),
            state.offsets.as_ref(),
            state.match_lengths.as_ref(),
        ),
        None => (None, None, None),
    };
    let ll: PartCostEstimate = estimate_part_cost(
        SequencePart::LiteralLength,
        &ll_stats,
        ll_prev,
        Ghost(literal_codes@),
    );
    let of: PartCostEstimate = estimate_part_cost(
        SequencePart::Offset,
        &of_stats,
        of_prev,
        Ghost(offset_codes@),
    );
    let ml: PartCostEstimate = estimate_part_cost(
        SequencePart::MatchLength,
        &ml_stats,
        ml_prev,
        Ghost(match_codes@),
    );
    let count: u64 = if n < 128 {
        1
    } else if n < 0x7f00 {
        2
    } else {
        3
    };
    let lits: u64 = if literals.len() == 0 {
        0
    } else {
        estimate_literal_cost_bytes(literals, prev_huf_table, literals_compression_disabled)
    };
    let total: u64 = ll.symbol_cost_bytes + of.symbol_cost_bytes + ml.symbol_cost_bytes
        + ll.header_bytes + of.header_bytes + ml.header_bytes + 1 + count + lits + 3;
    if total > u64::MAX / 8 {
        u64::MAX
    } else {
        8 * total
    }
}

} // verus!
