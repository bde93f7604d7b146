//! Encoding the sequences section of a block.

use crate::entropy::bits;
use crate::entropy::fse;
use crate::entropy::fse::CTable;
use crate::entropy::hist;
use crate::entropy::normalize;
use crate::entropy::spread;
use crate::entropy::tally;
use crate::error::{Error, Result};
use crate::sequence::choice;
use crate::sequence::choice::{
    Kept,
    ParserStrategy,
    SequenceEncodingPartState,
    SequenceEncodingTable,
    SequenceRepeatMode,
};
use crate::sequence::codes;
use crate::sequence::cost;
use crate::sequence::section;
use crate::sequence::stats;
use crate::sequence::stats::SequenceCodeStats;
use crate::sequence::stream;
use crate::sequence::tables;
use crate::sequence::tables::{CompressionMode, SequencePart, TableSource};
use vstd::arithmetic::power2::*;
use vstd::prelude::*;

verus! {

/// A part's table as it was chosen and built.
pub struct SequenceTableChoice {
    pub mode: CompressionMode,
    pub header: Vec<u8>,
    pub encoding: SequenceEncodingTable,
    /// How the next block may use the table again, where it may.
    pub persist_mode: Option<SequenceRepeatMode>,
}

/// What was chosen for a part.
pub struct PartChoice {
    pub mode: CompressionMode,
    pub source: TableSource,
    pub header: Seq<u8>,
    pub keep: Option<SequenceRepeatMode>,
}

impl View for SequenceTableChoice {
    type V = PartChoice;

    open spec fn view(&self) -> PartChoice {
        PartChoice {
            mode: self.mode,
            source: self.encoding.source@,
            header: self.header@,
            keep: self.persist_mode,
        }
    }
}

impl PartChoice {
    /// What the next block finds.
    pub open spec fn kept(self) -> Option<Kept> {
        match self.keep {
            Some(mode) => Some(Kept { source: self.source, mode }),
            None => None,
        }
    }
}

/// The source of the format's own table.
pub open spec fn predefined_source(part: SequencePart) -> TableSource {
    TableSource::Distribution {
        counts: part.predefined(),
        n: part.predefined().len(),
        log: part.predefined_log(),
    }
}

/// The counts that a table is made from. The last code needs no step of its
/// own, so it counts one less unless it would then not count at all.
pub open spec fn effective_counts(codes: Seq<u8>) -> Seq<u32> {
    let counts = tally::code_counts(codes);
    let last = codes.last() as int;
    if counts[last] > 1 {
        counts.update(last, (counts[last] - 1) as u32)
    } else {
        counts
    }
}

/// How many codes the effective counts count.
pub open spec fn effective_total(codes: Seq<u8>) -> nat {
    if tally::code_counts(codes)[codes.last() as int] > 1 {
        (codes.len() - 1) as nat
    } else {
        codes.len()
    }
}

/// The table that a mode stands for, with its header.
pub open spec fn built_choice(
    part: SequencePart,
    codes: Seq<u8>,
    prev: Option<Kept>,
    mode: CompressionMode,
) -> Result<PartChoice> {
    match mode {
        CompressionMode::Predefined => Ok(
            PartChoice {
                mode,
                source: predefined_source(part),
                header: Seq::empty(),
                keep: None,
            },
        ),
        CompressionMode::Rle => {
            let code = tally::largest_code(codes) as u8;
            Ok(
                PartChoice {
                    mode,
                    source: TableSource::Only { code },
                    header: seq![code],
                    keep: None,
                },
            )
        },
        CompressionMode::Repeat => if prev is Some && prev->0.mode != SequenceRepeatMode::Never && (
        forall|i: int| 0 <= i < codes.len() ==> stream::holds_code(prev->0.source, #[trigger] codes[i])) {
            Ok(
                PartChoice {
                    mode,
                    source: prev->0.source,
                    header: Seq::empty(),
                    keep: Some(prev->0.mode),
                },
            )
        } else {
            Err(Error::Generic)
        },
        CompressionMode::FseCompressed => if codes.len() <= 1 || effective_total(codes) <= 1 {
            Err(Error::Generic)
        } else {
            let max = tally::largest_code(codes);
            match cost::fitted(part, effective_counts(codes), max, effective_total(codes)) {
                Err(e) => Err(e),
                Ok(None) => Err(Error::Generic),
                Ok(Some((norm, log))) => match cost::distribution_header(norm, log) {
                    Err(e) => Err(e),
                    Ok(header) => Ok(
                        PartChoice {
                            mode,
                            source: TableSource::Distribution { counts: norm, n: max + 1, log },
                            header,
                            keep: Some(SequenceRepeatMode::Check),
                        },
                    ),
                },
            }
        },
    }
}

/// What is chosen and built for a part.
#[verifier::opaque]
pub open spec fn part_choice(
    part: SequencePart,
    codes: Seq<u8>,
    prev: Option<Kept>,
    strategy: ParserStrategy,
) -> Result<PartChoice> {
    match choice::table_choice(part, tally::stats_of(codes), prev, strategy) {
        Err(e) => Err(e),
        Ok(mode) => built_choice(part, codes, prev, mode),
    }
}

// ---------------------------------------------------------------------------
// Building tables.

proof fn lemma_count_sum_update(counts: Seq<u32>, at: int, n: nat)
    requires
        0 <= at < counts.len(),
        counts[at] > 0,
        n <= counts.len(),
    ensures
        normalize::count_sum(counts.update(at, (counts[at] - 1) as u32), n) == if at < n {
            normalize::count_sum(counts, n) - 1
        } else {
            normalize::count_sum(counts, n) as int
        },
        at < n ==> normalize::count_sum(counts, n) >= 1,
    decreases n,
{
    if n > 0 {
        lemma_count_sum_update(counts, at, (n - 1) as nat);
    }
}

/// The effective counts add up, and count what occurs.
pub proof fn lemma_effective(codes: Seq<u8>)
    requires
        0 < codes.len() <= u32::MAX,
    ensures
        ({
            let counts = tally::code_counts(codes);
            let eff = effective_counts(codes);
            let max = tally::largest_code(codes);
            &&& eff.len() == 256
            &&& max <= 255
            &&& normalize::count_sum(eff, max + 1) == effective_total(codes)
            &&& forall|s: int| 0 <= s < 256 ==> (#[trigger] eff[s] == 0 <==> counts[s] == 0)
            &&& eff[max as int] > 0
        }),
{
    tally::lemma_stats(codes);
    let counts = tally::code_counts(codes);
    let last = codes.last() as int;
    let max = tally::largest_code(codes);
    tally::lemma_largest_code_bounds(codes, codes.len() - 1);
    hist::lemma_frequency_positive(codes, codes.len() - 1);
    if counts[last] > 1 {
        lemma_count_sum_update(counts, last, max + 1);
    }
}

/// A code that occurs is counted.
pub proof fn lemma_counted(codes: Seq<u8>, i: int)
    requires
        0 <= i < codes.len() <= u32::MAX,
    ensures
        tally::code_counts(codes)[codes[i] as int] > 0,
        codes[i] <= tally::largest_code(codes),
{
    tally::lemma_stats(codes);
    hist::lemma_frequency_positive(codes, i);
    tally::lemma_largest_code_bounds(codes, i);
    assert(tally::stats_of(codes).counts[codes[i] as int] == hist::frequency(codes, codes[i]));
}

/// A choice for codes: its table holds them, and its header tells the table.
#[verifier::opaque]
pub open spec fn sound(part: SequencePart, codes: Seq<u8>, prev: Option<Kept>, c: PartChoice) -> bool {
    &&& c.source.wf(part)
    &&& c.header.len() <= 291
    &&& forall|i: int| 0 <= i < codes.len() ==> stream::holds_code(c.source, #[trigger] codes[i])
    &&& c.keep is Some ==> c.source is Distribution
    &&& match c.mode {
        CompressionMode::Predefined => c.source == predefined_source(part) && c.header.len() == 0,
        CompressionMode::Rle => c.source matches TableSource::Only { code } && c.header == seq![
            code,
        ],
        CompressionMode::Repeat => prev is Some && c.source == prev->0.source && c.header.len()
            == 0,
        CompressionMode::FseCompressed => {
            &&& c.source matches TableSource::Distribution { counts, n, log }
            &&& n == counts.len()
            &&& 5 <= log <= part.log_max()
            &&& counts[n - 1] != 0
            &&& forall|i: int| 0 <= i < n ==> #[trigger] counts[i] >= -1
            &&& cost::distribution_header(counts, log) == Ok::<Seq<u8>, Error>(c.header)
        },
    }
}

/// What codes a table can write, as flags.
fn supported_flags(norm: &[i16], Ghost(source): Ghost<TableSource>, Ghost(log): Ghost<nat>) -> (r:
    Vec<bool>)
    requires
        norm@.len() <= 256,
        source == (TableSource::Distribution { counts: norm@, n: norm@.len(), log }),
        forall|i: int| 0 <= i < norm@.len() ==> #[trigger] norm@[i] >= -1,
    ensures
        r@.len() == 256,
        forall|s: int|
            0 <= s < 256 ==> #[trigger] r@[s] == stream::holds_code(source, s as u8),
{
    let mut flags: Vec<bool> = Vec::new();
    while flags.len() < 256
        invariant
            flags@.len() <= 256,
            norm@.len() <= 256,
            source == (TableSource::Distribution { counts: norm@, n: norm@.len(), log }),
            forall|i: int| 0 <= i < norm@.len() ==> #[trigger] norm@[i] >= -1,
            forall|s: int|
                0 <= s < flags@.len() ==> #[trigger] flags@[s] == stream::holds_code(
                    source,
                    s as u8,
                ),
        decreases 256 - flags@.len(),
    {
        let s: usize = flags.len();
        proof {
            if s < norm@.len() {
                assert(norm@[s as int] >= -1);
            }
        }
        flags.push(s < norm.len() && norm[s] != 0);
    }
    flags
}

impl SequenceEncodingTable {
    /// The table of a distribution over the first `max_symbol_value + 1`
    /// codes. Counts that take more states than there are have a table too, as
    /// long as its numbers fit; but only counts that fill the table give one to
    /// encode with.
    pub fn from_normalized_counts(
        part: SequencePart,
        normalized: &[i16],
        max_symbol_value: u32,
        table_log: u32,
    ) -> (r: Result<SequenceEncodingTable>)
        requires
            max_symbol_value <= 255 && max_symbol_value < normalized@.len() && 1 <= table_log <= 9
                && spread::deals_out(
                normalized@.take(max_symbol_value + 1),
                max_symbol_value as nat + 1,
                table_log as nat,
            ) ==> (exists|i: int| 0 <= i <= max_symbol_value && #[trigger] normalized@[i] < -1)
                || fse::placeable(
                normalized@.take(max_symbol_value + 1),
                max_symbol_value as nat + 1,
                table_log as nat,
            ),
        ensures
            ({
                let n = max_symbol_value as nat + 1;
                let counts = normalized@.take(n as int);
                if max_symbol_value > 255 || max_symbol_value >= normalized@.len() {
                    r == Err::<SequenceEncodingTable, Error>(Error::MaxSymbolValueTooLarge)
                } else if table_log == 0 {
                    r == Err::<SequenceEncodingTable, Error>(
                        Error::Corruption("FSE table log must be non-zero"),
                    )
                } else if table_log > 9 {
                    r == Err::<SequenceEncodingTable, Error>(Error::TableLogTooLarge)
                } else if exists|i: int| 0 <= i < n && #[trigger] counts[i] < -1 {
                    r == Err::<SequenceEncodingTable, Error>(
                        Error::Corruption("invalid normalized FSE count"),
                    )
                } else if spread::deals_out(counts, n, table_log as nat) {
                    let source = TableSource::Distribution { counts, n, log: table_log as nat };
                    &&& r is Ok
                    &&& r->Ok_0.source@ == source
                    &&& fse::encodes_laid_out(r->Ok_0.table, counts, n, table_log as nat)
                    &&& r->Ok_0.supported@ == Seq::new(
                        256,
                        |s: int| stream::holds_code(source, s as u8),
                    )
                    &&& max_symbol_value <= part.code_max() && spread::walkable(table_log as nat)
                        && spread::counts_fill(counts, n, table_log as nat) ==> r->Ok_0.wf(part)
                } else {
                    r == Err::<SequenceEncodingTable, Error>(Error::Generic)
                }
            }),
    {
        if max_symbol_value > 255 || max_symbol_value as usize >= normalized.len() {
            return Err(Error::MaxSymbolValueTooLarge);
        }
        let n: usize = max_symbol_value as usize + 1;
        let counts: &[i16] = &normalized[0..n];
        let ghost source = TableSource::Distribution {
            counts: counts@,
            n: n as nat,
            log: table_log as nat,
        };
        proof {
            assert(counts@ =~= normalized@.take(n as int));
            if exists|i: int| 0 <= i <= max_symbol_value && #[trigger] normalized@[i] < -1 {
                let i = choose|i: int|
                    0 <= i <= max_symbol_value && #[trigger] normalized@[i] < -1;
                assert(counts@[i] < -1);
            }
        }
        let table: CTable = fse::build_ctable(counts, max_symbol_value, table_log)?;
        let supported: Vec<bool> = supported_flags(counts, Ghost(source), Ghost(table_log as nat));
        assert(supported@ =~= Seq::new(256, |s: int| stream::holds_code(source, s as u8)));
        Ok(SequenceEncodingTable { table, supported, source: Ghost(source) })
    }

    /// The table of a distribution that is known to fill it.
    fn from_distribution(part: SequencePart, norm: &[i16], log: u32) -> (r: SequenceEncodingTable)
        requires
            0 < norm@.len() <= part.code_max() + 1,
            spread::walkable(log as nat),
            spread::counts_fill(norm@, norm@.len(), log as nat),
            forall|i: int| 0 <= i < norm@.len() ==> #[trigger] norm@[i] >= -1,
        ensures
            r.wf(part),
            r.source@ == (TableSource::Distribution {
                counts: norm@,
                n: norm@.len(),
                log: log as nat,
            }),
    {
        proof {
            assert(norm@.take(norm@.len() as int) =~= norm@);
            fse::lemma_filling_placeable(norm@, norm@.len(), log as nat);
        }
        match SequenceEncodingTable::from_normalized_counts(
            part,
            norm,
            (norm.len() - 1) as u32,
            log,
        ) {
            Ok(table) => table,
            Err(_) => {
                proof {
                    assert(false);
                }
                SequenceEncodingTable::from_code(part, 0)
            },
        }
    }

    /// The table of a single code.
    fn from_code(part: SequencePart, code: u8) -> (r: SequenceEncodingTable)
        requires
            code <= part.code_max(),
        ensures
            r.wf(part),
            r.source@ == (TableSource::Only { code }),
    {
        let table: CTable = fse::build_rle_ctable(code);
        let ghost source = TableSource::Only { code };
        let mut supported: Vec<bool> = vec![false; 256];
        supported.set(code as usize, true);
        SequenceEncodingTable { table, supported, source: Ghost(source) }
    }

    /// A table that is the same.
    pub fn duplicate(&self, Ghost(part): Ghost<SequencePart>) -> (r: SequenceEncodingTable)
        requires
            self.wf(part),
        ensures
            r.wf(part),
            r.source@ == self.source@,
    {
        let table: CTable = self.table.duplicate();
        proof {
            reveal(fse::encodes_with);
        }
        let mut supported: Vec<bool> = Vec::new();
        supported.extend_from_slice(self.supported.as_slice());
        proof {
            assert(supported@ =~= self.supported@);
        }
        SequenceEncodingTable { table, supported, source: Ghost(self.source@) }
    }
}

impl SequenceEncodingPartState {
    /// What is kept, once more.
    pub fn duplicate(&self, Ghost(part): Ghost<SequencePart>) -> (r: SequenceEncodingPartState)
        requires
            self.wf(part),
        ensures
            r.wf(part),
            r@ == self@,
    {
        SequenceEncodingPartState {
            table: self.table.duplicate(Ghost(part)),
            repeat_mode: self.repeat_mode,
        }
    }
}

/// How far a dictionary's table may be used without a look at the codes.
pub fn repeat_mode_for_normalized_counts(
    normalized: &[i16],
    dict_max_symbol_value: u32,
    required_max_symbol_value: u32,
) -> (r: SequenceRepeatMode)
    requires
        dict_max_symbol_value >= required_max_symbol_value ==> required_max_symbol_value
            < normalized@.len(),
    ensures
        r == (if dict_max_symbol_value >= required_max_symbol_value && (forall|s: int|
            0 <= s <= required_max_symbol_value ==> #[trigger] normalized@[s] != 0) {
            SequenceRepeatMode::Valid
        } else {
            SequenceRepeatMode::Check
        }),
{
    if dict_max_symbol_value < required_max_symbol_value {
        return SequenceRepeatMode::Check;
    }
    let mut s: usize = 0;
    while s <= required_max_symbol_value as usize
        invariant
            s <= required_max_symbol_value + 1,
            required_max_symbol_value < normalized@.len(),
            forall|k: int| 0 <= k < s ==> #[trigger] normalized@[k] != 0,
        decreases required_max_symbol_value + 1 - s,
    {
        if normalized[s] == 0 {
            return SequenceRepeatMode::Check;
        }
        s = s + 1;
    }
    SequenceRepeatMode::Valid
}

fn build_compressed_table_choice(
    part: SequencePart,
    codes: &[u8],
    st: &SequenceCodeStats,
    Ghost(prev): Ghost<Option<Kept>>,
) -> (r: Result<SequenceTableChoice>)
    requires
        st@ == tally::stats_of(codes@),
        0 < codes@.len() <= u32::MAX,
        st.max_symbol <= part.code_max(),
    ensures
        match built_choice(part, codes@, prev, CompressionMode::FseCompressed) {
            Err(e) => r == Err::<SequenceTableChoice, Error>(e),
            Ok(c) => r is Ok && r->Ok_0@ == c && r->Ok_0.encoding.wf(part) && sound(
                part,
                codes@,
                prev,
                c,
            ),
        },
{
    proof {
        reveal(sound);
    }
    if codes.len() <= 1 {
        return Err(Error::Generic);
    }
    let mut counts: Vec<u32> = Vec::new();
    counts.extend_from_slice(st.counts.as_slice());
    proof {
        tally::lemma_stats(codes@);
        lemma_effective(codes@);
        assert(counts@ =~= st.counts@);
    }
    let last: usize = codes[codes.len() - 1] as usize;
    let mut total: usize = codes.len();
    if counts[last] > 1 {
        let fewer: u32 = counts[last] - 1;
        counts.set(last, fewer);
        total = total - 1;
    }
    if total <= 1 {
        return Err(Error::Generic);
    }
    proof {
        assert(counts@ == effective_counts(codes@));
        assert(total == effective_total(codes@));
        cost::lemma_fitted(part, counts@, st.max_symbol as nat, total as nat);
    }
    match cost::fit_distribution(part, counts.as_slice(), st.max_symbol, total)? {
        None => Err(Error::Generic),
        Some((norm, log)) => {
            let header: Vec<u8> = cost::write_distribution(norm.as_slice(), log)?;
            let encoding = SequenceEncodingTable::from_distribution(part, norm.as_slice(), log);
            let c = SequenceTableChoice {
                mode: CompressionMode::FseCompressed,
                header,
                encoding,
                persist_mode: Some(SequenceRepeatMode::Check),
            };
            proof {
                assert forall|i: int| 0 <= i < codes@.len() implies stream::holds_code(
                    c@.source,
                    #[trigger] codes@[i],
                ) by {
                    lemma_counted(codes@, i);
                    let s = codes@[i] as int;
                    assert(effective_counts(codes@)[s] != 0);
                    assert(norm@[s] != 0);
                    assert(norm@[s] >= -1);
                }
                assert(norm@[st.max_symbol as int] != 0);
            }
            Ok(c)
        },
    }
}

/// A mode's table holds the codes: the format's own table reaches up to the
/// largest, and a single code is all of them.
pub open spec fn mode_suits(part: SequencePart, codes: Seq<u8>, mode: CompressionMode) -> bool {
    let st = tally::stats_of(codes);
    &&& mode == CompressionMode::Predefined ==> st.max < part.predefined().len()
    &&& mode == CompressionMode::Rle ==> st.most == st.total
}

/// Builds the table that a mode stands for, with its header.
pub fn build_selected_table_choice(
    part: SequencePart,
    codes: &[u8],
    previous: Option<&SequenceEncodingPartState>,
    st: &SequenceCodeStats,
    mode: CompressionMode,
) -> (r: Result<SequenceTableChoice>)
    requires
        st@ == tally::stats_of(codes@),
        0 < codes@.len() <= u32::MAX,
        st.max_symbol <= part.code_max(),
        previous matches Some(p) ==> p.wf(part),
    ensures
        match built_choice(part, codes@, choice::kept_view(previous), mode) {
            Err(e) => r == Err::<SequenceTableChoice, Error>(e),
            Ok(c) => r is Ok && r->Ok_0@ == c && r->Ok_0.encoding.wf(part) && (mode_suits(
                part,
                codes@,
                mode,
            ) ==> sound(part, codes@, choice::kept_view(previous), c)),
        },
{
    proof {
        reveal(sound);
    }
    match mode {
        CompressionMode::Predefined => {
            let (norm, log) = part.default_distribution();
            proof {
                tables::lemma_predefined(part);
            }
            let encoding = SequenceEncodingTable::from_distribution(part, norm.as_slice(), log);
            let c = SequenceTableChoice {
                mode,
                header: Vec::new(),
                encoding,
                persist_mode: None,
            };
            proof {
                if mode_suits(part, codes@, mode) {
                    assert forall|i: int| 0 <= i < codes@.len() implies stream::holds_code(
                        c@.source,
                        #[trigger] codes@[i],
                    ) by {
                        tally::lemma_largest_code_bounds(codes@, i);
                        assert(part.predefined()[codes@[i] as int] != 0);
                    }
                }
            }
            Ok(c)
        },
        CompressionMode::Rle => {
            let code: u8 = st.max_symbol;
            let mut header: Vec<u8> = Vec::new();
            header.push(code);
            proof {
                assert(header@ =~= seq![code]);
                if mode_suits(part, codes@, mode) {
                    lemma_single_code(codes@);
                }
            }
            Ok(
                SequenceTableChoice {
                    mode,
                    header,
                    encoding: SequenceEncodingTable::from_code(part, code),
                    persist_mode: None,
                },
            )
        },
        CompressionMode::Repeat => {
            match previous {
                Some(entry) => {
                    if entry.repeat_mode != SequenceRepeatMode::Never && entry.table.supports_all(
                        codes,
                        Ghost(part),
                    ) {
                        return Ok(
                            SequenceTableChoice {
                                mode,
                                header: Vec::new(),
                                encoding: entry.table.duplicate(Ghost(part)),
                                persist_mode: Some(entry.repeat_mode),
                            },
                        );
                    }
                    Err(Error::Generic)
                },
                None => Err(Error::Generic),
            }
        },
        CompressionMode::FseCompressed => build_compressed_table_choice(
            part,
            codes,
            st,
            Ghost(choice::kept_view(previous)),
        ),
    }
}

/// Where one code takes all the count, every code is that one.
proof fn lemma_single_code(codes: Seq<u8>)
    requires
        0 < codes.len() <= u32::MAX,
        tally::stats_of(codes).most == tally::stats_of(codes).total,
    ensures
        forall|i: int| 0 <= i < codes.len() ==> #[trigger] codes[i] == tally::largest_code(codes),
{
    tally::lemma_stats(codes);
    let st = tally::stats_of(codes);
    let s = tally::lemma_largest_count_at(st.counts, 256);
    assert(hist::frequency(codes, s as u8) == codes.len());
    assert forall|i: int| 0 <= i < codes.len() implies #[trigger] codes[i] == s by {
        hist::lemma_full_frequency(codes, s as u8, codes.len(), i);
    }
    let m = tally::lemma_largest_code_at(codes);
    assert(codes[m] == s);
}

/// Chooses and builds a part's table.
pub fn build_sequence_part_choice(
    part: SequencePart,
    codes: &[u8],
    previous: Option<&SequenceEncodingPartState>,
    parser_strategy: ParserStrategy,
    st: &SequenceCodeStats,
) -> (r: Result<SequenceTableChoice>)
    requires
        st@ == tally::stats_of(codes@),
        0 < codes@.len() <= u32::MAX,
        forall|i: int| 0 <= i < codes@.len() ==> #[trigger] codes@[i] <= part.code_max(),
        previous matches Some(p) ==> p.wf(part),
    ensures
        match part_choice(part, codes@, choice::kept_view(previous), parser_strategy) {
            Err(e) => r == Err::<SequenceTableChoice, Error>(e),
            Ok(c) => r is Ok && r->Ok_0@ == c && r->Ok_0.encoding.wf(part) && sound(
                part,
                codes@,
                choice::kept_view(previous),
                c,
            ),
        },
{
    proof {
        reveal(part_choice);
        let m = tally::lemma_largest_code_at(codes@);
        assert(codes@[m] <= part.code_max());
    }
    let mode = choice::select_table_choice(part, previous, parser_strategy, st, Ghost(codes@))?;
    build_selected_table_choice(part, codes, previous, st, mode)
}

} // verus!
