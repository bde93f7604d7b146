//! Writing the sequences section of a block, and reading it back.

use crate::entropy::bits;
use crate::entropy::ncount;
use crate::entropy::ncount_laws;
use crate::error::{Error, Result};
use crate::outbuf::OutBuf;
use crate::sequence::choice;
use crate::sequence::choice::{Kept, ParserStrategy, SequenceEncodingPartState};
use crate::sequence::codes;
use crate::sequence::codes::EncodedSequence;
use crate::sequence::decode;
use crate::sequence::encode;
use crate::sequence::encode::{PartChoice, SequenceTableChoice};
use crate::sequence::repeat::SequenceCommand;
use crate::sequence::section;
use crate::sequence::section::{
    KeptTables, SectionHeader, COUNTABLE_SEQUENCES, SEQUENCE_COUNT_END,
};
use crate::sequence::stats;
use crate::sequence::stream;
use crate::sequence::stream::{EncodeTables, Sources};
use crate::sequence::tables;
use crate::sequence::tables::{
    CompressionMode,
    PartTable,
    SequenceCompressionModes,
    SequencePart,
    TableSource,
};
use vstd::prelude::*;

verus! {

/// No section is longer than this.
pub const SECTION_SIZE_MAX: usize = 0x20_0000;

/// The tables that an encoder keeps from block to block.
pub struct SequenceEncodingState {
    pub literal_lengths: Option<SequenceEncodingPartState>,
    pub offsets: Option<SequenceEncodingPartState>,
    pub match_lengths: Option<SequenceEncodingPartState>,
}

/// What an encoder keeps from block to block.
pub struct KeptState {
    pub ll: Option<Kept>,
    pub of: Option<Kept>,
    pub ml: Option<Kept>,
}

/// What is kept of a part.
pub open spec fn part_view(state: Option<SequenceEncodingPartState>) -> Option<Kept> {
    match state {
        Some(s) => Some(s@),
        None => None,
    }
}

impl View for SequenceEncodingState {
    type V = KeptState;

    open spec fn view(&self) -> KeptState {
        KeptState {
            ll: part_view(self.literal_lengths),
            of: part_view(self.offsets),
            ml: part_view(self.match_lengths),
        }
    }
}

impl SequenceEncodingState {
    /// Every table is a table of its part.
    pub open spec fn wf(self) -> bool {
        &&& self.literal_lengths matches Some(p) ==> p.wf(SequencePart::LiteralLength)
        &&& self.offsets matches Some(p) ==> p.wf(SequencePart::Offset)
        &&& self.match_lengths matches Some(p) ==> p.wf(SequencePart::MatchLength)
    }

    /// The tables of the parts.
    pub fn with_states(
        literal_lengths: Option<SequenceEncodingPartState>,
        offsets: Option<SequenceEncodingPartState>,
        match_lengths: Option<SequenceEncodingPartState>,
    ) -> (r: SequenceEncodingState)
        ensures
            r.literal_lengths == literal_lengths,
            r.offsets == offsets,
            r.match_lengths == match_lengths,
    {
        SequenceEncodingState { literal_lengths, offsets, match_lengths }
    }

    /// The table of a part.
    pub fn entry(&self, part: SequencePart) -> (r: Option<&SequenceEncodingPartState>)
        requires
            self.wf(),
        ensures
            r matches Some(p) ==> p.wf(part),
            choice::kept_view(r) == (match part {
                SequencePart::LiteralLength => self@.ll,
                SequencePart::Offset => self@.of,
                SequencePart::MatchLength => self@.ml,
            }),
    {
        match part {
            SequencePart::LiteralLength => self.literal_lengths.as_ref(),
            SequencePart::Offset => self.offsets.as_ref(),
            SequencePart::MatchLength => self.match_lengths.as_ref(),
        }
    }

    /// The same tables once more.
    pub fn duplicate(&self) -> (r: SequenceEncodingState)
        requires
            self.wf(),
        ensures
            r.wf(),
            r@ == self@,
    {
        SequenceEncodingState {
            literal_lengths: match &self.literal_lengths {
                Some(p) => Some(p.duplicate(Ghost(SequencePart::LiteralLength))),
                None => None,
            },
            offsets: match &self.offsets {
                Some(p) => Some(p.duplicate(Ghost(SequencePart::Offset))),
                None => None,
            },
            match_lengths: match &self.match_lengths {
                Some(p) => Some(p.duplicate(Ghost(SequencePart::MatchLength))),
                None => None,
            },
        }
    }
}

impl Default for SequenceEncodingState {
    /// No tables.
    fn default() -> (r: SequenceEncodingState)
        ensures
            r.wf(),
            r@ == (KeptState { ll: None, of: None, ml: None }),
    {
        SequenceEncodingState { literal_lengths: None, offsets: None, match_lengths: None }
    }
}

/// The codes and extra bits of a block's sequences.
pub struct SequenceEncodeScratch {
    pub encoded: Vec<EncodedSequence>,
    pub literal_codes: Vec<u8>,
    pub offset_codes: Vec<u8>,
    pub match_codes: Vec<u8>,
}

impl SequenceEncodeScratch {
    /// The codes are those of the coded sequences, which are well formed.
    pub open spec fn wf(self) -> bool {
        &&& self.literal_codes@ == stats::part_codes(SequencePart::LiteralLength, self.encoded@)
        &&& self.offset_codes@ == stats::part_codes(SequencePart::Offset, self.encoded@)
        &&& self.match_codes@ == stats::part_codes(SequencePart::MatchLength, self.encoded@)
        &&& forall|i: int| 0 <= i < self.encoded@.len() ==> (#[trigger] self.encoded@[i]).wf()
    }
}

impl Default for SequenceEncodeScratch {
    fn default() -> (r: SequenceEncodeScratch)
        ensures
            r.wf(),
            r.encoded@.len() == 0,
    {
        let r = SequenceEncodeScratch {
            encoded: Vec::new(),
            literal_codes: Vec::new(),
            offset_codes: Vec::new(),
            match_codes: Vec::new(),
        };
        proof {
            assert(r.literal_codes@ =~= stats::part_codes(
                SequencePart::LiteralLength,
                r.encoded@,
            ));
            assert(r.offset_codes@ =~= stats::part_codes(SequencePart::Offset, r.encoded@));
            assert(r.match_codes@ =~= stats::part_codes(SequencePart::MatchLength, r.encoded@));
        }
        r
    }
}

/// The error of the first sequence that has no codes.
pub open spec fn first_coding_error(sequences: Seq<SequenceCommand>) -> Option<Error>
    decreases sequences.len(),
{
    if sequences.len() == 0 {
        None
    } else if !codes::encodable(sequences[0]) {
        Some(codes::coding_error(sequences[0]))
    } else {
        first_coding_error(sequences.drop_first())
    }
}

/// Codes a block's sequences. An error leaves the codes of the sequences before
/// the one that has none.
pub fn prepare_sequence_encode_scratch(
    sequences: &[SequenceCommand],
    scratch: &mut SequenceEncodeScratch,
) -> (r: Result<()>)
    ensures
        final(scratch).wf(),
        match first_coding_error(sequences@) {
            Some(e) => {
                &&& r == Err::<(), Error>(e)
                &&& exists|k: int|
                    0 <= k < sequences@.len() && !codes::encodable(sequences@[k])
                        && stream::all_encodable(#[trigger] sequences@.take(k))
                        && final(scratch).encoded@ == stream::all_coded(sequences@.take(k))
            },
            None => {
                &&& r == Ok::<(), Error>(())
                &&& final(scratch).encoded@ == stream::all_coded(sequences@)
                &&& stream::all_encodable(sequences@)
            },
        },
{
    scratch.encoded.clear();
    scratch.literal_codes.clear();
    scratch.offset_codes.clear();
    scratch.match_codes.clear();
    let mut i: usize = 0;
    proof {
        assert(sequences@.skip(0) =~= sequences@);
        assert(scratch.literal_codes@ =~= stats::part_codes(
            SequencePart::LiteralLength,
            scratch.encoded@,
        ));
        assert(scratch.offset_codes@ =~= stats::part_codes(SequencePart::Offset, scratch.encoded@));
        assert(scratch.match_codes@ =~= stats::part_codes(
            SequencePart::MatchLength,
            scratch.encoded@,
        ));
        assert(scratch.encoded@ =~= stream::all_coded(sequences@.take(0)));
    }
    while i < sequences.len()
        invariant
            i <= sequences@.len(),
            scratch.wf(),
            scratch.encoded@ == stream::all_coded(sequences@.take(i as int)),
            stream::all_encodable(sequences@.take(i as int)),
            first_coding_error(sequences@) == first_coding_error(sequences@.skip(i as int)),
        decreases sequences@.len() - i,
    {
        let ghost rest = sequences@.skip(i as int);
        proof {
            assert(rest[0] == sequences@[i as int]);
            assert(rest.drop_first() =~= sequences@.skip(i as int + 1));
        }
        let e = codes::encode_sequence_command(&sequences[i])?;
        scratch.encoded.push(e);
        scratch.literal_codes.push(e.ll_code);
        scratch.offset_codes.push(e.of_code);
        scratch.match_codes.push(e.ml_code);
        proof {
            codes::law_sequence_code_roundtrip(sequences@[i as int]);
            assert(sequences@.take(i as int + 1) =~= sequences@.take(i as int).push(
                sequences@[i as int],
            ));
            assert(scratch.encoded@ =~= stream::all_coded(sequences@.take(i as int + 1)));
            assert(scratch.literal_codes@ =~= stats::part_codes(
                SequencePart::LiteralLength,
                scratch.encoded@,
            ));
            assert(scratch.offset_codes@ =~= stats::part_codes(
                SequencePart::Offset,
                scratch.encoded@,
            ));
            assert(scratch.match_codes@ =~= stats::part_codes(
                SequencePart::MatchLength,
                scratch.encoded@,
            ));
        }
        i = i + 1;
    }
    proof {
        assert(sequences@.take(i as int) =~= sequences@);
    }
    Ok(())
}

// ---------------------------------------------------------------------------
// The plan of a section.

/// What is chosen for the three parts.
pub struct SectionPlan {
    pub ll: PartChoice,
    pub of: PartChoice,
    pub ml: PartChoice,
}

impl SectionPlan {
    /// The sources of the three tables.
    pub open spec fn sources(self) -> Sources {
        Sources { ll: self.ll.source, of: self.of.source, ml: self.ml.source }
    }

    /// The modes of the three tables.
    pub open spec fn modes(self) -> SequenceCompressionModes {
        SequenceCompressionModes {
            literal_lengths: self.ll.mode,
            offsets: self.of.mode,
            match_lengths: self.ml.mode,
        }
    }

    /// What the next block finds.
    pub open spec fn next(self) -> KeptState {
        KeptState { ll: self.ll.kept(), of: self.of.kept(), ml: self.ml.kept() }
    }

    /// The section's header.
    pub open spec fn header(self, n: nat) -> Seq<u8> {
        section::sequence_count_bytes(n) + seq![section::modes_byte(self.modes())] + self.ll.header
            + self.of.header + self.ml.header
    }

    /// The header of the last part that has a distribution of its own.
    pub open spec fn last_count_size(self) -> nat {
        if self.ml.mode == CompressionMode::FseCompressed {
            self.ml.header.len()
        } else if self.of.mode == CompressionMode::FseCompressed {
            self.of.header.len()
        } else if self.ll.mode == CompressionMode::FseCompressed {
            self.ll.header.len()
        } else {
            0
        }
    }
}

/// What is chosen for the parts of coded sequences.
pub open spec fn section_plan(
    sequences: Seq<EncodedSequence>,
    state: KeptState,
    strategy: ParserStrategy,
) -> Result<SectionPlan> {
    match encode::part_choice(
        SequencePart::LiteralLength,
        stats::part_codes(SequencePart::LiteralLength, sequences),
        state.ll,
        strategy,
    ) {
        Err(e) => Err(e),
        Ok(ll) => match encode::part_choice(
            SequencePart::Offset,
            stats::part_codes(SequencePart::Offset, sequences),
            state.of,
            strategy,
        ) {
            Err(e) => Err(e),
            Ok(of) => match encode::part_choice(
                SequencePart::MatchLength,
                stats::part_codes(SequencePart::MatchLength, sequences),
                state.ml,
                strategy,
            ) {
                Err(e) => Err(e),
                Ok(ml) => Ok(SectionPlan { ll, of, ml }),
            },
        },
    }
}

/// Every choice of the plan is sound.
pub open spec fn plan_sound(plan: SectionPlan, sequences: Seq<EncodedSequence>, state: KeptState) -> bool {
    &&& encode::sound(
        SequencePart::LiteralLength,
        stats::part_codes(SequencePart::LiteralLength, sequences),
        state.ll,
        plan.ll,
    )
    &&& encode::sound(
        SequencePart::Offset,
        stats::part_codes(SequencePart::Offset, sequences),
        state.of,
        plan.of,
    )
    &&& encode::sound(
        SequencePart::MatchLength,
        stats::part_codes(SequencePart::MatchLength, sequences),
        state.ml,
        plan.ml,
    )
}

/// What a section turned out to be.
#[derive(Debug, Clone, Copy, PartialEq, Eq, Structural)]
pub struct SequenceSectionStats {
    pub header_size: usize,
    pub bitstream_size: usize,
    pub last_count_size: usize,
    pub modes: Option<SequenceCompressionModes>,
}

/// The tables of a section, built.
pub struct SequenceStatisticsBuild {
    pub literal_choice: SequenceTableChoice,
    pub offset_choice: SequenceTableChoice,
    pub match_choice: SequenceTableChoice,
    pub stats: SequenceSectionStats,
    /// How many extra bits the sequences have.
    pub extra_bits: usize,
}

impl SequenceStatisticsBuild {
    /// The plan that was built.
    pub open spec fn plan(self) -> SectionPlan {
        SectionPlan { ll: self.literal_choice@, of: self.offset_choice@, ml: self.match_choice@ }
    }

    /// Every table is a table of its part.
    pub open spec fn wf(self) -> bool {
        &&& self.literal_choice.encoding.wf(SequencePart::LiteralLength)
        &&& self.offset_choice.encoding.wf(SequencePart::Offset)
        &&& self.match_choice.encoding.wf(SequencePart::MatchLength)
    }
}

/// The size of the header of the last part that has a distribution of its own.
pub fn last_compressed_count_size(
    literal_choice: &SequenceTableChoice,
    offset_choice: &SequenceTableChoice,
    match_choice: &SequenceTableChoice,
) -> (r: usize)
    ensures
        r == (SectionPlan {
            ll: literal_choice@,
            of: offset_choice@,
            ml: match_choice@,
        }).last_count_size(),
{
    if match_choice.mode == CompressionMode::FseCompressed {
        match_choice.header.len()
    } else if offset_choice.mode == CompressionMode::FseCompressed {
        offset_choice.header.len()
    } else if literal_choice.mode == CompressionMode::FseCompressed {
        literal_choice.header.len()
    } else {
        0
    }
}

/// Chooses and builds the tables of a section.
pub fn build_sequences_statistics(
    scratch: &SequenceEncodeScratch,
    state: &SequenceEncodingState,
    parser_strategy: ParserStrategy,
) -> (r: Result<SequenceStatisticsBuild>)
    requires
        scratch.wf(),
        state.wf(),
        0 < scratch.encoded@.len() <= COUNTABLE_SEQUENCES,
    ensures
        match section_plan(scratch.encoded@, state@, parser_strategy) {
            Err(e) => r == Err::<SequenceStatisticsBuild, Error>(e),
            Ok(plan) => {
                &&& r matches Ok(b)
                &&& b.plan() == plan
                &&& b.wf()
                &&& plan_sound(plan, scratch.encoded@, state@)
                &&& b.extra_bits == stream::extra_bits(scratch.encoded@)
                &&& b.extra_bits <= 64 * scratch.encoded@.len()
                &&& b.stats.header_size == plan.header(scratch.encoded@.len()).len()
                &&& b.stats.header_size <= 1000
                &&& b.stats.bitstream_size == 0
                &&& b.stats.last_count_size == plan.last_count_size()
                &&& b.stats.modes == Some(plan.modes())
            },
        },
{
    let n: usize = scratch.encoded.len();
    let ghost coded = scratch.encoded@;
    proof {
        assert forall|i: int| 0 <= i < n implies {
            &&& (#[trigger] scratch.literal_codes@[i]) <= codes::LITERAL_LENGTH_CODE_MAX
        } by {
            assert(coded[i].wf());
        }
        assert forall|i: int| 0 <= i < n implies (#[trigger] scratch.offset_codes@[i])
            <= codes::OFFSET_CODE_MAX by {
            assert(coded[i].wf());
        }
        assert forall|i: int| 0 <= i < n implies (#[trigger] scratch.match_codes@[i])
            <= codes::MATCH_LENGTH_CODE_MAX by {
            assert(coded[i].wf());
        }
    }
    let (ll_stats, of_stats, ml_stats) = stats::analyze_all_codes(
        scratch.literal_codes.as_slice(),
        scratch.offset_codes.as_slice(),
        scratch.match_codes.as_slice(),
    );
    let literal_choice = encode::build_sequence_part_choice(
        SequencePart::LiteralLength,
        scratch.literal_codes.as_slice(),
        state.entry(SequencePart::LiteralLength),
        parser_strategy,
        &ll_stats,
    )?;
    let offset_choice = encode::build_sequence_part_choice(
        SequencePart::Offset,
        scratch.offset_codes.as_slice(),
        state.entry(SequencePart::Offset),
        parser_strategy,
        &of_stats,
    )?;
    let match_choice = encode::build_sequence_part_choice(
        SequencePart::MatchLength,
        scratch.match_codes.as_slice(),
        state.entry(SequencePart::MatchLength),
        parser_strategy,
        &ml_stats,
    )?;
    proof {
        reveal(encode::sound);
    }
    let modes = SequenceCompressionModes {
        literal_lengths: literal_choice.mode,
        offsets: offset_choice.mode,
        match_lengths: match_choice.mode,
    };
    let header_size: usize = section::encoded_sequence_count_size(n) + 1
        + literal_choice.header.len() + offset_choice.header.len() + match_choice.header.len();
    let last_count_size: usize = last_compressed_count_size(
        &literal_choice,
        &offset_choice,
        &match_choice,
    );
    let ll_extra: u64 = stats::extra_bits_of(
        SequencePart::LiteralLength,
        &ll_stats,
        Ghost(scratch.literal_codes@),
    );
    let ml_extra: u64 = stats::extra_bits_of(
        SequencePart::MatchLength,
        &ml_stats,
        Ghost(scratch.match_codes@),
    );
    let of_extra: u64 = stats::extra_bits_of(
        SequencePart::Offset,
        &of_stats,
        Ghost(scratch.offset_codes@),
    );
    proof {
        stats::lemma_extra_bits_by_part(coded);
        stats::lemma_extra_width_bound(
            SequencePart::LiteralLength,
            scratch.literal_codes@,
            n as nat,
        );
        stats::lemma_extra_width_bound(SequencePart::MatchLength, scratch.match_codes@, n as nat);
        stats::lemma_extra_width_bound(SequencePart::Offset, scratch.offset_codes@, n as nat);
    }
    Ok(
        SequenceStatisticsBuild {
            literal_choice,
            offset_choice,
            match_choice,
            stats: SequenceSectionStats {
                header_size,
                bitstream_size: 0,
                last_count_size,
                modes: Some(modes),
            },
            extra_bits: (ll_extra + ml_extra + of_extra) as usize,
        },
    )
}

// ---------------------------------------------------------------------------
// The section.

/// The bytes of a section: its header, then the bit stream that the tables of
/// its sources write.
pub open spec fn section_bytes(
    bytes: Seq<u8>,
    plan: SectionPlan,
    sequences: Seq<EncodedSequence>,
) -> bool {
    exists|ct: EncodeTables| #[trigger]
        plan.sources().paired(ct) && bytes == plan.header(sequences.len()) + bits::marked_bytes(
            stream::stream_encoding(ct, sequences),
        )
}

/// A plan has one section.
pub proof fn law_plan_determines_the_section(
    plan: SectionPlan,
    sequences: Seq<EncodedSequence>,
    a: Seq<u8>,
    b: Seq<u8>,
)
    requires
        section_bytes(a, plan, sequences),
        section_bytes(b, plan, sequences),
    ensures
        a == b,
{
    let ta = choose|ct: EncodeTables| #[trigger]
        plan.sources().paired(ct) && a == plan.header(sequences.len()) + bits::marked_bytes(
            stream::stream_encoding(ct, sequences),
        );
    let tb = choose|ct: EncodeTables| #[trigger]
        plan.sources().paired(ct) && b == plan.header(sequences.len()) + bits::marked_bytes(
            stream::stream_encoding(ct, sequences),
        );
    stream::law_sources_determine_the_stream(plan.sources(), ta, tb, sequences);
}

/// The plan's tables hold the codes of the sequences.
pub proof fn lemma_plan_holds(plan: SectionPlan, sequences: Seq<EncodedSequence>, state: KeptState)
    requires
        plan_sound(plan, sequences, state),
    ensures
        plan.sources().hold(sequences),
{
    reveal(encode::sound);
    let ll = stats::part_codes(SequencePart::LiteralLength, sequences);
    let of = stats::part_codes(SequencePart::Offset, sequences);
    let ml = stats::part_codes(SequencePart::MatchLength, sequences);
    assert forall|i: int| 0 <= i < sequences.len() implies {
        &&& stream::holds_code(plan.sources().ll, (#[trigger] sequences[i]).ll_code)
        &&& stream::holds_code(plan.sources().of, sequences[i].of_code)
        &&& stream::holds_code(plan.sources().ml, sequences[i].ml_code)
    } by {
        assert(stream::holds_code(plan.ll.source, ll[i]));
        assert(stream::holds_code(plan.of.source, of[i]));
        assert(stream::holds_code(plan.ml.source, ml[i]));
    }
}

/// Writes a section from coded sequences. Returns it with what the next block
/// finds.
pub fn encode_prepared_sequence_section(
    state: &SequenceEncodingState,
    parser_strategy: ParserStrategy,
    scratch: &SequenceEncodeScratch,
) -> (r: Result<(Vec<u8>, SequenceEncodingState, SequenceSectionStats)>)
    requires
        scratch.wf(),
        state.wf(),
    ensures
        r matches Ok(out) ==> out.1.wf() && out.0@.len() <= SECTION_SIZE_MAX,
        scratch.encoded@.len() == 0 ==> (r matches Ok(out) && out.0@ == seq![0u8] && out.1@
            == state@ && out.2 == (SequenceSectionStats {
            header_size: 0,
            bitstream_size: 0,
            last_count_size: 0,
            modes: None,
        })),
        scratch.encoded@.len() >= SEQUENCE_COUNT_END ==> r == Err::<
            (Vec<u8>, SequenceEncodingState, SequenceSectionStats),
            Error,
        >(Error::InvalidParameter("too many sequences in one block")),
        0 < scratch.encoded@.len() < SEQUENCE_COUNT_END ==> match section_plan(
            scratch.encoded@,
            state@,
            parser_strategy,
        ) {
            Err(e) => r == Err::<(Vec<u8>, SequenceEncodingState, SequenceSectionStats), Error>(e),
            Ok(plan) => {
                &&& r matches Ok(out)
                &&& section_bytes(out.0@, plan, scratch.encoded@)
                &&& plan_sound(plan, scratch.encoded@, state@)
                &&& out.1@ == plan.next()
                &&& out.2.header_size == plan.header(scratch.encoded@.len()).len()
                &&& out.2.bitstream_size == out.0@.len() - out.2.header_size
                &&& out.2.last_count_size == plan.last_count_size()
                &&& out.2.modes == Some(plan.modes())
            },
        },
{
    let n: usize = scratch.encoded.len();
    if n == 0 {
        let mut empty: Vec<u8> = Vec::new();
        empty.push(0);
        proof {
            assert(empty@ =~= seq![0u8]);
        }
        return Ok(
            (
                empty,
                state.duplicate(),
                SequenceSectionStats {
                    header_size: 0,
                    bitstream_size: 0,
                    last_count_size: 0,
                    modes: None,
                },
            ),
        );
    }
    if n >= SEQUENCE_COUNT_END {
        return Err(Error::InvalidParameter("too many sequences in one block"));
    }
    let build = build_sequences_statistics(scratch, state, parser_strategy)?;
    let ghost plan = build.plan();
    let ghost ct = EncodeTables {
        ll: build.literal_choice.encoding.table,
        of: build.offset_choice.encoding.table,
        ml: build.match_choice.encoding.table,
    };
    proof {
        lemma_plan_holds(plan, scratch.encoded@, state@);
        stream::lemma_paired_wf(ct, plan.sources());
        stream::lemma_stream_fits(
            ct,
            plan.sources(),
            scratch.encoded@,
            build.extra_bits as nat,
        );
        stream::lemma_codes_known(ct, plan.sources(), scratch.encoded@);
    }
    let stream: Vec<u8> = stream::encode_sequence_bitstream(
        scratch.encoded.as_slice(),
        build.extra_bits,
        &build.literal_choice.encoding.table,
        &build.offset_choice.encoding.table,
        &build.match_choice.encoding.table,
    )?;
    let mut out: Vec<u8> = section::encode_sequence_count(n)?;
    let modes: u8 = build.literal_choice.mode.bits() * 64 + build.offset_choice.mode.bits() * 16
        + build.match_choice.mode.bits() * 4;
    out.push(modes);
    out.extend_from_slice(build.literal_choice.header.as_slice());
    out.extend_from_slice(build.offset_choice.header.as_slice());
    out.extend_from_slice(build.match_choice.header.as_slice());
    let ghost header = out@;
    proof {
        assert(header =~= plan.header(n as nat));
    }
    out.extend_from_slice(stream.as_slice());
    proof {
        assert(out@ =~= header + stream@);
        assert(plan.sources().paired(ct));
    }
    let stats = SequenceSectionStats {
        header_size: build.stats.header_size,
        bitstream_size: stream.len(),
        last_count_size: build.stats.last_count_size,
        modes: build.stats.modes,
    };
    proof {
        reveal(encode::sound);
    }
    let next = SequenceEncodingState {
        literal_lengths: into_part_state(build.literal_choice),
        offsets: into_part_state(build.offset_choice),
        match_lengths: into_part_state(build.match_choice),
    };
    Ok((out, next, stats))
}

/// What the next block finds of a choice.
fn into_part_state(choice: SequenceTableChoice) -> (r: Option<SequenceEncodingPartState>)
    ensures
        part_view(r) == choice@.kept(),
        r matches Some(p) ==> p.table == choice.encoding,
{
    match choice.persist_mode {
        Some(mode) => Some(
            SequenceEncodingPartState { table: choice.encoding, repeat_mode: mode },
        ),
        None => None,
    }
}

/// The error of sequences that cannot be written in one section.
pub open spec fn section_input_error(sequences: Seq<SequenceCommand>) -> Option<Error> {
    match first_coding_error(sequences) {
        Some(e) => Some(e),
        None => if sequences.len() >= SEQUENCE_COUNT_END {
            Some(Error::InvalidParameter("too many sequences in one block"))
        } else {
            None
        },
    }
}

/// Writes a section. Returns it with what the next block finds.
pub fn encode_sequence_section_with_strategy(
    sequences: &[SequenceCommand],
    state: &SequenceEncodingState,
    parser_strategy: ParserStrategy,
) -> (r: Result<(Vec<u8>, SequenceEncodingState)>)
    requires
        state.wf(),
    ensures
        r matches Ok(out) ==> out.1.wf(),
        sequences@.len() == 0 ==> (r matches Ok(out) && out.0@ == seq![0u8] && out.1@ == state@),
        sequences@.len() > 0 ==> match section_input_error(sequences@) {
            Some(e) => r == Err::<(Vec<u8>, SequenceEncodingState), Error>(e),
            None => match section_plan(
                stream::all_coded(sequences@),
                state@,
                parser_strategy,
            ) {
                Err(e) => r == Err::<(Vec<u8>, SequenceEncodingState), Error>(e),
                Ok(plan) => {
                    &&& r matches Ok(out)
                    &&& section_bytes(out.0@, plan, stream::all_coded(sequences@))
                    &&& plan_sound(plan, stream::all_coded(sequences@), state@)
                    &&& stream::all_encodable(sequences@)
                    &&& out.1@ == plan.next()
                },
            },
        },
{
    let mut scratch = SequenceEncodeScratch::default();
    prepare_sequence_encode_scratch(sequences, &mut scratch)?;
    let (payload, next, _) = encode_prepared_sequence_section(state, parser_strategy, &scratch)?;
    Ok((payload, next))
}

/// Writes a section with the tables that suit it best. Returns it with what
/// the next block finds.
pub fn encode_sequence_section_with_state(
    sequences: &[SequenceCommand],
    state: &SequenceEncodingState,
) -> (r: Result<(Vec<u8>, SequenceEncodingState)>)
    requires
        state.wf(),
    ensures
        r matches Ok(out) ==> out.1.wf(),
        sequences@.len() == 0 ==> (r matches Ok(out) && out.0@ == seq![0u8] && out.1@ == state@),
        sequences@.len() > 0 ==> match section_input_error(sequences@) {
            Some(e) => r == Err::<(Vec<u8>, SequenceEncodingState), Error>(e),
            None => match section_plan(
                stream::all_coded(sequences@),
                state@,
                ParserStrategy::Lazy,
            ) {
                Err(e) => r == Err::<(Vec<u8>, SequenceEncodingState), Error>(e),
                Ok(plan) => {
                    &&& r matches Ok(out)
                    &&& section_bytes(out.0@, plan, stream::all_coded(sequences@))
                    &&& plan_sound(plan, stream::all_coded(sequences@), state@)
                    &&& stream::all_encodable(sequences@)
                    &&& out.1@ == plan.next()
                },
            },
        },
{
    encode_sequence_section_with_strategy(sequences, state, ParserStrategy::Lazy)
}

/// Writes the section of a first block.
pub fn encode_sequence_section(sequences: &[SequenceCommand]) -> (r: Result<Vec<u8>>)
    ensures
        sequences@.len() == 0 ==> r is Ok && r->Ok_0@ == seq![0u8],
        sequences@.len() > 0 ==> match section_input_error(sequences@) {
            Some(e) => r == Err::<Vec<u8>, Error>(e),
            None => {
                let nothing = KeptState { ll: None, of: None, ml: None };
                match section_plan(
                    stream::all_coded(sequences@),
                    nothing,
                    ParserStrategy::Lazy,
                ) {
                    Err(e) => r == Err::<Vec<u8>, Error>(e),
                    Ok(plan) => {
                        &&& r is Ok
                        &&& section_bytes(r->Ok_0@, plan, stream::all_coded(sequences@))
                        &&& plan_sound(plan, stream::all_coded(sequences@), nothing)
                        &&& stream::all_encodable(sequences@)
                    },
                }
            },
        },
{
    let state = SequenceEncodingState::default();
    let (payload, _) = encode_sequence_section_with_state(sequences, &state)?;
    Ok(payload)
}

/// Writes a section behind what an output holds already.
pub fn encode_sequence_section_direct(
    out: &mut OutBuf,
    state: &SequenceEncodingState,
    parser_strategy: ParserStrategy,
    scratch: &SequenceEncodeScratch,
) -> (r: Result<(SequenceEncodingState, SequenceSectionStats)>)
    requires
        old(out)@.wf(),
        old(out)@.len() + SECTION_SIZE_MAX <= usize::MAX,
        scratch.wf(),
        state.wf(),
    ensures
        final(out)@.wf(),
        r matches Ok(next) ==> next.0.wf(),
        scratch.encoded@.len() == 0 ==> (r matches Ok(next) && next.0@ == state@ && final(out)@
            == old(out)@.append(seq![0u8]) && next.1 == (SequenceSectionStats {
            header_size: 0,
            bitstream_size: 0,
            last_count_size: 0,
            modes: None,
        })),
        scratch.encoded@.len() >= SEQUENCE_COUNT_END ==> r == Err::<
            (SequenceEncodingState, SequenceSectionStats),
            Error,
        >(Error::InvalidParameter("too many sequences in one block")) && final(out)@ == old(out)@,
        0 < scratch.encoded@.len() < SEQUENCE_COUNT_END ==> match section_plan(
            scratch.encoded@,
            state@,
            parser_strategy,
        ) {
            Err(e) => r == Err::<(SequenceEncodingState, SequenceSectionStats), Error>(e)
                && final(out)@ == old(out)@,
            Ok(plan) => {
                &&& r matches Ok(next)
                &&& plan_sound(plan, scratch.encoded@, state@)
                &&& next.0@ == plan.next()
                &&& next.1.header_size == plan.header(scratch.encoded@.len()).len()
                &&& next.1.last_count_size == plan.last_count_size()
                &&& next.1.modes == Some(plan.modes())
                &&& exists|bytes: Seq<u8>| #[trigger]
                    section_bytes(bytes, plan, scratch.encoded@) && final(out)@
                        == old(out)@.append(bytes) && next.1.bitstream_size == bytes.len()
                        - next.1.header_size
            },
        },
{
    let (payload, next, stats) = encode_prepared_sequence_section(
        state,
        parser_strategy,
        scratch,
    )?;
    out.extend_from_slice(payload.as_slice());
    Ok((next, stats))
}

// ---------------------------------------------------------------------------
// Reading a section back.

/// The decoder has every table that the encoder may use again.
pub open spec fn agree(state: KeptState, kept: KeptTables) -> bool {
    &&& state.ll matches Some(k) ==> kept.ll == Some(
        tables::source_table(SequencePart::LiteralLength, k.source),
    )
    &&& state.of matches Some(k) ==> kept.of == Some(
        tables::source_table(SequencePart::Offset, k.source),
    )
    &&& state.ml matches Some(k) ==> kept.ml == Some(
        tables::source_table(SequencePart::MatchLength, k.source),
    )
}

/// A part's header is read back, whatever follows it.
proof fn lemma_part_header(
    part: SequencePart,
    codes: Seq<u8>,
    prev: Option<Kept>,
    c: PartChoice,
    before: Option<PartTable>,
    tail: Seq<u8>,
)
    requires
        encode::sound(part, codes, prev, c),
        prev matches Some(k) ==> before == Some(tables::source_table(part, k.source)),
        tail.len() >= 1,
    ensures
        tables::block_table(part, c.mode, c.header + tail, before) == Ok::<(PartTable, nat), Error>(
            (tables::source_table(part, c.source), c.header.len()),
        ),
{
    reveal(tables::block_table);
    reveal(encode::sound);
    match c.mode {
        CompressionMode::Predefined => {},
        CompressionMode::Rle => {},
        CompressionMode::Repeat => {},
        CompressionMode::FseCompressed => {
            if let TableSource::Distribution { counts, n, log } = c.source {
                let capacity = ncount::usual_room(n, log);
                let f = ncount::header_bits(counts, n, log, capacity)->Ok_0;
                ncount_laws::law_header_roundtrip(
                    counts,
                    n,
                    log,
                    capacity,
                    part.code_max() as nat + 1,
                    part.log_max(),
                    f,
                    tail,
                );
                assert(counts.take(n as int) =~= counts);
            }
        },
    }
}

/// Modes are read back from their byte.
proof fn lemma_modes_roundtrip(modes: SequenceCompressionModes)
    ensures
        section::modes_of(section::modes_byte(modes)) == modes,
        section::modes_byte(modes) % 4 == 0,
{
}

/// The tables of the sources, as a decoder keeps them.
pub open spec fn kept_tables(sources: Sources) -> KeptTables {
    let t = sources.tables();
    KeptTables { ll: Some(t.ll), of: Some(t.of), ml: Some(t.ml) }
}

/// What stands behind a part of a source.
proof fn lemma_skip_over(src: Seq<u8>, at: nat, first: Seq<u8>, rest: Seq<u8>)
    requires
        at <= src.len(),
        src.skip(at as int) == first + rest,
    ensures
        at + first.len() <= src.len(),
        src.skip((at + first.len()) as int) == rest,
{
    assert(src.skip(at as int).len() == src.len() - at);
    let after = src.skip((at + first.len()) as int);
    assert forall|i: int| 0 <= i < after.len() implies after[i] == rest[i] by {
        assert(src.skip(at as int)[first.len() + i] == after[i]);
    }
    assert(after =~= rest);
}

/// The tables of a section are read back, whatever follows them.
proof fn lemma_section_tables(
    src: Seq<u8>,
    at: nat,
    plan: SectionPlan,
    coded: Seq<EncodedSequence>,
    state: KeptState,
    before: KeptTables,
    body: Seq<u8>,
)
    requires
        plan_sound(plan, coded, state),
        agree(state, before),
        body.len() >= 1,
        at <= src.len(),
        src.skip(at as int) == plan.ll.header + plan.of.header + plan.ml.header + body,
    ensures
        section::read_tables(src, at, plan.modes(), before) == Ok::<(KeptTables, nat), Error>(
            (
                kept_tables(plan.sources()),
                at + plan.ll.header.len() + plan.of.header.len() + plan.ml.header.len(),
            ),
        ),
{
    let of_tail = plan.ml.header + body;
    let ll_tail = plan.of.header + of_tail;
    let a = at + plan.ll.header.len();
    assert(src.skip(at as int) =~= plan.ll.header + ll_tail);
    lemma_skip_over(src, at, plan.ll.header, ll_tail);
    lemma_skip_over(src, a, plan.of.header, of_tail);
    lemma_part_header(
        SequencePart::LiteralLength,
        stats::part_codes(SequencePart::LiteralLength, coded),
        state.ll,
        plan.ll,
        before.ll,
        ll_tail,
    );
    lemma_part_header(
        SequencePart::Offset,
        stats::part_codes(SequencePart::Offset, coded),
        state.of,
        plan.of,
        before.of,
        of_tail,
    );
    lemma_part_header(
        SequencePart::MatchLength,
        stats::part_codes(SequencePart::MatchLength, coded),
        state.ml,
        plan.ml,
        before.ml,
        body,
    );
}

/// The header of a section is read back, whatever follows it.
proof fn lemma_section_header(
    n: nat,
    plan: SectionPlan,
    coded: Seq<EncodedSequence>,
    state: KeptState,
    before: KeptTables,
    body: Seq<u8>,
)
    requires
        0 < n < SEQUENCE_COUNT_END,
        plan_sound(plan, coded, state),
        agree(state, before),
        body.len() >= 1,
    ensures
        section::section_header(plan.header(n) + body, before) == Ok::<SectionHeader, Error>(
            SectionHeader {
                count: n,
                size: plan.header(n).len(),
                modes: Some(plan.modes()),
                kept: kept_tables(plan.sources()),
            },
        ),
{
    let src = plan.header(n) + body;
    let count = section::sequence_count_bytes(n);
    let at = count.len();
    let byte = section::modes_byte(plan.modes());
    let parts = plan.ll.header + plan.of.header + plan.ml.header + body;
    let rest = seq![byte] + parts;
    assert(src =~= count + rest);
    section::law_sequence_count_roundtrip(n, rest);
    lemma_modes_roundtrip(plan.modes());
    assert(src[at as int] == byte) by {
        assert(rest[0] == byte);
    }
    assert(src.skip(0) =~= count + rest);
    lemma_skip_over(src, 0, count, rest);
    lemma_skip_over(src, at, seq![byte], parts);
    lemma_section_tables(src, at + 1, plan, coded, state, before, body);
}

/// A section that was written is read back: the number of sequences, the modes
/// and the tables, and with them the sequences. The decoder's tables from here
/// on are those that the encoder may use again.
pub proof fn law_section_roundtrip(
    bytes: Seq<u8>,
    plan: SectionPlan,
    sequences: Seq<SequenceCommand>,
    state: KeptState,
    before: KeptTables,
)
    requires
        0 < sequences.len() < SEQUENCE_COUNT_END,
        stream::all_encodable(sequences),
        decode::match_bytes(sequences) <= usize::MAX,
        plan_sound(plan, stream::all_coded(sequences), state),
        section_bytes(bytes, plan, stream::all_coded(sequences)),
        agree(state, before),
    ensures
        section::section_header(bytes, before) == Ok::<SectionHeader, Error>(
            SectionHeader {
                count: sequences.len(),
                size: plan.header(sequences.len()).len(),
                modes: Some(plan.modes()),
                kept: kept_tables(plan.sources()),
            },
        ),
        decode::stream_sequences(
            kept_tables(plan.sources()).tables(),
            bytes.skip(plan.header(sequences.len()).len() as int),
            sequences.len(),
        ) == Ok::<Seq<SequenceCommand>, Error>(sequences),
        agree(plan.next(), kept_tables(plan.sources())),
{
    let coded = stream::all_coded(sequences);
    let n = sequences.len();
    let ct = choose|ct: EncodeTables| #[trigger]
        plan.sources().paired(ct) && bytes == plan.header(coded.len()) + bits::marked_bytes(
            stream::stream_encoding(ct, coded),
        );
    let body = bits::marked_bytes(stream::stream_encoding(ct, coded));
    lemma_plan_holds(plan, coded, state);
    stream::lemma_stream_wf(ct, plan.sources(), sequences);
    bits::lemma_stream_roundtrip(stream::stream_encoding(ct, coded));
    stream::law_sequence_stream_roundtrip(ct, plan.sources(), sequences);
    lemma_section_header(n, plan, coded, state, before, body);
    assert(bytes.skip(plan.header(n).len() as int) =~= body);
}

} // verus!
