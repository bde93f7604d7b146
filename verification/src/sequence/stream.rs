//! Writing the bit stream of a block's sequences.

use crate::entropy::bits;
use crate::entropy::bits::Bits;
use crate::entropy::bitstream::{BitCStream, Reading, WORD_BYTES};
use crate::entropy::fse;
use crate::entropy::fse::CTable;
use crate::entropy::fse_stream;
use crate::entropy::spread;
use crate::error::{Error, Result};
use crate::sequence::codes;
use crate::sequence::codes::EncodedSequence;
use crate::sequence::decode;
use crate::sequence::decode::Decoding;
use crate::sequence::repeat::SequenceCommand;
use crate::sequence::section::{Tables, COUNTABLE_SEQUENCES, SEQUENCE_COUNT_END};
use crate::sequence::tables;
use crate::sequence::tables::{SequencePart, TableSource};
use vstd::arithmetic::div_mod::*;
use vstd::arithmetic::mul::*;
use vstd::arithmetic::power2::*;
use vstd::prelude::*;

verus! {

/// The encode tables of the three parts.
pub struct EncodeTables {
    pub ll: CTable,
    pub of: CTable,
    pub ml: CTable,
}

impl EncodeTables {
    /// Every table is well formed.
    pub open spec fn wf(self) -> bool {
        self.ll.wf() && self.of.wf() && self.ml.wf()
    }

    /// The tables can write the codes of a sequence.
    pub open spec fn knows(self, s: EncodedSequence) -> bool {
        &&& s.ll_code <= self.ll.max_symbol_value
        &&& s.of_code <= self.of.max_symbol_value
        &&& s.ml_code <= self.ml.max_symbol_value
    }

    /// How many bits the three states take.
    pub open spec fn state_bits(self) -> nat {
        (self.ll.table_log + self.of.table_log + self.ml.table_log) as nat
    }
}

/// What an encoder holds when only the first sequences are left to write: the
/// bits, and the states of the three tables.
pub struct Encoding {
    pub bits: Bits,
    pub ll: nat,
    pub of: nat,
    pub ml: nat,
}

/// Writes the extra bits of a sequence: those of the literals first, so that
/// those of the offset are read first.
pub open spec fn push_extras(b: Bits, s: EncodedSequence) -> Bits {
    b.push(s.ll_extra as nat, codes::literal_extra_bits(s.ll_code as nat)).push(
        s.ml_extra as nat,
        codes::match_extra_bits(s.ml_code as nat),
    ).push(s.of_extra as nat, s.of_code as nat)
}

/// The encoding of the sequences from place `i` on.
pub open spec fn encoding(ct: EncodeTables, sequences: Seq<EncodedSequence>, i: nat) -> Encoding
    decreases sequences.len() - i,
{
    let s = sequences[i as int];
    if i + 1 >= sequences.len() {
        let last = sequences[sequences.len() - 1];
        Encoding {
            bits: push_extras(Bits::empty(), last),
            ll: ct.ll.start_state(last.ll_code),
            of: ct.of.start_state(last.of_code),
            ml: ct.ml.start_state(last.ml_code),
        }
    } else {
        let e = encoding(ct, sequences, i + 1);
        Encoding {
            bits: push_extras(
                e.bits.push(e.of, ct.of.bits_out(e.of, s.of_code)).push(
                    e.ml,
                    ct.ml.bits_out(e.ml, s.ml_code),
                ).push(e.ll, ct.ll.bits_out(e.ll, s.ll_code)),
                s,
            ),
            ll: ct.ll.next_state(e.ll, s.ll_code),
            of: ct.of.next_state(e.of, s.of_code),
            ml: ct.ml.next_state(e.ml, s.ml_code),
        }
    }
}

/// The bits of a whole stream: the encoding, then the three states.
pub open spec fn stream_encoding(ct: EncodeTables, sequences: Seq<EncodedSequence>) -> Bits {
    let e = encoding(ct, sequences, 0);
    e.bits.push(e.ml, ct.ml.table_log as nat).push(e.of, ct.of.table_log as nat).push(
        e.ll,
        ct.ll.table_log as nat,
    )
}

/// How many extra bits the sequences have.
pub open spec fn extra_bits(sequences: Seq<EncodedSequence>) -> nat
    decreases sequences.len(),
{
    if sequences.len() == 0 {
        0
    } else {
        let s = sequences.last();
        extra_bits(sequences.drop_last()) + codes::literal_extra_bits(s.ll_code as nat)
            + codes::match_extra_bits(s.ml_code as nat) + s.of_code as nat
    }
}

// ---------------------------------------------------------------------------
// Reading back.

/// The encode table and the source of a decode table belong together.
pub open spec fn paired(ct: CTable, part: SequencePart, source: TableSource) -> bool {
    &&& source.wf(part)
    &&& match source {
        TableSource::Distribution { counts, n, log } => fse::encodes_with(ct, counts, n, log),
        TableSource::Only { code } => fse::encodes_only(ct, code),
    }
}

/// The table can write and read the code.
pub open spec fn holds_code(source: TableSource, code: u8) -> bool {
    match source {
        TableSource::Distribution { counts, n, log } => code < n && spread::slots(
            counts[code as int],
        ) > 0,
        TableSource::Only { code: only } => code == only,
    }
}

/// The decoder's number of an encoder's state.
pub open spec fn state_index(ct: CTable, x: nat) -> nat {
    if ct.table_log == 0 {
        x
    } else {
        (x - pow2(ct.table_log as nat)) as nat
    }
}

/// A source's entries are those of its table.
proof fn lemma_source_entries(part: SequencePart, source: TableSource)
    requires
        source.wf(part),
    ensures
        source.entries().len() == pow2(source.log()),
        source matches TableSource::Distribution { counts, n, log } ==> fse::entries_of(
            source.entries(),
            counts,
            n,
            log,
        ),
{
    lemma2_to64();
    match source {
        TableSource::Distribution { counts, n, log } => {
            assert forall|u: int| 0 <= u < pow2(log) implies fse::is_decode_entry(
                #[trigger] source.entries()[u],
                counts,
                spread::spread(counts, n, log),
                log,
                u,
            ) by {
                fse::lemma_distribution_entry(counts, n, log, u);
            }
        },
        TableSource::Only { code } => {},
    }
}

/// A source's table is well formed.
pub proof fn lemma_source_table_wf(part: SequencePart, source: TableSource)
    requires
        source.wf(part),
    ensures
        tables::source_table(part, source).wf(),
        tables::source_table(part, source).values_at_most(tables::value_max(part)),
{
    lemma2_to64();
    lemma_source_entries(part, source);
    let t = tables::source_table(part, source);
    assert forall|u: int| 0 <= u < t.entries.len() implies {
        &&& (#[trigger] t.entries[u]).nb <= t.log
        &&& t.entries[u].next + pow2(t.entries[u].nb) <= t.entries.len()
        &&& t.entries[u].extra <= 31
        &&& t.entries[u].base + pow2(t.entries[u].extra) <= tables::value_max(part) + 1
    } by {
        match source {
            TableSource::Distribution { counts, n, log } => {
                fse::lemma_distribution_entry(counts, n, log, u);
            },
            TableSource::Only { code } => {},
        }
        tables::lemma_code_range(part, source.entries()[u].symbol as nat);
    }
}

/// The state that an encoder starts in for a code stands for the code.
proof fn lemma_part_start(ct: CTable, part: SequencePart, source: TableSource, code: u8)
    requires
        paired(ct, part, source),
        holds_code(source, code),
    ensures
        ct.wf(),
        ct.table_log == source.log(),
        code <= ct.max_symbol_value,
        ({
            let y = ct.start_state(code);
            let t = tables::source_table(part, source);
            let e = t.entries[state_index(ct, y) as int];
            &&& ct.is_state(y)
            &&& state_index(ct, y) < t.entries.len()
            &&& e.base == part.code_base(code as nat)
            &&& e.extra == part.code_extra_bits(code as nat)
        }),
{
    lemma2_to64();
    lemma_source_entries(part, source);
    match source {
        TableSource::Distribution { counts, n, log } => {
            fse::lemma_encodes_with(ct, counts, n, log);
            fse::lemma_start_state_holds_symbol(ct, source.entries(), counts, n, log, code);
            assert(source.entries()[ct.start_state(code) - pow2(log)].symbol == code);
        },
        TableSource::Only { code: only } => {
            fse::lemma_encodes_only(ct, only);
            assert(ct.start_state(code) == 0);
        },
    }
}

/// A decode step of a part undoes an encode step.
proof fn lemma_part_step(ct: CTable, part: SequencePart, source: TableSource, x: nat, code: u8)
    requires
        paired(ct, part, source),
        holds_code(source, code),
        ct.is_state(x),
    ensures
        ({
            let y = ct.next_state(x, code);
            let t = tables::source_table(part, source);
            let e = t.entries[state_index(ct, y) as int];
            &&& ct.is_state(y)
            &&& state_index(ct, y) < t.entries.len()
            &&& e.base == part.code_base(code as nat)
            &&& e.extra == part.code_extra_bits(code as nat)
            &&& e.nb == ct.bits_out(x, code)
            &&& e.next + x % pow2(e.nb) == state_index(ct, x)
        }),
{
    lemma2_to64();
    lemma_source_entries(part, source);
    match source {
        TableSource::Distribution { counts, n, log } => {
            fse::lemma_encodes_with(ct, counts, n, log);
            fse::lemma_decode_step_undoes_encode_step(
                ct,
                source.entries(),
                counts,
                n,
                log,
                x,
                code,
            );
            assert(source.entries()[ct.next_state(x, code) - pow2(log)].symbol == code);
        },
        TableSource::Only { code: only } => {
            fse::lemma_encodes_only(ct, only);
            assert(ct.bits_out(0, code) == 0);
            assert(ct.next_state(0, code) == 0);
        },
    }
}

/// A state that is written as it is gives the decoder's number of it.
proof fn lemma_part_flush(ct: CTable, x: nat)
    requires
        ct.wf(),
        ct.is_state(x),
    ensures
        x % pow2(ct.table_log as nat) == state_index(ct, x),
{
    lemma2_to64();
    let size = pow2(ct.table_log as nat) as int;
    lemma_pow2_pos(ct.table_log as nat);
    if ct.table_log != 0 {
        lemma_fundamental_div_mod_converse(x as int, size, 1, x - size);
    }
}

/// The sources of the three tables.
pub struct Sources {
    pub ll: TableSource,
    pub of: TableSource,
    pub ml: TableSource,
}

impl Sources {
    /// The encode tables belong to the sources.
    pub open spec fn paired(self, ct: EncodeTables) -> bool {
        &&& paired(ct.ll, SequencePart::LiteralLength, self.ll)
        &&& paired(ct.of, SequencePart::Offset, self.of)
        &&& paired(ct.ml, SequencePart::MatchLength, self.ml)
    }

    /// The decode tables of the sources.
    pub open spec fn tables(self) -> Tables {
        Tables {
            ll: tables::source_table(SequencePart::LiteralLength, self.ll),
            of: tables::source_table(SequencePart::Offset, self.of),
            ml: tables::source_table(SequencePart::MatchLength, self.ml),
        }
    }

    /// The tables hold the codes of every sequence.
    pub open spec fn hold(self, sequences: Seq<EncodedSequence>) -> bool {
        forall|i: int|
            0 <= i < sequences.len() ==> {
                &&& holds_code(self.ll, (#[trigger] sequences[i]).ll_code)
                &&& holds_code(self.of, sequences[i].of_code)
                &&& holds_code(self.ml, sequences[i].ml_code)
            }
    }
}

/// A source has one encode table.
proof fn lemma_paired_unique(a: CTable, b: CTable, part: SequencePart, source: TableSource)
    requires
        paired(a, part, source),
        paired(b, part, source),
    ensures
        fse::same_table(a, b),
{
    if let TableSource::Distribution { counts, n, log } = source {
        fse::lemma_encode_table_unique(a, b, counts, n, log);
    }
}

/// Tables with the same numbers write the same.
proof fn lemma_encoding_same(
    a: EncodeTables,
    b: EncodeTables,
    sequences: Seq<EncodedSequence>,
    i: nat,
)
    requires
        fse::same_table(a.ll, b.ll),
        fse::same_table(a.of, b.of),
        fse::same_table(a.ml, b.ml),
    ensures
        encoding(a, sequences, i) == encoding(b, sequences, i),
    decreases sequences.len() - i,
{
    reveal(CTable::bits_out);
    reveal(CTable::next_index);
    reveal(CTable::start_index);
    if i + 1 < sequences.len() {
        lemma_encoding_same(a, b, sequences, i + 1);
    }
}

/// The sources of the tables determine the bits that the tables write.
pub proof fn law_sources_determine_the_stream(
    sources: Sources,
    a: EncodeTables,
    b: EncodeTables,
    sequences: Seq<EncodedSequence>,
)
    requires
        sources.paired(a),
        sources.paired(b),
    ensures
        stream_encoding(a, sequences) == stream_encoding(b, sequences),
{
    lemma_paired_unique(a.ll, b.ll, SequencePart::LiteralLength, sources.ll);
    lemma_paired_unique(a.of, b.of, SequencePart::Offset, sources.of);
    lemma_paired_unique(a.ml, b.ml, SequencePart::MatchLength, sources.ml);
    lemma_encoding_same(a, b, sequences, 0);
}

/// Encode tables that belong to sources are well formed.
pub proof fn lemma_paired_wf(ct: EncodeTables, sources: Sources)
    requires
        sources.paired(ct),
    ensures
        ct.wf(),
{
    lemma_paired_table_wf(ct.ll, SequencePart::LiteralLength, sources.ll);
    lemma_paired_table_wf(ct.of, SequencePart::Offset, sources.of);
    lemma_paired_table_wf(ct.ml, SequencePart::MatchLength, sources.ml);
}

proof fn lemma_paired_table_wf(ct: CTable, part: SequencePart, source: TableSource)
    requires
        paired(ct, part, source),
    ensures
        ct.wf(),
{
    match source {
        TableSource::Distribution { counts, n, log } => {
            fse::lemma_encodes_with(ct, counts, n, log);
        },
        TableSource::Only { code } => {
            fse::lemma_encodes_only(ct, code);
        },
    }
}

/// Encode tables know the codes that their sources hold.
pub proof fn lemma_codes_known(ct: EncodeTables, sources: Sources, sequences: Seq<EncodedSequence>)
    requires
        sources.paired(ct),
        sources.hold(sequences),
    ensures
        forall|i: int| 0 <= i < sequences.len() ==> ct.knows(#[trigger] sequences[i]),
{
    assert forall|i: int| 0 <= i < sequences.len() implies ct.knows(#[trigger] sequences[i]) by {
        let s = sequences[i];
        lemma_part_start(ct.ll, SequencePart::LiteralLength, sources.ll, s.ll_code);
        lemma_part_start(ct.of, SequencePart::Offset, sources.of, s.of_code);
        lemma_part_start(ct.ml, SequencePart::MatchLength, sources.ml, s.ml_code);
    }
}

/// The codes and extra bits of every sequence.
pub open spec fn all_coded(sequences: Seq<SequenceCommand>) -> Seq<EncodedSequence> {
    Seq::new(sequences.len(), |i: int| codes::coded(sequences[i]))
}

/// Every sequence has codes.
pub open spec fn all_encodable(sequences: Seq<SequenceCommand>) -> bool {
    forall|i: int| 0 <= i < sequences.len() ==> codes::encodable(#[trigger] sequences[i])
}

/// Extra bits are read back as they were written.
proof fn lemma_extras_undone(b: Bits, s: EncodedSequence, word: nat)
    requires
        b.wf(),
        s.wf(),
    ensures
        push_extras(b, s).wf(),
        ({
            let r0 = Reading::holding(push_extras(b, s), word);
            let r1 = r0.skip(s.of_code as nat);
            let r2 = r1.skip(codes::match_extra_bits(s.ml_code as nat));
            &&& r0.look(s.of_code as nat) == s.of_extra
            &&& r1.look(codes::match_extra_bits(s.ml_code as nat)) == s.ml_extra
            &&& r2.look(codes::literal_extra_bits(s.ll_code as nat)) == s.ll_extra
            &&& r2.skip(codes::literal_extra_bits(s.ll_code as nat)) == Reading::holding(b, word)
        }),
{
    let nl = codes::literal_extra_bits(s.ll_code as nat);
    let nm = codes::match_extra_bits(s.ml_code as nat);
    let no = s.of_code as nat;
    let b1 = b.push(s.ll_extra as nat, nl);
    let b2 = b1.push(s.ml_extra as nat, nm);
    bits::lemma_push_pop(b, s.ll_extra as nat, nl);
    bits::lemma_push_pop(b1, s.ml_extra as nat, nm);
    bits::lemma_push_pop(b2, s.of_extra as nat, no);
    lemma_small_mod(s.ll_extra as nat, pow2(nl));
    lemma_small_mod(s.ml_extra as nat, pow2(nm));
    lemma_small_mod(s.of_extra as nat, pow2(no));
}

/// The encoder's states are states of its tables and its bits are well formed.
proof fn lemma_encoding_wf(ct: EncodeTables, sequences: Seq<EncodedSequence>, i: nat)
    requires
        ct.wf(),
        i < sequences.len(),
        forall|k: int| 0 <= k < sequences.len() ==> (#[trigger] sequences[k]).wf(),
    ensures
        ct.ll.is_state(encoding(ct, sequences, i).ll),
        ct.of.is_state(encoding(ct, sequences, i).of),
        ct.ml.is_state(encoding(ct, sequences, i).ml),
        encoding(ct, sequences, i).bits.wf(),
    decreases sequences.len() - i,
{
    let s = sequences[i as int];
    assert(s.wf());
    if i + 1 == sequences.len() {
        lemma2_to64();
        assert(0 <= ct.ll.start_index(s.ll_code) < pow2(ct.ll.table_log as nat));
        assert(0 <= ct.of.start_index(s.of_code) < pow2(ct.of.table_log as nat));
        assert(0 <= ct.ml.start_index(s.ml_code) < pow2(ct.ml.table_log as nat));
        lemma_extras_undone(Bits::empty(), s, 0);
    } else {
        lemma_encoding_wf(ct, sequences, i + 1);
        let e = encoding(ct, sequences, i + 1);
        assert(0 <= ct.ll.next_index(e.ll, s.ll_code) < pow2(ct.ll.table_log as nat));
        assert(0 <= ct.of.next_index(e.of, s.of_code) < pow2(ct.of.table_log as nat));
        assert(0 <= ct.ml.next_index(e.ml, s.ml_code) < pow2(ct.ml.table_log as nat));
        let b1 = e.bits.push(e.of, ct.of.bits_out(e.of, s.of_code));
        let b2 = b1.push(e.ml, ct.ml.bits_out(e.ml, s.ml_code));
        bits::lemma_push_pop(e.bits, e.of, ct.of.bits_out(e.of, s.of_code));
        bits::lemma_push_pop(b1, e.ml, ct.ml.bits_out(e.ml, s.ml_code));
        bits::lemma_push_pop(b2, e.ll, ct.ll.bits_out(e.ll, s.ll_code));
        lemma_extras_undone(b2.push(e.ll, ct.ll.bits_out(e.ll, s.ll_code)), s, 0);
    }
}

/// Where the decoder stands when the encoder holds `e`.
pub open spec fn decoding_of(ct: EncodeTables, e: Encoding, word: nat) -> Decoding {
    Decoding {
        ll: state_index(ct.ll, e.ll),
        of: state_index(ct.of, e.of),
        ml: state_index(ct.ml, e.ml),
        reading: Reading::holding(e.bits, word),
    }
}

/// The entries that the decoder stands at in the tables of the sources are
/// those of the codes of `s`.
spec fn stands_at(ct: EncodeTables, sources: Sources, e: Encoding, s: EncodedSequence) -> bool {
    let t = sources.tables();
    let d = decoding_of(ct, e, 0);
    let el = t.ll.entries[d.ll as int];
    let eo = t.of.entries[d.of as int];
    let em = t.ml.entries[d.ml as int];
    &&& el.base == codes::literal_base(s.ll_code as nat)
    &&& el.extra == codes::literal_extra_bits(s.ll_code as nat)
    &&& eo.base == pow2(s.of_code as nat)
    &&& eo.extra == s.of_code
    &&& em.base == codes::match_base(s.ml_code as nat)
    &&& em.extra == codes::match_extra_bits(s.ml_code as nat)
}

/// One decoded sequence.
proof fn lemma_sequence_undone(
    ct: EncodeTables,
    sources: Sources,
    e: Encoding,
    b: Bits,
    s: SequenceCommand,
    word: nat,
)
    requires
        codes::encodable(s),
        b.wf(),
        e.bits == push_extras(b, codes::coded(s)),
        stands_at(ct, sources, e, codes::coded(s)),
    ensures
        decoding_of(ct, e, word).sequence(sources.tables()) == (
            s,
            Reading::holding(b, word),
        ),
{
    codes::law_sequence_code_roundtrip(s);
    lemma_extras_undone(b, codes::coded(s), word);
}

/// The next states of a decoder are the states that the encoder came from.
proof fn lemma_states_undone(
    ct: EncodeTables,
    sources: Sources,
    sequences: Seq<EncodedSequence>,
    i: nat,
    word: nat,
)
    requires
        sources.paired(ct),
        sources.hold(sequences),
        i + 1 < sequences.len(),
        ct.wf(),
        forall|k: int| 0 <= k < sequences.len() ==> (#[trigger] sequences[k]).wf(),
    ensures
        ({
            let e = encoding(ct, sequences, i);
            let rest = encoding(ct, sequences, i + 1);
            let s = sequences[i as int];
            let b = rest.bits.push(rest.of, ct.of.bits_out(rest.of, s.of_code)).push(
                rest.ml,
                ct.ml.bits_out(rest.ml, s.ml_code),
            ).push(rest.ll, ct.ll.bits_out(rest.ll, s.ll_code));
            &&& b.wf()
            &&& e.bits == push_extras(b, s)
            &&& stands_at(ct, sources, e, s)
            &&& decoding_of(ct, e, word).next(
                sources.tables(),
                Reading::holding(b, word),
            ) == decoding_of(ct, rest, word)
        }),
{
    let s = sequences[i as int];
    let rest = encoding(ct, sequences, i + 1);
    lemma_encoding_wf(ct, sequences, i + 1);
    assert(holds_code(sources.ll, s.ll_code));
    lemma_part_step(ct.ll, SequencePart::LiteralLength, sources.ll, rest.ll, s.ll_code);
    lemma_part_step(ct.of, SequencePart::Offset, sources.of, rest.of, s.of_code);
    lemma_part_step(ct.ml, SequencePart::MatchLength, sources.ml, rest.ml, s.ml_code);
    let no = ct.of.bits_out(rest.of, s.of_code);
    let nm = ct.ml.bits_out(rest.ml, s.ml_code);
    let nl = ct.ll.bits_out(rest.ll, s.ll_code);
    let b1 = rest.bits.push(rest.of, no);
    let b2 = b1.push(rest.ml, nm);
    bits::lemma_push_pop(rest.bits, rest.of, no);
    bits::lemma_push_pop(b1, rest.ml, nm);
    bits::lemma_push_pop(b2, rest.ll, nl);
}

/// What was encoded from place `i` on is decoded again.
proof fn lemma_sequences_undone(
    ct: EncodeTables,
    sources: Sources,
    sequences: Seq<SequenceCommand>,
    i: nat,
    total: nat,
    word: nat,
)
    requires
        sources.paired(ct),
        ct.wf(),
        all_encodable(sequences),
        sources.hold(all_coded(sequences)),
        i < sequences.len(),
        total + decode::match_bytes(sequences.skip(i as int)) <= usize::MAX,
    ensures
        decode::sequences_from(
            sources.tables(),
            decoding_of(ct, encoding(ct, all_coded(sequences), i), word),
            (sequences.len() - i) as nat,
            total,
        ) == Ok::<Seq<SequenceCommand>, Error>(sequences.skip(i as int)),
    decreases sequences.len() - i,
{
    let coded = all_coded(sequences);
    assert forall|k: int| 0 <= k < coded.len() implies (#[trigger] coded[k]).wf() by {
        assert(codes::encodable(sequences[k]));
        codes::law_sequence_code_roundtrip(sequences[k]);
    }
    let s = sequences[i as int];
    assert(codes::encodable(s));
    let e = encoding(ct, coded, i);
    let here = sequences.skip(i as int);
    assert(here[0] == s);
    assert(here.drop_first() =~= sequences.skip(i as int + 1));
    if i + 1 == sequences.len() {
        lemma2_to64();
        let c = coded[i as int];
        assert(holds_code(sources.ll, c.ll_code));
        lemma_part_start(ct.ll, SequencePart::LiteralLength, sources.ll, c.ll_code);
        lemma_part_start(ct.of, SequencePart::Offset, sources.of, c.of_code);
        lemma_part_start(ct.ml, SequencePart::MatchLength, sources.ml, c.ml_code);
        lemma_sequence_undone(ct, sources, e, Bits::empty(), s, word);
        assert(here =~= seq![s]);
    } else {
        lemma_states_undone(ct, sources, coded, i, word);
        let rest = encoding(ct, coded, i + 1);
        let c = coded[i as int];
        let b = rest.bits.push(rest.of, ct.of.bits_out(rest.of, c.of_code)).push(
            rest.ml,
            ct.ml.bits_out(rest.ml, c.ml_code),
        ).push(rest.ll, ct.ll.bits_out(rest.ll, c.ll_code));
        lemma_sequence_undone(ct, sources, e, b, s, word);
        lemma_sequences_undone(ct, sources, sequences, i + 1, total + s.match_length as nat, word);
        assert(here =~= seq![s] + sequences.skip(i as int + 1));
    }
}

/// The bits of a stream are well formed.
pub proof fn lemma_stream_wf(ct: EncodeTables, sources: Sources, sequences: Seq<SequenceCommand>)
    requires
        sources.paired(ct),
        all_encodable(sequences),
        sequences.len() > 0,
    ensures
        stream_encoding(ct, all_coded(sequences)).wf(),
{
    let coded = all_coded(sequences);
    lemma_paired_wf(ct, sources);
    assert forall|k: int| 0 <= k < coded.len() implies (#[trigger] coded[k]).wf() by {
        assert(codes::encodable(sequences[k]));
        codes::law_sequence_code_roundtrip(sequences[k]);
    }
    lemma_encoding_wf(ct, coded, 0);
    let e = encoding(ct, coded, 0);
    let b1 = e.bits.push(e.ml, ct.ml.table_log as nat);
    let b2 = b1.push(e.of, ct.of.table_log as nat);
    bits::lemma_push_pop(e.bits, e.ml, ct.ml.table_log as nat);
    bits::lemma_push_pop(b1, e.of, ct.of.table_log as nat);
    bits::lemma_push_pop(b2, e.ll, ct.ll.table_log as nat);
}

/// Sequences that are written with encode tables and read with the decode
/// tables of the same sources come back unchanged, wherever the tables hold
/// their codes.
pub proof fn law_sequence_stream_roundtrip(
    ct: EncodeTables,
    sources: Sources,
    sequences: Seq<SequenceCommand>,
)
    requires
        sources.paired(ct),
        all_encodable(sequences),
        sources.hold(all_coded(sequences)),
        sequences.len() > 0,
        decode::match_bytes(sequences) <= usize::MAX,
    ensures
        decode::stream_sequences(
            sources.tables(),
            bits::marked_bytes(stream_encoding(ct, all_coded(sequences))),
            sequences.len(),
        ) == Ok::<Seq<SequenceCommand>, Error>(sequences),
{
    let coded = all_coded(sequences);
    let c = coded[0];
    assert(holds_code(sources.ll, c.ll_code));
    lemma_part_start(ct.ll, SequencePart::LiteralLength, sources.ll, c.ll_code);
    lemma_part_start(ct.of, SequencePart::Offset, sources.of, c.of_code);
    lemma_part_start(ct.ml, SequencePart::MatchLength, sources.ml, c.ml_code);
    assert forall|k: int| 0 <= k < coded.len() implies (#[trigger] coded[k]).wf() by {
        assert(codes::encodable(sequences[k]));
        codes::law_sequence_code_roundtrip(sequences[k]);
    }
    lemma_encoding_wf(ct, coded, 0);
    let e = encoding(ct, coded, 0);
    let b1 = e.bits.push(e.ml, ct.ml.table_log as nat);
    let b2 = b1.push(e.of, ct.of.table_log as nat);
    let b3 = b2.push(e.ll, ct.ll.table_log as nat);
    bits::lemma_push_pop(e.bits, e.ml, ct.ml.table_log as nat);
    bits::lemma_push_pop(b1, e.of, ct.of.table_log as nat);
    bits::lemma_push_pop(b2, e.ll, ct.ll.table_log as nat);
    lemma_part_flush(ct.ll, e.ll);
    lemma_part_flush(ct.of, e.of);
    lemma_part_flush(ct.ml, e.ml);
    bits::lemma_stream_roundtrip(b3);
    assert(sequences.skip(0) =~= sequences);
    let src = bits::marked_bytes(b3);
    let word = Reading::start(src).word;
    lemma_sequences_undone(ct, sources, sequences, 0, 0, word);
    assert(Decoding::start(sources.tables(), src) == decoding_of(ct, e, word));
}

// ---------------------------------------------------------------------------
// Writing.

/// An upper bound on the bits of a stream of `n` sequences.
pub open spec fn bound_bits(n: nat, extra: nat, state_bits: nat) -> nat {
    extra + n * state_bits + 1
}

/// The room that a stream of `n` sequences is given, in bytes.
pub open spec fn stream_room(n: nat, extra: nat, state_bits: nat) -> nat {
    (bound_bits(n, extra, state_bits) + 7) / 8 + WORD_BYTES as nat + 8
}

/// A stream fits in the room that it is given.
pub open spec fn stream_fits(stream: Bits, room: nat) -> bool {
    (stream.len + 1) / 8 < room - WORD_BYTES
}

/// The bits from place `i` on stay below the bound.
proof fn lemma_encoding_bound(
    ct: EncodeTables,
    sources: Sources,
    sequences: Seq<EncodedSequence>,
    i: nat,
)
    requires
        sources.paired(ct),
        ct.wf(),
        sources.hold(sequences),
        i < sequences.len(),
        forall|k: int| 0 <= k < sequences.len() ==> (#[trigger] sequences[k]).wf(),
    ensures
        encoding(ct, sequences, i).bits.len + extra_bits(sequences.take(i as int)) <= extra_bits(
            sequences,
        ) + (sequences.len() - 1 - i) * ct.state_bits(),
    decreases sequences.len() - i,
{
    let s = sequences[i as int];
    assert(sequences.take(i as int + 1).drop_last() =~= sequences.take(i as int));
    assert(sequences.take(i as int + 1).last() == s);
    if i + 1 == sequences.len() {
        assert(sequences.take(i as int + 1) =~= sequences);
        assert(0 * ct.state_bits() == 0);
    } else {
        lemma_encoding_bound(ct, sources, sequences, i + 1);
        lemma_encoding_wf(ct, sequences, i + 1);
        let rest = encoding(ct, sequences, i + 1);
        assert(holds_code(sources.ll, s.ll_code));
        lemma_bits_out(ct.ll, SequencePart::LiteralLength, sources.ll, rest.ll, s.ll_code);
        lemma_bits_out(ct.of, SequencePart::Offset, sources.of, rest.of, s.of_code);
        lemma_bits_out(ct.ml, SequencePart::MatchLength, sources.ml, rest.ml, s.ml_code);
        let n = sequences.len() as int;
        let b = ct.state_bits() as int;
        assert((n - 1 - i) * b == (n - 1 - (i + 1)) * b + b) by (nonlinear_arith);
    }
}

/// A code that a table holds takes at most the table's log in bits.
proof fn lemma_bits_out(ct: CTable, part: SequencePart, source: TableSource, x: nat, code: u8)
    requires
        paired(ct, part, source),
        holds_code(source, code),
        ct.is_state(x),
    ensures
        ct.bits_out(x, code) <= ct.table_log,
{
    lemma_part_step(ct, part, source, x, code);
    lemma_source_table_wf(part, source);
    match source {
        TableSource::Distribution { counts, n, log } => {
            fse::lemma_encodes_with(ct, counts, n, log);
        },
        TableSource::Only { code: only } => {},
    }
}

/// A stream of codes that the tables hold fits in the room that it is given.
pub proof fn lemma_stream_fits(
    ct: EncodeTables,
    sources: Sources,
    sequences: Seq<EncodedSequence>,
    extra: nat,
)
    requires
        sources.paired(ct),
        ct.wf(),
        sources.hold(sequences),
        sequences.len() > 0,
        extra >= extra_bits(sequences),
        forall|k: int| 0 <= k < sequences.len() ==> (#[trigger] sequences[k]).wf(),
    ensures
        stream_fits(
            stream_encoding(ct, sequences),
            stream_room(sequences.len(), extra, ct.state_bits()),
        ),
{
    lemma_encoding_bound(ct, sources, sequences, 0);
    assert(sequences.take(0) =~= Seq::<EncodedSequence>::empty());
    let n = sequences.len() as int;
    let b = ct.state_bits() as int;
    assert(n * b == (n - 1) * b + b) by (nonlinear_arith);
}

/// The room that a stream is given, in bytes.
pub fn sequence_bitstream_room(
    sequence_count: usize,
    extra_bits: usize,
    literal_lengths: &CTable,
    offsets: &CTable,
    match_lengths: &CTable,
    Ghost(ct): Ghost<EncodeTables>,
) -> (r: usize)
    requires
        sequence_count <= COUNTABLE_SEQUENCES,
        extra_bits <= 64 * COUNTABLE_SEQUENCES,
        ct.wf(),
        ct == (EncodeTables { ll: *literal_lengths, of: *offsets, ml: *match_lengths }),
    ensures
        r == stream_room(sequence_count as nat, extra_bits as nat, ct.state_bits()),
        WORD_BYTES < r,
        sequence_count < SEQUENCE_COUNT_END && extra_bits <= 64 * SEQUENCE_COUNT_END ==> r
            <= 0x18_0000,
{
    let state_bits: usize = (literal_lengths.table_log + offsets.table_log
        + match_lengths.table_log) as usize;
    proof {
        assert(sequence_count * state_bits <= sequence_count * 27) by (nonlinear_arith)
            requires
                state_bits <= 27,
        ;
        assert(0 <= sequence_count * state_bits) by (nonlinear_arith);
    }
    let bits: usize = extra_bits + sequence_count * state_bits + 1;
    (bits + 7) / 8 + WORD_BYTES + 8
}

fn push_sequence_extras(stream: &mut BitCStream, s: &EncodedSequence)
    requires
        old(stream).wf(),
        old(stream).pending() < 48,
        s.wf(),
    ensures
        final(stream).wf(),
        final(stream).pending() < 8,
        final(stream).capacity() == old(stream).capacity(),
        final(stream)@ == push_extras(old(stream)@, *s),
{
    proof {
        codes::lemma_literal_tables(s.ll_code as nat);
        codes::lemma_match_tables(s.ml_code as nat);
    }
    stream.add_bits(s.ll_extra as u64, codes::ll_bits(s.ll_code));
    stream.flush_bits();
    stream.add_bits(s.ml_extra as u64, codes::ml_bits(s.ml_code));
    stream.add_bits(s.of_extra as u64, s.of_code as u32);
    stream.flush_bits();
}

/// Writes the bit stream of a block's sequences, from the last to the first.
/// `extra_bits` is how many extra bits they have.
#[verifier::spinoff_prover]
pub fn encode_sequence_bitstream(
    sequences: &[EncodedSequence],
    extra_bits: usize,
    literal_lengths: &CTable,
    offsets: &CTable,
    match_lengths: &CTable,
) -> (r: Result<Vec<u8>>)
    requires
        literal_lengths.wf(),
        offsets.wf(),
        match_lengths.wf(),
        sequences@.len() <= COUNTABLE_SEQUENCES,
        extra_bits <= 64 * COUNTABLE_SEQUENCES,
        forall|k: int| 0 <= k < sequences@.len() ==> (#[trigger] sequences@[k]).wf(),
    ensures
        r matches Ok(bytes) ==> 0 < bytes@.len(),
        sequences@.len() < SEQUENCE_COUNT_END && extra_bits <= 64 * SEQUENCE_COUNT_END ==> (
        r matches Ok(bytes) ==> bytes@.len() <= 0x18_0000),
        ({
            let ct = EncodeTables { ll: *literal_lengths, of: *offsets, ml: *match_lengths };
            let stream = stream_encoding(ct, sequences@);
            if sequences@.len() == 0 {
                r == Err::<Vec<u8>, Error>(Error::UnexpectedEof)
            } else if exists|k: int|
                0 <= k < sequences@.len() && !ct.knows(#[trigger] sequences@[k]) {
                r == Err::<Vec<u8>, Error>(
                    Error::Corruption("FSE symbol exceeds compression table"),
                )
            } else if stream_fits(
                stream,
                stream_room(sequences@.len(), extra_bits as nat, ct.state_bits()),
            ) {
                r is Ok && r->Ok_0@ == bits::marked_bytes(stream)
            } else {
                r == Err::<Vec<u8>, Error>(Error::DstSizeTooSmall)
            }
        }),
{
    let ghost ct = EncodeTables { ll: *literal_lengths, of: *offsets, ml: *match_lengths };
    let n: usize = sequences.len();
    if n == 0 {
        return Err(Error::UnexpectedEof);
    }
    let room: usize = sequence_bitstream_room(
        n,
        extra_bits,
        literal_lengths,
        offsets,
        match_lengths,
        Ghost(ct),
    );
    let mut stream = BitCStream::new(room)?;
    let last = sequences[n - 1];
    let mut ml = fse_stream::init_cstate2(match_lengths, last.ml_code)?;
    let mut of = fse_stream::init_cstate2(offsets, last.of_code)?;
    let mut ll = fse_stream::init_cstate2(literal_lengths, last.ll_code)?;
    push_sequence_extras(&mut stream, &last);
    let mut i: usize = n - 1;
    while i > 0
        invariant
            0 <= i < n == sequences@.len(),
            ct == (EncodeTables { ll: *literal_lengths, of: *offsets, ml: *match_lengths }),
            ct.wf(),
            stream.wf(),
            stream.pending() < 8,
            stream.capacity() == room,
            ct.ll.is_state(ll.value as nat),
            ct.of.is_state(of.value as nat),
            ct.ml.is_state(ml.value as nat),
            stream@ == encoding(ct, sequences@, i as nat).bits,
            ll.value == encoding(ct, sequences@, i as nat).ll,
            of.value == encoding(ct, sequences@, i as nat).of,
            ml.value == encoding(ct, sequences@, i as nat).ml,
            forall|k: int| 0 <= k < sequences@.len() ==> (#[trigger] sequences@[k]).wf(),
            forall|k: int| i <= k < sequences@.len() ==> ct.knows(#[trigger] sequences@[k]),
        decreases i,
    {
        i = i - 1;
        let s = sequences[i];
        proof {
            assert(sequences@[i as int].wf());
        }
        fse_stream::encode_symbol(&mut stream, &mut of, offsets, s.of_code)?;
        fse_stream::encode_symbol(&mut stream, &mut ml, match_lengths, s.ml_code)?;
        fse_stream::encode_symbol(&mut stream, &mut ll, literal_lengths, s.ll_code)?;
        push_sequence_extras(&mut stream, &s);
    }
    fse_stream::flush_cstate(&mut stream, &ml, match_lengths);
    fse_stream::flush_cstate(&mut stream, &of, offsets);
    fse_stream::flush_cstate(&mut stream, &ll, literal_lengths);
    let ghost whole = stream@;
    proof {
        stream.lemma_view_wf();
        bits::lemma_stream_roundtrip(whole);
    }
    let out: Vec<u8> = stream.close();
    if out.len() == 0 {
        return Err(Error::DstSizeTooSmall);
    }
    Ok(out)
}

} // verus!
