//! Laws of the format of sequences sections: what codes stand for, what the
//! bytes of a header say, and in which order bits are read.

use crate::entropy::bitstream::Reading;
use crate::entropy::fse;
use crate::entropy::mem;
use crate::entropy::ncount;
use crate::error::Error;
use crate::sequence::codes;
use crate::sequence::decode;
use crate::sequence::decode::Decoding;
use crate::sequence::repeat::{RepeatOffsets, SequenceCommand};
use crate::sequence::section;
use crate::sequence::section::{KeptTables, Tables};
use crate::sequence::stats;
use crate::sequence::tables;
use crate::sequence::tables::{CompressionMode, PartTable, SequencePart, TableSource, TableTarget};
use crate::sequence::write::SectionPlan;
use vstd::arithmetic::power2::*;
use vstd::prelude::*;

verus! {

// ---------------------------------------------------------------------------
// Codes.

/// The codes of literal lengths stand for ranges that follow each other from
/// zero on; each range is as wide as the code's extra bits can count.
pub proof fn law_literal_length_ranges(code: nat)
    requires
        code <= 35,
    ensures
        codes::literal_base(0) == 0,
        code < 35 ==> codes::literal_base(code + 1) == codes::literal_base(code) + pow2(
            codes::literal_extra_bits(code),
        ),
        codes::literal_extra_bits(code) == seq![
            0nat, 0, 0, 0, 0, 0, 0, 0, 0, 0, 0, 0, 0, 0, 0, 0, 1, 1, 1, 1, 2, 2, 3, 3, 4, 6, 7, 8, 9, 10,
            11, 12, 13, 14, 15, 16,
        ][code as int],
{
    lemma2_to64();
    if code >= 25 {
        lemma_pow2_unfold((code - 18) as nat);
    }
}

/// The codes of match lengths stand for ranges that follow each other from
/// three on.
pub proof fn law_match_length_ranges(code: nat)
    requires
        code <= 52,
    ensures
        codes::match_base(0) == 3,
        code < 52 ==> codes::match_base(code + 1) == codes::match_base(code) + pow2(
            codes::match_extra_bits(code),
        ),
        codes::match_extra_bits(code) == seq![
            0nat, 0, 0, 0, 0, 0, 0, 0, 0, 0, 0, 0, 0, 0, 0, 0, 0, 0, 0, 0, 0, 0, 0, 0, 0, 0, 0, 0, 0, 0,
            0, 0, 1, 1, 1, 1, 2, 2, 3, 3, 4, 4, 5, 7, 8, 9, 10, 11, 12, 13, 14, 15, 16,
        ][code as int],
{
    lemma2_to64();
    if code >= 43 {
        lemma_pow2_unfold((code - 35) as nat);
    }
}

/// An offset's code is how many bits stand below its highest one, and those
/// are its extra bits.
pub proof fn law_offset_ranges(code: nat)
    requires
        code <= 31,
    ensures
        SequencePart::Offset.code_base(code) == pow2(code),
        SequencePart::Offset.code_extra_bits(code) == code,
        SequencePart::LiteralLength.code_base(code) == codes::literal_base(code),
        SequencePart::LiteralLength.code_extra_bits(code) == codes::literal_extra_bits(code),
        SequencePart::MatchLength.code_base(code) == codes::match_base(code),
        SequencePart::MatchLength.code_extra_bits(code) == codes::match_extra_bits(code),
{
}

/// The distributions that the format brings along, their table logs, and the
/// largest codes and table logs of each part.
pub proof fn law_predefined_distributions()
    ensures
        SequencePart::LiteralLength.predefined().map_values(|c: i16| c as int) == seq![
            4int, 3, 2, 2, 2, 2, 2, 2, 2, 2, 2, 2, 2, 1, 1, 1, 2, 2, 2, 2, 2, 2, 2, 2, 2, 3, 2, 1, 1, 1,
            1, 1, -1, -1, -1, -1,
        ],
        SequencePart::Offset.predefined().map_values(|c: i16| c as int) == seq![
            1int, 1, 1, 1, 1, 1, 2, 2, 2, 1, 1, 1, 1, 1, 1, 1, 1, 1, 1, 1, 1, 1, 1, 1, -1, -1, -1, -1,
            -1,
        ],
        SequencePart::MatchLength.predefined().map_values(|c: i16| c as int) == seq![
            1int, 4, 3, 2, 2, 2, 2, 2, 2, 1, 1, 1, 1, 1, 1, 1, 1, 1, 1, 1, 1, 1, 1, 1, 1, 1, 1, 1, 1, 1,
            1, 1, 1, 1, 1, 1, 1, 1, 1, 1, 1, 1, 1, 1, 1, 1, -1, -1, -1, -1, -1, -1, -1,
        ],
        SequencePart::LiteralLength.predefined_log() == 6,
        SequencePart::Offset.predefined_log() == 5,
        SequencePart::MatchLength.predefined_log() == 6,
        SequencePart::LiteralLength.code_max() == 35 && SequencePart::LiteralLength.log_max() == 9,
        SequencePart::Offset.code_max() == 31 && SequencePart::Offset.log_max() == 8,
        SequencePart::MatchLength.code_max() == 52 && SequencePart::MatchLength.log_max() == 9,
{
    assert(SequencePart::LiteralLength.predefined().map_values(|c: i16| c as int) =~= seq![
        4int, 3, 2, 2, 2, 2, 2, 2, 2, 2, 2, 2, 2, 1, 1, 1, 2, 2, 2, 2, 2, 2, 2, 2, 2, 3, 2, 1, 1, 1, 1,
        1, -1, -1, -1, -1,
    ]);
    assert(SequencePart::Offset.predefined().map_values(|c: i16| c as int) =~= seq![
        1int, 1, 1, 1, 1, 1, 2, 2, 2, 1, 1, 1, 1, 1, 1, 1, 1, 1, 1, 1, 1, 1, 1, 1, -1, -1, -1, -1, -1,
    ]);
    assert(SequencePart::MatchLength.predefined().map_values(|c: i16| c as int) =~= seq![
        1int, 4, 3, 2, 2, 2, 2, 2, 2, 1, 1, 1, 1, 1, 1, 1, 1, 1, 1, 1, 1, 1, 1, 1, 1, 1, 1, 1, 1, 1, 1,
        1, 1, 1, 1, 1, 1, 1, 1, 1, 1, 1, 1, 1, 1, 1, -1, -1, -1, -1, -1, -1, -1,
    ]);
}

// ---------------------------------------------------------------------------
// Headers.

/// The number of sequences is told by one byte, or by two, the upper one with
/// its highest bit set, or by a byte of ones and two more from their lower end.
/// It takes no more bytes than it has to.
pub proof fn law_sequence_count_bytes(src: Seq<u8>, n: nat)
    ensures
        src.len() >= 1 && src[0] < 128 ==> section::sequence_count(src) == Ok::<
            (nat, nat),
            Error,
        >((src[0] as nat, 1)),
        src.len() >= 2 && 128 <= src[0] < 255 ==> section::sequence_count(src) == Ok::<
            (nat, nat),
            Error,
        >(((256 * src[0] + src[1] - 32768) as nat, 2)),
        src.len() >= 3 && src[0] == 255 ==> section::sequence_count(src) == Ok::<
            (nat, nat),
            Error,
        >(((32512 + src[1] + 256 * src[2]) as nat, 3)),
        (src.len() == 0 || (src.len() == 1 && src[0] >= 128) || (src.len() == 2 && src[0] == 255))
            ==> section::sequence_count(src) == Err::<(nat, nat), Error>(Error::UnexpectedEof),
        section::sequence_count_bytes(n).len() == if n < 128 {
            1nat
        } else if n < 32512 {
            2
        } else {
            3
        },
{
}

/// A byte of modes tells, from its highest bits down, how the tables of
/// literal lengths, offsets and match lengths are given; its two lowest bits
/// are reserved.
pub proof fn law_modes_byte(byte: u8)
    ensures
        ({
            let m = section::modes_of(byte);
            let named = |n: int|
                if n == 0 {
                    CompressionMode::Predefined
                } else if n == 1 {
                    CompressionMode::Rle
                } else if n == 2 {
                    CompressionMode::FseCompressed
                } else {
                    CompressionMode::Repeat
                };
            &&& m.literal_lengths == named(byte as int / 64)
            &&& m.offsets == named((byte as int / 16) % 4)
            &&& m.match_lengths == named((byte as int / 4) % 4)
            &&& byte % 4 == 0 ==> section::modes_byte(m) == byte
        }),
{
}

/// How a part's table is given: by the format, by one code that all sequences
/// have, by a distribution, or by the block before. Only the code and the
/// distribution take bytes.
pub proof fn law_table_modes(part: SequencePart, src: Seq<u8>, before: Option<PartTable>)
    ensures
        tables::block_table(part, CompressionMode::Predefined, src, before) == Ok::<
            (PartTable, nat),
            Error,
        >(
            (
                tables::source_table(
                    part,
                    TableSource::Distribution {
                        counts: part.predefined(),
                        n: part.predefined().len(),
                        log: part.predefined_log(),
                    },
                ),
                0,
            ),
        ),
        src.len() > 0 && src[0] <= part.code_max() ==> tables::block_table(
            part,
            CompressionMode::Rle,
            src,
            before,
        ) == Ok::<(PartTable, nat), Error>(
            (tables::source_table(part, TableSource::Only { code: src[0] }), 1),
        ),
        src.len() > 0 && src[0] > part.code_max() ==> tables::block_table(
            part,
            CompressionMode::Rle,
            src,
            before,
        ) is Err,
        src.len() == 0 ==> tables::block_table(part, CompressionMode::Rle, src, before) is Err,
        match ncount::parse_header(src, part.code_max() as nat + 1, part.log_max()) {
            Ok(h) => tables::block_table(part, CompressionMode::FseCompressed, src, before) == Ok::<
                (PartTable, nat),
                Error,
            >(
                (
                    tables::source_table(
                        part,
                        TableSource::Distribution {
                            counts: h.counts,
                            n: h.counts.len(),
                            log: h.log,
                        },
                    ),
                    h.size,
                ),
            ),
            Err(e) => tables::block_table(part, CompressionMode::FseCompressed, src, before)
                == Err::<(PartTable, nat), Error>(e),
        },
        before matches Some(t) ==> tables::block_table(part, CompressionMode::Repeat, src, before)
            == Ok::<(PartTable, nat), Error>((t, 0)),
        before is None ==> tables::block_table(part, CompressionMode::Repeat, src, before) is Err,
{
    reveal(tables::block_table);
}

/// The table of a single code has one state, which takes no bits and stands
/// for the code's range.
pub proof fn law_table_of_one_code(part: SequencePart, code: u8)
    ensures
        ({
            let t = tables::source_table(part, TableSource::Only { code });
            &&& t.log == 0
            &&& t.entries.len() == 1
            &&& t.entries[0].nb == 0
            &&& t.entries[0].next == 0
            &&& t.entries[0].base == part.code_base(code as nat)
            &&& t.entries[0].extra == part.code_extra_bits(code as nat)
        }),
{
}

/// Behind the number of sequences and the modes stand the tables, first that
/// of literal lengths, then that of offsets, then that of match lengths, and
/// then the bit stream.
pub proof fn law_header_order(src: Seq<u8>, before: KeptTables)
    requires
        section::section_header(src, before) is Ok,
    ensures
        ({
            let h = section::section_header(src, before)->Ok_0;
            &&& section::sequence_count(src) is Ok
            &&& h.count == section::sequence_count(src)->Ok_0.0
            &&& h.count == 0 ==> h.size == section::sequence_count(src)->Ok_0.1 && h.kept == before
            &&& h.count > 0 ==> {
                let at = section::sequence_count(src)->Ok_0.1;
                let m = section::modes_of(src[at as int]);
                let ll = tables::block_table(
                    SequencePart::LiteralLength,
                    m.literal_lengths,
                    src.skip(at as int + 1),
                    before.ll,
                );
                let a = at + 1 + ll->Ok_0.1;
                let of = tables::block_table(
                    SequencePart::Offset,
                    m.offsets,
                    src.skip(a as int),
                    before.of,
                );
                let b = a + of->Ok_0.1;
                let ml = tables::block_table(
                    SequencePart::MatchLength,
                    m.match_lengths,
                    src.skip(b as int),
                    before.ml,
                );
                &&& at < src.len()
                &&& src[at as int] % 4 == 0
                &&& ll is Ok && of is Ok && ml is Ok
                &&& h.kept.ll == Some(ll->Ok_0.0)
                &&& h.kept.of == Some(of->Ok_0.0)
                &&& h.kept.ml == Some(ml->Ok_0.0)
                &&& h.size == b + ml->Ok_0.1
            }
        }),
{
}

// ---------------------------------------------------------------------------
// The bit stream.

/// A bit stream starts with the states of literal lengths, offsets and match
/// lengths, in that order, each as wide as its table's log.
pub proof fn law_states_come_first(t: Tables, src: Seq<u8>)
    requires
        t.ll.log + t.of.log + t.ml.log <= Reading::start(src).bits.len,
    ensures
        ({
            let b = Reading::start(src).bits;
            let d = Decoding::start(t, src);
            &&& d.ll == b.top(t.ll.log)
            &&& d.of == b.pop(t.ll.log).top(t.of.log)
            &&& d.ml == b.pop(t.ll.log).pop(t.of.log).top(t.ml.log)
            &&& d.reading.bits == b.pop(t.ll.log).pop(t.of.log).pop(t.ml.log)
            &&& !d.reading.overflow()
        }),
{
}

/// A sequence's extra bits are read in the order offset, match length, literal
/// length, and are added to what the states stand for.
pub proof fn law_extra_bits_order(t: Tables, d: Decoding)
    requires
        t.wf(),
        d.within(t),
        !d.reading.overflow(),
        t.of.entries[d.of as int].extra + t.ml.entries[d.ml as int].extra
            + t.ll.entries[d.ll as int].extra <= d.reading.bits.len,
    ensures
        ({
            let b = d.reading.bits;
            let no = t.of.entries[d.of as int].extra;
            let nm = t.ml.entries[d.ml as int].extra;
            let nl = t.ll.entries[d.ll as int].extra;
            let (s, r) = d.sequence(t);
            &&& s.offset_value == t.of.entries[d.of as int].base + b.top(no)
            &&& s.match_length == t.ml.entries[d.ml as int].base + b.pop(no).top(nm)
            &&& s.literal_length == t.ll.entries[d.ll as int].base + b.pop(no).pop(nm).top(nl)
            &&& r.bits == b.pop(no).pop(nm).pop(nl)
            &&& !r.overflow()
        }),
{
    decode::lemma_step(t, d);
}

/// Behind the extra bits stand the bits that lead to the next states, in the
/// order literal length, match length, offset.
pub proof fn law_next_states_order(t: Tables, d: Decoding, r: Reading)
    requires
        !r.overflow(),
        t.ll.entries[d.ll as int].nb + t.ml.entries[d.ml as int].nb + t.of.entries[d.of as int].nb
            <= r.bits.len,
        r.bits.wf(),
    ensures
        ({
            let b = r.bits;
            let el = t.ll.entries[d.ll as int];
            let em = t.ml.entries[d.ml as int];
            let eo = t.of.entries[d.of as int];
            let next = d.next(t, r);
            &&& next.ll == el.next + b.top(el.nb)
            &&& next.ml == em.next + b.pop(el.nb).top(em.nb)
            &&& next.of == eo.next + b.pop(el.nb).pop(em.nb).top(eo.nb)
            &&& next.reading.bits == b.pop(el.nb).pop(em.nb).pop(eo.nb)
            &&& !next.reading.overflow()
        }),
{
}

/// A stream that decodes gives as many sequences as were asked for, the first
/// one first, and its last bit belongs to the last one.
pub proof fn law_stream_gives_its_sequences(t: Tables, d: Decoding, n: nat, total: nat)
    requires
        n > 0,
        decode::sequences_from(t, d, n, total) is Ok,
    ensures
        ({
            let all = decode::sequences_from(t, d, n, total)->Ok_0;
            let (s, r) = d.sequence(t);
            &&& all.len() == n
            &&& all[0] == s
            &&& n == 1 ==> r.finished()
            &&& n > 1 ==> !d.next(t, r).reading.overflow() && all.drop_first()
                == decode::sequences_from(
                t,
                d.next(t, r),
                (n - 1) as nat,
                total + s.match_length as nat,
            )->Ok_0
        }),
    decreases n,
{
    let (s, r) = d.sequence(t);
    if n > 1 {
        let next = d.next(t, r);
        law_stream_gives_its_sequences(t, next, (n - 1) as nat, total + s.match_length as nat);
        let rest = decode::sequences_from(
            t,
            next,
            (n - 1) as nat,
            total + s.match_length as nat,
        )->Ok_0;
        assert((seq![s] + rest).drop_first() =~= rest);
    }
}

// ---------------------------------------------------------------------------
// Tables.

/// A state of a distribution's table stands for the range of its symbol, and
/// leads on as the plain state does.
pub proof fn law_table_of_a_distribution(
    part: SequencePart,
    counts: Seq<i16>,
    n: nat,
    log: nat,
    u: int,
)
    requires
        0 <= u < pow2(log),
    ensures
        ({
            let t = tables::source_table(part, TableSource::Distribution { counts, n, log });
            let e = fse::distribution_entry(counts, n, log, u);
            &&& t.log == log
            &&& t.entries.len() == pow2(log)
            &&& t.entries[u].base == part.code_base(e.symbol as nat)
            &&& t.entries[u].extra == part.code_extra_bits(e.symbol as nat)
            &&& t.entries[u].next == e.new_state
            &&& t.entries[u].nb == e.nb_bits
        }),
{
}

/// A reader that wants only the tables with baselines takes the plain ones
/// away, so that an earlier block's are not taken for this block's; a table
/// from the block before stays as it is.
pub proof fn law_plain_tables(mode: CompressionMode, table: PartTable, before: Option<PartTable>)
    ensures
        mode == CompressionMode::Repeat ==> section::plain_after(
            mode,
            TableTarget::Both,
            table,
            before,
        ) == before && section::plain_after(mode, TableTarget::SequenceOnly, table, before)
            == before,
        mode != CompressionMode::Repeat ==> section::plain_after(
            mode,
            TableTarget::Both,
            table,
            before,
        ) == Some(table) && section::plain_after(mode, TableTarget::SequenceOnly, table, before) is None,
{
}

/// A header that cannot be read to its end leaves the tables that it could
/// read in place, and the others as they were.
pub proof fn law_tables_after_a_header(src: Seq<u8>, before: KeptTables)
    ensures
        section::section_header(src, before) matches Ok(h) ==> section::section_tables(src, before)
            == h.kept,
        section::sequence_count(src) is Err ==> section::section_tables(src, before) == before,
{
}

/// The extra bits of codes add up code by code.
pub proof fn law_extra_bits_add_up(part: SequencePart, codes: Seq<u8>, k: nat)
    requires
        k < codes.len(),
    ensures
        stats::extra_width(part, codes, 0) == 0,
        stats::extra_width(part, codes, k + 1) == stats::extra_width(part, codes, k)
            + part.code_extra_bits(codes[k as int] as nat),
{
}

/// A sequence is estimated at its extra bits and 22 bits more for its codes.
/// The offset counts by the value that names it.
pub proof fn law_sequence_estimate(
    raw_offset: u32,
    literal_length: u32,
    match_length: u32,
    reps: RepeatOffsets,
    ll: nat,
    ml: nat,
    of: nat,
)
    requires
        raw_offset > 0,
        reps.expressible(raw_offset, literal_length),
        ll <= 35,
        ml <= 52,
        codes::literal_base(ll) <= literal_length < codes::literal_base(ll) + pow2(
            codes::literal_extra_bits(ll),
        ),
        codes::match_base(ml) <= match_length < codes::match_base(ml) + pow2(
            codes::match_extra_bits(ml),
        ),
        pow2(of) <= reps.classification(raw_offset, literal_length) < 2 * pow2(of),
    ensures
        codes::estimated_bits(raw_offset, literal_length, match_length, reps)
            == codes::literal_extra_bits(ll) + codes::match_extra_bits(ml) + of + 22,
{
    codes::law_literal_code_unique(ll, (literal_length - codes::literal_base(ll)) as nat);
    codes::law_match_code_unique(ml, (match_length - codes::match_base(ml)) as nat);
    lemma_pow2_unfold(of + 1);
    mem::lemma_floor_log2_unique(reps.classification(raw_offset, literal_length) as nat, of);
}

/// A stream fails at its first sequence that fails: where the match lengths
/// come to more than a word tells, where bits are missing before another
/// sequence, and where bits are left or missing at the end.
pub proof fn law_stream_errors(t: Tables, d: Decoding, n: nat, total: nat)
    requires
        n > 0,
    ensures
        ({
            let (s, r) = d.sequence(t);
            let all = decode::sequences_from(t, d, n, total);
            let next = d.next(t, r);
            let rest = decode::sequences_from(t, next, (n - 1) as nat, total + s.match_length as nat);
            if total + s.match_length > usize::MAX {
                all is Err && all->Err_0 == Error::OutputSizeOverflow
            } else if n == 1 {
                &&& all is Ok <==> !r.overflow() && r.bits.len == 0
                &&& all is Err ==> all->Err_0 == Error::Corruption(
                    "sequence bitstream was not fully consumed",
                )
            } else if next.reading.overflow() {
                all is Err && all->Err_0 == Error::Corruption("sequence bitstream overflow")
            } else {
                &&& all is Ok <==> rest is Ok
                &&& all is Err ==> all->Err_0 == rest->Err_0
            }
        }),
{
}

/// A stream needs bytes, and a mark in its last one.
pub proof fn law_streams_have_a_mark(t: Tables, src: Seq<u8>, n: nat)
    ensures
        n == 0 ==> decode::stream_sequences(t, src, n) == Ok::<Seq<SequenceCommand>, Error>(
            Seq::empty(),
        ),
        n > 0 && src.len() == 0 ==> decode::stream_sequences(t, src, n) == Err::<
            Seq<SequenceCommand>,
            Error,
        >(Error::SrcSizeWrong),
        n > 0 && src.len() > 0 && src[src.len() - 1] == 0 ==> decode::stream_sequences(t, src, n)
            == Err::<Seq<SequenceCommand>, Error>(
            Error::Corruption("bitstream end marker is zero"),
        ),
{
}

/// Sequences are decoded only with all three tables. The first that is missing
/// is named.
pub proof fn law_missing_tables(count: nat, kept: KeptTables, src: Seq<u8>)
    requires
        count > 0,
    ensures
        ({
            let r = decode::section_sequences(count, kept, src);
            &&& kept.ll is None ==> r is Err && r->Err_0 == Error::Corruption(
                "missing literal-length FSE table",
            )
            &&& kept.ll is Some && kept.of is None ==> r is Err && r->Err_0 == Error::Corruption(
                "missing offset FSE table",
            )
            &&& kept.ll is Some && kept.of is Some && kept.ml is None ==> r is Err && r->Err_0
                == Error::Corruption("missing match-length FSE table")
            &&& kept.ll is Some && kept.of is Some && kept.ml is Some ==> r
                == decode::stream_sequences(
                (Tables { ll: kept.ll->0, of: kept.of->0, ml: kept.ml->0 }),
                src,
                count,
            )
        }),
{
}

/// A header with sequences is read where its count, its modes and its three
/// tables are, and something follows them. What could not be read leaves the
/// tables before it in place.
pub proof fn law_headers_that_are_read(src: Seq<u8>, before: KeptTables)
    requires
        section::sequence_count(src) is Ok,
    ensures
        ({
            let (count, at) = section::sequence_count(src)->Ok_0;
            let m = section::modes_of(src[at as int]);
            let ll = tables::block_table(
                SequencePart::LiteralLength,
                m.literal_lengths,
                src.skip(at as int + 1),
                before.ll,
            );
            let a = at + 1 + ll->Ok_0.1;
            let of = tables::block_table(
                SequencePart::Offset,
                m.offsets,
                src.skip(a as int),
                before.of,
            );
            let b = a + of->Ok_0.1;
            let ml = tables::block_table(
                SequencePart::MatchLength,
                m.match_lengths,
                src.skip(b as int),
                before.ml,
            );
            let h = section::section_header(src, before);
            let kept = section::section_tables(src, before);
            let readable = count > 0 && at < src.len() && src[at as int] % 4 == 0;
            &&& count == 0 ==> h is Ok
            &&& count > 0 ==> (h is Ok <==> readable && ll is Ok && of is Ok && ml is Ok && b
                + ml->Ok_0.1 < src.len())
            &&& count > 0 && h is Ok ==> h->Ok_0.modes == Some(m)
            &&& count > 0 && at >= src.len() ==> h->Err_0 == Error::UnexpectedEof
            &&& readable && ll is Ok && of is Ok && ml is Ok && b + ml->Ok_0.1 >= src.len()
                ==> h->Err_0 == Error::UnexpectedEof
            &&& readable && ll is Err ==> h->Err_0 == ll->Err_0 && kept == before
            &&& readable && ll is Ok && of is Err ==> h->Err_0 == of->Err_0 && kept.ll == Some(
                ll->Ok_0.0,
            ) && kept.of == before.of && kept.ml == before.ml
            &&& readable && ll is Ok && of is Ok && ml is Err ==> h->Err_0 == ml->Err_0 && kept.ll
                == Some(ll->Ok_0.0) && kept.of == Some(of->Ok_0.0) && kept.ml == before.ml
            &&& !readable ==> kept == before
        }),
{
}

/// The header that is told apart from the others is that of the last part, in
/// the order literal lengths, offsets, match lengths, that has a distribution
/// of its own.
pub proof fn law_last_distribution_header(plan: SectionPlan)
    ensures
        plan.ml.mode == CompressionMode::FseCompressed ==> plan.last_count_size()
            == plan.ml.header.len(),
        plan.of.mode == CompressionMode::FseCompressed && plan.ml.mode
            != CompressionMode::FseCompressed ==> plan.last_count_size() == plan.of.header.len(),
        plan.ll.mode == CompressionMode::FseCompressed && plan.of.mode
            != CompressionMode::FseCompressed && plan.ml.mode != CompressionMode::FseCompressed
            ==> plan.last_count_size() == plan.ll.header.len(),
        plan.ll.mode != CompressionMode::FseCompressed && plan.of.mode
            != CompressionMode::FseCompressed && plan.ml.mode != CompressionMode::FseCompressed
            ==> plan.last_count_size() == 0,
{
}

/// A reader that wants the plain tables too, and had them all, has them all
/// again, whether or not the header could be read.
pub proof fn law_plain_tables_follow(src: Seq<u8>, before: KeptTables)
    ensures
        section::section_plain(src, TableTarget::Both, before, before) == section::section_tables(
            src,
            before,
        ),
{
    reveal(tables::block_table);
}

/// A reader that wants only the tables with baselines is left with the plain
/// tables of the parts that repeat the block before.
pub proof fn law_plain_tables_without_target(src: Seq<u8>, before: KeptTables, plain: KeptTables)
    requires
        section::section_header(src, before) is Ok,
        section::section_header(src, before)->Ok_0.count > 0,
    ensures
        ({
            let m = section::section_header(src, before)->Ok_0.modes->0;
            let r = section::section_plain(src, TableTarget::SequenceOnly, before, plain);
            &&& r.ll == if m.literal_lengths == CompressionMode::Repeat {
                plain.ll
            } else {
                None
            }
            &&& r.of == if m.offsets == CompressionMode::Repeat {
                plain.of
            } else {
                None
            }
            &&& r.ml == if m.match_lengths == CompressionMode::Repeat {
                plain.ml
            } else {
                None
            }
        }),
{
}

} // verus!
