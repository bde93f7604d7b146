//! The sequences section of a block: its header, and the sequences that its
//! bit stream holds.

use crate::entropy::fse::DTable;
use crate::error::{Error, Result};
use crate::sequence::codes;
use crate::sequence::tables;
use crate::sequence::tables::{
    CompressionMode, PartTable, PartTables, SequenceCompressionModes, SequencePart, TableTarget,
};
use vstd::arithmetic::power2::*;
use vstd::prelude::*;

verus! {

// ---------------------------------------------------------------------------
// The number of sequences.

/// One more than the largest number of sequences that a header can hold.
pub const SEQUENCE_COUNT_END: usize = 0x1_7F00;

/// So many sequences never take more bits than fit in 32 bits to count.
pub const COUNTABLE_SEQUENCES: usize = 0x200_0000;

/// The number of sequences that a header starts with, and its size.
pub open spec fn sequence_count(src: Seq<u8>) -> Result<(nat, nat)> {
    if src.len() == 0 {
        Err(Error::UnexpectedEof)
    } else if src[0] < 128 {
        Ok((src[0] as nat, 1))
    } else if src[0] < 255 {
        if src.len() < 2 {
            Err(Error::UnexpectedEof)
        } else {
            Ok(((256 * (src[0] - 128) + src[1]) as nat, 2))
        }
    } else if src.len() < 3 {
        Err(Error::UnexpectedEof)
    } else {
        Ok(((0x7F00 + src[1] + 256 * src[2]) as nat, 3))
    }
}

/// The bytes that a number of sequences is written with.
pub open spec fn sequence_count_bytes(n: nat) -> Seq<u8> {
    if n < 128 {
        seq![n as u8]
    } else if n < 0x7F00 {
        seq![(128 + n / 256) as u8, (n % 256) as u8]
    } else {
        seq![255u8, ((n - 0x7F00) % 256) as u8, ((n - 0x7F00) / 256) as u8]
    }
}

/// A number of sequences is read back as it was written, whatever follows.
pub proof fn law_sequence_count_roundtrip(n: nat, rest: Seq<u8>)
    requires
        n < SEQUENCE_COUNT_END,
    ensures
        sequence_count(sequence_count_bytes(n) + rest) == Ok::<(nat, nat), Error>(
            (n, sequence_count_bytes(n).len()),
        ),
{
}

/// Reads the number of sequences. Returns it and the number of bytes read.
pub fn parse_sequence_count(src: &[u8]) -> (r: Result<(usize, usize)>)
    ensures
        match sequence_count(src@) {
            Ok((n, size)) => r == Ok::<(usize, usize), Error>((n as usize, size as usize)) && n
                < SEQUENCE_COUNT_END && size <= src@.len() && 1 <= size <= 3,
            Err(e) => r == Err::<(usize, usize), Error>(e),
        },
{
    if src.len() == 0 {
        return Err(Error::UnexpectedEof);
    }
    let byte0: u8 = src[0];
    if byte0 < 128 {
        return Ok((byte0 as usize, 1));
    }
    if src.len() < 2 {
        return Err(Error::UnexpectedEof);
    }
    if byte0 < 255 {
        return Ok(((byte0 as usize - 128) * 256 + src[1] as usize, 2));
    }
    if src.len() < 3 {
        return Err(Error::UnexpectedEof);
    }
    Ok((0x7F00 + src[1] as usize + src[2] as usize * 256, 3))
}

/// How many bytes a number of sequences takes.
pub fn encoded_sequence_count_size(number_of_sequences: usize) -> (r: usize)
    ensures
        r == sequence_count_bytes(number_of_sequences as nat).len(),
{
    if number_of_sequences < 128 {
        1
    } else if number_of_sequences < 0x7F00 {
        2
    } else {
        3
    }
}

/// The bytes of a number of sequences. A number that no header can hold is
/// refused.
pub fn encode_sequence_count(number_of_sequences: usize) -> (r: Result<Vec<u8>>)
    ensures
        number_of_sequences >= SEQUENCE_COUNT_END ==> r == Err::<Vec<u8>, Error>(
            Error::InvalidParameter("too many sequences in one block"),
        ),
        number_of_sequences < SEQUENCE_COUNT_END ==> r is Ok && r->Ok_0@ == sequence_count_bytes(
            number_of_sequences as nat,
        ),
{
    if number_of_sequences >= SEQUENCE_COUNT_END {
        return Err(Error::InvalidParameter("too many sequences in one block"));
    }
    let mut out: Vec<u8> = Vec::new();
    if number_of_sequences < 128 {
        out.push(number_of_sequences as u8);
    } else if number_of_sequences < 0x7F00 {
        out.push((128 + number_of_sequences / 256) as u8);
        out.push((number_of_sequences % 256) as u8);
    } else {
        let value: usize = number_of_sequences - 0x7F00;
        out.push(255);
        out.push((value % 256) as u8);
        out.push((value / 256) as u8);
    }
    proof {
        assert(out@ =~= sequence_count_bytes(number_of_sequences as nat));
    }
    Ok(out)
}

// ---------------------------------------------------------------------------
// The header.

/// The three tables that a decoder keeps from block to block.
pub struct SequenceTablesState {
    pub literal_lengths: PartTables,
    pub offsets: PartTables,
    pub match_lengths: PartTables,
}

/// The tables that sequences are decoded with, where they are there.
pub struct KeptTables {
    pub ll: Option<PartTable>,
    pub of: Option<PartTable>,
    pub ml: Option<PartTable>,
}

/// The tables that sequences are decoded with.
pub struct Tables {
    pub ll: PartTable,
    pub of: PartTable,
    pub ml: PartTable,
}

impl Tables {
    /// Every table is well formed and its values are values of its part.
    pub open spec fn wf(self) -> bool {
        &&& self.ll.wf()
        &&& self.of.wf()
        &&& self.ml.wf()
        &&& self.ll.values_at_most(tables::value_max(SequencePart::LiteralLength))
        &&& self.of.values_at_most(tables::value_max(SequencePart::Offset))
        &&& self.ml.values_at_most(tables::value_max(SequencePart::MatchLength))
    }
}

impl KeptTables {
    /// All three tables are there.
    pub open spec fn complete(self) -> bool {
        self.ll is Some && self.of is Some && self.ml is Some
    }

    /// The tables, where all three are there.
    pub open spec fn tables(self) -> Tables {
        Tables { ll: self.ll->0, of: self.of->0, ml: self.ml->0 }
    }

    /// The error of decoding without all three.
    pub open spec fn missing(self) -> Error {
        if self.ll is None {
            Error::Corruption("missing literal-length FSE table")
        } else if self.of is None {
            Error::Corruption("missing offset FSE table")
        } else {
            Error::Corruption("missing match-length FSE table")
        }
    }
}

impl SequenceTablesState {
    /// Each table is a table of its part.
    pub open spec fn wf(self) -> bool {
        &&& self.literal_lengths.wf(SequencePart::LiteralLength)
        &&& self.offsets.wf(SequencePart::Offset)
        &&& self.match_lengths.wf(SequencePart::MatchLength)
    }

    /// The tables that sequences are decoded with.
    pub open spec fn kept(self) -> KeptTables {
        KeptTables {
            ll: self.literal_lengths.table(SequencePart::LiteralLength),
            of: self.offsets.table(SequencePart::Offset),
            ml: self.match_lengths.table(SequencePart::MatchLength),
        }
    }

    /// The plain tables.
    pub open spec fn plain(self) -> KeptTables {
        KeptTables {
            ll: self.literal_lengths.plain_view(SequencePart::LiteralLength),
            of: self.offsets.plain_view(SequencePart::Offset),
            ml: self.match_lengths.plain_view(SequencePart::MatchLength),
        }
    }

    /// The plain tables are well formed where all three are there.
    pub proof fn lemma_plain_wf(self)
        requires
            self.wf(),
            self.plain().complete(),
        ensures
            self.plain().tables().wf(),
    {
        tables::lemma_plain_table_wf(SequencePart::LiteralLength, self.literal_lengths.plain->0);
        tables::lemma_plain_table_wf(SequencePart::Offset, self.offsets.plain->0);
        tables::lemma_plain_table_wf(SequencePart::MatchLength, self.match_lengths.plain->0);
    }

    /// The tables are well formed where all three are there.
    pub proof fn lemma_kept_wf(self)
        requires
            self.wf(),
            self.kept().complete(),
        ensures
            self.kept().tables().wf(),
    {
        if self.literal_lengths.expanded is None {
            tables::lemma_plain_table_wf(
                SequencePart::LiteralLength,
                self.literal_lengths.plain->0,
            );
        }
        if self.offsets.expanded is None {
            tables::lemma_plain_table_wf(SequencePart::Offset, self.offsets.plain->0);
        }
        if self.match_lengths.expanded is None {
            tables::lemma_plain_table_wf(SequencePart::MatchLength, self.match_lengths.plain->0);
        }
    }

    /// The tables that a dictionary brings.
    pub fn with_tables(
        literal_lengths: Option<DTable>,
        offsets: Option<DTable>,
        match_lengths: Option<DTable>,
    ) -> (r: SequenceTablesState)
        requires
            literal_lengths matches Some(dt) ==> dt.wf() && dt.symbols_below(
                codes::LITERAL_LENGTH_CODE_MAX as nat + 1,
            ),
            offsets matches Some(dt) ==> dt.wf() && dt.symbols_below(
                codes::OFFSET_CODE_MAX as nat + 1,
            ),
            match_lengths matches Some(dt) ==> dt.wf() && dt.symbols_below(
                codes::MATCH_LENGTH_CODE_MAX as nat + 1,
            ),
        ensures
            r.wf(),
            r.literal_lengths.plain == literal_lengths,
            r.offsets.plain == offsets,
            r.match_lengths.plain == match_lengths,
            r.kept() == r.plain(),
    {
        SequenceTablesState {
            literal_lengths: PartTables { plain: literal_lengths, expanded: None },
            offsets: PartTables { plain: offsets, expanded: None },
            match_lengths: PartTables { plain: match_lengths, expanded: None },
        }
    }
}

impl Default for SequenceTablesState {
    /// No tables.
    fn default() -> (r: SequenceTablesState)
        ensures
            r.wf(),
            r.kept() == (KeptTables { ll: None, of: None, ml: None }),
            r.plain() == r.kept(),
    {
        SequenceTablesState {
            literal_lengths: PartTables::none(),
            offsets: PartTables::none(),
            match_lengths: PartTables::none(),
        }
    }
}

/// A section's header and where its bit stream stands.
pub struct ParsedSequenceSection<'a> {
    pub number_of_sequences: usize,
    pub header_size: usize,
    pub modes: Option<SequenceCompressionModes>,
    pub bitstream: &'a [u8],
}

/// What a section's header says.
pub struct SectionHeader {
    pub count: nat,
    pub size: nat,
    pub modes: Option<SequenceCompressionModes>,
    /// The tables from here on.
    pub kept: KeptTables,
}

/// The modes that a byte stands for.
pub open spec fn modes_of(byte: u8) -> SequenceCompressionModes {
    SequenceCompressionModes {
        literal_lengths: CompressionMode::of_number((byte / 64) as nat),
        offsets: CompressionMode::of_number((byte / 16 % 4) as nat),
        match_lengths: CompressionMode::of_number((byte / 4 % 4) as nat),
    }
}

/// The byte that modes are written as.
pub open spec fn modes_byte(modes: SequenceCompressionModes) -> u8 {
    (64 * modes.literal_lengths.number() + 16 * modes.offsets.number() + 4
        * modes.match_lengths.number()) as u8
}

/// Reads the tables from `at` on, one part after the other.
pub open spec fn read_tables(
    src: Seq<u8>,
    at: nat,
    modes: SequenceCompressionModes,
    before: KeptTables,
) -> Result<(KeptTables, nat)> {
    match tables::block_table(
        SequencePart::LiteralLength,
        modes.literal_lengths,
        src.skip(at as int),
        before.ll,
    ) {
        Err(e) => Err(e),
        Ok((ll, a)) => match tables::block_table(
            SequencePart::Offset,
            modes.offsets,
            src.skip((at + a) as int),
            before.of,
        ) {
            Err(e) => Err(e),
            Ok((of, b)) => match tables::block_table(
                SequencePart::MatchLength,
                modes.match_lengths,
                src.skip((at + a + b) as int),
                before.ml,
            ) {
                Err(e) => Err(e),
                Ok((ml, c)) => Ok(
                    (KeptTables { ll: Some(ll), of: Some(of), ml: Some(ml) }, at + a + b + c),
                ),
            },
        },
    }
}

/// The tables that are kept after reading them from `at` on. Where one cannot
/// be read, those before it have been replaced and the rest are as they were.
pub open spec fn tables_read(
    src: Seq<u8>,
    at: nat,
    modes: SequenceCompressionModes,
    before: KeptTables,
) -> KeptTables {
    match tables::block_table(
        SequencePart::LiteralLength,
        modes.literal_lengths,
        src.skip(at as int),
        before.ll,
    ) {
        Err(_) => before,
        Ok((ll, a)) => match tables::block_table(
            SequencePart::Offset,
            modes.offsets,
            src.skip((at + a) as int),
            before.of,
        ) {
            Err(_) => KeptTables { ll: Some(ll), of: before.of, ml: before.ml },
            Ok((of, b)) => match tables::block_table(
                SequencePart::MatchLength,
                modes.match_lengths,
                src.skip((at + a + b) as int),
                before.ml,
            ) {
                Err(_) => KeptTables { ll: Some(ll), of: Some(of), ml: before.ml },
                Ok((ml, _)) => KeptTables { ll: Some(ll), of: Some(of), ml: Some(ml) },
            },
        },
    }
}

/// The tables that are kept after reading a section's header, whether or not
/// it could be read.
pub open spec fn section_tables(src: Seq<u8>, before: KeptTables) -> KeptTables {
    match sequence_count(src) {
        Err(_) => before,
        Ok((count, at)) => if count == 0 || at >= src.len() || src[at as int] % 4 != 0 {
            before
        } else {
            tables_read(src, at + 1, modes_of(src[at as int]), before)
        },
    }
}

/// The plain table of a part once `table` was read in that mode. A reader that
/// makes tables with baselines only leaves none.
pub open spec fn plain_after(
    mode: CompressionMode,
    target: TableTarget,
    table: PartTable,
    before: Option<PartTable>,
) -> Option<PartTable> {
    if mode == CompressionMode::Repeat {
        before
    } else if target == TableTarget::Both {
        Some(table)
    } else {
        None
    }
}

/// The plain tables after reading tables from `at` on, whether or not all of
/// them could be read.
pub open spec fn plain_read(
    src: Seq<u8>,
    at: nat,
    modes: SequenceCompressionModes,
    target: TableTarget,
    before: KeptTables,
    plain: KeptTables,
) -> KeptTables {
    match tables::block_table(
        SequencePart::LiteralLength,
        modes.literal_lengths,
        src.skip(at as int),
        before.ll,
    ) {
        Err(_) => plain,
        Ok((ll, a)) => {
            let plain_ll = plain_after(modes.literal_lengths, target, ll, plain.ll);
            match tables::block_table(
                SequencePart::Offset,
                modes.offsets,
                src.skip((at + a) as int),
                before.of,
            ) {
                Err(_) => KeptTables { ll: plain_ll, of: plain.of, ml: plain.ml },
                Ok((of, b)) => {
                    let plain_of = plain_after(modes.offsets, target, of, plain.of);
                    match tables::block_table(
                        SequencePart::MatchLength,
                        modes.match_lengths,
                        src.skip((at + a + b) as int),
                        before.ml,
                    ) {
                        Err(_) => KeptTables { ll: plain_ll, of: plain_of, ml: plain.ml },
                        Ok((ml, _)) => KeptTables {
                            ll: plain_ll,
                            of: plain_of,
                            ml: plain_after(modes.match_lengths, target, ml, plain.ml),
                        },
                    }
                },
            }
        },
    }
}

/// The plain tables after reading a section's header, whether or not it could
/// be read.
pub open spec fn section_plain(
    src: Seq<u8>,
    target: TableTarget,
    before: KeptTables,
    plain: KeptTables,
) -> KeptTables {
    match sequence_count(src) {
        Err(_) => plain,
        Ok((count, at)) => if count == 0 || at >= src.len() || src[at as int] % 4 != 0 {
            plain
        } else {
            plain_read(src, at + 1, modes_of(src[at as int]), target, before, plain)
        },
    }
}

/// What a section's header says, given the tables of the block before.
pub open spec fn section_header(src: Seq<u8>, before: KeptTables) -> Result<SectionHeader> {
    match sequence_count(src) {
        Err(e) => Err(e),
        Ok((count, at)) => if count == 0 {
            Ok(SectionHeader { count, size: at, modes: None, kept: before })
        } else if at >= src.len() {
            Err(Error::UnexpectedEof)
        } else if src[at as int] % 4 != 0 {
            Err(Error::Corruption("sequence compression modes reserved bits are set"))
        } else {
            let modes = modes_of(src[at as int]);
            match read_tables(src, at + 1, modes, before) {
                Err(e) => Err(e),
                Ok((kept, size)) => if size >= src.len() {
                    Err(Error::UnexpectedEof)
                } else {
                    Ok(SectionHeader { count, size, modes: Some(modes), kept })
                },
            }
        },
    }
}

/// Reads the tables from `at` on and keeps them. Returns where they end.
fn keep_tables(
    src: &[u8],
    at: usize,
    modes: SequenceCompressionModes,
    tables: &mut SequenceTablesState,
    target: TableTarget,
) -> (r: Result<usize>)
    requires
        old(tables).wf(),
        at <= src@.len(),
    ensures
        final(tables).wf(),
        match read_tables(src@, at as nat, modes, old(tables).kept()) {
            Err(e) => r == Err::<usize, Error>(e),
            Ok((kept, end)) => {
                &&& r == Ok::<usize, Error>(end as usize)
                &&& end <= src@.len()
                &&& final(tables).kept() == kept
            },
        },
        final(tables).kept() == tables_read(src@, at as nat, modes, old(tables).kept()),
        final(tables).plain() == plain_read(
            src@,
            at as nat,
            modes,
            target,
            old(tables).kept(),
            old(tables).plain(),
        ),
        target == TableTarget::Both && old(tables).plain() == old(tables).kept()
            ==> final(tables).plain() == final(tables).kept(),
        old(tables).kept().ll is Some ==> final(tables).kept().ll is Some,
        old(tables).kept().of is Some ==> final(tables).kept().of is Some,
        old(tables).kept().ml is Some ==> final(tables).kept().ml is Some,
{
    let len: usize = src.len();
    let a: usize = tables::decode_seq_table(
        &mut tables.literal_lengths,
        rest_of(src, at),
        SequencePart::LiteralLength,
        modes.literal_lengths,
        target,
    )?;
    let b: usize = tables::decode_seq_table(
        &mut tables.offsets,
        rest_of(src, at + a),
        SequencePart::Offset,
        modes.offsets,
        target,
    )?;
    let c: usize = tables::decode_seq_table(
        &mut tables.match_lengths,
        rest_of(src, at + a + b),
        SequencePart::MatchLength,
        modes.match_lengths,
        target,
    )?;
    let end: usize = at + a + b + c;
    proof {
        assert(end <= len);
    }
    Ok(end)
}

/// Reads a section's header and keeps its tables.
pub fn parse_sequence_section<'a>(
    src: &'a [u8],
    tables: &mut SequenceTablesState,
    target: TableTarget,
) -> (r: Result<ParsedSequenceSection<'a>>)
    requires
        old(tables).wf(),
    ensures
        final(tables).wf(),
        match section_header(src@, old(tables).kept()) {
            Err(e) => r == Err::<ParsedSequenceSection<'a>, Error>(e),
            Ok(h) => {
                &&& r matches Ok(s)
                &&& s.number_of_sequences == h.count < SEQUENCE_COUNT_END
                &&& s.header_size == h.size <= src@.len()
                &&& s.modes == h.modes
                &&& final(tables).kept() == h.kept
                &&& h.count == 0 ==> s.bitstream@ == Seq::<u8>::empty() && *final(tables)
                    == *old(tables)
                &&& h.count > 0 ==> s.bitstream@ == src@.skip(h.size as int)
                &&& h.count > 0 ==> h.modes is Some && h.kept.complete()
            },
        },
        final(tables).kept() == section_tables(src@, old(tables).kept()),
        final(tables).plain() == section_plain(
            src@,
            target,
            old(tables).kept(),
            old(tables).plain(),
        ),
        target == TableTarget::Both && old(tables).plain() == old(tables).kept()
            ==> final(tables).plain() == final(tables).kept(),
        old(tables).kept().ll is Some ==> final(tables).kept().ll is Some,
        old(tables).kept().of is Some ==> final(tables).kept().of is Some,
        old(tables).kept().ml is Some ==> final(tables).kept().ml is Some,
{
    let (number_of_sequences, count_size) = parse_sequence_count(src)?;
    if number_of_sequences == 0 {
        let empty: &'a [u8] = &src[0..0];
        proof {
            assert(empty@ =~= Seq::<u8>::empty());
        }
        return Ok(
            ParsedSequenceSection {
                number_of_sequences,
                header_size: count_size,
                modes: None,
                bitstream: empty,
            },
        );
    }
    if count_size >= src.len() {
        return Err(Error::UnexpectedEof);
    }
    let byte: u8 = src[count_size];
    if byte % 4 != 0 {
        return Err(Error::Corruption("sequence compression modes reserved bits are set"));
    }
    let modes = SequenceCompressionModes {
        literal_lengths: CompressionMode::from_bits(byte / 64),
        offsets: CompressionMode::from_bits(byte / 16),
        match_lengths: CompressionMode::from_bits(byte / 4),
    };
    let cursor: usize = keep_tables(src, count_size + 1, modes, tables, target)?;
    if cursor >= src.len() {
        return Err(Error::UnexpectedEof);
    }
    Ok(
        ParsedSequenceSection {
            number_of_sequences,
            header_size: cursor,
            modes: Some(modes),
            bitstream: rest_of(src, cursor),
        },
    )
}

/// The bytes from `at` on.
fn rest_of<'a>(src: &'a [u8], at: usize) -> (r: &'a [u8])
    requires
        at <= src@.len(),
    ensures
        r@ == src@.skip(at as int),
{
    let r: &'a [u8] = &src[at..src.len()];
    proof {
        assert(r@ =~= src@.skip(at as int));
    }
    r
}

} // verus!
