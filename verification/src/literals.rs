//! The literals section of a block.
//!
//! A section holds its literals as they are, as one byte that is repeated, or
//! as streams of a prefix code, whose description is either in the section or
//! the one of an earlier section.

use crate::entropy::bits;
use crate::entropy::bitstream::Reading;
use crate::entropy::huff_compress;
use crate::entropy::huff_compress::{Compressed, StreamMode};
use crate::entropy::huff_decode;
use crate::entropy::huff_decode::{
    decompress_1x_using_dtable,
    decompress_4x_using_dtable,
    prefers_double_symbol_decoder,
    HuffmanDTable,
};
use crate::entropy::huff_double;
use crate::entropy::huff_header;
use crate::entropy::huff_stream;
use crate::entropy::huff_table::Code;
use crate::entropy::mem;
use crate::error::{Error, Result};
use vstd::arithmetic::power2::*;
use vstd::prelude::*;

verus! {

/// A decoding table that is kept: its shape and its code.
pub struct KeptTable {
    pub double: bool,
    pub code: Code,
}

/// What is kept from one literals section to the next.
pub struct LiteralsState {
    pub huffman_table: Option<HuffmanDTable>,
}

impl View for LiteralsState {
    type V = Option<KeptTable>;

    open spec fn view(&self) -> Option<KeptTable> {
        match self.huffman_table {
            None => None,
            Some(table) => Some(KeptTable { double: table is Double, code: table@ }),
        }
    }
}

impl LiteralsState {
    /// The table is a table of its code.
    pub open spec fn wf(self) -> bool {
        self.huffman_table matches Some(table) ==> table.wf()
    }

    /// The state that holds a table.
    pub fn with_huffman_table(huffman_table: Option<HuffmanDTable>) -> (r: LiteralsState)
        requires
            huffman_table matches Some(table) ==> table.wf(),
        ensures
            r.wf(),
            r.huffman_table == huffman_table,
    {
        LiteralsState { huffman_table }
    }
}

impl Default for LiteralsState {
    fn default() -> (r: LiteralsState)
        ensures
            r.wf(),
            r@ is None,
    {
        LiteralsState { huffman_table: None }
    }
}

// ---------------------------------------------------------------------------
// Headers.

/// The number that the first `n` bytes spell.
pub open spec fn leading(src: Seq<u8>, n: nat) -> nat {
    bits::bytes_value(src.take(n as int))
}

/// The header of literals as they are or of a repeated byte: its size, and how
/// many literals there are.
pub open spec fn plain_header(src: Seq<u8>, size_format: nat) -> Result<(nat, nat)> {
    if size_format == 0 || size_format == 2 {
        if src.len() < 1 {
            Err(Error::UnexpectedEof)
        } else {
            Ok((1, leading(src, 1) / 8))
        }
    } else if size_format == 1 {
        if src.len() < 2 {
            Err(Error::UnexpectedEof)
        } else {
            Ok((2, leading(src, 2) / 16))
        }
    } else {
        if src.len() < 3 {
            Err(Error::UnexpectedEof)
        } else {
            Ok((3, leading(src, 3) / 16))
        }
    }
}

/// The header of coded literals: its size, the numbers of literals and of
/// bytes behind the header, and whether there are four streams.
#[derive(Debug, Clone, Copy, PartialEq, Eq, Structural)]
pub struct CompressedLiteralsHeader {
    pub header_size: usize,
    pub regenerated_size: usize,
    pub compressed_size: usize,
    pub four_streams: bool,
}

/// How many bytes a header of coded literals takes.
pub open spec fn coded_header_size(size_format: nat) -> nat {
    if size_format <= 1 {
        3
    } else if size_format == 2 {
        4
    } else {
        5
    }
}

/// How many bits each of its two sizes has.
pub open spec fn coded_size_bits(size_format: nat) -> nat {
    if size_format <= 1 {
        10
    } else if size_format == 2 {
        14
    } else {
        18
    }
}

/// The header of coded literals.
pub open spec fn coded_header(src: Seq<u8>, size_format: nat) -> Result<CompressedLiteralsHeader> {
    let size = coded_header_size(size_format);
    let width = coded_size_bits(size_format);
    let value = leading(src, size);
    let compressed_size = value / pow2(4 + width) % pow2(width);
    let four_streams = size_format != 0;
    if src.len() < size {
        Err(Error::UnexpectedEof)
    } else if compressed_size == 0 {
        Err(Error::Corruption("compressed literals section has an empty payload"))
    } else if four_streams && compressed_size < 10 {
        Err(
            Error::Corruption(
                "4-stream literals section is smaller than the jump-table minimum",
            ),
        )
    } else {
        Ok(
            CompressedLiteralsHeader {
                header_size: size as usize,
                regenerated_size: (value / 16 % pow2(width)) as usize,
                compressed_size: compressed_size as usize,
                four_streams,
            },
        )
    }
}

/// The kind of a section: 0 for literals as they are, 1 for a repeated byte, 2
/// for coded literals with a description, 3 for coded literals without.
pub open spec fn section_kind(src: Seq<u8>) -> nat {
    src[0] as nat % 4
}

/// The format of the sizes in a section's header.
pub open spec fn size_format(src: Seq<u8>) -> nat {
    src[0] as nat / 4 % 4
}

fn leading_value(src: &[u8], n: usize) -> (r: u64)
    requires
        n <= src@.len(),
        n <= 5,
    ensures
        r == leading(src@, n as nat),
        r < pow2((8 * n) as nat),
{
    proof {
        assert(src@.take(n as int) =~= src@.subrange(0, n as int));
    }
    mem::read_le(src, 0, n)
}

/// Reads the header of literals as they are or of a repeated byte.
pub fn decode_raw_or_rle_size(src: &[u8], size_format: u8) -> (r: Result<(usize, usize)>)
    requires
        size_format < 4,
    ensures
        match plain_header(src@, size_format as nat) {
            Err(e) => r == Err::<(usize, usize), Error>(e),
            Ok((size, n)) => r matches Ok(h) && h.0 == size && h.1 == n && size <= src@.len() && n
                < 0x100000,
        },
{
    proof {
        lemma2_to64();
    }
    let size: usize = if size_format == 1 {
        2
    } else if size_format == 3 {
        3
    } else {
        1
    };
    if src.len() < size {
        return Err(Error::UnexpectedEof);
    }
    let value: u64 = leading_value(src, size);
    let n: u64 = if size == 1 {
        value / 8
    } else {
        value / 16
    };
    Ok((size, n as usize))
}

/// Reads the header of coded literals.
pub fn decode_compressed_literals_header(src: &[u8], size_format: u8) -> (r: Result<
    CompressedLiteralsHeader,
>)
    requires
        size_format < 4,
    ensures
        r == coded_header(src@, size_format as nat),
        r matches Ok(h) ==> h.header_size <= src@.len() && h.header_size <= 5 && h.regenerated_size
            < 0x40000 && 0 < h.compressed_size < 0x40000,
{
    let (size, width): (usize, u32) = if size_format <= 1 {
        (3, 10)
    } else if size_format == 2 {
        (4, 14)
    } else {
        (5, 18)
    };
    if src.len() < size {
        return Err(Error::UnexpectedEof);
    }
    proof {
        lemma2_to64();
        mem::lemma_pow2_monotone(width as nat, 18);
        lemma_pow2_pos(4 + width as nat);
        lemma_pow2_pos(width as nat);
    }
    let value: u64 = leading_value(src, size);
    let compressed_size: u64 = mem::low_bits(mem::high_bits(value, 4 + width), width);
    let regenerated_size: u64 = mem::low_bits(mem::high_bits(value, 4), width);
    let four_streams: bool = size_format != 0;
    if compressed_size == 0 {
        return Err(Error::Corruption("compressed literals section has an empty payload"));
    }
    if four_streams && compressed_size < 10 {
        return Err(
            Error::Corruption("4-stream literals section is smaller than the jump-table minimum"),
        );
    }
    Ok(
        CompressedLiteralsHeader {
            header_size: size,
            regenerated_size: regenerated_size as usize,
            compressed_size: compressed_size as usize,
            four_streams,
        },
    )
}

// ---------------------------------------------------------------------------
// The layout of a section.

/// Where a block's literals section ends, without decoding it.
#[derive(Debug, Clone, Copy, PartialEq, Eq, Structural)]
pub struct LiteralsSectionLayout {
    /// Bytes of literals section header.
    pub header_size: usize,
    /// Bytes the section occupies in the block, header included.
    pub section_size: usize,
    /// Bytes the section decodes to.
    pub regenerated_size: usize,
    /// Whether the literals are coded rather than stored or repeated.
    pub compressed: bool,
}

/// The layout of the section at the start of a block.
pub open spec fn section_layout(src: Seq<u8>) -> Result<LiteralsSectionLayout> {
    if src.len() == 0 {
        Err(Error::UnexpectedEof)
    } else if section_kind(src) <= 1 {
        match plain_header(src, size_format(src)) {
            Err(e) => Err(e),
            Ok((size, n)) => Ok(
                LiteralsSectionLayout {
                    header_size: size as usize,
                    section_size: (size + if section_kind(src) == 0 {
                        n
                    } else {
                        1
                    }) as usize,
                    regenerated_size: n as usize,
                    compressed: false,
                },
            ),
        }
    } else {
        match coded_header(src, size_format(src)) {
            Err(e) => Err(e),
            Ok(h) => Ok(
                LiteralsSectionLayout {
                    header_size: h.header_size,
                    section_size: (h.header_size + h.compressed_size) as usize,
                    regenerated_size: h.regenerated_size,
                    compressed: true,
                },
            ),
        }
    }
}

/// Measures a block's literals section without decoding it.
///
/// Only the header has to be well formed: the rest of the section may be
/// missing or malformed.
pub fn parse_literals_section_layout(src: &[u8]) -> (r: Result<LiteralsSectionLayout>)
    ensures
        r == section_layout(src@),
{
    if src.len() == 0 {
        return Err(Error::UnexpectedEof);
    }
    let kind: u8 = src[0] % 4;
    let format: u8 = src[0] / 4 % 4;
    if kind <= 1 {
        let (header_size, regenerated_size) = decode_raw_or_rle_size(src, format)?;
        let payload: usize = if kind == 0 {
            regenerated_size
        } else {
            1
        };
        Ok(
            LiteralsSectionLayout {
                header_size,
                section_size: header_size + payload,
                regenerated_size,
                compressed: false,
            },
        )
    } else {
        let h: CompressedLiteralsHeader = decode_compressed_literals_header(src, format)?;
        Ok(
            LiteralsSectionLayout {
                header_size: h.header_size,
                section_size: h.header_size + h.compressed_size,
                regenerated_size: h.regenerated_size,
                compressed: true,
            },
        )
    }
}

// ---------------------------------------------------------------------------
// Decoding.

/// What a section decodes to, with the size of the section, and the table that
/// is kept then.
pub struct Decoding {
    pub result: Result<(Seq<u8>, nat)>,
    pub kept: Option<KeptTable>,
}

/// What literals as they are decode to.
pub open spec fn raw_literals(src: Seq<u8>, block_size_max: nat) -> Result<(Seq<u8>, nat)> {
    match plain_header(src, size_format(src)) {
        Err(e) => Err(e),
        Ok((size, n)) => if n > block_size_max {
            Err(Error::Corruption("literals section exceeds the frame block size limit"))
        } else if size + n > src.len() {
            Err(Error::UnexpectedEof)
        } else {
            Ok((src.subrange(size as int, (size + n) as int), size + n))
        },
    }
}

/// What a repeated byte decodes to.
pub open spec fn repeated_literals(src: Seq<u8>, block_size_max: nat) -> Result<(Seq<u8>, nat)> {
    match plain_header(src, size_format(src)) {
        Err(e) => Err(e),
        Ok((size, n)) => if n > block_size_max {
            Err(Error::Corruption("literals section exceeds the frame block size limit"))
        } else if size >= src.len() {
            Err(Error::UnexpectedEof)
        } else {
            Ok((Seq::new(n, |i: int| src[size as int]), size + 1))
        },
    }
}

/// What streams decode to with a table.
pub open spec fn streams_decoding(table: KeptTable, four: bool, streams: Seq<u8>, n: nat) -> Result<
    Seq<u8>,
> {
    if streams.len() == 0 {
        Err(Error::Corruption("compressed literals payload is missing Huff0 streams"))
    } else if four {
        huff_decode::four_decoding(table.double, table.code, streams, n)
    } else {
        huff_decode::one_decoding(table.double, table.code, streams, n)
    }
}

/// What coded literals decode to, given the table that was kept.
pub open spec fn coded_literals(src: Seq<u8>, block_size_max: nat, kept: Option<KeptTable>) -> Decoding {
    match coded_header(src, size_format(src)) {
        Err(e) => Decoding { result: Err(e), kept },
        Ok(h) => {
            let end = h.header_size + h.compressed_size;
            let n = h.regenerated_size as nat;
            let payload = src.subrange(h.header_size as int, end);
            if n > block_size_max {
                Decoding {
                    result: Err(
                        Error::Corruption("literals section exceeds the frame block size limit"),
                    ),
                    kept,
                }
            } else if end > src.len() {
                Decoding { result: Err(Error::UnexpectedEof), kept }
            } else if section_kind(src) == 2 {
                match huff_header::code_description(payload) {
                    Err(e) => Decoding { result: Err(e), kept: None },
                    Ok((code, size)) => {
                        let table = KeptTable {
                            double: h.four_streams && huff_decode::double_is_faster(
                                n,
                                payload.len(),
                            ),
                            code,
                        };
                        Decoding {
                            result: match streams_decoding(
                                table,
                                h.four_streams,
                                payload.skip(size as int),
                                n,
                            ) {
                                Err(e) => Err(e),
                                Ok(literals) => Ok((literals, end as nat)),
                            },
                            kept: Some(table),
                        }
                    },
                }
            } else {
                match kept {
                    None => Decoding {
                        result: Err(
                            Error::Corruption("treeless literals require a prior Huff0 table"),
                        ),
                        kept,
                    },
                    Some(table) => Decoding {
                        result: match streams_decoding(table, h.four_streams, payload, n) {
                            Err(e) => Err(e),
                            Ok(literals) => Ok((literals, end as nat)),
                        },
                        kept,
                    },
                }
            }
        },
    }
}

/// What the section at the start of a block decodes to, given the table that
/// was kept.
pub open spec fn section_decoding(
    src: Seq<u8>,
    block_size_max: nat,
    kept: Option<KeptTable>,
) -> Decoding {
    if src.len() == 0 {
        Decoding { result: Err(Error::UnexpectedEof), kept }
    } else if section_kind(src) == 0 {
        Decoding { result: raw_literals(src, block_size_max), kept }
    } else if section_kind(src) == 1 {
        Decoding { result: repeated_literals(src, block_size_max), kept }
    } else {
        coded_literals(src, block_size_max, kept)
    }
}

fn decode_raw_literals_into(src: &[u8], format: u8, block_size_max: usize) -> (r: Result<
    (Vec<u8>, usize),
>)
    requires
        src@.len() > 0,
        format == size_format(src@),
        format < 4,
    ensures
        match raw_literals(src@, block_size_max as nat) {
            Err(e) => r == Err::<(Vec<u8>, usize), Error>(e),
            Ok((literals, size)) => r matches Ok(d) && d.0@ == literals && d.1 == size,
        },
{
    let (header_size, regenerated_size) = decode_raw_or_rle_size(src, format)?;
    if regenerated_size > block_size_max {
        return Err(Error::Corruption("literals section exceeds the frame block size limit"));
    }
    let end: usize = header_size + regenerated_size;
    if end > src.len() {
        return Err(Error::UnexpectedEof);
    }
    let mut out: Vec<u8> = Vec::new();
    out.extend_from_slice(&src[header_size..end]);
    proof {
        assert(out@ =~= src@.subrange(header_size as int, end as int));
    }
    Ok((out, end))
}

fn decode_rle_literals_into(src: &[u8], format: u8, block_size_max: usize) -> (r: Result<
    (Vec<u8>, usize),
>)
    requires
        src@.len() > 0,
        format == size_format(src@),
        format < 4,
    ensures
        match repeated_literals(src@, block_size_max as nat) {
            Err(e) => r == Err::<(Vec<u8>, usize), Error>(e),
            Ok((literals, size)) => r matches Ok(d) && d.0@ == literals && d.1 == size,
        },
{
    let (header_size, regenerated_size) = decode_raw_or_rle_size(src, format)?;
    if regenerated_size > block_size_max {
        return Err(Error::Corruption("literals section exceeds the frame block size limit"));
    }
    if header_size >= src.len() {
        return Err(Error::UnexpectedEof);
    }
    let byte: u8 = src[header_size];
    let out: Vec<u8> = vec![byte; regenerated_size];
    proof {
        assert(out@ =~= Seq::new(regenerated_size as nat, |i: int| src@[header_size as int]));
    }
    Ok((out, header_size + 1))
}

fn decode_streams(table: &HuffmanDTable, four: bool, streams: &[u8], n: usize) -> (r: Result<
    Vec<u8>,
>)
    requires
        table.wf(),
    ensures
        match streams_decoding(
            KeptTable { double: table is Double, code: table@ },
            four,
            streams@,
            n as nat,
        ) {
            Err(e) => r == Err::<Vec<u8>, Error>(e),
            Ok(literals) => r matches Ok(v) && v@ == literals,
        },
{
    if streams.len() == 0 {
        return Err(Error::Corruption("compressed literals payload is missing Huff0 streams"));
    }
    if four {
        decompress_4x_using_dtable(n, streams, table)
    } else {
        decompress_1x_using_dtable(n, streams, table)
    }
}

fn decode_huffman_literals_into(
    src: &[u8],
    kind: u8,
    format: u8,
    state: &mut LiteralsState,
    block_size_max: usize,
) -> (r: Result<(Vec<u8>, usize)>)
    requires
        src@.len() > 0,
        kind == section_kind(src@),
        kind == 2 || kind == 3,
        format == size_format(src@),
        format < 4,
        old(state).wf(),
    ensures
        final(state).wf(),
        ({
            let d = coded_literals(src@, block_size_max as nat, old(state)@);
            &&& final(state)@ == d.kept
            &&& match d.result {
                Err(e) => r == Err::<(Vec<u8>, usize), Error>(e),
                Ok((literals, size)) => r matches Ok(x) && x.0@ == literals && x.1 == size,
            }
        }),
{
    let h: CompressedLiteralsHeader = decode_compressed_literals_header(src, format)?;
    if h.regenerated_size > block_size_max {
        return Err(Error::Corruption("literals section exceeds the frame block size limit"));
    }
    let end: usize = h.header_size + h.compressed_size;
    if end > src.len() {
        return Err(Error::UnexpectedEof);
    }
    let payload: &[u8] = &src[h.header_size..end];
    let len: usize = payload.len();
    let table_size: usize = if kind == 2 {
        if h.four_streams && prefers_double_symbol_decoder(h.regenerated_size, len) {
            HuffmanDTable::read_double(&mut state.huffman_table, payload)?
        } else {
            HuffmanDTable::read_single(&mut state.huffman_table, payload)?
        }
    } else {
        0
    };
    proof {
        assert(payload@.subrange(table_size as int, len as int) =~= payload@.skip(
            table_size as int,
        ));
        assert(payload@.skip(0) =~= payload@);
    }
    match &state.huffman_table {
        None => Err(Error::Corruption("treeless literals require a prior Huff0 table")),
        Some(table) => {
            let literals: Vec<u8> = decode_streams(
                table,
                h.four_streams,
                &payload[table_size..len],
                h.regenerated_size,
            )?;
            Ok((literals, end))
        },
    }
}

/// Decodes the literals section at the start of a block: the literals, and how
/// many bytes the section takes.
pub fn decode_literals_section(src: &[u8], state: &mut LiteralsState, block_size_max: usize) -> (r:
    Result<(Vec<u8>, usize)>)
    requires
        old(state).wf(),
    ensures
        final(state).wf(),
        ({
            let d = section_decoding(src@, block_size_max as nat, old(state)@);
            &&& final(state)@ == d.kept
            &&& match d.result {
                Err(e) => r == Err::<(Vec<u8>, usize), Error>(e),
                Ok((literals, size)) => r matches Ok(x) && x.0@ == literals && x.1 == size,
            }
        }),
{
    if src.len() == 0 {
        return Err(Error::UnexpectedEof);
    }
    let kind: u8 = src[0] % 4;
    let format: u8 = src[0] / 4 % 4;
    if kind == 0 {
        decode_raw_literals_into(src, format, block_size_max)
    } else if kind == 1 {
        decode_rle_literals_into(src, format, block_size_max)
    } else {
        decode_huffman_literals_into(src, kind, format, state, block_size_max)
    }
}

/// Decodes the literals section at the start of a block into a buffer, which
/// then holds the literals alone; where that fails the buffer is left as it
/// was. Returns how many bytes the section takes.
pub fn decode_literals_section_into(
    src: &[u8],
    state: &mut LiteralsState,
    block_size_max: usize,
    scratch: &mut Vec<u8>,
) -> (r: Result<usize>)
    requires
        old(state).wf(),
    ensures
        final(state).wf(),
        ({
            let d = section_decoding(src@, block_size_max as nat, old(state)@);
            &&& final(state)@ == d.kept
            &&& match d.result {
                Err(e) => r == Err::<usize, Error>(e) && final(scratch)@ == old(scratch)@,
                Ok((literals, size)) => r is Ok && r->Ok_0 == size && final(scratch)@ == literals,
            }
        }),
{
    let (literals, size) = decode_literals_section(src, state, block_size_max)?;
    *scratch = literals;
    Ok(size)
}

// ---------------------------------------------------------------------------
// Laws.

proof fn lemma_streams_length(table: KeptTable, four: bool, streams: Seq<u8>, n: nat)
    requires
        table.code.wf(),
        four ==> n >= 6,
    ensures
        streams_decoding(table, four, streams, n) matches Ok(literals) ==> literals.len() == n,
{
    let code = table.code;
    let depth = huff_double::depth_of(code.log);
    if four {
        assert forall|k: int| 0 <= k < 4 implies {
            let r = Reading::start(#[trigger] huff_stream::stream(streams, k));
            let m = huff_stream::stream_length(n, k);
            &&& huff_stream::decoded(code, r, m).0.len() == m
            &&& huff_double::decoded(code, depth, r, m).0.len() == m
        } by {
            let r = Reading::start(huff_stream::stream(streams, k));
            let m = huff_stream::stream_length(n, k);
            huff_stream::lemma_decoded_length(code, r, m);
            huff_double::lemma_decoded_length(code, depth, r, m);
        }
        assert(huff_stream::stream(streams, 0) == huff_stream::stream(streams, 0));
        assert(huff_stream::stream(streams, 1) == huff_stream::stream(streams, 1));
        assert(huff_stream::stream(streams, 2) == huff_stream::stream(streams, 2));
        assert(huff_stream::stream(streams, 3) == huff_stream::stream(streams, 3));
    } else {
        let r = Reading::start(streams);
        huff_stream::lemma_decoded_length(code, r, n);
        huff_double::lemma_decoded_length(code, depth, r, n);
    }
}

/// A section that decodes has the layout that its header gives: it takes as
/// many bytes, and decodes to as many literals.
pub proof fn law_layout_measures_the_section(
    src: Seq<u8>,
    block_size_max: nat,
    kept: Option<KeptTable>,
)
    requires
        kept matches Some(table) ==> table.code.wf(),
        section_decoding(src, block_size_max, kept).result is Ok,
        src.len() <= usize::MAX,
    ensures
        ({
            let (literals, size) = section_decoding(src, block_size_max, kept).result->Ok_0;
            &&& section_layout(src) matches Ok(layout) && layout.section_size == size
                && layout.regenerated_size == literals.len()
            &&& size <= src.len()
            &&& literals.len() <= block_size_max
        }),
{
    if section_kind(src) > 1 {
        let h = coded_header(src, size_format(src))->Ok_0;
        let n = h.regenerated_size as nat;
        lemma_coded_header_bounds(src, size_format(src));
        let end = h.header_size + h.compressed_size;
        let payload = src.subrange(h.header_size as int, end);
        if section_kind(src) == 2 {
            let (code, size) = huff_header::code_description(payload)->Ok_0;
            huff_header::lemma_code_description(payload);
            let table = KeptTable {
                double: h.four_streams && huff_decode::double_is_faster(n, payload.len()),
                code,
            };
            lemma_four_need_six(table, payload.skip(size as int), n);
            lemma_streams_length(table, h.four_streams, payload.skip(size as int), n);
        } else {
            let table = kept->Some_0;
            lemma_four_need_six(table, payload, n);
            lemma_streams_length(table, h.four_streams, payload, n);
        }
    } else {
        lemma_plain_header_bounds(src, size_format(src));
    }
}

proof fn lemma_four_need_six(table: KeptTable, streams: Seq<u8>, n: nat)
    ensures
        streams_decoding(table, true, streams, n) is Ok ==> n >= 6,
{
}

pub proof fn lemma_plain_header_bounds(src: Seq<u8>, format: nat)
    requires
        src.len() > 0,
    ensures
        plain_header(src, format) matches Ok((size, n)) ==> size <= 3 && n < 0x100000 && size
            <= src.len(),
{
    lemma2_to64();
    bits::lemma_bytes_value_bound(src.take(1));
    if src.len() >= 2 {
        bits::lemma_bytes_value_bound(src.take(2));
    }
    if src.len() >= 3 {
        bits::lemma_bytes_value_bound(src.take(3));
    }
}

pub proof fn lemma_coded_header_bounds(src: Seq<u8>, format: nat)
    ensures
        coded_header(src, format) matches Ok(h) ==> h.header_size == coded_header_size(format)
            && h.header_size <= src.len() && h.regenerated_size < 0x40000 && h.compressed_size
            < 0x40000,
{
    lemma2_to64();
    let width = coded_size_bits(format);
    mem::lemma_pow2_monotone(width, 18);
    let value = leading(src, coded_header_size(format));
    lemma_pow2_pos(width);
    lemma_pow2_pos(4 + width);
    vstd::arithmetic::div_mod::lemma_mod_bound(
        (value / pow2(4 + width)) as int,
        pow2(width) as int,
    );
    vstd::arithmetic::div_mod::lemma_mod_bound((value / 16) as int, pow2(width) as int);
}

/// How many streams there are for the header to say so.
pub open spec fn mode_of(four: bool) -> StreamMode {
    if four {
        StreamMode::Four
    } else {
        StreamMode::Single
    }
}

/// A section whose header announces them and that holds compressed literals
/// decodes to the literals, and leaves the code for the next section; without
/// a description it does so after a section that left that code.
pub proof fn law_coded_section_roundtrip(
    src: Seq<u8>,
    block_size_max: nat,
    kept: Option<KeptTable>,
    literals: Seq<u8>,
    c: Compressed,
)
    requires
        src.len() > 0,
        section_kind(src) == if c.reused {
            3nat
        } else {
            2
        },
        coded_header(src, size_format(src)) matches Ok(h) && h.regenerated_size == literals.len()
            && h.header_size + h.compressed_size <= src.len() && src.subrange(
            h.header_size as int,
            h.header_size + h.compressed_size,
        ) == c.bytes && huff_compress::decodes_to(c, literals, mode_of(h.four_streams)),
        literals.len() <= block_size_max,
        c.code.wf(),
        c.bytes.len() > 0,
        c.reused ==> (kept matches Some(table) && table.code == c.code),
    ensures
        ({
            let d = section_decoding(src, block_size_max, kept);
            let h = coded_header(src, size_format(src))->Ok_0;
            &&& d.result == Ok::<(Seq<u8>, nat), Error>(
                (literals, (h.header_size + h.compressed_size) as nat),
            )
            &&& d.kept matches Some(table) && table.code == c.code
        }),
{
    let h = coded_header(src, size_format(src))->Ok_0;
    let n = literals.len();
    if c.reused {
        lemma_shapes(kept->Some_0, h.four_streams, c.bytes, literals);
    } else {
        let (code, size) = huff_header::code_description(c.bytes)->Ok_0;
        let table = KeptTable {
            double: h.four_streams && huff_decode::double_is_faster(n, c.bytes.len()),
            code,
        };
        lemma_shapes(table, h.four_streams, c.bytes.skip(size as int), literals);
    }
}

proof fn lemma_shapes(table: KeptTable, four: bool, streams: Seq<u8>, literals: Seq<u8>)
    requires
        table.code.wf(),
        streams.len() > 0,
        huff_compress::symbols_in(table.code, streams, literals.len(), mode_of(four)) == Ok::<
            Seq<u8>,
            Error,
        >(literals),
    ensures
        streams_decoding(table, four, streams, literals.len()) == Ok::<Seq<u8>, Error>(literals),
{
    if four {
        huff_decode::law_shapes_decode_alike(table.double, table.code, streams, literals.len());
    } else if table.double {
        huff_double::law_double_stream_decodes_alike(table.code, streams, literals.len());
    }
}

} // verus!
