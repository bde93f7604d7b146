//! Frame headers, and the measuring of frames without decoding them.

use crate::block;
use crate::block::{BlockHeader, BLOCK_HEADER_SIZE, BLOCK_SIZE_MAX};
use crate::entropy::bits;
use crate::entropy::mem;
use crate::error::{Error, Result};
use crate::outbuf;
use crate::outbuf::OutBuf;
use vstd::arithmetic::div_mod::*;
use vstd::arithmetic::power2::*;
use vstd::prelude::*;

verus! {

/// Magic number that introduces every Zstandard frame.
pub const ZSTD_MAGIC_NUMBER: u32 = 0xFD2F_B528;

/// The first of the sixteen magic numbers of skippable frames.
pub const SKIPPABLE_MAGIC_BASE: u32 = 0x184D_2A50;

/// Largest window that a frame should declare.
pub const MAX_DECLARABLE_WINDOW_SIZE: usize = 134_217_728;

/// Frame envelope.
///
/// Only the magic number differs: a magicless frame is a standard frame
/// without its first four bytes.
#[derive(Debug, Clone, Copy, PartialEq, Eq, Structural)]
pub enum Format {
    /// A standard frame, beginning with the magic number.
    Zstd1,
    /// A frame with the magic number left out. It cannot be recognised, only
    /// asserted, and no skippable frame can stand in its place.
    Zstd1Magicless,
}

impl Default for Format {
    fn default() -> (r: Format)
        ensures
            r == Format::Zstd1,
    {
        Format::Zstd1
    }
}

impl Format {
    /// Bytes that the format spends on the magic number.
    pub open spec fn magic_len(self) -> nat {
        match self {
            Format::Zstd1 => 4,
            Format::Zstd1Magicless => 0,
        }
    }

    /// Bytes that the format spends on the magic number: four, or none.
    pub fn magic_size(self) -> (r: usize)
        ensures
            r == self.magic_len(),
    {
        match self {
            Format::Zstd1 => 4,
            Format::Zstd1Magicless => 0,
        }
    }
}

/// What stands at the start of an input.
#[derive(Debug, Clone, Copy, PartialEq, Eq, Structural)]
pub enum FrameHeader {
    /// A frame whose payload is made of blocks.
    Zstandard(ZstandardFrameHeader),
    /// A frame of opaque user data, to be passed over.
    Skippable(SkippableFrame),
}

/// The header of a Zstandard frame.
#[derive(Debug, Clone, Copy, PartialEq, Eq, Structural)]
pub struct ZstandardFrameHeader {
    /// Size of the header.
    pub header_size: usize,
    /// Window that a decoder needs for the frame.
    pub window_size: u64,
    /// Largest size that a block of the frame may decode to.
    pub block_size_max: u32,
    /// Size that the frame decodes to, where it is declared.
    pub content_size: Option<u64>,
    /// Dictionary that the frame needs, where it names one.
    pub dictionary_id: Option<u32>,
    /// Whether a checksum follows the last block.
    pub checksum: bool,
    /// Whether the window is the content itself.
    pub single_segment: bool,
}

/// The header of a skippable frame.
#[derive(Debug, Clone, Copy, PartialEq, Eq, Structural)]
pub struct SkippableFrame {
    /// Size of the header, which is eight.
    pub header_size: usize,
    /// Which of the sixteen magic numbers introduces the frame.
    pub magic_variant: u8,
    /// Size of the payload that follows the header.
    pub size: u32,
}

// ---------------------------------------------------------------------------
// The header's fields.

/// Width of the dictionary field.
pub open spec fn dictionary_len(flag: nat) -> nat {
    if flag == 3 {
        4
    } else {
        flag
    }
}

/// Width of the content size field.
pub open spec fn content_len(flag: nat, single_segment: bool) -> nat {
    if flag == 0 {
        if single_segment {
            1
        } else {
            0
        }
    } else if flag == 1 {
        2
    } else if flag == 2 {
        4
    } else {
        8
    }
}

/// The window that a descriptor stands for: a power of two from 2^10 on, and
/// up to seven eighths more.
pub open spec fn window_of(descriptor: u8) -> nat {
    let base = pow2(10 + descriptor as nat / 8);
    base + base / 8 * (descriptor as nat % 8)
}

/// The content size that a field stands for.
pub open spec fn content_of(field: Seq<u8>) -> nat {
    bits::bytes_value(field) + if field.len() == 2 {
        256nat
    } else {
        0
    }
}

/// The header of a Zstandard frame at the start of `src`.
pub open spec fn zstandard_header(src: Seq<u8>, format: Format) -> Result<FrameHeader> {
    let m = format.magic_len() as int;
    if src.len() <= m {
        Err(Error::UnexpectedEof)
    } else {
        let d = src[m] as nat;
        let single = (d / 32) % 2 == 1;
        let window_at = m + 1;
        let dictionary_at = window_at + if single {
            0int
        } else {
            1
        };
        let content_at = dictionary_at + dictionary_len(d % 4);
        let end = content_at + content_len(d / 64, single);
        if (d / 8) % 2 == 1 {
            Err(Error::Corruption("frame header reserved bit is set"))
        } else if src.len() < end {
            Err(Error::UnexpectedEof)
        } else {
            let id = bits::bytes_value(src.subrange(dictionary_at, content_at));
            let content = content_of(src.subrange(content_at, end));
            let window = if single {
                content
            } else {
                window_of(src[window_at])
            };
            Ok(
                FrameHeader::Zstandard(
                    ZstandardFrameHeader {
                        header_size: end as usize,
                        window_size: window as u64,
                        block_size_max: if window < BLOCK_SIZE_MAX {
                            window as u32
                        } else {
                            BLOCK_SIZE_MAX as u32
                        },
                        content_size: if end > content_at {
                            Some(content as u64)
                        } else {
                            None
                        },
                        dictionary_id: if id != 0 {
                            Some(id as u32)
                        } else {
                            None
                        },
                        checksum: (d / 4) % 2 == 1,
                        single_segment: single,
                    },
                ),
            )
        }
    }
}

/// The frame header at the start of `src`.
pub open spec fn frame_header(src: Seq<u8>, format: Format) -> Result<FrameHeader> {
    if format == Format::Zstd1Magicless {
        zstandard_header(src, format)
    } else if src.len() < 4 {
        Err(Error::UnexpectedEof)
    } else {
        let magic = bits::bytes_value(src.take(4));
        if magic == ZSTD_MAGIC_NUMBER {
            zstandard_header(src, format)
        } else if magic / 16 == SKIPPABLE_MAGIC_BASE / 16 {
            if src.len() < 8 {
                Err(Error::UnexpectedEof)
            } else {
                Ok(
                    FrameHeader::Skippable(
                        SkippableFrame {
                            header_size: 8,
                            magic_variant: (magic % 16) as u8,
                            size: bits::bytes_value(src.subrange(4, 8)) as u32,
                        },
                    ),
                )
            }
        } else {
            Err(Error::BadMagic(magic as u32))
        }
    }
}

/// Windows fit in 64 bits.
pub proof fn lemma_window_bound(descriptor: u8)
    ensures
        1024 <= window_of(descriptor) < 4400193994752,
        window_of(descriptor) == pow2(10 + descriptor as nat / 8) + pow2(
            10 + descriptor as nat / 8,
        ) / 8 * (descriptor as nat % 8),
{
    let e = 10 + descriptor as nat / 8;
    lemma2_to64();
    lemma2_to64_rest();
    mem::lemma_pow2_monotone(e, 41);
    mem::lemma_pow2_monotone(10, e);
    let base = pow2(e) as int;
    let m = (descriptor as nat % 8) as int;
    assert(0 <= base / 8 * m <= base / 8 * 7) by (nonlinear_arith)
        requires
            base >= 0,
            0 <= m <= 7,
    ;
}

/// The window that a descriptor stands for.
fn decode_window_descriptor(descriptor: u8) -> (r: u64)
    ensures
        r == window_of(descriptor),
        1024 <= r,
{
    proof {
        lemma_window_bound(descriptor);
        lemma2_to64_rest();
        mem::lemma_pow2_monotone(10 + descriptor as nat / 8, 41);
        let base = pow2(10 + descriptor as nat / 8) as int;
        let m = (descriptor as nat % 8) as int;
        assert(0 <= base / 8 * m) by (nonlinear_arith)
            requires
                base >= 0,
                0 <= m <= 7,
        ;
    }
    let base: u64 = mem::power_of_two(10 + (descriptor / 8) as u32);
    base + base / 8 * ((descriptor % 8) as u64)
}

fn dictionary_field_size(flag: u8) -> (r: usize)
    requires
        flag < 4,
    ensures
        r == dictionary_len(flag as nat),
        r <= 4,
{
    if flag == 3 {
        4
    } else {
        flag as usize
    }
}

fn frame_content_size_field_size(flag: u8, single_segment: bool) -> (r: usize)
    requires
        flag < 4,
    ensures
        r == content_len(flag as nat, single_segment),
        r <= 8,
{
    if flag == 0 {
        if single_segment {
            1
        } else {
            0
        }
    } else if flag == 1 {
        2
    } else if flag == 2 {
        4
    } else {
        8
    }
}

/// The content size that a field of one, two, four or eight bytes stands for.
fn decode_frame_content_size(src: &[u8], at: usize, size: usize) -> (r: u64)
    requires
        at + size <= src@.len(),
        size <= 8,
    ensures
        r == content_of(src@.subrange(at as int, at + size)),
{
    proof {
        lemma2_to64();
    }
    let value: u64 = mem::read_le(src, at, size);
    if size == 2 {
        value + 256
    } else {
        value
    }
}

fn parse_zstandard_frame_header(src: &[u8], format: Format) -> (r: Result<FrameHeader>)
    ensures
        r == zstandard_header(src@, format),
        r matches Ok(FrameHeader::Zstandard(h)) ==> h.header_size <= src@.len(),
        r is Ok ==> r->Ok_0 is Zstandard,
{
    let magic_size: usize = format.magic_size();
    if src.len() <= magic_size {
        return Err(Error::UnexpectedEof);
    }
    let descriptor: u8 = src[magic_size];
    if (descriptor / 8) % 2 == 1 {
        return Err(Error::Corruption("frame header reserved bit is set"));
    }
    let single_segment: bool = (descriptor / 32) % 2 == 1;
    let checksum: bool = (descriptor / 4) % 2 == 1;
    let dictionary_size: usize = dictionary_field_size(descriptor % 4);
    let content_size_size: usize = frame_content_size_field_size(descriptor / 64, single_segment);
    let window_at: usize = magic_size + 1;
    let window_size: usize = if single_segment {
        0
    } else {
        1
    };
    let header_size: usize = window_at + window_size + dictionary_size + content_size_size;
    if src.len() < header_size {
        return Err(Error::UnexpectedEof);
    }
    let dictionary_at: usize = window_at + window_size;
    let content_at: usize = dictionary_at + dictionary_size;
    let id: u64 = mem::read_le(src, dictionary_at, dictionary_size);
    proof {
        lemma2_to64();
        mem::lemma_pow2_monotone((8 * dictionary_size) as nat, 32);
    }
    let dictionary_id: Option<u32> = if id != 0 {
        Some(id as u32)
    } else {
        None
    };
    let content: u64 = decode_frame_content_size(src, content_at, content_size_size);
    let content_size: Option<u64> = if content_size_size > 0 {
        Some(content)
    } else {
        None
    };
    let window: u64 = if single_segment {
        content
    } else {
        decode_window_descriptor(src[window_at])
    };
    let block_size_max: u32 = if window < BLOCK_SIZE_MAX as u64 {
        window as u32
    } else {
        BLOCK_SIZE_MAX as u32
    };
    Ok(
        FrameHeader::Zstandard(
            ZstandardFrameHeader {
                header_size,
                window_size: window,
                block_size_max,
                content_size,
                dictionary_id,
                checksum,
                single_segment,
            },
        ),
    )
}

/// Reads the frame header at the start of `src`.
pub fn parse_frame_header(src: &[u8]) -> (r: Result<FrameHeader>)
    ensures
        r == frame_header(src@, Format::Zstd1),
        r matches Ok(FrameHeader::Zstandard(h)) ==> h.header_size <= src@.len(),
{
    parse_frame_header_with_format(src, Format::Zstd1)
}

/// Reads the frame header at the start of `src`, which is in `format`.
pub fn parse_frame_header_with_format(src: &[u8], format: Format) -> (r: Result<FrameHeader>)
    ensures
        r == frame_header(src@, format),
        r matches Ok(FrameHeader::Zstandard(h)) ==> h.header_size <= src@.len(),
{
    if format == Format::Zstd1Magicless {
        return parse_zstandard_frame_header(src, format);
    }
    if src.len() < 4 {
        return Err(Error::UnexpectedEof);
    }
    let magic: u32 = mem::read_u32(src, 0);
    proof {
        assert(src@.subrange(0, 4) =~= src@.take(4));
    }
    if magic == ZSTD_MAGIC_NUMBER {
        parse_zstandard_frame_header(src, format)
    } else if magic / 16 == SKIPPABLE_MAGIC_BASE / 16 {
        if src.len() < 8 {
            return Err(Error::UnexpectedEof);
        }
        Ok(
            FrameHeader::Skippable(
                SkippableFrame {
                    header_size: 8,
                    magic_variant: (magic % 16) as u8,
                    size: mem::read_u32(src, 4),
                },
            ),
        )
    } else {
        Err(Error::BadMagic(magic))
    }
}

/// The bytes of a skippable frame.
pub open spec fn skippable_frame(magic_variant: u8, payload: Seq<u8>) -> Seq<u8> {
    bits::nat_bytes((SKIPPABLE_MAGIC_BASE + magic_variant) as nat, 4) + bits::nat_bytes(
        payload.len(),
        4,
    ) + payload
}

/// Writes a skippable frame around `payload`.
pub fn write_skippable_frame(magic_variant: u8, payload: &[u8]) -> (r: Result<Vec<u8>>)
    ensures
        magic_variant >= 16 ==> r == Err::<Vec<u8>, Error>(
            Error::InvalidParameter("skippable magic variant must be in 0..16"),
        ),
        magic_variant < 16 && payload@.len() > u32::MAX ==> r == Err::<Vec<u8>, Error>(
            Error::ContentSizeTooLarge(payload@.len() as u64),
        ),
        magic_variant < 16 && payload@.len() <= u32::MAX ==> (r matches Ok(v) && v@
            == skippable_frame(magic_variant, payload@)),
{
    if magic_variant >= 16 {
        return Err(Error::InvalidParameter("skippable magic variant must be in 0..16"));
    }
    if payload.len() as u64 > u32::MAX as u64 {
        return Err(Error::ContentSizeTooLarge(payload.len() as u64));
    }
    let mut out: Vec<u8> = mem::le_bytes((SKIPPABLE_MAGIC_BASE + magic_variant as u32) as u64, 4);
    let size: Vec<u8> = mem::le_bytes(payload.len() as u64, 4);
    out.extend_from_slice(size.as_slice());
    out.extend_from_slice(payload);
    Ok(out)
}

// ---------------------------------------------------------------------------
// Measuring frames.

/// What one frame takes up, and the most that it can decode to.
#[derive(Debug, Clone, Copy, PartialEq, Eq, Structural)]
pub struct FrameSizeInfo {
    /// Size of the frame, from its header to its checksum.
    pub compressed_size: usize,
    /// Ceiling on what the frame decodes to.
    pub decompressed_bound: u64,
    /// What the header says that the frame decodes to.
    pub declared_size: Option<u64>,
}

/// Where the blocks that start at `pos` end, and how many they are together
/// with the `blocks` before them.
pub open spec fn walk_blocks(src: Seq<u8>, pos: nat, blocks: nat) -> Result<(nat, nat)>
    decreases src.len() - pos,
{
    if pos > src.len() {
        Err(Error::UnexpectedEof)
    } else {
        match block::block_header(src.skip(pos as int)) {
            Err(e) => Err(e),
            Ok(h) => {
                let next = pos + BLOCK_HEADER_SIZE as nat + h.payload();
                if next > usize::MAX {
                    Err(Error::OutputSizeOverflow)
                } else if next > src.len() {
                    Err(Error::UnexpectedEof)
                } else if h.last_block {
                    Ok((next, blocks + 1))
                } else {
                    walk_blocks(src, next, blocks + 1)
                }
            },
        }
    }
}

/// A product, or the largest 64-bit number where it does not fit.
pub open spec fn saturated(x: nat) -> u64 {
    if x > u64::MAX {
        u64::MAX
    } else {
        x as u64
    }
}

/// What the frame at the start of `src` takes up. An undeclared content size
/// is bounded by one largest block per block.
pub open spec fn frame_size(src: Seq<u8>, format: Format) -> Result<FrameSizeInfo> {
    match frame_header(src, format) {
        Err(e) => Err(e),
        Ok(FrameHeader::Skippable(f)) => {
            let size = f.header_size as nat + f.size as nat;
            if size > usize::MAX {
                Err(Error::OutputSizeOverflow)
            } else if src.len() < size {
                Err(Error::UnexpectedEof)
            } else {
                Ok(
                    FrameSizeInfo {
                        compressed_size: size as usize,
                        decompressed_bound: 0,
                        declared_size: Some(0),
                    },
                )
            }
        },
        Ok(FrameHeader::Zstandard(h)) => match walk_blocks(src, h.header_size as nat, 0) {
            Err(e) => Err(e),
            Ok((end, blocks)) => {
                let size = end + if h.checksum {
                    4nat
                } else {
                    0
                };
                if size > usize::MAX {
                    Err(Error::OutputSizeOverflow)
                } else if size > src.len() {
                    Err(Error::UnexpectedEof)
                } else {
                    Ok(
                        FrameSizeInfo {
                            compressed_size: size as usize,
                            decompressed_bound: match h.content_size {
                                Some(c) => c,
                                None => saturated(blocks * h.block_size_max as nat),
                            },
                            declared_size: h.content_size,
                        },
                    )
                }
            },
        },
    }
}

/// A measured frame is not empty and lies inside the source.
pub proof fn lemma_frame_size(src: Seq<u8>, format: Format)
    ensures
        frame_size(src, format) matches Ok(info) ==> 0 < info.compressed_size <= src.len(),
{
    match frame_header(src, format) {
        Ok(FrameHeader::Zstandard(h)) => {
            lemma_walk_blocks(src, h.header_size as nat, 0);
        },
        _ => {},
    }
}

proof fn lemma_walk_blocks(src: Seq<u8>, pos: nat, blocks: nat)
    ensures
        walk_blocks(src, pos, blocks) matches Ok((end, count)) ==> pos < end <= src.len()
            && blocks < count && end <= usize::MAX,
    decreases src.len() - pos,
{
    if pos <= src.len() {
        match block::block_header(src.skip(pos as int)) {
            Ok(h) => {
                let next = pos + BLOCK_HEADER_SIZE as nat + h.payload();
                if next <= src.len() && next <= usize::MAX && !h.last_block {
                    lemma_walk_blocks(src, next, blocks + 1);
                }
            },
            Err(_) => {},
        }
    }
}

/// Measures the frame at the start of `src` by walking its block headers.
pub fn frame_size_info(src: &[u8], format: Format) -> (r: Result<FrameSizeInfo>)
    ensures
        r == frame_size(src@, format),
        r matches Ok(info) ==> 0 < info.compressed_size <= src@.len(),
{
    proof {
        lemma_frame_size(src@, format);
    }
    let header = match parse_frame_header_with_format(src, format)? {
        FrameHeader::Skippable(skippable) => {
            if skippable.size as u64 > (usize::MAX - 8) as u64 {
                return Err(Error::OutputSizeOverflow);
            }
            let compressed_size: usize = skippable.header_size + skippable.size as usize;
            if src.len() < compressed_size {
                return Err(Error::UnexpectedEof);
            }
            return Ok(
                FrameSizeInfo { compressed_size, decompressed_bound: 0, declared_size: Some(0) },
            );
        },
        FrameHeader::Zstandard(header) => header,
    };
    let len: usize = src.len();
    let mut pos: usize = header.header_size;
    let mut blocks: u64 = 0;
    let mut done: bool = false;
    let ghost goal = walk_blocks(src@, pos as nat, 0);
    while !done
        invariant
            frame_header(src@, format) == Ok::<FrameHeader, Error>(
                FrameHeader::Zstandard(header),
            ),
            goal == walk_blocks(src@, header.header_size as nat, 0),
            pos <= src@.len() == len,
            blocks <= pos,
            done ==> goal == Ok::<(nat, nat), Error>((pos as nat, blocks as nat)),
            !done ==> goal == walk_blocks(src@, pos as nat, blocks as nat),
            frame_size(src@, format) matches Ok(info) ==> 0 < info.compressed_size <= src@.len(),
        decreases src@.len() - pos + (if done {
            0int
        } else {
            1
        }),
    {
        let rest: &[u8] = &src[pos..src.len()];
        proof {
            assert(rest@ =~= src@.skip(pos as int));
        }
        let block_header = BlockHeader::parse(rest)?;
        let advance: usize = BLOCK_HEADER_SIZE + block_header.payload_size();
        if advance > usize::MAX - pos {
            return Err(Error::OutputSizeOverflow);
        }
        pos = pos + advance;
        if pos > src.len() {
            return Err(Error::UnexpectedEof);
        }
        blocks = blocks + 1;
        done = block_header.last_block;
    }
    if header.checksum {
        if pos > usize::MAX - 4 {
            return Err(Error::OutputSizeOverflow);
        }
        pos = pos + 4;
        if pos > src.len() {
            return Err(Error::UnexpectedEof);
        }
    }
    let decompressed_bound: u64 = match header.content_size {
        Some(size) => size,
        None => saturating_product(blocks, header.block_size_max),
    };
    Ok(
        FrameSizeInfo { compressed_size: pos, decompressed_bound, declared_size: header.content_size },
    )
}

fn saturating_product(a: u64, b: u32) -> (r: u64)
    ensures
        r == saturated(a as nat * b as nat),
{
    proof {
        assert(0 <= a * b <= 18446744073709551615 * 4294967295) by (nonlinear_arith)
            requires
                0 <= a <= 18446744073709551615,
                0 <= b <= 4294967295,
        ;
    }
    let product: u128 = a as u128 * b as u128;
    if product > u64::MAX as u128 {
        u64::MAX
    } else {
        product as u64
    }
}

/// Size of the first frame in `src`.
pub fn find_frame_compressed_size(src: &[u8]) -> (r: Result<usize>)
    ensures
        match frame_size(src@, Format::Zstd1) {
            Ok(info) => r == Ok::<usize, Error>(info.compressed_size),
            Err(e) => r == Err::<usize, Error>(e),
        },
{
    find_frame_compressed_size_with_format(src, Format::Zstd1)
}

/// Size of the first frame in `src`, which is in `format`.
pub fn find_frame_compressed_size_with_format(src: &[u8], format: Format) -> (r: Result<usize>)
    ensures
        match frame_size(src@, format) {
            Ok(info) => r == Ok::<usize, Error>(info.compressed_size),
            Err(e) => r == Err::<usize, Error>(e),
        },
{
    let info = frame_size_info(src, format)?;
    Ok(info.compressed_size)
}

/// Total bound of the frames from `pos` on, added to `total`.
pub open spec fn bound_from(src: Seq<u8>, format: Format, pos: nat, total: nat) -> Result<u64>
    decreases src.len() - pos,
{
    if pos >= src.len() {
        Ok(total as u64)
    } else {
        match frame_size(src.skip(pos as int), format) {
            Err(e) => Err(e),
            Ok(info) => if info.compressed_size == 0 {
                Err(Error::Generic)
            } else if total + info.decompressed_bound > u64::MAX {
                Err(Error::OutputSizeOverflow)
            } else {
                bound_from(
                    src,
                    format,
                    pos + info.compressed_size as nat,
                    total + info.decompressed_bound as nat,
                )
            },
        }
    }
}

/// Total declared size of the frames from `pos` on, added to `total`; nothing
/// once a frame declares none. The other frames are measured all the same.
pub open spec fn declared_from(src: Seq<u8>, format: Format, pos: nat, total: Option<u64>) -> Result<
    Option<u64>,
>
    decreases src.len() - pos,
{
    if pos >= src.len() {
        Ok(total)
    } else {
        match frame_size(src.skip(pos as int), format) {
            Err(e) => Err(e),
            Ok(info) => if info.compressed_size == 0 {
                Err(Error::Generic)
            } else {
                let next = pos + info.compressed_size as nat;
                match (total, info.declared_size) {
                    (Some(t), Some(d)) => if t + d > u64::MAX {
                        Err(Error::OutputSizeOverflow)
                    } else {
                        declared_from(src, format, next, Some((t + d) as u64))
                    },
                    _ => declared_from(src, format, next, None),
                }
            },
        }
    }
}

/// Upper bound on what the frames in `src` decode to.
pub fn decompress_bound(src: &[u8]) -> (r: Result<u64>)
    ensures
        src@.len() == 0 ==> r == Err::<u64, Error>(Error::UnexpectedEof),
        src@.len() > 0 ==> r == bound_from(src@, Format::Zstd1, 0, 0),
{
    decompress_bound_with_format(src, Format::Zstd1)
}

/// Upper bound on what the frames in `src`, which are in `format`, decode to.
pub fn decompress_bound_with_format(src: &[u8], format: Format) -> (r: Result<u64>)
    ensures
        src@.len() == 0 ==> r == Err::<u64, Error>(Error::UnexpectedEof),
        src@.len() > 0 ==> r == bound_from(src@, format, 0, 0),
{
    if src.len() == 0 {
        return Err(Error::UnexpectedEof);
    }
    let mut pos: usize = 0;
    let mut total: u64 = 0;
    while pos < src.len()
        invariant
            pos <= src@.len(),
            src@.len() > 0,
            bound_from(src@, format, 0, 0) == bound_from(src@, format, pos as nat, total as nat),
        decreases src@.len() - pos,
    {
        let rest: &[u8] = &src[pos..src.len()];
        proof {
            assert(rest@ =~= src@.skip(pos as int));
        }
        let info = frame_size_info(rest, format)?;
        if info.decompressed_bound > u64::MAX - total {
            return Err(Error::OutputSizeOverflow);
        }
        total = total + info.decompressed_bound;
        pos = pos + info.compressed_size;
    }
    Ok(total)
}

/// Total size that the frames in `src` declare.
pub fn decompressed_size(src: &[u8]) -> (r: Result<Option<u64>>)
    ensures
        src@.len() == 0 ==> r == Err::<Option<u64>, Error>(Error::UnexpectedEof),
        src@.len() > 0 ==> r == declared_from(src@, Format::Zstd1, 0, Some(0)),
{
    decompressed_size_with_format(src, Format::Zstd1)
}

/// Total size that the frames in `src`, which are in `format`, declare.
pub fn decompressed_size_with_format(src: &[u8], format: Format) -> (r: Result<Option<u64>>)
    ensures
        src@.len() == 0 ==> r == Err::<Option<u64>, Error>(Error::UnexpectedEof),
        src@.len() > 0 ==> r == declared_from(src@, format, 0, Some(0)),
{
    if src.len() == 0 {
        return Err(Error::UnexpectedEof);
    }
    let mut pos: usize = 0;
    let mut total: Option<u64> = Some(0);
    while pos < src.len()
        invariant
            pos <= src@.len(),
            src@.len() > 0,
            declared_from(src@, format, 0, Some(0)) == declared_from(
                src@,
                format,
                pos as nat,
                total,
            ),
        decreases src@.len() - pos,
    {
        let rest: &[u8] = &src[pos..src.len()];
        proof {
            assert(rest@ =~= src@.skip(pos as int));
        }
        let info = frame_size_info(rest, format)?;
        total = match (total, info.declared_size) {
            (Some(t), Some(d)) => {
                if d > u64::MAX - t {
                    return Err(Error::OutputSizeOverflow);
                }
                Some(t + d)
            },
            _ => None,
        };
        pos = pos + info.compressed_size;
    }
    Ok(total)
}

// ---------------------------------------------------------------------------
// Writing headers.

/// The magic number's bytes, where the format has them.
pub open spec fn magic_bytes(format: Format) -> Seq<u8> {
    bits::nat_bytes(ZSTD_MAGIC_NUMBER as nat, format.magic_len())
}

/// The flag of the dictionary field.
pub open spec fn dictionary_flag(id: Option<u32>) -> nat {
    match id {
        None => 0,
        Some(v) => if v == 0 {
            0
        } else if v <= 255 {
            1
        } else if v <= 65535 {
            2
        } else {
            3
        },
    }
}

/// The dictionary field.
pub open spec fn dictionary_field(id: Option<u32>) -> Seq<u8> {
    let v = match id {
        None => 0,
        Some(v) => v as nat,
    };
    bits::nat_bytes(v, dictionary_len(dictionary_flag(id)))
}

/// The flag of the narrowest content size field.
pub open spec fn content_flag(size: u64) -> nat {
    if size <= 255 {
        0
    } else if size <= 65791 {
        1
    } else if size <= u32::MAX {
        2
    } else {
        3
    }
}

/// A content size field of the given flag. Two bytes hold what the size has
/// over 256.
pub open spec fn content_field(size: u64, flag: nat) -> Seq<u8> {
    if flag == 1 {
        bits::nat_bytes((size - 256) as nat, 2)
    } else {
        bits::nat_bytes(size as nat, content_len(flag, true))
    }
}

/// The frame header descriptor.
pub open spec fn descriptor_of(
    content: nat,
    single_segment: bool,
    checksum: bool,
    dictionary: nat,
) -> u8 {
    (64 * content + 32 * (if single_segment {
        1nat
    } else {
        0
    }) + 4 * (if checksum {
        1nat
    } else {
        0
    }) + dictionary) as u8
}

/// A window is representable.
pub open spec fn representable(window: nat) -> bool {
    exists|d: u8| #[trigger] window_of(d) == window
}

/// The descriptor of the smallest representable window that is no smaller than
/// asked for.
pub open spec fn fits_window(d: u8, window_size: nat) -> bool {
    &&& window_of(d) >= window_size
    &&& forall|e: u8| #[trigger] window_of(e) >= window_size ==> window_of(d) <= window_of(e)
}

/// Larger descriptors stand for larger windows.
proof fn lemma_window_monotone(d: u8, e: u8)
    requires
        d < e,
    ensures
        window_of(d) < window_of(e),
    decreases e - d,
{
    lemma2_to64();
    let f = (e - 1) as u8;
    let x = 10 + f as nat / 8;
    let m = (f as nat % 8) as int;
    lemma_pow2_unfold(x + 1);
    mem::lemma_pow2_monotone(10, x);
    let base = pow2(x) as int;
    let step = base / 8;
    lemma_pow2_adds(3, (x - 3) as nat);
    assert(base == 8 * step);
    assert(step * (m + 1) == step * m + step) by (nonlinear_arith);
    if m == 7 {
        assert(e as nat / 8 == f as nat / 8 + 1);
        assert(e as nat % 8 == 0);
        assert(step * 7 + step == base) by (nonlinear_arith)
            requires
                base == 8 * step,
        ;
        let wide = pow2(x + 1) as int;
        assert(wide / 8 * 0 == 0) by (nonlinear_arith);
        assert(window_of(e) == wide);
    } else {
        assert(e as nat / 8 == f as nat / 8);
        assert(e as nat % 8 == m + 1);
    }
    assert(window_of(f) < window_of(e));
    if d < f {
        lemma_window_monotone(d, f);
    }
}

/// The descriptor of the smallest window that is at least `window_size`, and
/// at least a kibibyte.
fn encode_window_descriptor(window_size: u64) -> (r: Result<u8>)
    ensures
        r is Ok <==> window_size <= window_of(255),
        r is Err ==> r == Err::<u8, Error>(Error::InvalidParameter("window_size is too large")),
        r matches Ok(d) ==> fits_window(
            d,
            if window_size < 1024 {
                1024
            } else {
                window_size as nat
            },
        ),
{
    let requested: u64 = if window_size < 1024 {
        1024
    } else {
        window_size
    };
    let mut descriptor: u8 = 0;
    loop
        invariant
            requested == (if window_size < 1024 {
                1024
            } else {
                window_size
            }),
            forall|e: u8| e < descriptor ==> #[trigger] window_of(e) < requested,
        decreases 256 - descriptor,
    {
        if decode_window_descriptor(descriptor) >= requested {
            proof {
                assert forall|e: u8| #[trigger] window_of(e) >= requested implies window_of(
                    descriptor,
                ) <= window_of(e) by {
                    if e > descriptor {
                        lemma_window_monotone(descriptor, e);
                    }
                }
                if descriptor < 255 {
                    lemma_window_monotone(descriptor, 255);
                }
            }
            return Ok(descriptor);
        }
        if descriptor == 255 {
            proof {
                lemma_window_bound(255);
            }
            return Err(Error::InvalidParameter("window_size is too large"));
        }
        descriptor = descriptor + 1;
    }
}

/// The smallest window that a header can declare and that is at least
/// `window_size`.
pub fn representable_window_size(window_size: u64) -> (r: Result<u64>)
    ensures
        r is Ok <==> window_size <= window_of(255),
        r is Err ==> r == Err::<u64, Error>(Error::InvalidParameter("window_size is too large")),
        r matches Ok(w) ==> {
            &&& w >= window_size
            &&& representable(w as nat)
            &&& forall|e: u8| #[trigger] window_of(e) >= window_size ==> w <= window_of(e)
        },
{
    let descriptor: u8 = encode_window_descriptor(window_size)?;
    proof {
        assert forall|e: u8| #[trigger] window_of(e) >= window_size implies window_of(descriptor)
            <= window_of(e) by {
            lemma_window_bound(e);
        }
    }
    Ok(decode_window_descriptor(descriptor))
}

fn encode_dictionary_id(dictionary_id: Option<u32>) -> (r: (u8, Vec<u8>))
    ensures
        r.0 == dictionary_flag(dictionary_id),
        r.1@ == dictionary_field(dictionary_id),
        r.0 < 4,
        r.1@.len() <= 4,
{
    let id: u32 = match dictionary_id {
        None => 0,
        Some(id) => id,
    };
    let flag: u8 = if id == 0 {
        0
    } else if id <= 255 {
        1
    } else if id <= 65535 {
        2
    } else {
        3
    };
    proof {
        bits::lemma_nat_bytes(id as nat, dictionary_len(flag as nat));
    }
    (flag, mem::le_bytes(id as u64, dictionary_field_size(flag)))
}

fn content_size_flag(content_size: u64) -> (r: u8)
    ensures
        r == content_flag(content_size),
        r < 4,
{
    if content_size <= 255 {
        0
    } else if content_size <= 65791 {
        1
    } else if content_size <= u32::MAX as u64 {
        2
    } else {
        3
    }
}

fn encode_frame_content_size(content_size: u64, flag: u8) -> (r: Vec<u8>)
    requires
        flag < 4,
        flag == 1 ==> content_size >= 256,
    ensures
        r@ == content_field(content_size, flag as nat),
        r@.len() == content_len(flag as nat, true),
{
    if flag == 1 {
        let rest: u64 = content_size - 256;
        proof {
            bits::lemma_nat_bytes(rest as nat, 2);
        }
        mem::le_bytes(rest, 2)
    } else {
        proof {
            bits::lemma_nat_bytes(content_size as nat, content_len(flag as nat, true));
        }
        mem::le_bytes(content_size, frame_content_size_field_size(flag, true))
    }
}

fn make_descriptor(content: u8, single_segment: bool, checksum: bool, dictionary: u8) -> (r: u8)
    requires
        content < 4,
        dictionary < 4,
    ensures
        r == descriptor_of(content as nat, single_segment, checksum, dictionary as nat),
{
    let single: u8 = if single_segment {
        32
    } else {
        0
    };
    let sum: u8 = if checksum {
        4
    } else {
        0
    };
    64 * content + single + sum + dictionary
}

/// The bytes of a header that declares the content size alone.
pub open spec fn single_segment_header(
    content_size: u64,
    checksum: bool,
    dictionary_id: Option<u32>,
    format: Format,
) -> Seq<u8> {
    magic_bytes(format) + seq![
        descriptor_of(
            content_flag(content_size),
            true,
            checksum,
            dictionary_flag(dictionary_id),
        ),
    ] + dictionary_field(dictionary_id) + content_field(content_size, content_flag(content_size))
}

/// The bytes of a header that declares a window.
pub open spec fn windowed_header(
    window: u8,
    checksum: bool,
    dictionary_id: Option<u32>,
    format: Format,
) -> Seq<u8> {
    magic_bytes(format) + seq![descriptor_of(0, false, checksum, dictionary_flag(dictionary_id)), window]
        + dictionary_field(dictionary_id)
}

/// The flag of the narrowest content size field beside a window. There no field
/// of one byte exists, and one of two bytes holds no size below 256.
pub open spec fn windowed_content_flag(size: u64) -> nat {
    if content_flag(size) == 0 {
        2
    } else {
        content_flag(size)
    }
}

/// The bytes of a header that declares a window and the content size.
pub open spec fn windowed_content_header(
    window: u8,
    content_size: u64,
    checksum: bool,
    dictionary_id: Option<u32>,
    format: Format,
) -> Seq<u8> {
    let flag = windowed_content_flag(content_size);
    magic_bytes(format) + seq![
        descriptor_of(flag, false, checksum, dictionary_flag(dictionary_id)),
        window,
    ] + dictionary_field(dictionary_id) + content_field(content_size, flag)
}

/// Writes a header that declares the content size alone.
pub fn write_single_segment_header(dst: &mut OutBuf, content_size: u64, checksum: bool)
    requires
        old(dst)@.wf(),
        old(dst)@.len() + 32 <= usize::MAX,
    ensures
        final(dst)@ == old(dst)@.append(
            single_segment_header(content_size, checksum, None, Format::Zstd1),
        ),
        final(dst)@.wf(),
{
    write_single_segment_header_with_dict(dst, content_size, checksum, None, Format::Zstd1);
}

/// Writes a header that declares the content size alone, and a dictionary.
pub fn write_single_segment_header_with_dict(
    dst: &mut OutBuf,
    content_size: u64,
    checksum: bool,
    dictionary_id: Option<u32>,
    format: Format,
)
    requires
        old(dst)@.wf(),
        old(dst)@.len() + 32 <= usize::MAX,
    ensures
        final(dst)@ == old(dst)@.append(
            single_segment_header(content_size, checksum, dictionary_id, format),
        ),
        final(dst)@.wf(),
{
    let mut bytes: Vec<u8> = mem::le_bytes(ZSTD_MAGIC_NUMBER as u64, format.magic_size());
    let (dict_flag, dict_field): (u8, Vec<u8>) = encode_dictionary_id(dictionary_id);
    let flag: u8 = content_size_flag(content_size);
    let field: Vec<u8> = encode_frame_content_size(content_size, flag);
    proof {
        bits::lemma_nat_bytes(ZSTD_MAGIC_NUMBER as nat, format.magic_len());
    }
    bytes.push(make_descriptor(flag, true, checksum, dict_flag));
    bytes.extend_from_slice(dict_field.as_slice());
    bytes.extend_from_slice(field.as_slice());
    proof {
        assert(bytes@ =~= single_segment_header(content_size, checksum, dictionary_id, format));
    }
    dst.extend_from_slice(bytes.as_slice());
}

/// Writes a header that declares a window.
pub fn write_windowed_header(dst: &mut OutBuf, window_size: u64, checksum: bool) -> (r: Result<()>)
    requires
        old(dst)@.wf(),
        old(dst)@.len() + 32 <= usize::MAX,
    ensures
        final(dst)@.wf(),
        window_size > window_of(255) ==> r == Err::<(), Error>(
            Error::InvalidParameter("window_size is too large"),
        ) && final(dst)@ == old(dst)@.append(
            magic_bytes(Format::Zstd1) + seq![descriptor_of(0, false, checksum, 0)],
        ),
        window_size <= window_of(255) ==> r is Ok && exists|d: u8|
            #[trigger] fits_window(d, declared_window(window_size)) && final(dst)@ == old(
                dst,
            )@.append(windowed_header(d, checksum, None, Format::Zstd1)),
{
    write_windowed_header_with_dict(dst, window_size, checksum, None, Format::Zstd1)
}

/// The window that a header is asked to declare.
pub open spec fn declared_window(window_size: u64) -> nat {
    if window_size < 1024 {
        1024
    } else {
        window_size as nat
    }
}

/// Writes a header that declares a window, and a dictionary.
pub fn write_windowed_header_with_dict(
    dst: &mut OutBuf,
    window_size: u64,
    checksum: bool,
    dictionary_id: Option<u32>,
    format: Format,
) -> (r: Result<()>)
    requires
        old(dst)@.wf(),
        old(dst)@.len() + 32 <= usize::MAX,
    ensures
        final(dst)@.wf(),
        window_size > window_of(255) ==> r == Err::<(), Error>(
            Error::InvalidParameter("window_size is too large"),
        ) && final(dst)@ == old(dst)@.append(
            magic_bytes(format) + seq![
                descriptor_of(0, false, checksum, dictionary_flag(dictionary_id)),
            ],
        ),
        window_size <= window_of(255) ==> r is Ok && exists|d: u8|
            #[trigger] fits_window(d, declared_window(window_size)) && final(dst)@ == old(
                dst,
            )@.append(windowed_header(d, checksum, dictionary_id, format)),
{
    let mut bytes: Vec<u8> = mem::le_bytes(ZSTD_MAGIC_NUMBER as u64, format.magic_size());
    proof {
        bits::lemma_nat_bytes(ZSTD_MAGIC_NUMBER as nat, format.magic_len());
    }
    let (dict_flag, dict_field): (u8, Vec<u8>) = encode_dictionary_id(dictionary_id);
    bytes.push(make_descriptor(0, false, checksum, dict_flag));
    match encode_window_descriptor(window_size) {
        Err(e) => {
            proof {
                assert(bytes@ =~= magic_bytes(format) + seq![
                    descriptor_of(0, false, checksum, dictionary_flag(dictionary_id)),
                ]);
            }
            dst.extend_from_slice(bytes.as_slice());
            Err(e)
        },
        Ok(window) => {
            bytes.push(window);
            bytes.extend_from_slice(dict_field.as_slice());
            proof {
                assert(bytes@ =~= windowed_header(window, checksum, dictionary_id, format));
                assert(fits_window(window, declared_window(window_size)));
            }
            dst.extend_from_slice(bytes.as_slice());
            Ok(())
        },
    }
}

/// Writes a header that declares a window and the content size.
pub fn write_windowed_header_with_content_size(
    dst: &mut OutBuf,
    window_size: u64,
    content_size: u64,
    checksum: bool,
    dictionary_id: Option<u32>,
    format: Format,
) -> (r: Result<()>)
    requires
        old(dst)@.wf(),
        old(dst)@.len() + 32 <= usize::MAX,
    ensures
        final(dst)@.wf(),
        window_size > window_of(255) ==> r == Err::<(), Error>(
            Error::InvalidParameter("window_size is too large"),
        ) && final(dst)@ == old(dst)@.append(
            magic_bytes(format) + seq![
                descriptor_of(
                    windowed_content_flag(content_size),
                    false,
                    checksum,
                    dictionary_flag(dictionary_id),
                ),
            ],
        ),
        window_size <= window_of(255) ==> r is Ok && exists|d: u8|
            #[trigger] fits_window(d, declared_window(window_size)) && final(dst)@ == old(
                dst,
            )@.append(
                windowed_content_header(d, content_size, checksum, dictionary_id, format),
            ),
{
    let mut bytes: Vec<u8> = mem::le_bytes(ZSTD_MAGIC_NUMBER as u64, format.magic_size());
    proof {
        bits::lemma_nat_bytes(ZSTD_MAGIC_NUMBER as nat, format.magic_len());
    }
    let (dict_flag, dict_field): (u8, Vec<u8>) = encode_dictionary_id(dictionary_id);
    let narrow: u8 = content_size_flag(content_size);
    let flag: u8 = if narrow == 0 {
        2
    } else {
        narrow
    };
    let field: Vec<u8> = encode_frame_content_size(content_size, flag);
    bytes.push(make_descriptor(flag, false, checksum, dict_flag));
    match encode_window_descriptor(window_size) {
        Err(e) => {
            proof {
                assert(bytes@ =~= magic_bytes(format) + seq![
                    descriptor_of(
                        windowed_content_flag(content_size),
                        false,
                        checksum,
                        dictionary_flag(dictionary_id),
                    ),
                ]);
            }
            dst.extend_from_slice(bytes.as_slice());
            Err(e)
        },
        Ok(window) => {
            bytes.push(window);
            bytes.extend_from_slice(dict_field.as_slice());
            bytes.extend_from_slice(field.as_slice());
            proof {
                assert(bytes@ =~= windowed_content_header(
                    window,
                    content_size,
                    checksum,
                    dictionary_id,
                    format,
                ));
                assert(fits_window(window, declared_window(window_size)));
            }
            dst.extend_from_slice(bytes.as_slice());
            Ok(())
        },
    }
}

} // verus!
