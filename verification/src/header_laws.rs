//! Laws that say what the bytes of frame and block headers stand for, and what
//! a walk over a frame's blocks tells of it.

use crate::block;
use crate::block::{BlockHeader, BlockType};
use crate::entropy::bits;
use crate::error::Error;
use crate::frame;
use crate::frame::{Format, FrameHeader, FrameSizeInfo, SkippableFrame, ZstandardFrameHeader};
use crate::frame_laws;
use vstd::arithmetic::power2::*;
use vstd::prelude::*;

verus! {

// ---------------------------------------------------------------------------
// Numbers in bytes.

/// The first byte of a number is its lowest: bytes are read from the low end.
pub proof fn lemma_spelled(s: Seq<u8>)
    ensures
        s.len() == 0 ==> bits::bytes_value(s) == 0,
        s.len() == 1 ==> bits::bytes_value(s) == s[0],
        s.len() == 2 ==> bits::bytes_value(s) == s[0] + 256 * s[1],
        s.len() == 3 ==> bits::bytes_value(s) == s[0] + 256 * s[1] + 65536 * s[2],
        s.len() == 4 ==> bits::bytes_value(s) == s[0] + 256 * s[1] + 65536 * s[2] + 16777216
            * s[3],
        s.len() == 5 ==> bits::bytes_value(s) == s[0] + 256 * s[1] + 65536 * s[2] + 16777216 * s[3]
            + 0x1_0000_0000 * s[4],
        s.len() == 8 ==> bits::bytes_value(s) == s[0] + 256 * s[1] + 65536 * s[2] + 16777216 * s[3]
            + 0x1_0000_0000 * (s[4] + 256 * s[5] + 65536 * s[6] + 16777216 * s[7]),
    decreases s.len(),
{
    if s.len() > 0 {
        let t = s.drop_first();
        if t.len() > 0 {
            let u = t.drop_first();
            if u.len() > 0 {
                let v = u.drop_first();
                if v.len() > 0 {
                    let w = v.drop_first();
                    lemma_spelled(w);
                    assert(bits::bytes_value(v) == v[0] + 256 * bits::bytes_value(w));
                }
                assert(bits::bytes_value(u) == u[0] + 256 * bits::bytes_value(v));
            }
            assert(bits::bytes_value(t) == t[0] + 256 * bits::bytes_value(u));
        }
        assert(bits::bytes_value(s) == s[0] + 256 * bits::bytes_value(t));
    }
}

// ---------------------------------------------------------------------------
// Frame headers.

/// A frame's blocks are limited by its window, and by 128 KiB: the limit is
/// the smaller of the two.
pub proof fn law_blocks_are_limited_by_the_window(src: Seq<u8>, format: Format)
    ensures
        frame::frame_header(src, format) matches Ok(FrameHeader::Zstandard(h)) ==> {
            &&& h.block_size_max <= h.window_size
            &&& h.block_size_max <= 131072
            &&& h.block_size_max == h.window_size || h.block_size_max == 131072
        },
{
    let m = format.magic_len() as int;
    if src.len() > m + 1 {
        frame::lemma_window_bound(src[m + 1]);
    }
    lemma2_to64_rest();
    if frame::zstandard_header(src, format) is Ok {
        let d = src[m] as nat;
        let single = (d / 32) % 2 == 1;
        let content_at = m + 1 + (if single {
            0int
        } else {
            1
        }) + frame::dictionary_len(d % 4);
        let end = content_at + frame::content_len(d / 64, single);
        lemma_spelled(src.subrange(content_at, end));
    }
}

/// A window descriptor holds an exponent in its upper five bits and an
/// eighth in its lower three: the window is as many eighths over a power of
/// two from 2^10 on.
pub proof fn law_window_descriptor(descriptor: u8)
    ensures
        frame::window_of(descriptor) == (8 + descriptor as nat % 8) * pow2(
            7 + descriptor as nat / 8,
        ),
{
    let e = 7 + descriptor as nat / 8;
    lemma2_to64();
    lemma_pow2_adds(3, e);
    let p = pow2(e) as int;
    let m = (descriptor as nat % 8) as int;
    assert(pow2(10 + descriptor as nat / 8) == 8 * p);
    assert((8 * p) / 8 == p);
    assert(8 * p + p * m == (8 + m) * p) by (nonlinear_arith);
}

/// Which bytes of a frame header say what. Behind the magic number, if there
/// is one, stands the descriptor: two bits for the width of the content size,
/// one for a single segment, an unused one, a reserved one, one for the
/// checksum, and two for the width of the dictionary id. Then come the window,
/// unless the frame is a single segment, the dictionary id and the content
/// size, each from its lowest byte on.
pub proof fn law_header_fields(src: Seq<u8>, format: Format, h: ZstandardFrameHeader)
    requires
        frame::frame_header(src, format) == Ok::<FrameHeader, Error>(FrameHeader::Zstandard(h)),
    ensures
        ({
            let m = if format == Format::Zstd1 {
                4int
            } else {
                0
            };
            let d = src[m];
            let w = m + 1;
            let i = if h.single_segment {
                w
            } else {
                w + 1
            };
            let c = if d % 4 == 3 {
                i + 4
            } else {
                i + d % 4
            };
            let e = h.header_size as int;
            &&& src.len() >= e
            &&& (d / 8) % 2 == 0
            &&& h.single_segment == ((d / 32) % 2 == 1)
            &&& h.checksum == ((d / 4) % 2 == 1)
            &&& !h.single_segment ==> h.window_size == (8 + src[w] as nat % 8) * pow2(
                7 + src[w] as nat / 8,
            )
            &&& h.single_segment ==> h.content_size == Some(h.window_size)
            &&& d % 4 == 0 ==> h.dictionary_id is None
            &&& d % 4 == 1 ==> h.dictionary_id == if src[i] == 0 {
                None
            } else {
                Some(src[i] as u32)
            }
            &&& d % 4 == 2 ==> h.dictionary_id == if src[i] == 0 && src[i + 1] == 0 {
                None
            } else {
                Some((src[i] + 256 * src[i + 1]) as u32)
            }
            &&& d % 4 == 3 ==> h.dictionary_id == if src[i] == 0 && src[i + 1] == 0 && src[i + 2]
                == 0 && src[i + 3] == 0 {
                None
            } else {
                Some(
                    (src[i] + 256 * src[i + 1] + 65536 * src[i + 2] + 16777216 * src[i + 3]) as u32,
                )
            }
            &&& d / 64 == 0 && !h.single_segment ==> h.content_size is None && e == c
            &&& d / 64 == 0 && h.single_segment ==> h.content_size == Some(src[c] as u64) && e == c
                + 1
            &&& d / 64 == 1 ==> h.content_size == Some(
                (256 + src[c] + 256 * src[c + 1]) as u64,
            ) && e == c + 2
            &&& d / 64 == 2 ==> h.content_size == Some(
                (src[c] + 256 * src[c + 1] + 65536 * src[c + 2] + 16777216 * src[c + 3]) as u64,
            ) && e == c + 4
            &&& d / 64 == 3 ==> h.content_size == Some(
                (src[c] + 256 * src[c + 1] + 65536 * src[c + 2] + 16777216 * src[c + 3]
                    + 0x1_0000_0000 * (src[c + 4] + 256 * src[c + 5] + 65536 * src[c + 6] + 16777216
                    * src[c + 7])) as u64,
            ) && e == c + 8
        }),
{
    let m = format.magic_len() as int;
    assert(m == if format == Format::Zstd1 {
        4int
    } else {
        0
    });
    let d = src[m] as nat;
    let single = (d / 32) % 2 == 1;
    let i = m + 1 + (if single {
        0int
    } else {
        1
    });
    let c = i + frame::dictionary_len(d % 4);
    let e = c + frame::content_len(d / 64, single);
    lemma_spelled(src.subrange(i, c));
    lemma_spelled(src.subrange(c, e));
    lemma2_to64_rest();
    if !single {
        frame::lemma_window_bound(src[m + 1]);
        law_window_descriptor(src[m + 1]);
    }
}

/// A header is read wherever the magic number is right, the reserved bit is
/// clear and every field is there. One that is cut short is reported as such,
/// and the reserved bit as damage.
pub proof fn law_header_is_read(src: Seq<u8>, format: Format)
    requires
        format == Format::Zstd1 ==> src.len() >= 4 && src[0] == 0x28 && src[1] == 0xB5 && src[2]
            == 0x2F && src[3] == 0xFD,
    ensures
        ({
            let m = if format == Format::Zstd1 {
                4int
            } else {
                0
            };
            let d = src[m];
            let window = if (d / 32) % 2 == 1 {
                0int
            } else {
                1
            };
            let id = if d % 4 == 3 {
                4int
            } else {
                d as int % 4
            };
            let content = if d / 64 == 3 {
                8int
            } else if d / 64 == 2 {
                4
            } else if d / 64 == 1 {
                2
            } else if (d / 32) % 2 == 1 {
                1
            } else {
                0
            };
            let size = m + 1 + window + id + content;
            let r = frame::frame_header(src, format);
            &&& src.len() == m ==> r == Err::<FrameHeader, Error>(Error::UnexpectedEof)
            &&& src.len() > m && (d / 8) % 2 == 1 ==> r == Err::<FrameHeader, Error>(
                Error::Corruption("frame header reserved bit is set"),
            )
            &&& src.len() > m && (d / 8) % 2 == 0 && src.len() < size ==> r == Err::<
                FrameHeader,
                Error,
            >(Error::UnexpectedEof)
            &&& src.len() > m && (d / 8) % 2 == 0 && src.len() >= size ==> (r matches Ok(
                FrameHeader::Zstandard(h),
            ) && h.header_size == size)
        }),
{
    if format == Format::Zstd1 {
        lemma_spelled(src.take(4));
    }
}

/// The magic number decides what stands at the start of an input: a frame, one
/// of the sixteen kinds of skippable frame, whose size follows, or neither.
pub proof fn law_magic_number_decides(src: Seq<u8>)
    ensures
        ({
            let r = frame::frame_header(src, Format::Zstd1);
            let magic = src[0] + 256 * src[1] + 65536 * src[2] + 16777216 * src[3];
            &&& src.len() < 4 ==> r == Err::<FrameHeader, Error>(Error::UnexpectedEof)
            &&& src.len() >= 4 ==> {
                &&& r matches Ok(FrameHeader::Zstandard(_)) ==> magic == 0xFD2F_B528
                &&& 0x184D_2A50 <= magic <= 0x184D_2A5F && src.len() < 8 ==> r == Err::<
                    FrameHeader,
                    Error,
                >(Error::UnexpectedEof)
                &&& 0x184D_2A50 <= magic <= 0x184D_2A5F && src.len() >= 8 ==> r == Ok::<
                    FrameHeader,
                    Error,
                >(
                    FrameHeader::Skippable(
                        SkippableFrame {
                            header_size: 8,
                            magic_variant: (magic - 0x184D_2A50) as u8,
                            size: (src[4] + 256 * src[5] + 65536 * src[6] + 16777216
                                * src[7]) as u32,
                        },
                    ),
                )
                &&& magic != 0xFD2F_B528 && !(0x184D_2A50 <= magic <= 0x184D_2A5F) ==> r == Err::<
                    FrameHeader,
                    Error,
                >(Error::BadMagic(magic as u32))
            }
        }),
{
    if src.len() >= 4 {
        lemma_spelled(src.take(4));
    }
    if src.len() >= 8 {
        lemma_spelled(src.subrange(4, 8));
    }
}

/// No skippable frame stands in the place of a frame without a magic number.
pub proof fn law_magicless_is_never_skipped(src: Seq<u8>)
    ensures
        frame::frame_header(src, Format::Zstd1Magicless) matches Ok(h) ==> h is Zstandard,
{
}

// ---------------------------------------------------------------------------
// Block headers.

/// A block header is three bytes: the lowest bit marks the last block, two
/// bits tell the type, and the other twenty-one the size.
pub proof fn law_block_header_fields(src: Seq<u8>)
    ensures
        ({
            let r = block::block_header(src);
            let kind = (src[0] / 2) % 4;
            &&& src.len() < 3 ==> r == Err::<BlockHeader, Error>(Error::UnexpectedEof)
            &&& src.len() >= 3 && kind == 3 ==> r == Err::<BlockHeader, Error>(
                Error::Corruption("reserved block type"),
            )
            &&& src.len() >= 3 && kind != 3 ==> r == Ok::<BlockHeader, Error>(
                BlockHeader {
                    last_block: src[0] % 2 == 1,
                    block_type: if kind == 0 {
                        BlockType::Raw
                    } else if kind == 1 {
                        BlockType::Rle
                    } else {
                        BlockType::Compressed
                    },
                    block_size: (src[0] / 8 + 32 * src[1] + 8192 * src[2]) as u32,
                },
            )
        }),
{
    if src.len() >= 3 {
        lemma_spelled(src.take(3));
    }
}

/// A block of one repeated byte has that byte behind its header; the others
/// have as many bytes as their size says.
pub proof fn law_block_payload(h: BlockHeader)
    ensures
        h.block_type == BlockType::Rle ==> h.payload() == 1,
        h.block_type != BlockType::Rle ==> h.payload() == h.block_size,
{
}

// ---------------------------------------------------------------------------
// Frames as chains of blocks.

/// Blocks stand one behind the other in `src`: each `starts` where the one
/// before ends, the last number is where the last block ends, and the last
/// block alone is marked as such.
pub open spec fn is_chain(src: Seq<u8>, starts: Seq<int>) -> bool {
    &&& starts.len() >= 2
    &&& starts[0] >= 0
    &&& starts.last() <= src.len()
    &&& forall|i: int| 0 <= i < starts.len() - 1 ==> #[trigger] is_link(src, starts, i)
}

/// The block at `starts[i]`, whose first three bytes tell its type and its
/// size, ends at `starts[i + 1]`.
pub open spec fn is_link(src: Seq<u8>, starts: Seq<int>, i: int) -> bool {
    let at = starts[i];
    let kind = (src[at] / 2) % 4;
    let size = src[at] / 8 + 32 * src[at + 1] + 8192 * src[at + 2];
    &&& at + 3 <= src.len()
    &&& kind != 3
    &&& starts[i + 1] == at + 3 + if kind == 1 {
        1
    } else {
        size
    }
    &&& (src[at] % 2 == 1) == (i == starts.len() - 2)
}

proof fn lemma_chain_end(src: Seq<u8>, starts: Seq<int>, i: int)
    requires
        is_chain(src, starts),
        0 <= i < starts.len(),
    ensures
        0 <= starts[i] <= starts.last(),
        i < starts.len() - 1 ==> starts[i] + 3 <= starts.last(),
    decreases starts.len() - i,
{
    if i < starts.len() - 1 {
        assert(is_link(src, starts, i));
        lemma_chain_end(src, starts, i + 1);
        lemma_chain_start(src, starts, i);
    } else {
        lemma_chain_start(src, starts, i);
    }
}

proof fn lemma_chain_start(src: Seq<u8>, starts: Seq<int>, i: int)
    requires
        is_chain(src, starts),
        0 <= i < starts.len(),
    ensures
        0 <= starts[i],
    decreases i,
{
    if i > 0 {
        lemma_chain_start(src, starts, i - 1);
        assert(is_link(src, starts, i - 1));
    }
}

proof fn lemma_chain_walk(src: Seq<u8>, starts: Seq<int>, i: int)
    requires
        is_chain(src, starts),
        0 <= i < starts.len() - 1,
        src.len() <= usize::MAX,
    ensures
        frame::walk_blocks(src, starts[i] as nat, i as nat) == Ok::<(nat, nat), Error>(
            (starts.last() as nat, (starts.len() - 1) as nat),
        ),
    decreases starts.len() - i,
{
    let at = starts[i];
    assert(is_link(src, starts, i));
    lemma_chain_end(src, starts, i);
    lemma_chain_end(src, starts, i + 1);
    let s = src.skip(at);
    law_block_header_fields(s);
    assert(s[0] == src[at] && s[1] == src[at + 1] && s[2] == src[at + 2]);
    let h = block::block_header(s)->Ok_0;
    law_block_payload(h);
    assert(starts[i + 1] == at + 3 + h.payload());
    if i < starts.len() - 2 {
        lemma_chain_walk(src, starts, i + 1);
    }
}

/// The sum of some sizes.
pub open spec fn total_of(sizes: Seq<nat>) -> nat
    decreases sizes.len(),
{
    if sizes.len() == 0 {
        0
    } else {
        sizes.last() + total_of(sizes.drop_last())
    }
}

proof fn lemma_total_of(sizes: Seq<nat>, most: nat)
    requires
        forall|i: int| 0 <= i < sizes.len() ==> #[trigger] sizes[i] <= most,
    ensures
        total_of(sizes) <= sizes.len() * most,
    decreases sizes.len(),
{
    if sizes.len() > 0 {
        lemma_total_of(sizes.drop_last(), most);
        let n = sizes.len() as int;
        let m = most as int;
        assert((n - 1) * m + m == n * m) by (nonlinear_arith);
    }
}

/// What a walk over the blocks tells of a frame.
proof fn lemma_walked_frame(
    src: Seq<u8>,
    format: Format,
    h: ZstandardFrameHeader,
    end: nat,
    blocks: nat,
    product: nat,
)
    requires
        frame::frame_header(src, format) == Ok::<FrameHeader, Error>(FrameHeader::Zstandard(h)),
        frame::walk_blocks(src, h.header_size as nat, 0) == Ok::<(nat, nat), Error>((end, blocks)),
        product == blocks * h.block_size_max as nat,
        src.len() <= usize::MAX,
    ensures
        ({
            let size = end + if h.checksum {
                4nat
            } else {
                0
            };
            let r = frame::frame_size(src, format);
            &&& size > src.len() && size <= usize::MAX ==> r == Err::<FrameSizeInfo, Error>(
                Error::UnexpectedEof,
            )
            &&& size <= src.len() ==> r == Ok::<FrameSizeInfo, Error>(
                FrameSizeInfo {
                    compressed_size: size as usize,
                    decompressed_bound: match h.content_size {
                        Some(c) => c,
                        None => if product > u64::MAX {
                            u64::MAX
                        } else {
                            product as u64
                        },
                    },
                    declared_size: h.content_size,
                },
            )
        }),
{
}

/// A frame measures from its header over its chain of blocks to its checksum,
/// if it has one. What it declares is told as it is. A frame that declares
/// nothing is bounded by a largest block for each of its blocks; so, whatever
/// they decode to within their limit, the bound is not below the sum.
pub proof fn law_frame_is_a_chain_of_blocks(
    src: Seq<u8>,
    format: Format,
    h: ZstandardFrameHeader,
    starts: Seq<int>,
    sizes: Seq<nat>,
)
    requires
        frame::frame_header(src, format) == Ok::<FrameHeader, Error>(FrameHeader::Zstandard(h)),
        is_chain(src, starts),
        starts[0] == h.header_size,
        src.len() <= usize::MAX,
        sizes.len() == starts.len() - 1,
        forall|i: int| 0 <= i < sizes.len() ==> #[trigger] sizes[i] <= h.block_size_max,
    ensures
        ({
            let end = starts.last() + if h.checksum {
                4int
            } else {
                0
            };
            let r = frame::frame_size(src, format);
            &&& end > src.len() && end <= usize::MAX ==> r == Err::<FrameSizeInfo, Error>(
                Error::UnexpectedEof,
            )
            &&& end <= src.len() ==> {
                &&& r matches Ok(info)
                &&& info.compressed_size == end
                &&& info.declared_size == h.content_size
                &&& h.content_size matches Some(size) ==> info.decompressed_bound == size
                &&& h.content_size is None ==> {
                    &&& info.decompressed_bound == u64::MAX || info.decompressed_bound == (
                    starts.len() - 1) * h.block_size_max
                    &&& info.decompressed_bound <= (starts.len() - 1) * h.block_size_max
                    &&& info.decompressed_bound >= total_of(sizes) || info.decompressed_bound
                        == u64::MAX
                }
            }
        }),
{
    lemma_chain_walk(src, starts, 0);
    lemma_total_of(sizes, h.block_size_max as nat);
    let blocks = (starts.len() - 1) as nat;
    let product = blocks * h.block_size_max as nat;
    lemma_chain_end(src, starts, starts.len() - 1);
    assert(sizes.len() == blocks);
    assert(total_of(sizes) <= product);
    assert(product == (starts.len() - 1) * h.block_size_max);
    lemma_walked_frame(src, format, h, starts.last() as nat, blocks, product);
}

proof fn lemma_walk_is_chain(src: Seq<u8>, pos: nat, blocks: nat) -> (starts: Seq<int>)
    requires
        frame::walk_blocks(src, pos, blocks) is Ok,
    ensures
        is_chain(src, starts),
        starts[0] == pos,
        starts.last() == frame::walk_blocks(src, pos, blocks)->Ok_0.0,
    decreases src.len() - pos,
{
    let s = src.skip(pos as int);
    law_block_header_fields(s);
    assert(s[0] == src[pos as int] && s[1] == src[pos as int + 1] && s[2] == src[pos as int + 2]);
    let h = block::block_header(s)->Ok_0;
    law_block_payload(h);
    let next = pos + 3 + h.payload();
    if h.last_block {
        let starts = seq![pos as int, next as int];
        assert(is_link(src, starts, 0));
        starts
    } else {
        let rest = lemma_walk_is_chain(src, next, blocks + 1);
        let starts = seq![pos as int] + rest;
        assert forall|i: int| 0 <= i < starts.len() - 1 implies #[trigger] is_link(
            src,
            starts,
            i,
        ) by {
            if i > 0 {
                assert(is_link(src, rest, i - 1));
            }
        }
        starts
    }
}

/// A frame that measures is a chain of blocks behind its header, or a
/// skippable frame of its declared size.
pub proof fn law_measured_frame_is_a_chain(src: Seq<u8>, format: Format)
    requires
        frame::frame_size(src, format) is Ok,
    ensures
        match frame::frame_header(src, format) {
            Ok(FrameHeader::Zstandard(h)) => exists|starts: Seq<int>|
                #[trigger] is_chain(src, starts) && starts[0] == h.header_size && starts.last()
                    <= frame::frame_size(src, format)->Ok_0.compressed_size,
            Ok(FrameHeader::Skippable(f)) => {
                &&& frame::frame_size(src, format)->Ok_0.compressed_size == 8 + f.size
                &&& frame::frame_size(src, format)->Ok_0.decompressed_bound == 0
                &&& frame::frame_size(src, format)->Ok_0.declared_size == Some(0u64)
            },
            Err(_) => false,
        },
{
    match frame::frame_header(src, format) {
        Ok(FrameHeader::Zstandard(h)) => {
            let starts = lemma_walk_is_chain(src, h.header_size as nat, 0);
            assert(is_chain(src, starts));
        },
        _ => {},
    }
}

// ---------------------------------------------------------------------------
// Streams of frames.

proof fn lemma_bound_total(src: Seq<u8>, format: Format, pos: nat, total: nat)
    requires
        total <= u64::MAX,
    ensures
        frame::bound_from(src, format, pos, 0) matches Ok(x) ==> frame::bound_from(
            src,
            format,
            pos,
            total,
        ) == (if total + x > u64::MAX {
            Err::<u64, Error>(Error::OutputSizeOverflow)
        } else {
            Ok::<u64, Error>((total + x) as u64)
        }),
    decreases src.len() - pos,
{
    if pos < src.len() {
        let s = src.skip(pos as int);
        frame::lemma_frame_size(s, format);
        let r = frame::frame_size(s, format);
        if r is Ok {
            let info = r->Ok_0;
            let next = pos + info.compressed_size as nat;
            lemma_bound_total(src, format, next, info.decompressed_bound as nat);
            if total + info.decompressed_bound <= u64::MAX {
                lemma_bound_total(src, format, next, total + info.decompressed_bound as nat);
            }
            lemma_bound_from_zero(src, format, next, info.decompressed_bound as nat);
        }
    }
}

proof fn lemma_bound_from_zero(src: Seq<u8>, format: Format, pos: nat, total: nat)
    requires
        total <= u64::MAX,
    ensures
        frame::bound_from(src, format, pos, total) is Ok ==> frame::bound_from(
            src,
            format,
            pos,
            0,
        ) is Ok && total + frame::bound_from(src, format, pos, 0)->Ok_0 <= u64::MAX,
    decreases src.len() - pos,
{
    if pos < src.len() {
        let s = src.skip(pos as int);
        frame::lemma_frame_size(s, format);
        let r = frame::frame_size(s, format);
        if r is Ok && total + r->Ok_0.decompressed_bound <= u64::MAX && frame::bound_from(
            src,
            format,
            pos,
            total,
        ) is Ok {
            let info = r->Ok_0;
            let next = pos + info.compressed_size as nat;
            let more = total + info.decompressed_bound as nat;
            lemma_bound_from_zero(src, format, next, more);
            lemma_bound_total(src, format, next, info.decompressed_bound as nat);
            lemma_bound_total(src, format, next, more);
        }
    }
}

proof fn lemma_bound_shift(a: Seq<u8>, b: Seq<u8>, format: Format, pos: nat, total: nat)
    ensures
        frame::bound_from(a + b, format, a.len() + pos, total) == frame::bound_from(
            b,
            format,
            pos,
            total,
        ),
    decreases b.len() - pos,
{
    if pos < b.len() {
        assert((a + b).skip((a.len() + pos) as int) =~= b.skip(pos as int));
        let s = b.skip(pos as int);
        frame::lemma_frame_size(s, format);
        let r = frame::frame_size(s, format);
        if r is Ok {
            lemma_bound_shift(
                a,
                b,
                format,
                pos + r->Ok_0.compressed_size as nat,
                total + r->Ok_0.decompressed_bound as nat,
            );
        }
    }
}

/// The bound of one frame behind another is the sum of their bounds, and an
/// error where the sum is too large. The bound of a single frame is its own.
pub proof fn law_bounds_of_streams_add_up(a: Seq<u8>, b: Seq<u8>, format: Format)
    ensures
        frame::bound_from(a, format, 0, 0) matches Ok(x) ==> (frame::bound_from(b, format, 0, 0)
            matches Ok(y) ==> frame::bound_from(a + b, format, 0, 0) == (if x + y > u64::MAX {
            Err::<u64, Error>(Error::OutputSizeOverflow)
        } else {
            Ok::<u64, Error>((x + y) as u64)
        })),
        frame::frame_size(a, format) matches Ok(info) ==> (info.compressed_size == a.len()
            ==> frame::bound_from(a, format, 0, 0) == Ok::<u64, Error>(info.decompressed_bound)),
{
    frame_laws::law_bounds_add(a, b, format, 0, 0);
    if frame::bound_from(a, format, 0, 0) is Ok {
        let x = frame::bound_from(a, format, 0, 0)->Ok_0;
        lemma_bound_shift(a, b, format, 0, x as nat);
        lemma_bound_total(b, format, 0, x as nat);
    }
    frame::lemma_frame_size(a, format);
    assert(a.skip(0) =~= a);
    if frame::frame_size(a, format) is Ok {
        reveal_with_fuel(frame::bound_from, 3);
    }
}

proof fn lemma_declared_rest(
    a: Seq<u8>,
    b: Seq<u8>,
    format: Format,
    pos: nat,
    total: Option<u64>,
)
    requires
        pos <= a.len(),
    ensures
        frame::declared_from(a, format, pos, total) matches Ok(x) ==> frame::declared_from(
            a + b,
            format,
            pos,
            total,
        ) == frame::declared_from(a + b, format, a.len(), x),
    decreases a.len() - pos,
{
    if pos < a.len() {
        let s = a.skip(pos as int);
        assert((a + b).skip(pos as int) =~= s + b);
        frame_laws::law_frame_size_ignores_rest(s, b, format);
        frame::lemma_frame_size(s, format);
        let r = frame::frame_size(s, format);
        if r is Ok {
            let next = pos + r->Ok_0.compressed_size as nat;
            match (total, r->Ok_0.declared_size) {
                (Some(t), Some(d)) => {
                    if t + d <= u64::MAX {
                        lemma_declared_rest(a, b, format, next, Some((t + d) as u64));
                    }
                },
                _ => {
                    lemma_declared_rest(a, b, format, next, None);
                },
            }
        }
    }
}

proof fn lemma_declared_shift(
    a: Seq<u8>,
    b: Seq<u8>,
    format: Format,
    pos: nat,
    total: Option<u64>,
)
    ensures
        frame::declared_from(a + b, format, a.len() + pos, total) == frame::declared_from(
            b,
            format,
            pos,
            total,
        ),
    decreases b.len() - pos,
{
    if pos < b.len() {
        assert((a + b).skip((a.len() + pos) as int) =~= b.skip(pos as int));
        let s = b.skip(pos as int);
        frame::lemma_frame_size(s, format);
        let r = frame::frame_size(s, format);
        if r is Ok {
            let next = pos + r->Ok_0.compressed_size as nat;
            match (total, r->Ok_0.declared_size) {
                (Some(t), Some(d)) => {
                    if t + d <= u64::MAX {
                        lemma_declared_shift(a, b, format, next, Some((t + d) as u64));
                    }
                },
                _ => {
                    lemma_declared_shift(a, b, format, next, None);
                },
            }
        }
    }
}

/// Once a size is not declared, none is for the whole; but every frame is
/// measured.
proof fn lemma_declared_none(src: Seq<u8>, format: Format, pos: nat, total: Option<u64>)
    ensures
        frame::declared_from(src, format, pos, total) is Ok ==> frame::declared_from(
            src,
            format,
            pos,
            None,
        ) == Ok::<Option<u64>, Error>(None),
        frame::declared_from(src, format, pos, Some(0)) matches Ok(None) ==> (frame::declared_from(
            src,
            format,
            pos,
            total,
        ) matches Ok(x) ==> x is None),
    decreases src.len() - pos,
{
    if pos < src.len() {
        let s = src.skip(pos as int);
        frame::lemma_frame_size(s, format);
        let r = frame::frame_size(s, format);
        if r is Ok {
            let info = r->Ok_0;
            let next = pos + info.compressed_size as nat;
            lemma_declared_none(src, format, next, None);
            if let Some(d) = info.declared_size {
                lemma_declared_none(src, format, next, Some(d));
                if let Some(t) = total {
                    if t + d <= u64::MAX {
                        lemma_declared_none(src, format, next, Some((t + d) as u64));
                        lemma_declared_some(src, format, next, d);
                        lemma_declared_some(src, format, next, (t + d) as u64);
                    }
                }
            }
        }
    }
}

proof fn lemma_declared_some(src: Seq<u8>, format: Format, pos: nat, total: u64)
    ensures
        frame::declared_from(src, format, pos, Some(total)) matches Ok(Some(x)) ==> x >= total
            && frame::declared_from(src, format, pos, Some(0)) == Ok::<Option<u64>, Error>(
            Some((x - total) as u64),
        ),
        frame::declared_from(src, format, pos, Some(0)) matches Ok(Some(y)) ==> frame::declared_from(
            src,
            format,
            pos,
            Some(total),
        ) == (if total + y > u64::MAX {
            Err::<Option<u64>, Error>(Error::OutputSizeOverflow)
        } else {
            Ok::<Option<u64>, Error>(Some((total + y) as u64))
        }),
    decreases src.len() - pos,
{
    if pos < src.len() {
        let s = src.skip(pos as int);
        frame::lemma_frame_size(s, format);
        let r = frame::frame_size(s, format);
        if r is Ok {
            let info = r->Ok_0;
            let next = pos + info.compressed_size as nat;
            if let Some(d) = info.declared_size {
                lemma_declared_some(src, format, next, d);
                if total + d <= u64::MAX {
                    lemma_declared_some(src, format, next, (total + d) as u64);
                }
            } else {
                lemma_undeclared(src, format, next);
            }
        }
    }
}

proof fn lemma_undeclared(src: Seq<u8>, format: Format, pos: nat)
    ensures
        frame::declared_from(src, format, pos, None) matches Ok(x) ==> x is None,
    decreases src.len() - pos,
{
    if pos < src.len() {
        let s = src.skip(pos as int);
        frame::lemma_frame_size(s, format);
        if let Ok(info) = frame::frame_size(s, format) {
            lemma_undeclared(src, format, pos + info.compressed_size as nat);
        }
    }
}

/// The declared sizes of streams that stand one behind the other add up; where
/// one of them does not declare its size, the whole does not. A single frame
/// declares what its header says.
pub proof fn law_declared_sizes_add_up(a: Seq<u8>, b: Seq<u8>, format: Format)
    ensures
        frame::declared_from(a, format, 0, Some(0)) matches Ok(x) ==> (frame::declared_from(
            b,
            format,
            0,
            Some(0),
        ) matches Ok(y) ==> {
            let r = frame::declared_from(a + b, format, 0, Some(0));
            &&& x is Some && y is Some && x->0 + y->0 <= u64::MAX ==> r == Ok::<Option<u64>, Error>(
                Some((x->0 + y->0) as u64),
            )
            &&& x is Some && y is Some && x->0 + y->0 > u64::MAX ==> r == Err::<
                Option<u64>,
                Error,
            >(Error::OutputSizeOverflow)
            &&& x is None ==> r == Ok::<Option<u64>, Error>(None)
            &&& y is None && r is Ok ==> r == Ok::<Option<u64>, Error>(None)
        }),
        frame::frame_size(a, format) matches Ok(info) ==> (info.compressed_size == a.len()
            ==> frame::declared_from(a, format, 0, Some(0)) == Ok::<Option<u64>, Error>(
            info.declared_size,
        )),
{
    lemma_declared_rest(a, b, format, 0, Some(0));
    if let Ok(x) = frame::declared_from(a, format, 0, Some(0)) {
        lemma_declared_shift(a, b, format, 0, x);
        lemma_declared_none(b, format, 0, Some(0));
        lemma_declared_none(b, format, 0, x);
        if let Some(t) = x {
            lemma_declared_some(b, format, 0, t);
        }
    }
    frame::lemma_frame_size(a, format);
    assert(a.skip(0) =~= a);
    if frame::frame_size(a, format) is Ok {
        reveal_with_fuel(frame::declared_from, 3);
    }
}

} // verus!
