//! Laws of frame headers and of the measuring of frames.

use crate::block;
use crate::block::{BLOCK_HEADER_SIZE, BLOCK_SIZE_MAX};
use crate::entropy::bits;
use crate::error::Error;
use crate::frame;
use crate::frame::{
    Format, FrameHeader, FrameSizeInfo, SkippableFrame, ZstandardFrameHeader,
    SKIPPABLE_MAGIC_BASE, ZSTD_MAGIC_NUMBER,
};
use vstd::arithmetic::div_mod::*;
use vstd::arithmetic::power2::*;
use vstd::prelude::*;

verus! {

/// A dictionary id as a reader sees it: zero names none.
pub open spec fn named_dictionary(id: Option<u32>) -> Option<u32> {
    match id {
        Some(v) => if v != 0 {
            Some(v)
        } else {
            None
        },
        None => None,
    }
}

/// The largest block of a frame with this window.
pub open spec fn largest_block(window: nat) -> u32 {
    if window < BLOCK_SIZE_MAX {
        window as u32
    } else {
        BLOCK_SIZE_MAX as u32
    }
}

proof fn lemma_magic(format: Format, rest: Seq<u8>)
    ensures
        ({
            let s = frame::magic_bytes(format) + rest;
            &&& frame::magic_bytes(format).len() == format.magic_len()
            &&& frame::frame_header(s, format) == (if s.len() < 4 && format == Format::Zstd1 {
                Err::<FrameHeader, Error>(Error::UnexpectedEof)
            } else {
                frame::zstandard_header(s, format)
            })
        }),
{
    lemma2_to64();
    let m = frame::magic_bytes(format);
    if format == Format::Zstd1 {
        assert(pow2(8 * 4) == 0x1_0000_0000);
        bits::lemma_nat_bytes_exact(ZSTD_MAGIC_NUMBER as nat, 4);
        assert((m + rest).take(4) =~= m);
    } else {
        bits::lemma_nat_bytes(ZSTD_MAGIC_NUMBER as nat, 0);
    }
}

proof fn lemma_dictionary_field(id: Option<u32>)
    ensures
        ({
            let f = frame::dictionary_field(id);
            let v = match id {
                None => 0,
                Some(v) => v as nat,
            };
            &&& f.len() == frame::dictionary_len(frame::dictionary_flag(id))
            &&& bits::bytes_value(f) == v
            &&& frame::dictionary_flag(id) < 4
        }),
{
    lemma2_to64();
    let v = match id {
        None => 0,
        Some(v) => v as nat,
    };
    assert(pow2(8 * 0) == 1 && pow2(8 * 1) == 256 && pow2(8 * 2) == 65536 && pow2(8 * 4)
        == 0x1_0000_0000);
    bits::lemma_nat_bytes_exact(v, frame::dictionary_len(frame::dictionary_flag(id)));
}

proof fn lemma_content_field(size: u64, flag: nat)
    requires
        flag == frame::content_flag(size) || flag == frame::windowed_content_flag(size),
    ensures
        ({
            let f = frame::content_field(size, flag);
            &&& f.len() == frame::content_len(flag, true)
            &&& frame::content_of(f) == size
        }),
{
    lemma2_to64();
    lemma2_to64_rest();
    if flag == 1 {
        assert(pow2(8 * 2) == 65536);
        bits::lemma_nat_bytes_exact((size - 256) as nat, 2);
    } else {
        assert(pow2(8 * 1) == 256 && pow2(8 * 4) == 0x1_0000_0000 && pow2(8 * 8)
            == 0x1_0000_0000_0000_0000);
        bits::lemma_nat_bytes_exact(size as nat, frame::content_len(flag, true));
    }
}

proof fn lemma_descriptor(content: nat, single: bool, checksum: bool, dictionary: nat)
    requires
        content < 4,
        dictionary < 4,
    ensures
        ({
            let d = frame::descriptor_of(content, single, checksum, dictionary) as nat;
            &&& d / 64 == content
            &&& ((d / 32) % 2 == 1) == single
            &&& (d / 8) % 2 == 0
            &&& ((d / 4) % 2 == 1) == checksum
            &&& d % 4 == dictionary
        }),
{
}

/// A header that declares the content size alone is read back, whatever
/// follows it: the window is the content.
pub proof fn law_single_segment_header_roundtrip(
    content_size: u64,
    checksum: bool,
    dictionary_id: Option<u32>,
    format: Format,
    rest: Seq<u8>,
)
    ensures
        ({
            let bytes = frame::single_segment_header(content_size, checksum, dictionary_id, format);
            frame::frame_header(bytes + rest, format) == Ok::<FrameHeader, Error>(
                FrameHeader::Zstandard(
                    ZstandardFrameHeader {
                        header_size: bytes.len() as usize,
                        window_size: content_size,
                        block_size_max: largest_block(content_size as nat),
                        content_size: Some(content_size),
                        dictionary_id: named_dictionary(dictionary_id),
                        checksum,
                        single_segment: true,
                    },
                ),
            )
        }),
{
    let flag = frame::content_flag(content_size);
    let m = frame::magic_bytes(format);
    let d = frame::descriptor_of(flag, true, checksum, frame::dictionary_flag(dictionary_id));
    let dict = frame::dictionary_field(dictionary_id);
    let content = frame::content_field(content_size, flag);
    let bytes = frame::single_segment_header(content_size, checksum, dictionary_id, format);
    let s = bytes + rest;
    lemma_magic(format, seq![d] + dict + content + rest);
    assert(m + (seq![d] + dict + content + rest) =~= s);
    lemma_dictionary_field(dictionary_id);
    lemma_content_field(content_size, flag);
    lemma_descriptor(flag, true, checksum, frame::dictionary_flag(dictionary_id));
    let at = m.len() as int;
    assert(s[at] == d);
    assert(s.subrange(at + 1, at + 1 + dict.len()) =~= dict);
    assert(s.subrange(at + 1 + dict.len(), at + 1 + dict.len() + content.len()) =~= content);
}

/// A header that declares a window is read back, whatever follows it.
pub proof fn law_windowed_header_roundtrip(
    window: u8,
    checksum: bool,
    dictionary_id: Option<u32>,
    format: Format,
    rest: Seq<u8>,
)
    ensures
        ({
            let bytes = frame::windowed_header(window, checksum, dictionary_id, format);
            frame::frame_header(bytes + rest, format) == Ok::<FrameHeader, Error>(
                FrameHeader::Zstandard(
                    ZstandardFrameHeader {
                        header_size: bytes.len() as usize,
                        window_size: frame::window_of(window) as u64,
                        block_size_max: largest_block(frame::window_of(window)),
                        content_size: None,
                        dictionary_id: named_dictionary(dictionary_id),
                        checksum,
                        single_segment: false,
                    },
                ),
            )
        }),
{
    let m = frame::magic_bytes(format);
    let d = frame::descriptor_of(0, false, checksum, frame::dictionary_flag(dictionary_id));
    let dict = frame::dictionary_field(dictionary_id);
    let bytes = frame::windowed_header(window, checksum, dictionary_id, format);
    let s = bytes + rest;
    lemma_magic(format, seq![d, window] + dict + rest);
    assert(m + (seq![d, window] + dict + rest) =~= s);
    lemma_dictionary_field(dictionary_id);
    lemma_descriptor(0, false, checksum, frame::dictionary_flag(dictionary_id));
    let at = m.len() as int;
    assert(s[at] == d && s[at + 1] == window);
    assert(s.subrange(at + 2, at + 2 + dict.len()) =~= dict);
}

/// A header that declares a window and the content size is read back, whatever
/// follows it.
pub proof fn law_windowed_content_header_roundtrip(
    window: u8,
    content_size: u64,
    checksum: bool,
    dictionary_id: Option<u32>,
    format: Format,
    rest: Seq<u8>,
)
    ensures
        ({
            let bytes = frame::windowed_content_header(
                window,
                content_size,
                checksum,
                dictionary_id,
                format,
            );
            frame::frame_header(bytes + rest, format) == Ok::<FrameHeader, Error>(
                FrameHeader::Zstandard(
                    ZstandardFrameHeader {
                        header_size: bytes.len() as usize,
                        window_size: frame::window_of(window) as u64,
                        block_size_max: largest_block(frame::window_of(window)),
                        content_size: Some(content_size),
                        dictionary_id: named_dictionary(dictionary_id),
                        checksum,
                        single_segment: false,
                    },
                ),
            )
        }),
{
    let flag = frame::windowed_content_flag(content_size);
    let m = frame::magic_bytes(format);
    let d = frame::descriptor_of(flag, false, checksum, frame::dictionary_flag(dictionary_id));
    let dict = frame::dictionary_field(dictionary_id);
    let content = frame::content_field(content_size, flag);
    let bytes = frame::windowed_content_header(
        window,
        content_size,
        checksum,
        dictionary_id,
        format,
    );
    let s = bytes + rest;
    lemma_magic(format, seq![d, window] + dict + content + rest);
    assert(m + (seq![d, window] + dict + content + rest) =~= s);
    lemma_dictionary_field(dictionary_id);
    lemma_content_field(content_size, flag);
    lemma_descriptor(flag, false, checksum, frame::dictionary_flag(dictionary_id));
    let at = m.len() as int;
    assert(s[at] == d && s[at + 1] == window);
    assert(s.subrange(at + 2, at + 2 + dict.len()) =~= dict);
    assert(s.subrange(at + 2 + dict.len(), at + 2 + dict.len() + content.len()) =~= content);
}

/// A skippable frame that was written is recognised, whatever follows it, and
/// measures what it takes up; it decodes to nothing.
pub proof fn law_skippable_frame_roundtrip(magic_variant: u8, payload: Seq<u8>, rest: Seq<u8>)
    requires
        magic_variant < 16,
        payload.len() <= u32::MAX,
    ensures
        ({
            let s = frame::skippable_frame(magic_variant, payload) + rest;
            &&& frame::frame_header(s, Format::Zstd1) == Ok::<FrameHeader, Error>(
                FrameHeader::Skippable(
                    SkippableFrame {
                        header_size: 8,
                        magic_variant,
                        size: payload.len() as u32,
                    },
                ),
            )
            &&& 8 + payload.len() <= usize::MAX ==> frame::frame_size(s, Format::Zstd1) == Ok::<
                FrameSizeInfo,
                Error,
            >(
                FrameSizeInfo {
                    compressed_size: (8 + payload.len()) as usize,
                    decompressed_bound: 0,
                    declared_size: Some(0),
                },
            )
        }),
{
    lemma2_to64();
    let v = (SKIPPABLE_MAGIC_BASE + magic_variant) as nat;
    let a = bits::nat_bytes(v, 4);
    let b = bits::nat_bytes(payload.len(), 4);
    assert(pow2(8 * 4) == 0x1_0000_0000);
    bits::lemma_nat_bytes_exact(v, 4);
    bits::lemma_nat_bytes_exact(payload.len(), 4);
    let s = frame::skippable_frame(magic_variant, payload) + rest;
    assert(s.take(4) =~= a);
    assert(s.subrange(4, 8) =~= b);
}

/// A magicless frame is a standard frame without its first four bytes: the
/// headers differ in their size alone.
pub proof fn law_magicless_header(rest: Seq<u8>)
    ensures
        match frame::frame_header(rest, Format::Zstd1Magicless) {
            Ok(FrameHeader::Zstandard(h)) => frame::frame_header(
                frame::magic_bytes(Format::Zstd1) + rest,
                Format::Zstd1,
            ) == Ok::<FrameHeader, Error>(
                FrameHeader::Zstandard(
                    ZstandardFrameHeader { header_size: (h.header_size + 4) as usize, ..h },
                ),
            ),
            Ok(FrameHeader::Skippable(_)) => false,
            Err(e) => frame::frame_header(
                frame::magic_bytes(Format::Zstd1) + rest,
                Format::Zstd1,
            ) == Err::<FrameHeader, Error>(e),
        },
{
    let m = frame::magic_bytes(Format::Zstd1);
    let s = m + rest;
    lemma_magic(Format::Zstd1, rest);
    if rest.len() > 0 {
        let d = rest[0] as nat;
        assert(s[4] == rest[0]);
        let single = (d / 32) % 2 == 1;
        let dictionary_at = if single {
            1int
        } else {
            2
        };
        let content_at = dictionary_at + frame::dictionary_len(d % 4);
        let end = content_at + frame::content_len(d / 64, single);
        if rest.len() >= end {
            assert(s.subrange(dictionary_at + 4, content_at + 4) =~= rest.subrange(
                dictionary_at,
                content_at,
            ));
            assert(s.subrange(content_at + 4, end + 4) =~= rest.subrange(content_at, end));
            if !single {
                assert(s[5] == rest[1]);
            }
        }
    }
}

// ---------------------------------------------------------------------------
// A frame ends where it ends.

proof fn lemma_header_prefix(src: Seq<u8>, rest: Seq<u8>, format: Format)
    ensures
        frame::frame_header(src, format) is Ok ==> frame::frame_header(src + rest, format)
            == frame::frame_header(src, format),
{
    let s = src + rest;
    if src.len() >= 4 {
        assert(s.take(4) =~= src.take(4));
    }
    if src.len() >= 8 {
        assert(s.subrange(4, 8) =~= src.subrange(4, 8));
    }
    let m = format.magic_len() as int;
    if src.len() > m {
        let d = src[m] as nat;
        let single = (d / 32) % 2 == 1;
        let dictionary_at = m + if single {
            1int
        } else {
            2
        };
        let content_at = dictionary_at + frame::dictionary_len(d % 4);
        let end = content_at + frame::content_len(d / 64, single);
        if src.len() >= end {
            assert(s.subrange(dictionary_at, content_at) =~= src.subrange(
                dictionary_at,
                content_at,
            ));
            assert(s.subrange(content_at, end) =~= src.subrange(content_at, end));
        }
    }
}

proof fn lemma_walk_prefix(src: Seq<u8>, rest: Seq<u8>, pos: nat, blocks: nat)
    ensures
        frame::walk_blocks(src, pos, blocks) is Ok ==> frame::walk_blocks(src + rest, pos, blocks)
            == frame::walk_blocks(src, pos, blocks),
    decreases src.len() - pos,
{
    let s = src + rest;
    if pos <= src.len() && src.len() - pos >= 3 {
        assert(s.skip(pos as int).take(3) =~= src.skip(pos as int).take(3));
        match block::block_header(src.skip(pos as int)) {
            Ok(h) => {
                let next = pos + BLOCK_HEADER_SIZE as nat + h.payload();
                if next <= src.len() && next <= usize::MAX && !h.last_block {
                    lemma_walk_prefix(src, rest, next, blocks + 1);
                }
            },
            Err(_) => {},
        }
    }
}

/// What follows a frame does not change how it measures: a frame that is cut
/// out of a stream by its measured size is the same frame.
pub proof fn law_frame_size_ignores_rest(src: Seq<u8>, rest: Seq<u8>, format: Format)
    ensures
        frame::frame_size(src, format) is Ok ==> frame::frame_size(src + rest, format)
            == frame::frame_size(src, format),
{
    lemma_header_prefix(src, rest, format);
    match frame::frame_header(src, format) {
        Ok(FrameHeader::Zstandard(h)) => {
            lemma_walk_prefix(src, rest, h.header_size as nat, 0);
        },
        _ => {},
    }
}

/// The bound of a stream of frames is the bound of its first part carried on
/// over the rest.
pub proof fn law_bounds_add(a: Seq<u8>, b: Seq<u8>, format: Format, pos: nat, total: nat)
    requires
        pos <= a.len(),
        total <= u64::MAX,
    ensures
        frame::bound_from(a, format, pos, total) matches Ok(x) ==> frame::bound_from(
            a + b,
            format,
            pos,
            total,
        ) == frame::bound_from(a + b, format, a.len(), x as nat),
    decreases a.len() - pos,
{
    if pos < a.len() {
        let s = a.skip(pos as int);
        assert((a + b).skip(pos as int) =~= s + b);
        law_frame_size_ignores_rest(s, b, format);
        frame::lemma_frame_size(s, format);
        let r = frame::frame_size(s, format);
        if r is Ok && total + r->Ok_0.decompressed_bound <= u64::MAX {
            let next = pos + r->Ok_0.compressed_size as nat;
            let more = total + r->Ok_0.decompressed_bound as nat;
            law_bounds_add(a, b, format, next, more);
            assert(frame::bound_from(a, format, pos, total) == frame::bound_from(
                a,
                format,
                next,
                more,
            ));
            assert(frame::bound_from(a + b, format, pos, total) == frame::bound_from(
                a + b,
                format,
                next,
                more,
            ));
        }
    }
}

/// Where every frame declares its size, the bound is the declared size.
pub proof fn law_bound_is_declared_size(src: Seq<u8>, format: Format, pos: nat, total: u64)
    ensures
        frame::declared_from(src, format, pos, Some(total)) matches Ok(Some(d))
            ==> frame::bound_from(src, format, pos, total as nat) == Ok::<u64, Error>(d),
    decreases src.len() - pos,
{
    if pos < src.len() {
        let s = src.skip(pos as int);
        frame::lemma_frame_size(s, format);
        match frame::frame_size(s, format) {
            Ok(info) => {
                let next = pos + info.compressed_size as nat;
                match info.declared_size {
                    Some(d) => {
                        lemma_declared_bound(s, format);
                        if total + d <= u64::MAX {
                            law_bound_is_declared_size(src, format, next, (total + d) as u64);
                        }
                    },
                    None => {
                        lemma_undeclared_stays(src, format, next);
                    },
                }
            },
            Err(_) => {},
        }
    }
}

proof fn lemma_declared_bound(src: Seq<u8>, format: Format)
    ensures
        frame::frame_size(src, format) matches Ok(info) ==> (info.declared_size matches Some(d)
            ==> info.decompressed_bound == d),
{
}

proof fn lemma_undeclared_stays(src: Seq<u8>, format: Format, pos: nat)
    ensures
        frame::declared_from(src, format, pos, None) matches Ok(x) ==> x is None,
    decreases src.len() - pos,
{
    if pos < src.len() {
        let s = src.skip(pos as int);
        frame::lemma_frame_size(s, format);
        match frame::frame_size(s, format) {
            Ok(info) => {
                lemma_undeclared_stays(src, format, pos + info.compressed_size as nat);
            },
            Err(_) => {},
        }
    }
}

/// Headers spend no more bytes than they have to: a dictionary id takes none,
/// one, two or four, and a content size one, two, four or eight, by how large
/// it is. Two bytes hold the sizes from 256 on, and beside a window there is no
/// field of one byte.
pub proof fn law_headers_are_narrow(
    window: u8,
    content_size: u64,
    checksum: bool,
    dictionary_id: Option<u32>,
    format: Format,
)
    ensures
        ({
            let magic = if format == Format::Zstd1 {
                4nat
            } else {
                0
            };
            let id = match dictionary_id {
                None => 0nat,
                Some(v) => if v == 0 {
                    0
                } else if v < 256 {
                    1
                } else if v < 65536 {
                    2
                } else {
                    4
                },
            };
            let wide = if content_size < 256 + 65536 {
                2nat
            } else if content_size < 0x1_0000_0000 {
                4
            } else {
                8
            };
            &&& frame::single_segment_header(content_size, checksum, dictionary_id, format).len()
                == magic + 1 + id + if content_size < 256 {
                1
            } else {
                wide
            }
            &&& frame::windowed_header(window, checksum, dictionary_id, format).len() == magic + 2
                + id
            &&& frame::windowed_content_header(
                window,
                content_size,
                checksum,
                dictionary_id,
                format,
            ).len() == magic + 2 + id + if content_size < 256 {
                4
            } else {
                wide
            }
        }),
{
    lemma_magic(format, Seq::empty());
    lemma_dictionary_field(dictionary_id);
    lemma_content_field(content_size, frame::content_flag(content_size));
    lemma_content_field(content_size, frame::windowed_content_flag(content_size));
}

/// A header starts with the magic number, from its lowest byte on, unless the
/// format leaves it out.
pub proof fn law_headers_start_with_the_magic_number(format: Format)
    ensures
        format == Format::Zstd1 ==> frame::magic_bytes(format) == seq![0x28u8, 0xB5, 0x2F, 0xFD],
        format == Format::Zstd1Magicless ==> frame::magic_bytes(format) == Seq::<u8>::empty(),
{
    reveal_with_fuel(bits::nat_bytes, 5);
    assert(format == Format::Zstd1 ==> frame::magic_bytes(format) =~= seq![
        0x28u8,
        0xB5,
        0x2F,
        0xFD,
    ]);
    assert(format == Format::Zstd1Magicless ==> frame::magic_bytes(format) =~= Seq::<u8>::empty());
}

} // verus!
