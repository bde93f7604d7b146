//! Frame and block headers, and the sink they are written to.

use zstandard::block::{BlockHeader, BlockType};
use zstandard::frame::{
    parse_frame_header, parse_frame_header_with_format, representable_window_size,
    write_single_segment_header, write_single_segment_header_with_dict, write_skippable_frame,
    write_windowed_header, write_windowed_header_with_content_size,
    write_windowed_header_with_dict, Format, FrameHeader,
};
use zstandard::outbuf::OutBuf;
use zstandard::{
    decompress_bound, decompress_bound_with_format, decompressed_size,
    decompressed_size_with_format, find_frame_compressed_size,
    find_frame_compressed_size_with_format, parse_block_header, Error,
};

#[test]
fn windowed_headers_roundtrip() {
    for window_size in [1u64, 1_024, 32_768, 131_072] {
        let mut out = OutBuf::growable(Vec::new());
        write_windowed_header(&mut out, window_size, true).unwrap();
        let encoded = out.into_bytes();

        let FrameHeader::Zstandard(header) = parse_frame_header(&encoded).unwrap() else {
            panic!("unexpected skippable frame");
        };
        assert!(!header.single_segment);
        assert!(header.checksum);
        assert!(header.window_size >= window_size.max(1 << 10));
    }
}

#[test]
fn single_segment_headers_roundtrip() {
    for size in [0u64, 255, 256, 65_791, 65_792, 1 << 32, u64::MAX] {
        for dictionary in [None, Some(7), Some(300), Some(70_000)] {
            for format in [Format::Zstd1, Format::Zstd1Magicless] {
                let mut out = OutBuf::growable(Vec::new());
                write_single_segment_header_with_dict(&mut out, size, false, dictionary, format);
                let encoded = out.into_bytes();
                let FrameHeader::Zstandard(h) =
                    parse_frame_header_with_format(&encoded, format).unwrap()
                else {
                    panic!("unexpected skippable frame");
                };
                assert_eq!(h.content_size, Some(size));
                assert_eq!(h.dictionary_id, dictionary);
                assert_eq!(h.header_size, encoded.len());
                assert!(h.single_segment);
                assert!(!h.checksum);
                assert_eq!(h.window_size, size);
            }
        }
    }
}

#[test]
fn headers_with_a_window_carry_the_rest_too() {
    let mut out = OutBuf::growable(Vec::new());
    write_windowed_header_with_dict(&mut out, 5000, false, Some(9), Format::Zstd1).unwrap();
    let FrameHeader::Zstandard(h) = parse_frame_header(&out.into_bytes()).unwrap() else {
        panic!("unexpected skippable frame");
    };
    assert_eq!(h.dictionary_id, Some(9));
    assert_eq!(h.window_size, 5120);
    assert_eq!(h.content_size, None);

    let mut out = OutBuf::growable(Vec::new());
    write_windowed_header_with_content_size(&mut out, 1 << 20, 777, true, None, Format::Zstd1)
        .unwrap();
    let FrameHeader::Zstandard(h) = parse_frame_header(&out.into_bytes()).unwrap() else {
        panic!("unexpected skippable frame");
    };
    assert_eq!(h.content_size, Some(777));
    assert_eq!(h.window_size, 1 << 20);
    assert!(h.checksum);
}

#[test]
fn windows_are_rounded_up_to_what_a_header_can_say() {
    assert_eq!(representable_window_size(1), Ok(1024));
    assert_eq!(representable_window_size(1025), Ok(1152));
    assert_eq!(representable_window_size(131_071), Ok(131_072));
    assert_eq!(
        representable_window_size(u64::MAX),
        Err(Error::InvalidParameter("window_size is too large"))
    );
}

#[test]
fn unreadable_headers_are_refused() {
    assert_eq!(parse_frame_header(&[]).err(), Some(Error::UnexpectedEof));
    assert_eq!(
        parse_frame_header(&[1, 2, 3, 4, 5]).err(),
        Some(Error::BadMagic(0x0403_0201))
    );
    // The reserved bit of the descriptor.
    assert!(matches!(
        parse_frame_header(&[0x28, 0xb5, 0x2f, 0xfd, 0x08, 0]).err(),
        Some(Error::Corruption(_))
    ));
}

#[test]
fn skippable_frames_are_written_and_found() {
    let bytes = write_skippable_frame(3, b"hello").unwrap();
    let FrameHeader::Skippable(frame) = parse_frame_header(&bytes).unwrap() else {
        panic!("expected a skippable frame");
    };
    assert_eq!(frame.magic_variant, 3);
    assert_eq!(frame.size, 5);
    assert_eq!(frame.header_size, 8);
    assert_eq!(find_frame_compressed_size(&bytes), Ok(13));
    assert_eq!(decompress_bound(&bytes), Ok(0));
    assert_eq!(decompressed_size(&bytes), Ok(Some(0)));
    assert_eq!(
        find_frame_compressed_size(&bytes[..12]),
        Err(Error::UnexpectedEof)
    );
    assert_eq!(
        write_skippable_frame(16, b""),
        Err(Error::InvalidParameter(
            "skippable magic variant must be in 0..16"
        ))
    );
}

/// A frame of one raw block and one repeated byte.
fn small_frame(checksum: bool) -> Vec<u8> {
    let mut out = OutBuf::growable(Vec::new());
    write_single_segment_header(&mut out, 13, checksum);
    BlockHeader {
        last_block: false,
        block_type: BlockType::Raw,
        block_size: 3,
    }
    .write_to(&mut out);
    out.extend_from_slice(b"abc");
    BlockHeader {
        last_block: true,
        block_type: BlockType::Rle,
        block_size: 10,
    }
    .write_to(&mut out);
    out.push(b'z');
    let mut bytes = out.into_bytes();
    if checksum {
        bytes.extend_from_slice(&[1, 2, 3, 4]);
    }
    bytes
}

#[test]
fn frames_are_measured_without_being_decoded() {
    for checksum in [false, true] {
        let frame = small_frame(checksum);
        let mut longer = frame.clone();
        longer.extend_from_slice(b"rest");
        assert_eq!(find_frame_compressed_size(&longer), Ok(frame.len()));
        assert_eq!(decompressed_size(&frame), Ok(Some(13)));
        assert_eq!(decompress_bound(&frame), Ok(13));
        assert_eq!(
            find_frame_compressed_size(&frame[..frame.len() - 1]),
            Err(Error::UnexpectedEof)
        );
        let mut two = frame.clone();
        two.extend_from_slice(&frame);
        assert_eq!(decompressed_size(&two), Ok(Some(26)));
        assert_eq!(
            find_frame_compressed_size_with_format(&frame[4..], Format::Zstd1Magicless),
            Ok(frame.len() - 4)
        );
        assert_eq!(
            decompress_bound_with_format(&frame[4..], Format::Zstd1Magicless),
            Ok(13)
        );
        assert_eq!(
            decompressed_size_with_format(&frame[4..], Format::Zstd1Magicless),
            Ok(Some(13))
        );
    }
    assert_eq!(decompress_bound(&[]), Err(Error::UnexpectedEof));
    assert_eq!(decompressed_size(&[]), Err(Error::UnexpectedEof));
}

#[test]
fn block_headers_roundtrip() {
    for (kind, size) in [
        (BlockType::Raw, 0u32),
        (BlockType::Rle, 131_072),
        (BlockType::Compressed, 77),
    ] {
        let header = BlockHeader {
            last_block: size == 77,
            block_type: kind,
            block_size: size,
        };
        let mut out = OutBuf::growable(Vec::new());
        header.write_to(&mut out);
        assert_eq!(parse_block_header(out.as_slice()), Ok(header));
    }
    assert_eq!(parse_block_header(&[6, 0, 0]), Err(Error::Corruption("reserved block type")));
    assert_eq!(parse_block_header(&[1, 0]), Err(Error::UnexpectedEof));
}

// ---------------------------------------------------------------------------
// The sink.

#[test]
fn fixed_stores_what_fits_and_counts_what_does_not() {
    let mut out = OutBuf::fixed(4);
    out.extend_from_slice(b"ab");
    assert_eq!(out.len(), 2);
    assert!(!out.overflowed());

    // Straddles the end: two bytes land, two are counted and dropped.
    out.extend_from_slice(b"cdef");
    assert_eq!(
        out.len(),
        6,
        "len counts every byte written, not just stored"
    );
    assert!(out.overflowed());
    assert_eq!(out.as_slice(), b"abcd");
}

#[test]
fn rolling_back_past_the_overflow_clears_it() {
    // An encoder may write a block, find a smaller form and roll back. Bytes
    // that were dropped on the way must not condemn what replaces them.
    let mut out = OutBuf::fixed(4);
    out.extend_from_slice(b"abcdefgh");
    assert!(out.overflowed());

    out.truncate(2);
    assert!(
        !out.overflowed(),
        "the discarded bytes are no longer output"
    );
    assert_eq!(out.len(), 2);
    assert_eq!(out.as_slice(), b"ab");

    out.extend_from_slice(b"XY");
    assert_eq!(out.as_slice(), b"abXY");
    assert!(!out.overflowed());
}

#[test]
fn truncating_inside_the_dropped_region_keeps_the_deficit() {
    let mut out = OutBuf::fixed(4);
    out.extend_from_slice(b"abcdefgh");

    // Still two bytes over capacity, so still a failed encode.
    out.truncate(6);
    assert_eq!(out.len(), 6);
    assert!(out.overflowed());
    assert_eq!(out.as_slice(), b"abcd");
}

#[test]
fn write_at_backfills_a_header_and_skips_a_dropped_one() {
    let mut out = OutBuf::fixed(4);
    out.resize(3, 0);
    out.extend_from_slice(b"z");
    out.write_at(0, b"hdr");
    assert_eq!(out.as_slice(), b"hdrz");

    // A header position past the stored region is skipped rather than
    // panicking; the encode has already overflowed.
    out.extend_from_slice(b"payload");
    let past_the_end = 6;
    out.write_at(past_the_end, b"hdr");
    assert!(out.overflowed());
}

#[test]
fn growable_matches_vec_semantics() {
    let mut out = OutBuf::growable(Vec::new());
    out.resize(3, 0);
    out.extend_from_slice(b"payload");
    out.write_at(0, b"hdr");
    out.truncate(5);
    assert!(!out.overflowed());
    assert_eq!(out.as_slice(), b"hdrpa");
}

#[test]
fn headers_with_a_window_declare_every_content_size() {
    for size in [0u64, 5, 255, 256, 65_791, 65_792, 1 << 32, u64::MAX] {
        let mut out = OutBuf::growable(Vec::new());
        let written = write_windowed_header_with_content_size(
            &mut out,
            1024,
            size,
            false,
            None,
            Format::Zstd1,
        );
        assert_eq!(written, Ok(()));
        let encoded = out.into_bytes();
        let FrameHeader::Zstandard(h) = parse_frame_header(&encoded).unwrap() else {
            panic!("unexpected skippable frame");
        };
        assert_eq!(h.content_size, Some(size));
        assert_eq!(h.window_size, 1024);
        assert_eq!(h.header_size, encoded.len());
        assert!(!h.single_segment);
    }
}
