//! Literals sections.

use zstandard::entropy::huff_compress;
use zstandard::entropy::huff_decode::{self, HuffmanDTable};
use zstandard::literals::{
    decode_compressed_literals_header, decode_literals_section, decode_literals_section_into,
    parse_literals_section_layout, CompressedLiteralsHeader, LiteralsState,
};
use zstandard::{Error, BLOCK_SIZE_MAX};

/// Enough literals, compressed well enough, that the cost model prefers the
/// double-symbol table.
///
/// Below roughly 3.6 KiB of literals the wider table never repays its build
/// cost, so a section built from a short body decodes through the
/// single-symbol path no matter what else the test does. Anything asserting
/// on double-symbol behavior has to clear that floor or it is asserting on
/// the other branch.
fn literal_heavy_bytes(len: usize) -> Vec<u8> {
    // Skewed enough to compress, unpredictable enough that the encoder
    // cannot turn it into matches and drop the literals entirely.
    (0..len as u32)
        .map(
            |index| match (index.wrapping_mul(2_654_435_761) >> 24) % 100 {
                0..=59 => b' ',
                60..=79 => b'e',
                80..=89 => b't',
                90..=95 => b'a',
                96..=98 => b'n',
                _ => (index % 251) as u8,
            },
        )
        .collect()
}

/// The shape a literals section decodes through is chosen by a cost model,
/// and both shapes produce the same bytes, so a round-trip test cannot tell
/// which one ran. Without this, the double-symbol decoder could stop being
/// reached at all and every other test would still pass.
#[test]
fn a_large_well_compressed_section_decodes_through_the_double_symbol_table() {
    let literals = literal_heavy_bytes(24 * 1024);
    let compressed = huff_compress::compress(&literals)
        .unwrap()
        .expect("literal-heavy bytes should be Huff0-compressible");

    let mut section = encode_compressed_literals_header(2, 3, literals.len(), compressed.len());
    section.extend_from_slice(&compressed);

    let mut state = LiteralsState::default();
    let (decoded, _) =
        decode_literals_section(&section, &mut state, BLOCK_SIZE_MAX).unwrap();

    assert_eq!(decoded, literals);
    assert!(
        matches!(state.huffman_table, Some(HuffmanDTable::Double(_))),
        "a {} byte section compressed to {} should select the double-symbol table",
        literals.len(),
        compressed.len()
    );
}

/// Why the single-stream branch of the shape choice cannot be observed.
///
/// The only size format that encodes a single stream carries a 10-bit
/// regenerated size, and a section that small never repays the wider table.
#[test]
fn the_format_caps_a_single_stream_section_below_the_double_symbol_threshold() {
    let largest_single_stream = 0x03ff;
    let header = encode_compressed_literals_header(2, 0, largest_single_stream, 1);
    let parsed = decode_compressed_literals_header(&header, 0).unwrap();
    assert!(!parsed.four_streams);
    assert_eq!(parsed.regenerated_size, largest_single_stream);

    // Best possible ratio, so nothing larger could tip the model either.
    assert!(!huff_decode::prefers_double_symbol_decoder(
        largest_single_stream,
        1
    ));
}

#[test]
fn parses_compressed_literals_headers() {
    let header0 = encode_compressed_literals_header(2, 0, 511, 700);
    assert_eq!(
        decode_compressed_literals_header(&header0, 0).unwrap(),
        CompressedLiteralsHeader {
            header_size: 3,
            regenerated_size: 511,
            compressed_size: 700,
            four_streams: false,
        }
    );

    let header1 = encode_compressed_literals_header(2, 1, 700, 900);
    assert_eq!(
        decode_compressed_literals_header(&header1, 1).unwrap(),
        CompressedLiteralsHeader {
            header_size: 3,
            regenerated_size: 700,
            compressed_size: 900,
            four_streams: true,
        }
    );

    let header2 = encode_compressed_literals_header(2, 2, 9_000, 12_345);
    assert_eq!(
        decode_compressed_literals_header(&header2, 2).unwrap(),
        CompressedLiteralsHeader {
            header_size: 4,
            regenerated_size: 9_000,
            compressed_size: 12_345,
            four_streams: true,
        }
    );

    let header3 = encode_compressed_literals_header(2, 3, 200_000, 123_456);
    assert_eq!(
        decode_compressed_literals_header(&header3, 3).unwrap(),
        CompressedLiteralsHeader {
            header_size: 5,
            regenerated_size: 200_000,
            compressed_size: 123_456,
            four_streams: true,
        }
    );
}

#[test]
fn treeless_literals_require_a_previous_table() {
    let src = {
        let mut bytes = encode_compressed_literals_header(3, 0, 0, 1);
        bytes.push(1);
        bytes
    };

    let err =
        decode_literals_section(&src, &mut LiteralsState::default(), 128 * 1024).err().unwrap();
    assert_eq!(
        err,
        Error::Corruption("treeless literals require a prior Huff0 table")
    );
}

fn encode_compressed_literals_header(
    block_type: u8,
    size_format: u8,
    regenerated_size: usize,
    compressed_size: usize,
) -> Vec<u8> {
    let low_bits = u64::from(block_type) | (u64::from(size_format) << 2);
    let (header_size, value) = match size_format {
        0 | 1 => (
            3,
            low_bits | ((regenerated_size as u64) << 4) | ((compressed_size as u64) << 14),
        ),
        2 => (
            4,
            low_bits | ((regenerated_size as u64) << 4) | ((compressed_size as u64) << 18),
        ),
        3 => (
            5,
            low_bits | ((regenerated_size as u64) << 4) | ((compressed_size as u64) << 22),
        ),
        _ => unreachable!(),
    };
    let mut out = vec![0u8; header_size];
    for (index, byte) in out.iter_mut().enumerate() {
        *byte = ((value >> (index * 8)) & 0xff) as u8;
    }
    out
}

#[test]
fn stored_and_repeated_literals_decode() {
    let mut state = LiteralsState::default();
    // Five stored literals.
    let raw = [5 << 3, b'h', b'e', b'l', b'l', b'o', 99];
    assert_eq!(
        decode_literals_section(&raw, &mut state, 100),
        Ok((b"hello".to_vec(), 6))
    );
    // Three hundred times one byte, with the two-byte header.
    let value: u32 = 1 | (1 << 2) | (300 << 4);
    let rle = [value as u8, (value >> 8) as u8, b'z'];
    let (decoded, used) = decode_literals_section(&rle, &mut state, 1000).unwrap();
    assert_eq!(used, 3);
    assert_eq!(decoded, vec![b'z'; 300]);
    assert!(state.huffman_table.is_none());

    let mut scratch = vec![1, 2, 3];
    assert_eq!(
        decode_literals_section_into(&raw, &mut state, 100, &mut scratch),
        Ok(6)
    );
    assert_eq!(scratch, b"hello");

    assert_eq!(
        decode_literals_section(&raw, &mut state, 4),
        Err(Error::Corruption(
            "literals section exceeds the frame block size limit"
        ))
    );
    assert_eq!(
        decode_literals_section(&raw[..3], &mut state, 100),
        Err(Error::UnexpectedEof)
    );
    assert_eq!(
        decode_literals_section(&[], &mut state, 100),
        Err(Error::UnexpectedEof)
    );
}

#[test]
fn a_kept_table_decodes_the_next_section() {
    let literals = literal_heavy_bytes(2000);
    let compressed = huff_compress::compress(&literals).unwrap().unwrap();
    let mut first = encode_compressed_literals_header(2, 2, literals.len(), compressed.len());
    first.extend_from_slice(&compressed);
    let mut state = LiteralsState::default();
    assert_eq!(
        decode_literals_section(&first, &mut state, BLOCK_SIZE_MAX),
        Ok((literals.clone(), first.len()))
    );
    let layout = parse_literals_section_layout(&first).unwrap();
    assert_eq!(layout.header_size, 4);
    assert_eq!(layout.section_size, first.len());
    assert_eq!(layout.regenerated_size, literals.len());

    let (ctable, _) = zstandard::entropy::huff_header::read_ctable_x1(&compressed).unwrap();
    let streams = huff_compress::compress_with_table(&literals, &ctable).unwrap();
    let mut second = encode_compressed_literals_header(3, 2, literals.len(), streams.len());
    second.extend_from_slice(&streams);
    assert_eq!(
        decode_literals_section(&second, &mut state, BLOCK_SIZE_MAX),
        Ok((literals, second.len()))
    );
}
