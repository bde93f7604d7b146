//! The Huffman coder.

use zstandard::entropy::bitstream::BitCStream;
use zstandard::entropy::huff_build::{build_ctable, TABLELOG_DEFAULT};
use zstandard::entropy::huff_code::{SYMBOLVALUE_MAX, TABLELOG_MAX};
use zstandard::entropy::huff_compress::{
    compress, compress_bound, compress_internal, compress_into,
    compress_prefer_existing_table_into, compress_prefer_existing_table_into_mode,
    compress_with_table, compress_with_table_into, compress_with_table_mode,
    estimate_compressed_size, estimate_literal_section_bytes,
    estimate_literal_section_bytes_with_repeat, looks_incompressible_from_sample,
    optimal_table_log, optimal_table_log_search, Compressibility, StreamMode, TableDepth,
    SUSPECT_INCOMPRESSIBLE_SAMPLE_RATIO, SUSPECT_INCOMPRESSIBLE_SAMPLE_SIZE,
};
use zstandard::entropy::huff_decode::{
    decompress_1x_using_dtable, decompress_4x_using_dtable, decompress_into,
    prefers_double_symbol_decoder, HuffmanDTable,
};
use zstandard::entropy::huff_describe::write_ctable;
use zstandard::entropy::huff_double::{
    build_dtable_x2,
    decompress_1x2_using_dtable, decompress_4x2_using_dtable, DECODER_FAST_TABLELOG,
};
use zstandard::entropy::huff_header::{
    read_ctable_x1, read_ctable_x1_with_repeat_validity, read_dtable_x1, read_dtable_x2,
};
use zstandard::entropy::huff_stream::{
    compress_1x_using_ctable, compress_4x_using_ctable, decompress_1x1_using_dtable,
    decompress_4x1_using_dtable,
};
use zstandard::entropy::huff_table::{build_ctable_from_weights, build_dtable_x1, CTableX1};
use zstandard::Error;

/// Symbols that tie on count get their code lengths from where the sort left
/// them, and the sort is a quicksort: the order it leaves is not the order they
/// were counted in. Fourteen of the sixteen symbols share a bucket, and the
/// three-way tie at 169 is broken by the partitioning.
#[test]
fn tied_symbol_counts_take_upstream_code_lengths() {
    let mut count = [0u32; SYMBOLVALUE_MAX + 1];
    for (symbol, frequency) in [
        (b'0', 172),
        (b'1', 171),
        (b'2', 169),
        (b'3', 173),
        (b'4', 178),
        (b'5', 166),
        (b'6', 176),
        (b'7', 405),
        (b'8', 294),
        (b'9', 170),
        (b'a', 169),
        (b'b', 182),
        (b'c', 169),
        (b'd', 179),
        (b'e', 171),
        (b'f', 175),
    ] {
        count[symbol as usize] = frequency;
    }

    let ctable = build_ctable(&count, b'f' as u32, TABLELOG_DEFAULT as u32).unwrap();

    let lengths: Vec<(u8, u8)> = (b'0'..=b'f')
        .filter(|symbol| count[*symbol as usize] != 0)
        .map(|symbol| (symbol, ctable.symbol_nb_bits(symbol)))
        .collect();
    let expected: Vec<(u8, u8)> = [
        (b'0', 4),
        (b'1', 4),
        (b'2', 4),
        (b'3', 4),
        (b'4', 4),
        (b'5', 5),
        (b'6', 4),
        (b'7', 3),
        (b'8', 4),
        (b'9', 4),
        (b'a', 5),
        (b'b', 4),
        (b'c', 4),
        (b'd', 4),
        (b'e', 4),
        (b'f', 4),
    ]
    .into_iter()
    .collect();
    assert_eq!(lengths, expected);
}

#[test]
fn decompress_special_cases() {
    let dst = decompress_into(8, b"x").unwrap();
    assert_eq!(dst.len(), 8);
    assert_eq!(dst, [b'x'; 8]);

    let src = *b"rawblock";
    let out = decompress_into(8, &src).unwrap();
    assert_eq!(out.len(), 8);
    assert_eq!(out, src);
}

#[test]
fn decompressing_nothing_or_too_much_is_refused() {
    assert_eq!(decompress_into(0, b"abc"), Err(Error::DstSizeTooSmall));
    assert!(decompress_into(4, b"abcde").is_err());
    assert!(decompress_into(4, b"").is_err());
}

#[test]
fn compresses_and_roundtrips_small_alphabet_data() {
    let raw = (0..12_000)
        .map(|index| match index & 0x0f {
            0..=8 => b'A',
            9..=12 => b'B',
            13..=14 => b'C',
            _ => b'D',
        })
        .collect::<Vec<_>>();

    let compressed = compress(&raw)
        .unwrap()
        .expect("small alphabet input should be Huff0-compressible");
    let decoded = decompress_into(raw.len(), &compressed).unwrap();

    assert_eq!(decoded.len(), raw.len());
    assert_eq!(decoded, raw);
}

#[test]
fn sparse_high_symbols_use_fse_compressed_weight_headers() {
    let raw = (0..64 * 1024)
        .map(|index| match index % 16 {
            0..=13 => 0u8,
            14 => 127u8,
            _ => 255u8,
        })
        .collect::<Vec<_>>();

    let compressed = compress(&raw)
        .unwrap()
        .expect("sparse high-symbol input should be Huff0-compressible");
    assert!(
        compressed[0] < 128,
        "expected an FSE-compressed Huffman weight header, got descriptor {}",
        compressed[0]
    );

    let (_, ctable_header_size) = read_ctable_x1(&compressed).unwrap();
    let (_, dtable_header_size) = read_dtable_x1(&compressed).unwrap();
    assert_eq!(ctable_header_size, dtable_header_size);

    let decoded = decompress_into(raw.len(), &compressed).unwrap();
    assert_eq!(decoded.len(), raw.len());
    assert_eq!(decoded, raw);
}

#[test]
fn small_dense_alphabet_keeps_raw_weight_headers() {
    let raw = (0..16_000)
        .map(|index| match index % 8 {
            0..=3 => 0u8,
            4..=5 => 1u8,
            6 => 2u8,
            _ => 3u8,
        })
        .collect::<Vec<_>>();

    let compressed = compress(&raw)
        .unwrap()
        .expect("small dense input should be Huff0-compressible");
    assert!(
        compressed[0] >= 128,
        "expected a raw Huffman weight header, got descriptor {}",
        compressed[0]
    );

    let decoded = decompress_into(raw.len(), &compressed).unwrap();
    assert_eq!(decoded.len(), raw.len());
    assert_eq!(decoded, raw);
}

fn sevenths() -> Vec<u8> {
    (0..16_000)
        .map(|index| match index % 7 {
            0..=3 => b'a',
            4 => b'b',
            5 => b'c',
            _ => b'd',
        })
        .collect::<Vec<_>>()
}

#[test]
fn reuses_a_parsed_huffman_table_for_treeless_compression() {
    let raw = sevenths();

    let compressed = compress(&raw)
        .unwrap()
        .expect("test input should be Huff0-compressible");

    let (ctable, ctable_header_size) = read_ctable_x1(&compressed).unwrap();
    let (dtable, dtable_header_size) = read_dtable_x1(&compressed).unwrap();
    assert_eq!(ctable_header_size, dtable_header_size);

    let treeless = compress_with_table(&raw, &ctable)
        .expect("parsed table should support the same alphabet");
    let dtable = HuffmanDTable::Single(dtable);
    let decoded = decompress_4x_using_dtable(raw.len(), &treeless, &dtable).unwrap();

    assert_eq!(decoded.len(), raw.len());
    assert_eq!(decoded, raw);
}

#[test]
fn prefer_existing_table_compresses_once_with_reused_table() {
    let raw = sevenths();

    let compressed = compress(&raw)
        .unwrap()
        .expect("test input should be Huff0-compressible");
    let (ctable, ctable_header_size) = read_ctable_x1(&compressed).unwrap();
    let (dtable, dtable_header_size) = read_dtable_x1(&compressed).unwrap();
    assert_eq!(ctable_header_size, dtable_header_size);

    let preferred =
        compress_prefer_existing_table_into(compress_bound(raw.len()), &raw, Some(&ctable))
            .unwrap()
            .expect("existing table should remain usable");
    assert!(preferred.reused_table);
    assert_eq!(preferred.table.table_log, ctable.table_log);

    let dtable = HuffmanDTable::Single(dtable);
    let decoded = decompress_4x_using_dtable(raw.len(), &preferred.bytes, &dtable).unwrap();

    assert_eq!(decoded.len(), raw.len());
    assert_eq!(decoded, raw);
}

/// Writes the codes one by one, from the last symbol to the first.
fn compress_1x_reference(capacity: usize, src: &[u8], ctable: &CTableX1) -> Vec<u8> {
    let mut bit_c = BitCStream::new(capacity).unwrap();
    for &symbol in src.iter().rev() {
        let entry = ctable.entries[symbol as usize];
        bit_c.add_bits(u64::from(entry.val), u32::from(entry.nb_bits));
        bit_c.flush_bits();
    }
    bit_c.close()
}

#[test]
fn packed_matches_reference_encoder() {
    // Test with various sizes to exercise remainder paths (0,1,2,3).
    for &extra in &[0, 1, 2, 3] {
        let size = 200 + extra;
        let src: Vec<u8> = (0..size)
            .map(|i| match i % 5 {
                0 => 0,
                1 => 1,
                2 => 2,
                3 => 0,
                _ => 1,
            })
            .collect();

        // Codes of one, two and two bits.
        let ctable = build_ctable_from_weights(&[2, 1, 1], 2);
        let lengths: Vec<u8> = (0..3).map(|s| ctable.symbol_nb_bits(s)).collect();
        assert_eq!(lengths, [1, 2, 2]);

        let reference = compress_1x_reference(src.len() + 64, &src, &ctable);
        let new = compress_1x_using_ctable(src.len() + 64, &src, &ctable);

        assert_eq!(new.len(), reference.len(), "size={size}: length mismatch");
        assert_eq!(new, reference, "size={size}");
    }

    // Larger test with realistic alphabet.
    let src: Vec<u8> = (0..12_000)
        .map(|i| match i & 0x0f {
            0..=8 => b'A',
            9..=12 => b'B',
            13..=14 => b'C',
            _ => b'D',
        })
        .collect();
    // Codes of one, two, three and three bits.
    let mut weights = vec![0u8; b'D' as usize + 1];
    weights[b'A' as usize] = 3;
    weights[b'B' as usize] = 2;
    weights[b'C' as usize] = 1;
    weights[b'D' as usize] = 1;
    let ctable = build_ctable_from_weights(&weights, 3);

    let reference = compress_1x_reference(src.len() + 64, &src, &ctable);
    let new = compress_1x_using_ctable(src.len() + 64, &src, &ctable);

    assert_eq!(new.len(), reference.len(), "large: length mismatch");
    assert_eq!(new, reference, "large");
}

/// A weight table whose weights sum to `1 << 12` gives codes of twelve bits, the
/// most there can be, and needs a table of `1 << TABLELOG_MAX` entries.
#[test]
fn table_log_twelve_fills_the_decode_table_without_overrunning_it() {
    let header = [
        0x9f, 0xa4, 0x00, 0x00, 0x00, 0x00, 0x01, 0x37, 0x00, 0x00, 0x00, 0x01, 0x00, 0x90, 0x60,
        0x28, 0xb5,
    ];

    let (dtable, consumed) = read_dtable_x1(&header).expect("table log 12 is representable");

    assert_eq!(consumed, header.len());
    assert_eq!(dtable.table_log, 12);
    assert_eq!(dtable.entries.len(), 1 << TABLELOG_MAX);
    assert!(
        dtable.entries.iter().all(|entry| entry.nb_bits != 0),
        "every slot of a full table log 12 table should have been written"
    );

    // The same description in the other shape: a table already at the largest
    // depth is the one that is not expanded.
    let (double, consumed) = read_dtable_x2(&header).expect("table log 12 is representable");

    assert_eq!(consumed, header.len());
    assert_eq!(double.table_log, 12);
    assert!(
        double.entries.iter().all(|entry| entry.nb_bits != 0),
        "every slot of a full table log 12 double-symbol table should have been written"
    );
}

/// Outputs of fewer than six bytes cannot be split across four streams.
#[test]
fn four_stream_decode_rejects_outputs_too_small_to_split() {
    // Two symbols of weight 1: a direct-weight header for one explicit weight,
    // with the second implied.
    let (dtable, _) = read_dtable_x1(&[0x80, 0x10]).expect("two-symbol table is valid");
    let dtable = HuffmanDTable::Single(dtable);

    // A jump table declaring three one-byte segments, then four one-byte
    // streams holding nothing but their end marker.
    let src = [0x01, 0x00, 0x01, 0x00, 0x01, 0x00, 0x01, 0x01, 0x01, 0x01];

    let accepted: Vec<usize> = (0..6)
        .filter(|&len| decompress_4x_using_dtable(len, &src, &dtable).is_ok())
        .collect();

    assert!(
        accepted.is_empty(),
        "outputs of {accepted:?} bytes cannot be split across four streams, \
         but were accepted"
    );
}

/// Pseudorandom bytes with no structure a Huffman coder can exploit.
fn incompressible_bytes(len: usize) -> Vec<u8> {
    let mut state = 0x2545_f491_4f6c_dd1du64;
    (0..len)
        .map(|_| {
            state ^= state << 13;
            state ^= state >> 7;
            state ^= state << 17;
            (state >> 33) as u8
        })
        .collect()
}

fn english_like_bytes(len: usize) -> Vec<u8> {
    let phrase = b"the quick brown fox jumps over the lazy dog, and then it does so again. ";
    phrase.iter().copied().cycle().take(len).collect()
}

fn compress_with(src: &[u8], compressibility: Compressibility) -> Option<usize> {
    compress_prefer_existing_table_into_mode(
        compress_bound(src.len()),
        src,
        None,
        StreamMode::Four,
        TableDepth::Estimated,
        compressibility,
    )
    .expect("compression must not error")
    .map(|choice| choice.bytes.len())
}

/// The sample has to reach the same verdict as the full count, or gating on it
/// would trade output for speed.
#[test]
fn sampled_check_agrees_with_the_full_count() {
    let incompressible = incompressible_bytes(64 * 1024);
    assert_eq!(
        compress_with(&incompressible, Compressibility::Unknown),
        None
    );
    assert_eq!(
        compress_with(&incompressible, Compressibility::Suspect),
        None
    );

    let compressible = english_like_bytes(64 * 1024);
    let full = compress_with(&compressible, Compressibility::Unknown)
        .expect("english-like text compresses");
    assert_eq!(
        compress_with(&compressible, Compressibility::Suspect),
        Some(full),
        "the sample must not turn away literals the full count would code"
    );
}

#[test]
fn sampled_check_is_inert_below_ten_samples() {
    let size = SUSPECT_INCOMPRESSIBLE_SAMPLE_SIZE * SUSPECT_INCOMPRESSIBLE_SAMPLE_RATIO;

    let just_under = incompressible_bytes(size - 1);
    assert!(!looks_incompressible_from_sample(&just_under));

    let just_over = incompressible_bytes(size);
    assert!(looks_incompressible_from_sample(&just_over));
}

/// Alphabets that produce Huffman trees of different depths and shapes.
fn alphabets_of_varying_depth() -> Vec<(&'static str, Vec<u8>)> {
    let skewed = (0..40_000u32)
        .map(
            |index| match (index.wrapping_mul(2_654_435_761) >> 24) % 100 {
                0..=74 => b'e',
                75..=89 => b't',
                90..=96 => b'a',
                97..=98 => b'o',
                _ => b'z',
            },
        )
        .collect::<Vec<_>>();
    let two_symbols = (0..20_000u32)
        .map(|index| if index % 7 == 0 { 1u8 } else { 0u8 })
        .collect::<Vec<_>>();
    let full_byte_range = (0..60_000u32)
        .map(|index| {
            let spread = (index.wrapping_mul(2_246_822_519) >> 20) as u8;
            // Bias towards the low half so the tree is unbalanced rather
            // than the flat 8-bit tree a uniform byte stream would give.
            if index % 3 == 0 {
                spread >> 2
            } else {
                spread
            }
        })
        .collect::<Vec<_>>();
    let sparse_high = (0..30_000u32)
        .map(|index| match index % 23 {
            0..=17 => 0u8,
            18..=20 => 128u8,
            21 => 200u8,
            _ => 255u8,
        })
        .collect::<Vec<_>>();

    vec![
        ("skewed five-symbol", skewed),
        ("two symbols", two_symbols),
        ("full byte range", full_byte_range),
        ("sparse high symbols", sparse_high),
    ]
}

/// The two table shapes decode the same bits, so their output must agree byte
/// for byte.
#[test]
fn both_decode_table_shapes_decode_a_stream_identically() {
    for (name, raw) in alphabets_of_varying_depth() {
        let compressed = compress(&raw)
            .unwrap()
            .unwrap_or_else(|| panic!("{name} should be Huff0-compressible"));

        let (single, single_header) = read_dtable_x1(&compressed).unwrap();
        let (double, double_header) = read_dtable_x2(&compressed).unwrap();
        assert_eq!(
            single_header, double_header,
            "{name}: both shapes read the same description"
        );

        let streams = &compressed[single_header..];
        let by_single = decompress_4x1_using_dtable(raw.len(), streams, &single).unwrap();
        let by_double = decompress_4x2_using_dtable(raw.len(), streams, &double).unwrap();

        assert_eq!(by_single, raw, "{name}: single-symbol decode");
        assert_eq!(by_double, raw, "{name}: double-symbol decode");
    }
}

#[test]
fn the_double_symbol_table_decodes_a_single_stream() {
    for (name, raw) in alphabets_of_varying_depth() {
        let compressed = compress(&raw)
            .unwrap()
            .unwrap_or_else(|| panic!("{name} should be Huff0-compressible"));
        let (ctable, header_size) = read_ctable_x1(&compressed).unwrap();

        let single_stream = compress_with_table_mode(&raw, &ctable, StreamMode::Single)
            .unwrap_or_else(|| panic!("{name} should re-encode as one stream"));

        let (double, double_header) = read_dtable_x2(&compressed).unwrap();
        assert_eq!(double_header, header_size);

        let decoded = decompress_1x2_using_dtable(raw.len(), &single_stream, &double).unwrap();
        assert_eq!(decoded, raw, "{name}: single-stream double-symbol decode");
    }
}

/// Most entries of the double-symbol table emit two bytes.
#[test]
fn a_shallow_description_is_expanded_so_entries_hold_symbol_pairs() {
    let raw = (0..40_000u32)
        .map(
            |index| match (index.wrapping_mul(2_654_435_761) >> 25) % 8 {
                0..=4 => b'x',
                5..=6 => b'y',
                _ => b'z',
            },
        )
        .collect::<Vec<_>>();
    let compressed = compress(&raw).unwrap().expect("compressible");

    let (single, _) = read_dtable_x1(&compressed).unwrap();
    let (double, _) = read_dtable_x2(&compressed).unwrap();

    assert!(
        (single.table_log as usize) <= DECODER_FAST_TABLELOG,
        "a three-symbol alphabet should not need the full table depth"
    );
    assert_eq!(
        double.table_log as usize, DECODER_FAST_TABLELOG,
        "a shallow description should be expanded to the fast depth"
    );

    let live = &double.entries[..1 << double.table_log];
    let paired = live.iter().filter(|entry| entry.length == 2).count();
    assert!(
        paired * 2 > live.len(),
        "expected most of the {} entries to emit a pair, got {paired}",
        live.len()
    );
}

/// The values decide throughput only: either shape decodes the same bytes.
#[test]
fn the_decoder_shape_selector_matches_upstreams_cost_model() {
    // 32 KiB at a 9/16 ratio: the wide table wins comfortably.
    assert!(prefers_double_symbol_decoder(32 * 1024, 18 * 1024));
    // The same ratio over 1 KiB: the build cost no longer amortizes.
    assert!(!prefers_double_symbol_decoder(1024, 576));
    // Barely-compressible literals of any size stay on the narrow table.
    assert!(!prefers_double_symbol_decoder(64 * 1024, 64 * 1024));
    // Zero-length output is not a ratio; it must not divide by it.
    assert!(!prefers_double_symbol_decoder(0, 0));
}

#[test]
fn switching_table_shape_replaces_the_stored_table() {
    let raw = (0..24_000u32)
        .map(|index| (index.wrapping_mul(2_654_435_761) >> 28) as u8)
        .collect::<Vec<_>>();
    let compressed = compress(&raw).unwrap().expect("compressible");

    let mut slot = None;
    let header = HuffmanDTable::read_single(&mut slot, &compressed).unwrap();
    assert!(matches!(slot, Some(HuffmanDTable::Single(_))));

    assert_eq!(
        HuffmanDTable::read_double(&mut slot, &compressed).unwrap(),
        header
    );
    assert!(matches!(slot, Some(HuffmanDTable::Double(_))));

    let table = slot.expect("installed");
    let decoded = decompress_4x_using_dtable(raw.len(), &compressed[header..], &table).unwrap();
    assert_eq!(decoded, raw);
}

// ---------------------------------------------------------------------------
// Further cases.

#[test]
fn a_failed_description_empties_the_slot() {
    let mut slot = None;
    HuffmanDTable::read_single(&mut slot, &[0x80, 0x10]).unwrap();
    assert!(slot.is_some());
    assert!(HuffmanDTable::read_double(&mut slot, &[]).is_err());
    assert!(slot.is_none());
}

#[test]
fn codes_by_hand_have_their_lengths_and_bits() {
    // Counts 4, 2, 1, 1: lengths 1, 2, 3, 3.
    let ctable = build_ctable(&[4, 2, 1, 1], 3, 11).unwrap();
    let lengths: Vec<u8> = (0..4).map(|s| ctable.symbol_nb_bits(s)).collect();
    assert_eq!(lengths, [1, 2, 3, 3]);
    assert_eq!(ctable.table_log(), 3);
    // The longest codes come first, in order of their symbols.
    assert_eq!(ctable.entries[2].val, 0);
    assert_eq!(ctable.entries[3].val, 1);
    assert_eq!(ctable.entries[1].val, 1);
    assert_eq!(ctable.entries[0].val, 1);
    // 4 + 2 * 2 + 3 + 3 bits.
    assert_eq!(estimate_compressed_size(&ctable, &[4, 2, 1, 1], 4), 14 / 8);
    assert_eq!(
        build_ctable(&[1; 300], 256, 11).err(),
        Some(Error::MaxSymbolValueTooLarge)
    );
}

#[test]
fn depths_are_limited() {
    // Fibonacci counts give the deepest trees.
    let mut count = vec![1u32, 1];
    while count.len() < 20 {
        let next = count[count.len() - 1] + count[count.len() - 2];
        count.push(next);
    }
    for limit in [5u32, 8, 11] {
        let ctable = build_ctable(&count, 19, limit).unwrap();
        assert_eq!(ctable.table_log(), limit);
        let mut space = 0u32;
        for s in 0..20u8 {
            let bits = u32::from(ctable.symbol_nb_bits(s));
            assert!(bits >= 1 && bits <= limit);
            space += 1 << (limit - bits);
        }
        assert_eq!(space, 1 << limit);
        for s in 1..20u8 {
            assert!(ctable.symbol_nb_bits(s) <= ctable.symbol_nb_bits(s - 1));
        }
    }
}

#[test]
fn limits_above_the_greatest_depth_limit_nothing() {
    let plain = build_ctable(&[4, 2, 1, 1], 3, 11).unwrap();
    let loose = build_ctable(&[4, 2, 1, 1], 3, 40).unwrap();
    assert_eq!(loose.table_log(), 3);
    assert_eq!(loose.entries, plain.entries);
    let mut count = vec![1u32, 1];
    while count.len() < 13 {
        let next = count[count.len() - 1] + count[count.len() - 2];
        count.push(next);
    }
    // Thirteen symbols go down to depth 12, fourteen to depth 13.
    assert_eq!(build_ctable(&count, 12, 13).unwrap().table_log(), 12);
    count.push(count[11] + count[12]);
    assert_eq!(build_ctable(&count, 13, 13).err(), Some(Error::Generic));
    assert_eq!(build_ctable(&count, 13, 20).err(), Some(Error::Generic));
    assert_eq!(build_ctable(&count, 13, 12).unwrap().table_log(), 12);
}

#[test]
fn a_pair_may_start_where_the_bits_end() {
    let single = build_dtable_x1(&[1, 1], 1);
    let double = build_dtable_x2(&[1, 1], 1);
    assert_eq!(
        decompress_1x2_using_dtable(2, &[0b101], &double),
        Ok(vec![0, 1])
    );
    // A last symbol that no bit is left for comes from the top of the word.
    assert_eq!(
        decompress_1x2_using_dtable(3, &[0b101], &double),
        Ok(vec![0, 1, 0])
    );
    assert_eq!(
        decompress_1x1_using_dtable(3, &[0b101], &single),
        Err(Error::Corruption("Huff0 stream did not terminate cleanly"))
    );
    assert_eq!(
        decompress_1x2_using_dtable(4, &[0b101], &double),
        Err(Error::Corruption("Huff0 stream did not terminate cleanly"))
    );
}

#[test]
fn a_written_table_reads_back() {
    for (name, raw) in alphabets_of_varying_depth() {
        let mut count = [0u32; 256];
        for &byte in &raw {
            count[byte as usize] += 1;
        }
        let max = (0..256).rev().find(|&s| count[s] > 0).unwrap() as u32;
        let ctable = build_ctable(&count, max, 11).unwrap();
        let header = write_ctable(400, &ctable, max).unwrap();
        let (back, size, _) = read_ctable_x1_with_repeat_validity(&header).unwrap();
        assert_eq!(size, header.len(), "{name}");
        assert_eq!(back.entries, ctable.entries, "{name}");

        for n in [1usize, 11, 12, 4096] {
            let part = &raw[..n];
            let one = compress_1x_using_ctable(n * 2 + 16, part, &ctable);
            let (single, _) = read_dtable_x1(&header).unwrap();
            assert_eq!(
                decompress_1x1_using_dtable(n, &one, &single).unwrap(),
                part
            );
            let four = compress_4x_using_ctable(n * 2 + 64, part, &ctable);
            assert_eq!(four.is_empty(), n < 12);
            if n >= 12 {
                assert_eq!(
                    decompress_4x1_using_dtable(n, &four, &single).unwrap(),
                    part
                );
            }
            let table = HuffmanDTable::Single(single);
            assert_eq!(decompress_1x_using_dtable(n, &one, &table).unwrap(), part);
        }
    }
}

#[test]
fn depth_formulas_have_their_values() {
    assert_eq!(optimal_table_log(11, 65_536, 255), 11);
    assert_eq!(optimal_table_log(11, 100, 3), 5);
    let mut count = [0u32; 256];
    for (i, c) in [900u32, 50, 25, 25].iter().enumerate() {
        count[i] = *c;
    }
    let log = optimal_table_log_search(11, &count, 3, 1000);
    assert!(log >= 2 && log <= 11);
}

#[test]
fn one_repeated_byte_and_flat_bytes_are_not_coded() {
    assert_eq!(compress(&[7; 100]), Ok(None));
    assert_eq!(compress(&incompressible_bytes(4096)), Ok(None));
    assert_eq!(compress_into(1000, &[]), Ok(None));
    assert_eq!(
        compress(&vec![0u8; 131_073]),
        Err(Error::SrcSizeWrong)
    );
    assert_eq!(compress_bound(1000), 1140);
}

#[test]
fn estimates_follow_the_counts() {
    let raw = sevenths();
    let estimate = estimate_literal_section_bytes(&raw).unwrap();
    let actual = compress(&raw).unwrap().unwrap().len();
    assert!(estimate <= actual + 16 && actual <= estimate + 32);
    let (ctable, _) = read_ctable_x1(&compress(&raw).unwrap().unwrap()).unwrap();
    let with_repeat = estimate_literal_section_bytes_with_repeat(&raw, Some(&ctable)).unwrap();
    assert!(with_repeat <= estimate);
}

#[test]
fn capacities_and_limits_are_kept() {
    let raw = sevenths();
    let whole = compress(&raw).unwrap().unwrap();
    assert_eq!(
        compress_into(compress_bound(raw.len()), &raw),
        Ok(Some(whole.clone()))
    );
    let limited = compress_internal(compress_bound(raw.len()), &raw, 255, 11)
        .unwrap()
        .unwrap();
    assert_eq!(decompress_into(raw.len(), &limited).unwrap(), raw);
    assert_eq!(
        compress_internal(compress_bound(raw.len()), &raw, 50, 11),
        Err(Error::MaxSymbolValueTooSmall)
    );
    let (ctable, _) = read_ctable_x1(&whole).unwrap();
    assert!(compress_with_table_into(16, &raw, &ctable).is_none());
    assert!(compress_with_table_into(raw.len(), &raw, &ctable).is_some());
    // A table that does not know the bytes writes nothing.
    assert!(compress_with_table(&[b'q'; 100], &ctable).is_none());
}

#[test]
fn compressing_a_block_succeeds_and_never_grows() {
    let flat: Vec<u8> = (0..=255u8).cycle().take(4096).collect();
    assert_eq!(compress(&flat), Ok(None));
    let skewed: Vec<u8> = (0..4096u32)
        .map(|i| if i % 3 == 0 { (i % 200) as u8 } else { 7 })
        .collect();
    let compressed = compress(&skewed).unwrap().expect("compressible");
    assert!(compressed.len() + 2 <= skewed.len());
    assert_eq!(compress(&vec![0; 131_073]), Err(Error::SrcSizeWrong));
}

#[test]
fn estimates_without_an_earlier_table_are_those_of_a_fresh_one() {
    for raw in [Vec::new(), vec![9u8; 40], sevenths(), incompressible_bytes(900)] {
        assert_eq!(
            estimate_literal_section_bytes_with_repeat(&raw, None),
            estimate_literal_section_bytes(&raw)
        );
    }
    let raw = sevenths();
    let foreign = build_ctable_from_weights(&[1, 1], 1);
    assert_eq!(
        estimate_literal_section_bytes_with_repeat(&raw, Some(&foreign)),
        estimate_literal_section_bytes(&raw)
    );
}
