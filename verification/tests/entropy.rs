//! Bit streams, words, histograms and the finite-state coder.

use zstandard::entropy::bitstream::{BitCStream, BitDStream, BitDStreamStatus};
use zstandard::entropy::fse::{
    build_ctable, build_dtable, build_rle_ctable, build_rle_dtable, SYMBOLVALUE_MAX,
};
use zstandard::entropy::fse_stream::{
    block_bound, compress_using_ctable, decode_symbol, decompress, decompress_interleaved2,
    end_of_dstate, init_dstate, peek_symbol,
};
use zstandard::entropy::fse_cost::{ctable_bit_cost, ctable_log, ctable_max_symbol_value};
use zstandard::entropy::hist::{count_checked, count_fast, count_parallel, count_simple};
use zstandard::entropy::mem::{
    highbit32, mem_32bits, mem_64bits, read_u32, read_u64, read_usize, size_of_usize, write_usize,
};
use zstandard::entropy::ncount::{ncount_write_bound, read_ncount, write_ncount};
use zstandard::entropy::normalize::{normalize_count, optimal_table_log};
use zstandard::Error;

// ---------------------------------------------------------------------------
// Bit streams.

fn encode(values: &[(u64, u32)]) -> Vec<u8> {
    let mut stream = BitCStream::new(64).unwrap();
    for &(value, nb_bits) in values {
        if stream.bit_pos() + nb_bits >= 64 - 7 {
            stream.flush_bits();
        }
        stream.add_bits(value, nb_bits);
    }
    stream.close()
}

#[test]
fn roundtrips_values_in_reverse_bitstream_order() {
    let values = [
        (0b10, 2),
        (0b111, 3),
        (0x12, 5),
        (0x155, 9),
        (0x1A, 5),
        (0x1F, 5),
        (0x2AA, 10),
        (0x1234, 13),
    ];
    let encoded = encode(&values);
    let mut stream = BitDStream::new(&encoded).unwrap();

    for &(expected, nb_bits) in values.iter().rev() {
        assert_eq!(stream.read_bits(nb_bits), expected);
        assert_ne!(stream.reload(), BitDStreamStatus::Overflow);
    }
}

#[test]
fn rejects_zero_terminated_input() {
    let err = BitDStream::new(&[0]).err().unwrap();
    assert_eq!(err, Error::Corruption("bitstream end marker is zero"));
}

#[test]
fn looking_then_skipping_is_reading() {
    let values = [(0b10101, 5), (0b1111111, 7), (0b1011, 4), (0b1110, 4)];
    let encoded = encode(&values);
    let mut regular = BitDStream::new(&encoded).unwrap();
    let mut fast = BitDStream::new(&encoded).unwrap();

    for &(_, nb_bits) in values.iter().rev() {
        let looked = fast.look_bits(nb_bits);
        fast.skip_bits(nb_bits);
        assert_eq!(regular.read_bits(nb_bits), looked);
        assert_eq!(regular.reload(), fast.reload());
    }
}

#[test]
fn fast_and_regular_reads_match() {
    let values = [(0b10101, 5), (0b1111111, 7), (0b1011, 4), (0b1110, 4)];
    let encoded = encode(&values);
    let mut regular = BitDStream::new(&encoded).unwrap();
    let mut fast = BitDStream::new(&encoded).unwrap();

    for &(_, nb_bits) in values.iter().rev() {
        assert_eq!(regular.read_bits(nb_bits), fast.read_bits_fast(nb_bits));
        assert_eq!(regular.reload(), fast.reload());
    }
}

#[test]
fn a_word_that_can_still_move_is_unfinished() {
    let mut bytes = vec![0u8; 8];
    bytes.push(1);
    let mut stream = BitDStream::new(&bytes).unwrap();
    assert_eq!(stream.reload(), BitDStreamStatus::Unfinished);
    assert_eq!(stream.reload(), BitDStreamStatus::EndOfBuffer);
    assert_eq!(stream.read_bits(40), 0);
    assert_eq!(stream.reload(), BitDStreamStatus::EndOfBuffer);
    assert_eq!(stream.read_bits(24), 0);
    assert_eq!(stream.reload(), BitDStreamStatus::Completed);

    // Sixteen bytes and the mark: the second move reaches the first byte.
    let mut bytes = vec![0xa5u8; 16];
    bytes.push(1);
    let mut stream = BitDStream::new(&bytes).unwrap();
    assert_eq!(stream.reload(), BitDStreamStatus::Unfinished);
    assert_eq!(stream.read_bits(56), 0xa5a5_a5a5_a5a5_a5);
    assert_eq!(stream.reload(), BitDStreamStatus::Unfinished);
    assert_eq!(stream.read_bits(56), 0xa5a5_a5a5_a5a5_a5);
    assert_eq!(stream.reload(), BitDStreamStatus::EndOfBuffer);
    assert_eq!(stream.read_bits(16), 0xa5a5);
    assert!(stream.end_of_stream());
}

#[test]
fn reading_past_the_end_turns_round_in_the_first_word() {
    // One bit is left, two are asked for.
    let mut stream = BitDStream::new(&[0x03]).unwrap();
    assert_eq!(stream.look_bits(2), 0);
    assert_eq!(stream.look_bits_fast(2), 2);
    assert_eq!(stream.read_bits(2), 0);
    assert_eq!(stream.reload(), BitDStreamStatus::Overflow);
    // The next bits come from the top of the word.
    assert_eq!(stream.look_bits(63), 3);
    assert_eq!(stream.look_bits_fast(63), 3);

    let mut stream = BitDStream::new(&[0xc1, 0, 0, 0, 0, 0, 0, 0x9f]).unwrap();
    assert_eq!(stream.read_bits(63), 0x1f00_0000_0000_00c1);
    assert_eq!(stream.reload(), BitDStreamStatus::Completed);
    assert_eq!(stream.look_bits(4), 0x9);
    assert_eq!(stream.read_bits_fast(8), 0x9f);
    assert_eq!(stream.reload(), BitDStreamStatus::Overflow);
}

#[test]
fn an_empty_stream_is_refused_and_a_lone_mark_is_complete() {
    assert_eq!(BitDStream::new(&[]).err().unwrap(), Error::SrcSizeWrong);
    let mut stream = BitDStream::new(&[1]).unwrap();
    assert_eq!(stream.reload(), BitDStreamStatus::Completed);
    assert!(stream.end_of_stream());
}

#[test]
fn reading_past_the_end_overflows() {
    let mut stream = BitDStream::new(&[0b110]).unwrap();
    assert_eq!(stream.read_bits(2), 0b10);
    assert_eq!(stream.reload(), BitDStreamStatus::Completed);
    stream.read_bits(1);
    assert_eq!(stream.reload(), BitDStreamStatus::Overflow);
    assert!(!stream.end_of_stream());
}

#[test]
fn a_full_bit_sink_gives_nothing() {
    assert_eq!(BitCStream::new(8).err().unwrap(), Error::DstSizeTooSmall);
    let mut stream = BitCStream::new(9).unwrap();
    stream.add_bits(0x3f, 6);
    assert_eq!(stream.close(), vec![0x7f]);
    let mut stream = BitCStream::new(9).unwrap();
    stream.add_bits(0xff, 8);
    assert!(stream.close().is_empty());
}

// ---------------------------------------------------------------------------
// Words.

#[test]
fn reports_machine_word_width() {
    assert_eq!(mem_32bits(), size_of_usize() == 4);
    assert_eq!(mem_64bits(), size_of_usize() == 8);
    assert_ne!(mem_32bits(), mem_64bits());
}

#[test]
fn reads_and_writes_little_endian_words() {
    let mut bytes = [0u8; 16];
    let value = 0x1122_3344_5566_7788u64 as usize;
    write_usize(&mut bytes, 2, value);
    assert_eq!(read_usize(&bytes, 2), value);
    bytes[..4].copy_from_slice(&0xA1B2_C3D4u32.to_le_bytes());
    assert_eq!(read_u32(&bytes, 0), 0xA1B2_C3D4);
}

#[test]
fn reads_eight_bytes_little_endian() {
    let bytes = [9u8, 1, 2, 3, 4, 5, 6, 7, 8];
    assert_eq!(read_u64(&bytes, 1), 0x0807_0605_0403_0201);
}

#[test]
fn computes_highbit32() {
    assert_eq!(highbit32(1), 0);
    assert_eq!(highbit32(2), 1);
    assert_eq!(highbit32(3), 1);
    assert_eq!(highbit32(0x8000_0000), 31);
}

// ---------------------------------------------------------------------------
// Histograms.

fn sample(len: usize) -> Vec<u8> {
    let mut out = Vec::with_capacity(len);
    let mut state = 0x1234_5678u32;
    for index in 0..len {
        state ^= state << 13;
        state ^= state >> 17;
        state ^= state << 5;
        let byte = match index & 7 {
            0..=4 => 0,
            5 => b'a',
            6 => b'b',
            _ => (state & 0x0F) as u8,
        };
        out.push(byte);
    }
    out
}

#[test]
fn parallel_count_matches_simple() {
    let src = sample(128 * 1024);
    let fast = count_checked(255, &src).unwrap();
    let simple = count_simple(&src);

    assert_eq!(fast.max_symbol, simple.max_symbol);
    assert_eq!(fast.largest, simple.largest);
    assert_eq!(fast.counts, simple.counts);

    let lanes = count_parallel(&src);
    assert_eq!(lanes.counts, simple.counts);
    assert_eq!(count_fast(&src).counts, simple.counts);
}

#[test]
fn rejects_too_small_max_symbol_value() {
    let src = [0u8, 1, 2, 3, 4, 200];
    let err = count_checked(16, &src).err().unwrap();
    assert_eq!(err, Error::MaxSymbolValueTooSmall);
}

#[test]
fn an_odd_number_of_bytes_is_counted_whole() {
    let src = [7u8, 7, 7, 1, 7, 200, 1];
    for h in [count_simple(&src), count_parallel(&src), count_fast(&src)] {
        assert_eq!(h.counts[7], 4);
        assert_eq!(h.counts[1], 2);
        assert_eq!(h.counts[200], 1);
        assert_eq!(h.counts.iter().sum::<u32>(), 7);
        assert_eq!(h.max_symbol, 200);
        assert_eq!(h.largest, 4);
    }
    let empty = count_fast(&[]);
    assert_eq!((empty.max_symbol, empty.largest), (0, 0));
}

// ---------------------------------------------------------------------------
// Table headers.

#[test]
fn rejects_table_logs_above_the_configured_limit() {
    let mut normalized = vec![0i16; 16];
    let err = read_ncount(&mut normalized, 15, &[0xff, 0, 0, 0], 6)
        .err()
        .unwrap();
    assert_eq!(err, Error::TableLogTooLarge);
}

#[test]
fn rejects_max_symbol_values_past_the_provided_buffer() {
    let mut normalized = vec![0i16; 8];
    let err = read_ncount(&mut normalized, 8, &[0; 4], 6).err().unwrap();
    assert_eq!(err, Error::MaxSymbolValueTooLarge);
}

#[test]
fn rle_dtable_decodes_the_configured_symbol() {
    let dtable = build_rle_dtable(b'Z');

    let mut bit_d = BitDStream::new(&[1]).unwrap();
    let mut state = init_dstate(&mut bit_d, &dtable);
    assert_eq!(peek_symbol(&state, &dtable), b'Z');
    assert_eq!(decode_symbol(&mut state, &mut bit_d, &dtable), b'Z');
    assert!(end_of_dstate(&state));
}

#[test]
fn invalid_short_ncount_returns_an_error() {
    let mut normalized = vec![0i16; SYMBOLVALUE_MAX + 1];
    let err = read_ncount(&mut normalized, 35, &[0], 9).err().unwrap();
    assert_eq!(err, Error::Corruption("invalid FSE ncount"));
}

#[test]
fn ncount_roundtrips_normalized_distributions() {
    let normalized = [
        4, 3, 2, 2, 2, 2, 2, 2, 2, 2, 2, 2, 2, 1, 1, 1, 2, 2, 2, 2, 2, 2, 2, 2, 2, 3, 2, 1, 1, 1, 1,
        1, -1, -1, -1, -1,
    ];
    let bound = ncount_write_bound(35, 6).unwrap();
    let encoded = write_ncount(bound, &normalized, 35, 6).unwrap();

    let mut decoded = vec![0i16; SYMBOLVALUE_MAX + 1];
    let header = read_ncount(&mut decoded, 35, &encoded, 9).unwrap();

    assert_eq!(header.size, encoded.len());
    assert_eq!(header.table_log, 6);
    assert_eq!(header.max_symbol_value, 35);
    assert_eq!(&decoded[..=35], &normalized);
}

#[test]
fn normalize_count_produces_roundtrippable_headers() {
    let counts = [1800u32, 150, 60, 38];
    let mut normalized = vec![0i16; SYMBOLVALUE_MAX + 1];
    let table_log = optimal_table_log(8, 2048, 3);
    normalize_count(&mut normalized, table_log, &counts, 2048, 3, true).unwrap();

    let bound = ncount_write_bound(3, table_log).unwrap();
    let encoded = write_ncount(bound, &normalized, 3, table_log).unwrap();

    let mut decoded = vec![0i16; SYMBOLVALUE_MAX + 1];
    let header = read_ncount(&mut decoded, 3, &encoded, 8).unwrap();

    assert_eq!(header.table_log, table_log);
    assert_eq!(header.max_symbol_value, 3);
    assert_eq!(&decoded[..=3], &normalized[..=3]);
}

#[test]
fn a_distribution_fills_its_table() {
    for (counts, total) in [
        (vec![1800u32, 150, 60, 38], 2048usize),
        (vec![1, 1, 1, 1, 1], 5),
        (vec![90, 1, 1, 1, 1, 1, 1, 1, 1, 1, 1], 100),
    ] {
        for use_low_prob in [false, true] {
            let max = counts.len() as u32 - 1;
            let log = optimal_table_log(9, total, max);
            let mut normalized = vec![0i16; SYMBOLVALUE_MAX + 1];
            let r = normalize_count(&mut normalized, log, &counts, total, max, use_low_prob);
            assert_eq!(r, Ok(log));
            let slots: i32 = normalized.iter().map(|&n| i32::from(n).abs()).sum();
            assert_eq!(slots, 1 << log);
        }
    }
}

#[test]
fn one_symbol_alone_needs_no_distribution() {
    let mut normalized = vec![0i16; SYMBOLVALUE_MAX + 1];
    assert_eq!(
        normalize_count(&mut normalized, 6, &[0, 100], 100, 1, false),
        Ok(0)
    );
}

#[test]
fn normalizing_refuses_what_it_cannot_hold() {
    let mut normalized = vec![0i16; 4];
    assert_eq!(
        normalize_count(&mut normalized, 6, &[1; 8], 8, 7, false),
        Err(Error::MaxSymbolValueTooLarge)
    );
    assert_eq!(
        normalize_count(&mut normalized, 6, &[1, 0], 1, 1, false),
        Err(Error::InvalidParameter(
            "FSE normalization requires at least two symbols"
        ))
    );
    assert_eq!(
        normalize_count(&mut normalized, 10, &[1, 1], 2, 1, false),
        Err(Error::TableLogTooLarge)
    );
}

#[test]
fn table_log_formulas_have_their_values() {
    assert_eq!(optimal_table_log(9, 2048, 3), 8);
    assert_eq!(optimal_table_log(6, 96, 5), 5);
    assert_eq!(ncount_write_bound(35, 6), Ok(30));
    assert_eq!(ncount_write_bound(256, 6), Err(Error::MaxSymbolValueTooLarge));
    assert_eq!(ncount_write_bound(35, 10), Err(Error::TableLogTooLarge));
    assert_eq!(block_bound(256), 270);
}

// ---------------------------------------------------------------------------
// Streams.

fn weight_like_symbols() -> Vec<u8> {
    (0..96)
        .map(|index| match index % 12 {
            0..=4 => 1u8,
            5..=7 => 2u8,
            8..=9 => 3u8,
            10 => 4u8,
            _ => 5u8,
        })
        .collect::<Vec<_>>()
}

#[test]
fn compress_using_ctable_roundtrips_weight_like_symbols() {
    let src = weight_like_symbols();

    let mut counts = [0u32; SYMBOLVALUE_MAX + 1];
    for &symbol in &src {
        counts[symbol as usize] += 1;
    }

    let max_symbol_value = 5u32;
    let table_log = optimal_table_log(6, src.len(), max_symbol_value);
    let mut normalized = vec![0i16; SYMBOLVALUE_MAX + 1];
    normalize_count(
        &mut normalized,
        table_log,
        &counts,
        src.len(),
        max_symbol_value,
        false,
    )
    .unwrap();

    let ctable = build_ctable(&normalized, max_symbol_value, table_log).unwrap();
    let dtable = build_dtable(&normalized, max_symbol_value, table_log).unwrap();

    let compressed = compress_using_ctable(block_bound(src.len()), &src, &ctable).unwrap();
    let written = compressed.len();
    assert!(written > 0, "expected FSE-compressible symbols");

    let decoded = decompress_interleaved2(src.len(), &compressed, &dtable).unwrap();
    assert_eq!(decoded.len(), src.len());
    assert_eq!(decoded, src);

    // The header in front of the stream is all a decoder needs.
    let bound = ncount_write_bound(max_symbol_value, table_log).unwrap();
    let mut block = write_ncount(bound, &normalized, max_symbol_value, table_log).unwrap();
    block.extend_from_slice(&compressed);
    assert_eq!(decompress(src.len(), &block, 255, 6).unwrap(), src);
    assert_eq!(
        decompress(src.len() - 1, &block, 255, 6),
        Err(Error::DstSizeTooSmall)
    );
}

#[test]
fn a_stream_of_foreign_symbols_is_refused() {
    let ct = build_rle_ctable(3);
    assert_eq!(
        compress_using_ctable(100, &[3, 3, 4], &ct),
        Err(Error::Corruption("FSE symbol exceeds compression table"))
    );
    assert_eq!(compress_using_ctable(100, &[3, 3], &ct), Ok(Vec::new()));
}

#[test]
fn counts_that_go_round_more_than_once_leave_the_last_round() {
    let dt = build_dtable(&[32, 32], 1, 5).unwrap();
    assert_eq!(dt.table_log(), 5);
    assert_eq!(dt.entries.len(), 32);
    for (u, entry) in dt.entries.iter().enumerate() {
        assert_eq!(
            (entry.symbol, entry.nb_bits, entry.new_state as usize),
            (1, 0, u)
        );
    }
    let ct = build_ctable(&[32, 32], 1, 5).unwrap();
    assert_eq!(ctable_log(&ct), 5);
    assert!(ct.state_table[..32].iter().all(|&state| state == 0));
    for u in 0..32 {
        assert_eq!(ct.state_table[32 + u] as usize, 32 + u);
    }
    assert!(ct.state_table[64..].iter().all(|&state| state == 0));
    assert_eq!(ct.symbol_tt[0].delta_find_state, -32);
    assert_eq!(ct.symbol_tt[0].delta_nb_bits, 65536 - 64);
    assert_eq!(ct.symbol_tt[1].delta_find_state, 0);

    // One rare symbol, and two rounds over the three other states.
    let dt = build_dtable(&[-1, 3, 3], 2, 2).unwrap();
    let entries: Vec<(u8, u8, u16)> = dt
        .entries
        .iter()
        .map(|e| (e.symbol, e.nb_bits, e.new_state))
        .collect();
    assert_eq!(entries, vec![(2, 1, 2), (2, 0, 0), (2, 0, 1), (0, 2, 0)]);
}

#[test]
fn rare_symbols_may_overfill_a_table_and_nothing_may_be_dealt() {
    // Four states for five symbols: the last one takes the state 0.
    let dt = build_dtable(&[-1; 5], 4, 2).unwrap();
    let entries: Vec<(u8, u8, u16)> = dt
        .entries
        .iter()
        .map(|e| (e.symbol, e.nb_bits, e.new_state))
        .collect();
    assert_eq!(entries, vec![(4, 2, 0), (2, 2, 0), (1, 2, 0), (0, 2, 0)]);
    let ct = build_ctable(&[-1; 5], 4, 2).unwrap();
    assert_eq!(ct.state_table[..5], [7, 6, 5, 0, 4]);
    // A common symbol takes it from them.
    let dt = build_dtable(&[-1, -1, -1, -1, 2], 4, 2).unwrap();
    assert_eq!(dt.entries[0].symbol, 4);
    assert_eq!(dt.entries[0].nb_bits, 1);
    assert_eq!(dt.entries[0].new_state, 0);

    // A lone rare symbol: the other states hold the symbol 0 as well.
    let dt = build_dtable(&[-1], 0, 2).unwrap();
    let entries: Vec<(u8, u8, u16)> = dt
        .entries
        .iter()
        .map(|e| (e.symbol, e.nb_bits, e.new_state))
        .collect();
    assert_eq!(entries, vec![(0, 2, 0), (0, 1, 0), (0, 1, 2), (0, 0, 0)]);
}

#[test]
fn in_eight_states_everything_is_dealt_to_the_first() {
    let dt = build_dtable(&[4, 4], 1, 3).unwrap();
    let entries: Vec<(u8, u8, u16)> = dt
        .entries
        .iter()
        .map(|e| (e.symbol, e.nb_bits, e.new_state))
        .collect();
    assert_eq!(
        entries,
        vec![
            (1, 1, 0),
            (0, 1, 0),
            (0, 1, 2),
            (0, 1, 4),
            (0, 1, 6),
            (0, 0, 0),
            (0, 0, 1),
            (0, 0, 2),
        ]
    );
    let dt = build_dtable(&[2], 0, 1).unwrap();
    assert_eq!(dt.entries[0].new_state, 0);
    assert_eq!(dt.entries[1].new_state, 1);
    assert!(build_ctable(&[4, 4], 1, 3).is_ok());
}

#[test]
fn a_table_of_overlaid_counts_runs_out_of_states() {
    let ct = build_ctable(&[32, 32], 1, 5).unwrap();
    assert_eq!(
        compress_using_ctable(100, &[0, 0, 0], &ct),
        Err(Error::Corruption("FSE compression state exceeds table size"))
    );
    assert_eq!(
        compress_using_ctable(100, &[2, 0, 0, 0], &ct),
        Err(Error::Corruption("FSE compression state exceeds table size"))
    );
    assert_eq!(
        compress_using_ctable(100, &[0, 0, 0, 2], &ct),
        Err(Error::Corruption("FSE symbol exceeds compression table"))
    );
    assert!(compress_using_ctable(100, &[1, 1, 1], &ct).is_ok());
}

#[test]
fn counts_below_minus_one_reach_into_the_fields_above() {
    assert_eq!(write_ncount(64, &[-2, 30], 1, 5), Ok(vec![0xf0, 0x3d]));
    assert_eq!(write_ncount(1, &[-2, 30], 1, 5), Err(Error::DstSizeTooSmall));
    assert_eq!(write_ncount(64, &[-2, 31], 1, 5), Err(Error::Generic));
    assert_eq!(write_ncount(64, &[-2, 29], 1, 5), Err(Error::Generic));
}

#[test]
fn counts_that_do_not_fill_a_table_are_refused() {
    assert_eq!(
        build_dtable(&[16, 15], 1, 5).err().unwrap(),
        Error::Generic
    );
    assert_eq!(
        build_ctable(&[16, 15], 1, 5).err().unwrap(),
        Error::Generic
    );
    assert_eq!(
        build_dtable(&[32], 1, 5).err().unwrap(),
        Error::MaxSymbolValueTooLarge
    );
    assert_eq!(
        build_dtable(&[16, 16], 1, 10).err().unwrap(),
        Error::TableLogTooLarge
    );
}

#[test]
fn tables_report_their_shape_and_costs() {
    let normalized = [16i16, 8, 4, 4];
    let ct = build_ctable(&normalized, 3, 5).unwrap();
    let dt = build_dtable(&normalized, 3, 5).unwrap();
    assert_eq!(ctable_log(&ct), 5);
    assert_eq!(ctable_max_symbol_value(&ct), 3);
    // (8 + 8 + 12) / 32
    assert_eq!(dt.avg_symbol(), 0);
    // Half of the states: one bit. An eighth: three.
    assert_eq!(ctable_bit_cost(&ct, 0, 8), Ok(256));
    assert_eq!(ctable_bit_cost(&ct, 2, 8), Ok(3 * 256));
    assert_eq!(
        ctable_bit_cost(&ct, 4, 8),
        Err(Error::Corruption("FSE symbol exceeds compression table"))
    );
}

#[test]
fn failures_leave_the_counts_alone() {
    let mut counts = vec![7i16; 10];
    assert!(read_ncount(&mut counts, 5, &[0], 9).is_err());
    assert_eq!(counts, vec![7i16; 10]);
    assert!(normalize_count(&mut counts, 6, &[1, 0], 1, 1, false).is_err());
    assert_eq!(counts, vec![7i16; 10]);
    assert_eq!(
        normalize_count(&mut counts, 6, &[0, 0, 50], 50, 2, false),
        Ok(0)
    );
    assert_eq!(counts[..4], [0, 0, 7, 7]);
    assert_eq!(
        decompress(10, &[0; 8], 256, 6),
        Err(Error::MaxSymbolValueTooLarge)
    );
    assert_eq!(decompress(10, &[0; 8], 255, 10), Err(Error::TableLogTooLarge));
}

#[test]
fn two_states_for_every_symbol_are_enough_and_one_may_not_be() {
    let mut counts = vec![1u32; 20];
    counts.extend_from_slice(&[570; 10]);
    counts.extend_from_slice(&[4790, 1510]);
    let total = 12_020;
    let mut normalized = vec![0i16; 32];
    assert_eq!(
        normalize_count(&mut normalized, 5, &counts, total, 31, false),
        Err(Error::Generic)
    );
    assert_eq!(
        normalize_count(&mut normalized, 6, &counts, total, 31, false),
        Ok(6)
    );
    assert_eq!(normalized.iter().sum::<i16>(), 64);
    assert!(normalized.iter().all(|&count| count > 0));
}

#[test]
fn lone_zeros_can_overrun_the_usual_room() {
    let normalized = [
        0i16, -1, 0, -1, 0, -1, 0, 1, 0, 1, 0, -1, 0, 3, 0, -1, 0, 7, 0, -1, 0, 15, 0, -1, 0, 31,
        0, -1, 0, 63, 0, 127,
    ];
    let bound = ncount_write_bound(31, 8).unwrap();
    assert_eq!(
        write_ncount(bound, &normalized, 31, 8),
        Err(Error::DstSizeTooSmall)
    );
    let mut encoded = write_ncount(bound + 1, &normalized, 31, 8).unwrap();
    let size = encoded.len();
    encoded.push(0);
    let mut decoded = vec![0i16; 32];
    let header = read_ncount(&mut decoded, 31, &encoded, 9).unwrap();
    assert_eq!(header.size, size);
    assert_eq!(header.table_log, 8);
    assert_eq!(decoded, normalized);
}

#[test]
fn a_table_may_be_smaller_than_the_alphabet() {
    let mut counts = vec![0u32; 256];
    counts[3] = 30;
    counts[255] = 10;
    let mut normalized = vec![0i16; 256];
    assert_eq!(
        normalize_count(&mut normalized, 5, &counts, 40, 255, true),
        Ok(5)
    );
    assert_eq!((normalized[3], normalized[255]), (24, 8));
    assert_eq!(normalized.iter().filter(|&&count| count != 0).count(), 2);
}

#[test]
fn seven_lone_zeros_fit_the_usual_room() {
    let normalized = [0i16, -1, 0, -1, 0, -1, 0, 1, 0, 1, 0, -1, 0, 250];
    let bound = ncount_write_bound(13, 8).unwrap();
    let encoded = write_ncount(bound, &normalized, 13, 8).unwrap();
    let mut decoded = vec![0i16; 14];
    let header = read_ncount(&mut decoded, 13, &encoded, 9).unwrap();
    assert_eq!(header.size, encoded.len());
    assert_eq!(header.table_log, 8);
    assert_eq!(header.max_symbol_value, 13);
    assert_eq!(decoded, normalized);
}

#[test]
fn a_long_run_of_zeros_at_the_end_needs_a_byte_behind_it() {
    let mut normalized = vec![0i16; 42];
    normalized[0] = 31;
    normalized[41] = 1;
    let bound = ncount_write_bound(41, 5).unwrap();
    let mut encoded = write_ncount(bound, &normalized, 41, 5).unwrap();
    let mut decoded = vec![0i16; 42];
    read_ncount(&mut decoded, 41, &encoded, 9).unwrap();
    assert_eq!(decoded[41], -1);
    encoded.push(0);
    read_ncount(&mut decoded, 41, &encoded, 9).unwrap();
    assert_eq!(decoded, normalized);
}
