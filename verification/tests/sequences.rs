//! Sequence sections: reading, writing and executing them.

use zstandard::block::{parse_block_header, BlockHeader, BlockType};
use zstandard::decode_out::DecodeOut;
use zstandard::entropy::bitstream::BitCStream;
use zstandard::frame::{parse_frame_header, write_single_segment_header, FrameHeader};
use zstandard::literals::{decode_literals_section, LiteralsState};
use zstandard::outbuf::OutBuf;
use zstandard::sequence::choice::{
    ParserStrategy, SequenceEncodingPartState, SequenceEncodingTable, SequenceRepeatMode,
};
use zstandard::sequence::decode::{
    decode_sequence_commands, decode_sequence_commands_into_stats,
};
use zstandard::sequence::codes::estimate_sequence_bit_cost;
use zstandard::sequence::encode::{
    build_selected_table_choice, build_sequence_part_choice, repeat_mode_for_normalized_counts,
};
use zstandard::sequence::estimate::{
    build_literal_offset_table, estimate_literal_cost_bytes, estimate_subblock_cost_bits,
};
use zstandard::sequence::execute::{append_match, execute_sequences};
use zstandard::sequence::fused::{decode_and_execute_sequences, OutputLimit};
use zstandard::sequence::repeat::{
    reconcile_subblock_repcodes, RepeatOffsets, SequenceCommand,
};
use zstandard::sequence::section::{
    encode_sequence_count, encoded_sequence_count_size, parse_sequence_count,
    parse_sequence_section, SequenceTablesState,
};
use zstandard::sequence::stats::analyze_codes;
use zstandard::sequence::tables::{
    CompressionMode, SequenceCompressionModes, SequencePart, TableTarget,
};
use zstandard::sequence::write::{
    build_sequences_statistics, encode_prepared_sequence_section, encode_sequence_section,
    encode_sequence_section_direct, encode_sequence_section_with_state,
    encode_sequence_section_with_strategy,
    prepare_sequence_encode_scratch, SequenceEncodeScratch, SequenceEncodingState,
};
use zstandard::Error;

#[test]
fn parses_zero_sequence_sections_without_touching_table_state() {
    let mut tables = SequenceTablesState::default();
    let parsed = parse_sequence_section(&[0], &mut tables, TableTarget::Both).unwrap();

    assert_eq!(parsed.number_of_sequences, 0);
    assert_eq!(parsed.header_size, 1);
    assert!(parsed.bitstream.is_empty());
    assert!(parsed.modes.is_none());
}

#[test]
fn rejects_reserved_mode_bits() {
    let mut tables = SequenceTablesState::default();
    let err =
        parse_sequence_section(&[1, 0x01, 1], &mut tables, TableTarget::Both).err().unwrap();
    assert_eq!(
        err,
        Error::Corruption("sequence compression modes reserved bits are set")
    );
}

#[test]
fn rejects_repeat_mode_without_previous_tables() {
    let mut tables = SequenceTablesState::default();
    let err = parse_sequence_section(&[1, 0b1111_1100, 1], &mut tables, TableTarget::Both)
        .err().unwrap();
    assert_eq!(
        err,
        Error::Corruption("sequence repeat mode requires a previous FSE table")
    );
}

#[test]
fn parses_predefined_sequence_tables_and_bitstream() {
    let mut tables = SequenceTablesState::default();
    let parsed = parse_sequence_section(
        &[1, 0b0000_0000, 0, 0, 0, 0, 1],
        &mut tables,
        TableTarget::Both,
    )
    .unwrap();

    assert_eq!(parsed.number_of_sequences, 1);
    assert_eq!(parsed.header_size, 2);
    assert_eq!(parsed.bitstream, &[0, 0, 0, 0, 1]);
    assert_eq!(
        parsed.modes,
        Some(SequenceCompressionModes {
            literal_lengths: CompressionMode::Predefined,
            offsets: CompressionMode::Predefined,
            match_lengths: CompressionMode::Predefined,
        })
    );
}

#[test]
fn repeat_mode_reuses_the_previous_tables() {
    let mut tables = SequenceTablesState::default();
    parse_sequence_section(
        &[1, 0b0000_0000, 0, 0, 0, 0, 1],
        &mut tables,
        TableTarget::Both,
    )
    .unwrap();
    let parsed = parse_sequence_section(
        &[1, 0b1111_1100, 0, 0, 0, 0, 1],
        &mut tables,
        TableTarget::Both,
    )
    .unwrap();

    assert_eq!(parsed.number_of_sequences, 1);
    assert_eq!(parsed.header_size, 2);
}

#[test]
fn parses_rle_modes() {
    let mut tables = SequenceTablesState::default();
    let parsed = parse_sequence_section(
        &[1, 0b0101_0100, 7, 0, 4, 1],
        &mut tables,
        TableTarget::Both,
    )
    .unwrap();

    assert_eq!(parsed.number_of_sequences, 1);
    assert_eq!(parsed.header_size, 5);
    assert_eq!(parsed.bitstream, &[1]);
}

#[test]
fn decodes_single_rle_sequence_command() {
    let mut tables = SequenceTablesState::default();
    let parsed = parse_sequence_section(
        &[1, 0b0101_0100, 7, 0, 4, 1],
        &mut tables,
        TableTarget::Both,
    )
    .unwrap();
    let sequences = decode_sequence_commands(&parsed, &tables).unwrap();

    assert_eq!(
        sequences,
        vec![SequenceCommand {
            literal_length: 7,
            offset_value: 1,
            match_length: 7,
        }]
    );
}

#[test]
fn decodes_two_rle_sequences() {
    let mut tables = SequenceTablesState::default();
    let parsed = parse_sequence_section(
        &[2, 0b0101_0100, 7, 0, 4, 1],
        &mut tables,
        TableTarget::Both,
    )
    .unwrap();
    let sequences = decode_sequence_commands(&parsed, &tables).unwrap();

    assert_eq!(sequences.len(), 2);
    assert_eq!(sequences[0].literal_length, 7);
    assert_eq!(sequences[1].match_length, 7);
}

#[test]
fn decodes_predefined_initial_states() {
    let mut tables = SequenceTablesState::default();
    let bitstream = encode_reverse_bits(&[(0, 6), (0, 5), (0, 6)]);
    let mut section = vec![1, 0b0000_0000];
    section.extend_from_slice(&bitstream);
    let parsed = parse_sequence_section(&section, &mut tables, TableTarget::Both).unwrap();
    let sequences = decode_sequence_commands(&parsed, &tables).unwrap();

    assert_eq!(sequences.len(), 1);
}

#[test]
fn rejects_leftover_bits_after_sequence_decode() {
    let mut tables = SequenceTablesState::default();
    let parsed = parse_sequence_section(
        &[1, 0b0101_0100, 7, 0, 4, 0b0000_0011],
        &mut tables,
        TableTarget::Both,
    )
    .unwrap();
    let err = decode_sequence_commands(&parsed, &tables).err().unwrap();

    assert_eq!(
        err,
        Error::Corruption("sequence bitstream was not fully consumed")
    );
}

#[test]
fn repeat_offsets_follow_the_spec_update_rules() {
    let mut repeat_offsets = RepeatOffsets::default();
    let cases = [
        (
            SequenceCommand {
                literal_length: 11,
                offset_value: 1114,
                match_length: 3,
            },
            1111,
            [1111, 1, 4],
        ),
        (
            SequenceCommand {
                literal_length: 22,
                offset_value: 1,
                match_length: 3,
            },
            1111,
            [1111, 1, 4],
        ),
        (
            SequenceCommand {
                literal_length: 22,
                offset_value: 2225,
                match_length: 3,
            },
            2222,
            [2222, 1111, 1],
        ),
        (
            SequenceCommand {
                literal_length: 111,
                offset_value: 1114,
                match_length: 3,
            },
            1111,
            [1111, 2222, 1111],
        ),
        (
            SequenceCommand {
                literal_length: 33,
                offset_value: 3336,
                match_length: 3,
            },
            3333,
            [3333, 1111, 2222],
        ),
        (
            SequenceCommand {
                literal_length: 22,
                offset_value: 2,
                match_length: 3,
            },
            1111,
            [1111, 3333, 2222],
        ),
        (
            SequenceCommand {
                literal_length: 33,
                offset_value: 3,
                match_length: 3,
            },
            2222,
            [2222, 1111, 3333],
        ),
        (
            SequenceCommand {
                literal_length: 0,
                offset_value: 3,
                match_length: 3,
            },
            2221,
            [2221, 2222, 1111],
        ),
        (
            SequenceCommand {
                literal_length: 0,
                offset_value: 1,
                match_length: 3,
            },
            2222,
            [2222, 2221, 1111],
        ),
    ];

    for (sequence, expected_offset, expected_state) in cases {
        let actual_offset = repeat_offsets.resolve(&sequence).unwrap();
        assert_eq!(actual_offset, expected_offset);
        assert_eq!(repeat_offsets.values(), expected_state);
    }
}

#[test]
fn encodes_offset_values_following_the_spec() {
    let mut repeat_offsets = RepeatOffsets::from_values([1111, 2222, 3333]);
    let cases = [
        (1111, 12, 1, [1111, 2222, 3333]),
        (2222, 0, 1, [2222, 1111, 3333]),
        (2221, 0, 3, [2221, 2222, 1111]),
        (3333, 5, 3336, [3333, 2221, 2222]),
        (4444, 7, 4447, [4444, 3333, 2221]),
    ];

    for (raw_offset, literal_length, expected, expected_state) in cases {
        let actual = repeat_offsets
            .encode_offset_value(raw_offset, literal_length)
            .unwrap();
        assert_eq!(actual, expected);
        assert_eq!(repeat_offsets.values(), expected_state);
    }
}

#[test]
fn rejects_repeat_offset_one_minus_one_when_it_reaches_zero() {
    let mut repeat_offsets = RepeatOffsets::default();
    let err = repeat_offsets
        .resolve(&SequenceCommand {
            literal_length: 0,
            offset_value: 3,
            match_length: 3,
        })
        .err().unwrap();

    assert_eq!(err, Error::Corruption("repeat offset 1 minus 1 is zero"));
}

#[test]
fn resolves_zero_literal_rep2_like_generic_offset_value_one() {
    let mut generic = RepeatOffsets::from_values([1111, 2222, 3333]);
    let raw_offset = generic
        .resolve(&SequenceCommand {
            literal_length: 0,
            offset_value: 1,
            match_length: 3,
        })
        .unwrap();
    assert_eq!(raw_offset, 2222);
    assert_eq!(generic.values(), [2222, 1111, 3333]);

    let mut specialized = RepeatOffsets::from_values([1111, 2222, 3333]);
    let specialized_raw = specialized.resolve_zero_literal_rep2().unwrap();
    assert_eq!(specialized_raw, raw_offset);
    assert_eq!(specialized.values(), generic.values());
}

#[test]
fn executes_sequences_with_overlap_and_last_literals() {
    let mut repeat_offsets = RepeatOffsets::default();
    let mut out = DecodeOut::growable(Vec::new());
    let sequences = [
        SequenceCommand {
            literal_length: 1,
            offset_value: 4,
            match_length: 5,
        },
        SequenceCommand {
            literal_length: 2,
            offset_value: 1,
            match_length: 4,
        },
    ];

    execute_sequences(
        &mut out,
        0,
        128 * 1024,
        128 * 1024,
        None,
        b"abc",
        &sequences,
        &mut repeat_offsets,
        None,
    )
    .unwrap();

    assert_eq!(out.as_slice(), b"aaaaaabccccc");
    assert_eq!(repeat_offsets.values(), [1, 1, 4]);
}

#[test]
fn rejects_sequence_offsets_outside_the_available_window() {
    let mut repeat_offsets = RepeatOffsets::default();
    let mut out = DecodeOut::growable(b"abcdef".to_vec());
    let err = execute_sequences(
        &mut out,
        0,
        4,
        128 * 1024,
        None,
        b"",
        &[SequenceCommand {
            literal_length: 0,
            offset_value: 10,
            match_length: 3,
        }],
        &mut repeat_offsets,
        None,
    )
    .err().unwrap();

    assert_eq!(
        err,
        Error::Corruption("sequence offset exceeds the available history window")
    );
}

#[test]
fn executes_dictionary_matches_across_the_prefix_boundary() {
    let mut repeat_offsets = RepeatOffsets::default();
    let mut out = DecodeOut::growable(b"abc".to_vec());

    execute_sequences(
        &mut out,
        0,
        128 * 1024,
        128 * 1024,
        Some(b"XY"),
        b"",
        &[SequenceCommand {
            literal_length: 0,
            offset_value: 8,
            match_length: 9,
        }],
        &mut repeat_offsets,
        None,
    )
    .unwrap();

    assert_eq!(out.as_slice(), b"abcXYabcXYab");
}

#[test]
fn executes_dictionary_only_overlap_matches() {
    let mut repeat_offsets = RepeatOffsets::default();
    let mut out = DecodeOut::growable(Vec::new());

    execute_sequences(
        &mut out,
        0,
        128 * 1024,
        128 * 1024,
        Some(b"wxyz"),
        b"",
        &[SequenceCommand {
            literal_length: 0,
            offset_value: 5,
            match_length: 6,
        }],
        &mut repeat_offsets,
        None,
    )
    .unwrap();

    assert_eq!(out.as_slice(), b"yzyzyz");
}

#[test]
fn encodes_predefined_sequence_sections_roundtrip() {
    let sequences = vec![
        SequenceCommand {
            literal_length: 3,
            offset_value: 7,
            match_length: 11,
        },
        SequenceCommand {
            literal_length: 0,
            offset_value: 1,
            match_length: 7,
        },
        SequenceCommand {
            literal_length: 5,
            offset_value: 10,
            match_length: 4,
        },
    ];

    let encoded = encode_sequence_section(&sequences).unwrap();
    let mut tables = SequenceTablesState::default();
    let parsed = parse_sequence_section(&encoded, &mut tables, TableTarget::Both).unwrap();
    let decoded = decode_sequence_commands(&parsed, &tables).unwrap();

    assert_eq!(decoded, sequences);
}

#[test]
fn encodes_planned_sequence_sections_roundtrip() {
    let input = build_repeated_chunk_pattern(24_000);
    let (sequences, literals) = plan_sequences(&input);
    let encoded = encode_sequence_section(&sequences).unwrap();
    let mut tables = SequenceTablesState::default();
    let parsed = parse_sequence_section(&encoded, &mut tables, TableTarget::Both).unwrap();
    let decoded = decode_sequence_commands(&parsed, &tables).unwrap();

    assert_eq!(decoded, sequences);
    assert_eq!(executed(&decoded, &literals), input);
}

#[test]
fn encodes_pseudorandom_planned_sequence_sections_roundtrip() {
    let input = build_pattern(32_000);
    let (sequences, literals) = plan_sequences(&input);
    let encoded = encode_sequence_section(&sequences).unwrap();
    let mut tables = SequenceTablesState::default();
    let parsed = parse_sequence_section(&encoded, &mut tables, TableTarget::Both).unwrap();
    let decoded = decode_sequence_commands(&parsed, &tables).unwrap();

    assert_eq!(decoded, sequences);
    assert_eq!(executed(&decoded, &literals), input);
}

#[test]
fn encodes_large_sequence_counts_roundtrip() {
    let encoded = encode_sequence_count(500).unwrap();
    assert_eq!(parse_sequence_count(&encoded).unwrap(), (500, 2));
}

#[test]
fn encodes_custom_fse_tables_for_skewed_sequences() {
    let sequences = build_skewed_sequence_commands(2048);
    let (encoded, next_state) =
        encode_sequence_section_with_state(&sequences, &SequenceEncodingState::default())
            .unwrap();

    let mut tables = SequenceTablesState::default();
    let parsed = parse_sequence_section(&encoded, &mut tables, TableTarget::Both).unwrap();
    let decoded = decode_sequence_commands(&parsed, &tables).unwrap();

    assert_eq!(decoded, sequences);
    let modes = parsed.modes.unwrap();
    assert!(
        [modes.literal_lengths, modes.offsets, modes.match_lengths]
            .into_iter()
            .any(|mode| mode == CompressionMode::FseCompressed),
        "expected at least one custom FSE table mode, got {modes:?}"
    );
    assert!(next_state.entry(SequencePart::LiteralLength).is_some());
    assert!(next_state.entry(SequencePart::Offset).is_some());
    assert!(next_state.entry(SequencePart::MatchLength).is_some());
}

#[test]
fn fast_strategy_prefers_predefined_tables_for_small_sequence_sections() {
    let sequences = build_skewed_sequence_commands(32);
    let (encoded, _) = encode_sequence_section_with_strategy(
        &sequences,
        &SequenceEncodingState::default(),
        ParserStrategy::Fast,
    )
    .unwrap();

    let mut tables = SequenceTablesState::default();
    let parsed = parse_sequence_section(&encoded, &mut tables, TableTarget::Both).unwrap();
    let decoded = decode_sequence_commands(&parsed, &tables).unwrap();

    assert_eq!(decoded, sequences);
    assert_eq!(
        parsed.modes.unwrap(),
        SequenceCompressionModes {
            literal_lengths: CompressionMode::Predefined,
            offsets: CompressionMode::Predefined,
            match_lengths: CompressionMode::Predefined,
        }
    );
}

#[test]
fn fast_strategy_does_not_auto_repeat_tables_in_check_mode() {
    let seed_sequences = build_skewed_sequence_commands(2048);
    let (_, state_after_first) = encode_sequence_section_with_strategy(
        &seed_sequences,
        &SequenceEncodingState::default(),
        ParserStrategy::Fast,
    )
    .unwrap();
    assert!(
        state_after_first
            .entry(SequencePart::LiteralLength)
            .is_some()
            || state_after_first.entry(SequencePart::Offset).is_some()
            || state_after_first.entry(SequencePart::MatchLength).is_some()
    );

    let sequences = build_skewed_sequence_commands(256);
    let (encoded, _) = encode_sequence_section_with_strategy(
        &sequences,
        &state_after_first,
        ParserStrategy::Fast,
    )
    .unwrap();

    let mut tables = SequenceTablesState::default();
    let seed_encoded = encode_sequence_section_with_strategy(
        &seed_sequences,
        &SequenceEncodingState::default(),
        ParserStrategy::Fast,
    )
    .unwrap()
    .0;
    parse_sequence_section(&seed_encoded, &mut tables, TableTarget::Both).unwrap();

    let parsed = parse_sequence_section(&encoded, &mut tables, TableTarget::Both).unwrap();
    let decoded = decode_sequence_commands(&parsed, &tables).unwrap();

    assert_eq!(decoded, sequences);
    let modes = parsed.modes.unwrap();
    assert!(
        [modes.literal_lengths, modes.offsets, modes.match_lengths]
            .into_iter()
            .all(|mode| mode != CompressionMode::Repeat),
        "expected fast strategy to avoid repeat mode when prior tables are only in check mode, got {modes:?}"
    );
}

#[test]
fn fast_strategy_reuses_valid_tables_for_small_repeated_sections() {
    let seed_sequences = build_skewed_sequence_commands(2048);
    let (seed_encoded, mut state_after_first) = encode_sequence_section_with_strategy(
        &seed_sequences,
        &SequenceEncodingState::default(),
        ParserStrategy::Fast,
    )
    .unwrap();
    for entry in [
        state_after_first.literal_lengths.as_mut(),
        state_after_first.offsets.as_mut(),
        state_after_first.match_lengths.as_mut(),
    ]
    .into_iter()
    .flatten()
    {
        entry.repeat_mode = SequenceRepeatMode::Valid;
    }

    let sequences = build_skewed_sequence_commands(256);
    let (encoded, _) = encode_sequence_section_with_strategy(
        &sequences,
        &state_after_first,
        ParserStrategy::Fast,
    )
    .unwrap();

    let mut tables = SequenceTablesState::default();
    parse_sequence_section(&seed_encoded, &mut tables, TableTarget::Both).unwrap();

    let parsed = parse_sequence_section(&encoded, &mut tables, TableTarget::Both).unwrap();
    let decoded = decode_sequence_commands(&parsed, &tables).unwrap();

    assert_eq!(decoded, sequences);
    let modes = parsed.modes.unwrap();
    assert!(
        [modes.literal_lengths, modes.offsets, modes.match_lengths]
            .into_iter()
            .any(|mode| mode == CompressionMode::Repeat),
        "expected fast strategy to reuse a valid previous table, got {modes:?}"
    );
}

#[test]
fn repeat_cost_rejects_tables_with_zero_probability_symbols() {
    let previous_codes = [0u8, 1, 0, 1, 0, 1, 0, 1];
    let previous_stats = analyze_codes(&previous_codes);
    let previous_choice = build_selected_table_choice(
        SequencePart::LiteralLength,
        &previous_codes,
        None,
        &previous_stats,
        CompressionMode::FseCompressed,
    )
    .unwrap();
    let previous = SequenceEncodingPartState {
        table: previous_choice.encoding,
        repeat_mode: SequenceRepeatMode::Check,
    };

    let codes = [0u8, 1, 2, 0, 1, 2, 0, 1];
    let stats = analyze_codes(&codes);
    let choice = build_sequence_part_choice(
        SequencePart::LiteralLength,
        &codes,
        Some(&previous),
        ParserStrategy::Lazy,
        &stats,
    )
    .unwrap();

    assert_ne!(choice.mode, CompressionMode::Repeat);
}

#[test]
fn build_sequences_statistics_tracks_header_order_and_last_count_size() {
    let sequences = build_skewed_sequence_commands(2048);
    let mut scratch = SequenceEncodeScratch::default();
    prepare_sequence_encode_scratch(&sequences, &mut scratch).unwrap();

    let build = build_sequences_statistics(
        &scratch,
        &SequenceEncodingState::default(),
        ParserStrategy::Lazy,
    )
    .unwrap();

    let expected_last_count_size = if build.match_choice.mode == CompressionMode::FseCompressed
    {
        build.match_choice.header.len()
    } else if build.offset_choice.mode == CompressionMode::FseCompressed {
        build.offset_choice.header.len()
    } else if build.literal_choice.mode == CompressionMode::FseCompressed {
        build.literal_choice.header.len()
    } else {
        0
    };

    assert_eq!(
        build.stats.header_size,
        encoded_sequence_count_size(scratch.encoded.len())
            + 1
            + build.literal_choice.header.len()
            + build.offset_choice.header.len()
            + build.match_choice.header.len()
    );
    assert_eq!(build.stats.last_count_size, expected_last_count_size);
    assert_eq!(
        build.stats.modes,
        Some(SequenceCompressionModes {
            literal_lengths: build.literal_choice.mode,
            offsets: build.offset_choice.mode,
            match_lengths: build.match_choice.mode,
        })
    );
}

#[test]
fn build_sequences_statistics_reuses_seeded_valid_tables_on_the_first_block() {
    let seed_sequences = build_skewed_sequence_commands(2048);
    let mut seed_scratch = SequenceEncodeScratch::default();
    prepare_sequence_encode_scratch(&seed_sequences, &mut seed_scratch).unwrap();
    let mut seeded_state = encode_prepared_sequence_section(
        &SequenceEncodingState::default(),
        ParserStrategy::Fast,
        &seed_scratch,
    )
    .unwrap()
    .1;
    for entry in [
        seeded_state.literal_lengths.as_mut(),
        seeded_state.offsets.as_mut(),
        seeded_state.match_lengths.as_mut(),
    ]
    .into_iter()
    .flatten()
    {
        entry.repeat_mode = SequenceRepeatMode::Valid;
    }

    let sequences = build_skewed_sequence_commands(256);
    let mut scratch = SequenceEncodeScratch::default();
    prepare_sequence_encode_scratch(&sequences, &mut scratch).unwrap();
    let build =
        build_sequences_statistics(&scratch, &seeded_state, ParserStrategy::Fast).unwrap();

    let modes = build.stats.modes.unwrap();
    assert!(
        [modes.literal_lengths, modes.offsets, modes.match_lengths]
            .into_iter()
            .any(|mode| mode == CompressionMode::Repeat),
        "expected seeded valid tables to trigger repeat-mode reuse, got {modes:?}"
    );
}

#[test]
fn reusable_sequence_workspace_matches_one_shot_encoding() {
    let first_sequences = build_skewed_sequence_commands(2048);
    let second_sequences = build_skewed_sequence_commands(257);
    let mut encode_scratch = SequenceEncodeScratch::default();

    let (expected_first, expected_first_state) = encode_sequence_section_with_strategy(
        &first_sequences,
        &SequenceEncodingState::default(),
        ParserStrategy::DoubleFast,
    )
    .unwrap();
    prepare_sequence_encode_scratch(&first_sequences, &mut encode_scratch).unwrap();
    let (actual_first, actual_first_state, _) = encode_prepared_sequence_section(
        &SequenceEncodingState::default(),
        ParserStrategy::DoubleFast,
        &encode_scratch,
    )
    .unwrap();
    assert_eq!(actual_first, expected_first);
    assert_eq!(
        actual_first_state
            .entry(SequencePart::LiteralLength)
            .is_some(),
        expected_first_state
            .entry(SequencePart::LiteralLength)
            .is_some()
    );
    assert_eq!(
        actual_first_state.entry(SequencePart::Offset).is_some(),
        expected_first_state.entry(SequencePart::Offset).is_some()
    );
    assert_eq!(
        actual_first_state
            .entry(SequencePart::MatchLength)
            .is_some(),
        expected_first_state
            .entry(SequencePart::MatchLength)
            .is_some()
    );

    let (expected_second, expected_second_state) = encode_sequence_section_with_strategy(
        &second_sequences,
        &expected_first_state,
        ParserStrategy::DoubleFast,
    )
    .unwrap();
    prepare_sequence_encode_scratch(&second_sequences, &mut encode_scratch).unwrap();
    let (actual_second, actual_second_state, _) = encode_prepared_sequence_section(
        &actual_first_state,
        ParserStrategy::DoubleFast,
        &encode_scratch,
    )
    .unwrap();
    assert_eq!(actual_second, expected_second);
    assert_eq!(
        actual_second_state
            .entry(SequencePart::LiteralLength)
            .is_some(),
        expected_second_state
            .entry(SequencePart::LiteralLength)
            .is_some()
    );
    assert_eq!(
        actual_second_state.entry(SequencePart::Offset).is_some(),
        expected_second_state.entry(SequencePart::Offset).is_some()
    );
    assert_eq!(
        actual_second_state
            .entry(SequencePart::MatchLength)
            .is_some(),
        expected_second_state
            .entry(SequencePart::MatchLength)
            .is_some()
    );
}

#[test]
fn repeated_dynamic_distributions_keep_using_dynamic_sequence_tables() {
    let sequences = build_skewed_sequence_commands(2048);
    let (_, state_after_first) =
        encode_sequence_section_with_state(&sequences, &SequenceEncodingState::default())
            .unwrap();
    let (encoded, _) =
        encode_sequence_section_with_state(&sequences, &state_after_first).unwrap();

    let mut tables = SequenceTablesState::default();
    let first_encoded =
        encode_sequence_section_with_state(&sequences, &SequenceEncodingState::default())
            .unwrap()
            .0;
    parse_sequence_section(&first_encoded, &mut tables, TableTarget::Both).unwrap();

    let parsed = parse_sequence_section(&encoded, &mut tables, TableTarget::Both).unwrap();
    let decoded = decode_sequence_commands(&parsed, &tables).unwrap();

    assert_eq!(decoded, sequences);
    let modes = parsed.modes.unwrap();
    assert!(
        [modes.literal_lengths, modes.offsets, modes.match_lengths]
            .into_iter()
            .any(|mode| matches!(
                mode,
                CompressionMode::Repeat | CompressionMode::FseCompressed
            )),
        "expected the repeated distribution to keep at least one dynamic FSE mode, got {modes:?}"
    );
}

#[test]
fn decodes_frames_with_repeated_sequence_tables_across_blocks() {
    let (literals, sequences, block_output) = build_repeat_friendly_block(256);
    let (first_section, state_after_first) =
        encode_sequence_section_with_state(&sequences, &SequenceEncodingState::default())
            .unwrap();
    let (second_section, _) =
        encode_sequence_section_with_state(&sequences, &state_after_first).unwrap();

    let mut tables = SequenceTablesState::default();
    let first_modes = parse_sequence_section(&first_section, &mut tables, TableTarget::Both)
        .unwrap()
        .modes
        .unwrap();
    let second_modes = parse_sequence_section(&second_section, &mut tables, TableTarget::Both)
        .unwrap()
        .modes
        .unwrap();
    assert!(
        [
            first_modes.literal_lengths,
            first_modes.offsets,
            first_modes.match_lengths
        ]
        .into_iter()
        .any(|mode| { matches!(mode, CompressionMode::Rle | CompressionMode::FseCompressed) }),
        "expected the first block to seed a reusable table, got {first_modes:?}"
    );
    assert!(
        [
            second_modes.literal_lengths,
            second_modes.offsets,
            second_modes.match_lengths
        ]
        .into_iter()
        .any(|mode| mode == CompressionMode::Repeat),
        "expected the second block to reuse a previous table, got {second_modes:?}"
    );

    let literals_section = raw_literals_section(&literals);
    let mut first_payload = literals_section.clone();
    first_payload.extend_from_slice(&first_section);
    let mut second_payload = literals_section;
    second_payload.extend_from_slice(&second_section);

    let mut frame = OutBuf::growable(Vec::new());
    write_single_segment_header(&mut frame, (block_output.len() * 2) as u64, false);
    BlockHeader {
        last_block: false,
        block_type: BlockType::Compressed,
        block_size: first_payload.len() as u32,
    }
    .write_to(&mut frame);
    frame.extend_from_slice(&first_payload);
    BlockHeader {
        last_block: true,
        block_type: BlockType::Compressed,
        block_size: second_payload.len() as u32,
    }
    .write_to(&mut frame);
    frame.extend_from_slice(&second_payload);

    let decoded = decode_blocks(frame.as_slice());
    let mut expected = block_output.clone();
    expected.extend_from_slice(&block_output);
    assert_eq!(decoded, expected);
}

/// Decodes a frame of compressed blocks.
fn decode_blocks(frame: &[u8]) -> Vec<u8> {
    let FrameHeader::Zstandard(header) = parse_frame_header(frame).unwrap() else {
        panic!("unexpected skippable frame");
    };
    let mut literals_state = LiteralsState::default();
    let mut tables = SequenceTablesState::default();
    let mut repeat_offsets = RepeatOffsets::default();
    let mut out = DecodeOut::growable(Vec::new());
    let mut at = header.header_size;
    loop {
        let block = parse_block_header(&frame[at..]).unwrap();
        at += 3;
        let payload = &frame[at..at + block.payload_size()];
        at += payload.len();
        let (literals, used) =
            decode_literals_section(payload, &mut literals_state, 128 * 1024).unwrap();
        let section =
            parse_sequence_section(&payload[used..], &mut tables, TableTarget::SequenceOnly)
                .unwrap();
        decode_and_execute_sequences(
            &section,
            &mut tables,
            &mut out,
            0,
            header.window_size as usize,
            128 * 1024,
            None,
            &literals,
            &mut repeat_offsets,
            OutputLimit::whole_output(None),
        )
        .unwrap();
        if block.last_block {
            assert_eq!(at, frame.len());
            return out.into_bytes();
        }
    }
}

fn encode_reverse_bits(values: &[(u64, u32)]) -> Vec<u8> {
    let mut stream = BitCStream::new(64).unwrap();
    for &(value, nb_bits) in values {
        if stream.bit_pos() + nb_bits >= 64 - 7 {
            stream.flush_bits();
        }
        stream.add_bits(value, nb_bits);
    }
    stream.close()
}

fn build_skewed_sequence_commands(count: usize) -> Vec<SequenceCommand> {
    (0..count)
        .map(|index| SequenceCommand {
            literal_length: if index % 31 == 0 {
                96
            } else if index % 7 == 0 {
                12
            } else {
                0
            },
            offset_value: if index % 53 == 0 {
                1024
            } else if index % 9 == 0 {
                17
            } else {
                1
            },
            match_length: if index % 41 == 0 {
                35
            } else if index % 5 == 0 {
                7
            } else {
                3
            },
        })
        .collect()
}

fn build_repeat_friendly_block(count: usize) -> (Vec<u8>, Vec<SequenceCommand>, Vec<u8>) {
    let mut literals = Vec::new();
    let mut sequences = Vec::new();
    let mut repeat_offsets = RepeatOffsets::default();
    let mut prng = 0x1234_5678u32;

    for index in 0..count {
        let literal_length = if index == 0 {
            1024
        } else if index % 31 == 0 {
            96
        } else if index % 7 == 0 {
            12
        } else {
            1
        };
        let match_length = if index % 41 == 0 {
            35
        } else if index % 5 == 0 {
            7
        } else {
            3
        };
        let raw_offset = if index == 0 || index % 53 == 0 {
            1024
        } else if index % 9 == 0 {
            17
        } else {
            1024
        };

        for _ in 0..literal_length {
            prng ^= prng << 13;
            prng ^= prng >> 17;
            prng ^= prng << 5;
            literals.push(b'A' + (prng & 0x0f) as u8);
        }

        let offset_value = repeat_offsets
            .encode_offset_value(raw_offset, literal_length as u32)
            .unwrap();
        sequences.push(SequenceCommand {
            literal_length: literal_length as u32,
            offset_value,
            match_length: match_length as u32,
        });
    }

    let mut output = DecodeOut::growable(Vec::new());
    let mut decode_repeat_offsets = RepeatOffsets::default();
    execute_sequences(
        &mut output,
        0,
        128 * 1024,
        128 * 1024,
        None,
        &literals,
        &sequences,
        &mut decode_repeat_offsets,
        None,
    )
    .unwrap();

    (literals, sequences, output.into_bytes())
}

fn raw_literals_section(literals: &[u8]) -> Vec<u8> {
    let mut payload = Vec::with_capacity(3 + literals.len());
    if literals.len() <= 31 {
        payload.push((literals.len() as u8) << 3);
    } else if literals.len() <= 0x0fff {
        let value = (1u32 << 2) | ((literals.len() as u32) << 4);
        payload.extend_from_slice(&[(value & 0xff) as u8, ((value >> 8) & 0xff) as u8]);
    } else {
        let value = (3u32 << 2) | ((literals.len() as u32) << 4);
        payload.extend_from_slice(&[
            (value & 0xff) as u8,
            ((value >> 8) & 0xff) as u8,
            ((value >> 16) & 0xff) as u8,
        ]);
    }
    payload.extend_from_slice(literals);
    payload
}

/// Splits an input into sequences greedily, taking the nearest earlier place
/// where the next eight bytes stood, and the literals between the matches.
fn plan_sequences(input: &[u8]) -> (Vec<SequenceCommand>, Vec<u8>) {
    let mut repeat_offsets = RepeatOffsets::default();
    let mut seen = std::collections::HashMap::new();
    let mut sequences = Vec::new();
    let mut literals = Vec::new();
    let mut run = 0usize;
    let mut at = 0usize;
    while at < input.len() {
        let candidate = if at + 8 <= input.len() {
            seen.insert(&input[at..at + 8], at)
        } else {
            None
        };
        match candidate {
            Some(start) => {
                let length = (at..input.len())
                    .take_while(|&i| input[i] == input[start + (i - at)])
                    .count()
                    .min(60_000);
                let offset_value = repeat_offsets
                    .encode_offset_value((at - start) as u32, run as u32)
                    .unwrap();
                sequences.push(SequenceCommand {
                    literal_length: run as u32,
                    offset_value,
                    match_length: length as u32,
                });
                run = 0;
                at += length;
            }
            None => {
                literals.push(input[at]);
                run += 1;
                at += 1;
            }
        }
    }
    (sequences, literals)
}

/// What sequences and literals stand for.
fn executed(sequences: &[SequenceCommand], literals: &[u8]) -> Vec<u8> {
    let mut out = DecodeOut::growable(Vec::new());
    execute_sequences(
        &mut out,
        0,
        128 * 1024,
        128 * 1024,
        None,
        literals,
        sequences,
        &mut RepeatOffsets::default(),
        None,
    )
    .unwrap();
    out.into_bytes()
}

fn build_repeated_chunk_pattern(size: usize) -> Vec<u8> {
    const CHUNK: &[u8] = b"zstd-rs-window-repcode-pattern-0123456789ABCDEF";

    let mut out = Vec::with_capacity(size);
    while out.len() < size {
        let remaining = size - out.len();
        let take = remaining.min(CHUNK.len());
        out.extend_from_slice(&CHUNK[..take]);
    }
    out
}

fn build_pattern(size: usize) -> Vec<u8> {
    (0..size)
        .map(|index| ((index * 31) as u8).wrapping_add((index >> 7) as u8))
        .collect()
}

// ---------------------------------------------------------------------------
// Further cases.

#[test]
fn one_pass_gives_what_decoding_and_executing_gives() {
    let (literals, sequences, output) = build_repeat_friendly_block(300);
    for strategy in [
        ParserStrategy::Fast,
        ParserStrategy::Lazy,
        ParserStrategy::BtUltra2,
    ] {
        let (section, _) = encode_sequence_section_with_strategy(
            &sequences,
            &SequenceEncodingState::default(),
            strategy,
        )
        .unwrap();
        let mut tables = SequenceTablesState::default();
        let parsed = parse_sequence_section(&section, &mut tables, TableTarget::Both).unwrap();
        let mut out = DecodeOut::growable(Vec::new());
        decode_and_execute_sequences(
            &parsed,
            &mut tables,
            &mut out,
            0,
            128 * 1024,
            128 * 1024,
            None,
            &literals,
            &mut RepeatOffsets::default(),
            OutputLimit::whole_output(None),
        )
        .unwrap();
        assert_eq!(out.as_slice(), output);

        let refused = decode_and_execute_sequences(
            &parsed,
            &mut tables,
            &mut DecodeOut::growable(Vec::new()),
            0,
            128 * 1024,
            128 * 1024,
            None,
            &literals,
            &mut RepeatOffsets::default(),
            OutputLimit::whole_output(Some(output.len() - 1)),
        );
        assert!(matches!(refused, Err(Error::OutputSizeTooLarge { .. })));
        let refused = decode_and_execute_sequences(
            &parsed,
            &mut tables,
            &mut DecodeOut::fixed(output.len() - 1),
            0,
            128 * 1024,
            128 * 1024,
            None,
            &literals,
            &mut RepeatOffsets::default(),
            OutputLimit::whole_output(None),
        );
        assert_eq!(refused, Err(Error::DstSizeTooSmall));
    }
}

#[test]
fn sequence_counts_use_the_shortest_form() {
    for (count, bytes) in [
        (0usize, vec![0u8]),
        (127, vec![127]),
        (128, vec![128, 128]),
        (0x7eff, vec![0xfe, 0xff]),
        (0x7f00, vec![0xff, 0, 0]),
        (0x17eff, vec![0xff, 0xff, 0xff]),
    ] {
        let encoded = encode_sequence_count(count).unwrap();
        assert_eq!(encoded.len(), encoded_sequence_count_size(count));
        assert_eq!(parse_sequence_count(&encoded), Ok((count, encoded.len())));
        if count < 0x17eff {
            assert_eq!(encoded, bytes);
        }
    }
    assert!(encode_sequence_count(0x17f00).is_err());
    assert_eq!(parse_sequence_count(&[]), Err(Error::UnexpectedEof));
    assert_eq!(parse_sequence_count(&[200]), Err(Error::UnexpectedEof));
}

#[test]
fn an_empty_section_is_one_zero() {
    assert_eq!(encode_sequence_section(&[]), Ok(vec![0]));
}

#[test]
fn unwritable_sequences_are_refused() {
    for (literal_length, offset_value, match_length) in [(0, 0, 3), (0, 1, 2), (0, 1, 0)] {
        assert!(encode_sequence_section(&[SequenceCommand {
            literal_length,
            offset_value,
            match_length,
        }])
        .is_err());
    }
}

fn command(literal_length: u32, offset_value: u32, match_length: u32) -> SequenceCommand {
    SequenceCommand {
        literal_length,
        offset_value,
        match_length,
    }
}

#[test]
fn a_section_is_written_behind_what_is_there() {
    let sequences = build_skewed_sequence_commands(700);
    let mut scratch = SequenceEncodeScratch::default();
    prepare_sequence_encode_scratch(&sequences, &mut scratch).unwrap();
    let state = SequenceEncodingState::default();
    let mut out = OutBuf::growable(b"head".to_vec());
    let (_, stats) =
        encode_sequence_section_direct(&mut out, &state, ParserStrategy::Lazy, &scratch).unwrap();
    let (bytes, _, other) =
        encode_prepared_sequence_section(&state, ParserStrategy::Lazy, &scratch).unwrap();
    assert_eq!(&out.as_slice()[..4], b"head");
    assert_eq!(&out.as_slice()[4..], bytes);
    assert_eq!(stats, other);
    assert_eq!(stats.header_size + stats.bitstream_size, bytes.len());
}

#[test]
fn coding_stops_at_the_first_sequence_without_codes() {
    let mut scratch = SequenceEncodeScratch::default();
    let refused = prepare_sequence_encode_scratch(
        &[command(1, 1, 3), command(0, 1, 2), command(1, 1, 3)],
        &mut scratch,
    );
    assert_eq!(
        refused,
        Err(Error::InvalidParameter(
            "match length must be at least 3 bytes"
        ))
    );
    assert_eq!(scratch.encoded.len(), 1);
}

#[test]
fn match_lengths_are_summed_and_errors_leave_nothing() {
    let mut tables = SequenceTablesState::default();
    let mut list = vec![command(9, 9, 9)];
    let section = [2, 0b0101_0100, 7, 0, 4, 1];
    let parsed = parse_sequence_section(&section, &mut tables, TableTarget::Both).unwrap();
    let stats = decode_sequence_commands_into_stats(&parsed, &tables, &mut list).unwrap();
    assert_eq!(stats.total_match_bytes, 14);
    assert_eq!(list, vec![command(7, 1, 7), command(7, 1, 7)]);
    let section = [1, 0b0101_0100, 7, 0, 4, 3];
    let parsed = parse_sequence_section(&section, &mut tables, TableTarget::Both).unwrap();
    assert!(decode_sequence_commands_into_stats(&parsed, &tables, &mut list).is_err());
    assert!(list.is_empty());
}

#[test]
fn a_failed_header_keeps_the_tables_read_before_the_failure() {
    let mut tables = SequenceTablesState::default();
    // The literal lengths' table is there, the offsets' code is too large.
    let refused = parse_sequence_section(&[1, 0b0101_0100, 7, 99, 4, 1], &mut tables, TableTarget::Both);
    assert!(refused.is_err());
    assert!(tables.literal_lengths.plain.is_some());
    assert!(tables.offsets.plain.is_none());
    assert!(tables.match_lengths.plain.is_none());
}

#[test]
fn repeat_offsets_are_reconciled_after_a_block_was_dropped() {
    // The decoder never saw the offset that the encoder remembers first.
    let mut sequences = vec![command(4, 1, 5), command(4, 1, 5)];
    let mut offset_codes = vec![0u8, 0];
    let mut decoder = RepeatOffsets::from_values([1, 4, 8]);
    let mut encoder = RepeatOffsets::from_values([100, 1, 4]);
    reconcile_subblock_repcodes(
        &mut sequences,
        &mut offset_codes,
        &mut decoder,
        &mut encoder,
    );
    let mut reading = RepeatOffsets::from_values([1, 4, 8]);
    for sequence in &sequences {
        assert_eq!(reading.resolve(sequence), Ok(100));
    }
    assert_eq!(sequences[0].offset_value, 103);
    assert_eq!(sequences[1].offset_value, 1);
    assert_eq!(offset_codes, vec![6, 0]);
    assert_eq!(decoder.values(), reading.values());
}

#[test]
fn remembered_offsets_are_resolved_the_same_way_by_both_sides() {
    let mut one = RepeatOffsets::from_values([10, 20, 30]);
    let mut two = one;
    assert_eq!(one.resolve_values(0, 2), Ok(30));
    assert_eq!(two.resolve_encode(0, 2), 30);
    assert_eq!(one, two);
    assert_eq!(one.values(), [30, 10, 20]);
    assert_eq!(one.update_explicit_offset(77), 80);
    assert_eq!(one.values(), [77, 30, 10]);
    assert_eq!(
        one.encode_offset_value(0, 1),
        Err(Error::InvalidParameter("raw_offset must be non-zero"))
    );
    // A remembered offset needs no value of its own.
    let mut far = RepeatOffsets::from_values([1, u32::MAX, 8]);
    assert_eq!(far.classify_offset(u32::MAX, 0), 1);
    assert_eq!(far.encode_offset_value(u32::MAX, 5), Ok(2));
    assert_eq!(far.values(), [u32::MAX, 1, 8]);
}

#[test]
fn estimates_count_bits() {
    let reps = RepeatOffsets::default();
    // A match at a remembered offset costs less than one at a far offset.
    let near = estimate_sequence_bit_cost(1, 3, 10, reps).unwrap();
    let far = estimate_sequence_bit_cost(1 << 20, 3, 10, reps).unwrap();
    assert!(near < far);
    assert_eq!(
        estimate_sequence_bit_cost(0, 3, 10, reps),
        Err(Error::InvalidParameter("raw_offset must be non-zero"))
    );
    assert_eq!(
        estimate_sequence_bit_cost(1, 3, 2, reps),
        Err(Error::InvalidParameter(
            "match length must be at least 3 bytes"
        ))
    );

    assert_eq!(
        build_literal_offset_table(&[command(3, 1, 3), command(0, 1, 3), command(5, 1, 3)]),
        vec![0, 3, 3, 8]
    );

    let sequences = build_skewed_sequence_commands(200);
    let mut scratch = SequenceEncodeScratch::default();
    prepare_sequence_encode_scratch(&sequences, &mut scratch).unwrap();
    let literals = vec![b'x'; 500];
    let cost = |literals: &[u8], disabled: bool| {
        estimate_subblock_cost_bits(
            &scratch.literal_codes,
            &scratch.offset_codes,
            &scratch.match_codes,
            literals,
            None,
            None,
            disabled,
        )
    };
    assert!(cost(&literals, false) <= cost(&literals, true));
    assert!(cost(&literals, true) >= 500 * 8);
    assert!(cost(&[], true) > 0);

    // No code is built for literals that are not compressed, however many.
    let many = vec![0u8; 0x4000_0000];
    assert!(cost(&many, true) > 0x4000_0000 * 8);
    assert_eq!(
        estimate_literal_cost_bytes(&many, None, true),
        0x4000_0000
    );
    assert_eq!(
        estimate_subblock_cost_bits(&[], &[], &[], &many, None, None, false),
        0x4000_0000 * 8 + 48
    );
}

#[test]
fn a_table_of_counts_that_go_round_twice_is_built() {
    let built = SequenceEncodingTable::from_normalized_counts(
        SequencePart::LiteralLength,
        &[32, 32, 0],
        2,
        5,
    )
    .unwrap();
    assert_eq!(built.table.table_log, 5);
    assert_eq!(built.table.state_table[32], 32);
    assert_eq!(built.supported[..4], [true, true, false, false]);
    assert_eq!(
        SequenceEncodingTable::from_normalized_counts(
            SequencePart::LiteralLength,
            &[32, 16, 0],
            2,
            5,
        )
        .err(),
        Some(Error::Generic)
    );
}

#[test]
fn a_distribution_may_be_repeated_blindly_only_where_it_holds_every_code() {
    let mut normalized = vec![1i16; 36];
    assert_eq!(
        repeat_mode_for_normalized_counts(&normalized, 35, 35),
        SequenceRepeatMode::Valid
    );
    assert_eq!(
        repeat_mode_for_normalized_counts(&normalized, 34, 35),
        SequenceRepeatMode::Check
    );
    normalized[7] = 0;
    assert_eq!(
        repeat_mode_for_normalized_counts(&normalized, 35, 35),
        SequenceRepeatMode::Check
    );
}

#[test]
fn a_failed_list_keeps_what_was_copied_and_a_failed_block_nothing() {
    let sequences = [command(3, 4, 4), command(0, 103, 4)];
    let literals = b"abcd";
    let corrupt = Err(Error::Corruption(
        "sequence offset exceeds the available history window",
    ));

    let mut out = DecodeOut::growable(Vec::new());
    let mut repeat_offsets = RepeatOffsets::default();
    let listed = execute_sequences(
        &mut out,
        0,
        1024,
        1024,
        None,
        literals,
        &sequences,
        &mut repeat_offsets,
        None,
    );
    assert_eq!(listed, corrupt);
    assert_eq!(out.as_slice(), b"abccccc");
    assert_eq!(
        (
            repeat_offsets.first,
            repeat_offsets.second,
            repeat_offsets.third
        ),
        (100, 1, 1)
    );

    let section = encode_sequence_section(&sequences).unwrap();
    let mut tables = SequenceTablesState::default();
    let parsed = parse_sequence_section(&section, &mut tables, TableTarget::SequenceOnly).unwrap();
    let mut out = DecodeOut::growable(b"xy".to_vec());
    let mut repeat_offsets = RepeatOffsets::default();
    let in_one_pass = decode_and_execute_sequences(
        &parsed,
        &mut tables,
        &mut out,
        2,
        1024,
        1024,
        None,
        literals,
        &mut repeat_offsets,
        OutputLimit::whole_output(None),
    );
    assert_eq!(in_one_pass, corrupt);
    assert_eq!(out.as_slice(), b"xy");
    assert_eq!(
        (
            repeat_offsets.first,
            repeat_offsets.second,
            repeat_offsets.third
        ),
        (1, 4, 8)
    );
}

#[test]
fn a_match_over_the_dictionary_border_is_copied_in_two_parts() {
    let mut out = DecodeOut::fixed(5);
    assert_eq!(
        append_match(&mut out, 0, 1024, Some(b"wxyz"), 3, 6),
        Err(Error::DstSizeTooSmall)
    );
    assert_eq!(out.as_slice(), b"xyz");
    let mut out = DecodeOut::fixed(6);
    assert_eq!(append_match(&mut out, 0, 1024, Some(b"wxyz"), 3, 6), Ok(()));
    assert_eq!(out.as_slice(), b"xyzxyz");
}

#[test]
fn readers_that_make_baselines_only_drop_the_plain_tables() {
    let section = encode_sequence_section(&[command(3, 4, 4)]).unwrap();
    let mut tables = SequenceTablesState::default();
    parse_sequence_section(&section, &mut tables, TableTarget::Both).unwrap();
    assert!(tables.literal_lengths.plain.is_some());
    parse_sequence_section(&section, &mut tables, TableTarget::SequenceOnly).unwrap();
    assert!(tables.literal_lengths.plain.is_none());
    assert!(tables.literal_lengths.expanded.is_some());
}

#[test]
fn a_table_header_without_room_is_all_that_stops_a_section() {
    let counted = [
        (1u32, 100usize),
        (3, 100),
        (5, 100),
        (7, 101),
        (9, 101),
        (11, 100),
        (13, 300),
        (15, 100),
        (17, 700),
        (19, 100),
        (21, 1500),
        (23, 100),
        (25, 3100),
        (27, 100),
        (29, 6300),
        (31, 12698),
    ];
    let mut sequences = Vec::new();
    for (code, count) in counted {
        sequences.extend(vec![command(1, 1 << code, 3); count]);
    }
    assert_eq!(sequences.len(), 25_600);
    assert_eq!(
        encode_sequence_section(&sequences),
        Err(Error::DstSizeTooSmall)
    );
    sequences.push(command(1, 1, 3));
    assert!(encode_sequence_section(&sequences).is_ok());
}

#[test]
fn both_histories_move_on_over_a_rewritten_sequence() {
    let mut sequences = vec![command(5, 2, 4), command(5, 3, 4)];
    let mut offset_codes = vec![1u8, 1];
    let mut decoder = RepeatOffsets::from_values([1, 2, 3]);
    let mut compressor = RepeatOffsets::from_values([10, 20, 30]);
    let mut meant = compressor;
    let offsets = [meant.resolve(&sequences[0]), meant.resolve(&sequences[1])];
    assert_eq!(offsets, [Ok(20), Ok(30)]);
    reconcile_subblock_repcodes(
        &mut sequences,
        &mut offset_codes,
        &mut decoder,
        &mut compressor,
    );
    assert_eq!(sequences[0].offset_value, 23);
    assert_eq!(sequences[1].offset_value, 33);
    assert_eq!(offset_codes, vec![4, 5]);
    assert_eq!(compressor, meant);
    let mut reading = RepeatOffsets::from_values([1, 2, 3]);
    assert_eq!(reading.resolve(&sequences[0]), Ok(20));
    assert_eq!(reading.resolve(&sequences[1]), Ok(30));
    assert_eq!(decoder, reading);
}
