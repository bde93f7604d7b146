//! Fuzz entry points and the reading of fuzz inputs.

use zstandard::block::{BlockHeader, BlockType};
use zstandard::frame::{write_single_segment_header, write_skippable_frame, write_windowed_header};
use zstandard::fuzz::{
    frame_parse, full_decode, literals_parse, parse_sequence_chunk, sequence_parse, slice_decode,
    split_point, streaming_decode, FrameContents, SliceDecode, GUARD, GUARD_BYTE,
};
use zstandard::fuzz_config::{
    body_cap_for, body_shape_from, level_from, overrides_from, shape_body, split_control,
    tile_with_drift, within, BodyShape,
};
use zstandard::fuzz_plan::{
    check_declared_window, dictionary_encode_plan, dictionary_encode_roundtrip, encode_plan,
    encode_roundtrip, encoder_options_from, feed_size_for, push_size_for, streaming_encode_plan,
    streaming_encode_roundtrip,
};
use zstandard::options::ParameterLimits;
use zstandard::outbuf::OutBuf;
use zstandard::sequence::section::SequenceTablesState;
use zstandard::{
    CompressionLevel, Error, Format, LdmMode, LiteralCompressionMode, ParameterBounds,
    RowMatchFinderMode, Strategy,
};

fn bounds(min: u32, max: u32) -> ParameterBounds {
    ParameterBounds { min, max }
}

fn limits() -> ParameterLimits {
    ParameterLimits {
        window_log: bounds(10, 27),
        hash_log: bounds(6, 30),
        chain_log: bounds(6, 30),
        search_log: bounds(1, 26),
        min_match: bounds(3, 7),
        target_length: bounds(0, 131_072),
        ldm_hash_log: bounds(6, 30),
        ldm_min_match: bounds(4, 4096),
        ldm_bucket_size_log: bounds(1, 8),
        ldm_hash_rate_log: bounds(0, 21),
    }
}

/// A body with structure worth matching against and no exact period.
fn structured_body(len: usize) -> Vec<u8> {
    let words = ["alpha", "bravo", "charlie", "delta", "echo", "foxtrot"];
    let mut out = Vec::with_capacity(len);
    let mut index = 0u64;
    while out.len() < len {
        let record = format!(
            "{{\"id\":{},\"tag\":\"{}\",\"n\":{}}}\n",
            index,
            words[(index as usize) % words.len()],
            index.wrapping_mul(2_654_435_761) as u32,
        );
        let take = record.len().min(len - out.len());
        out.extend_from_slice(&record.as_bytes()[..take]);
        index += 1;
    }
    out
}

/// Build a target input: control bytes followed by a body.
fn input(control: &[u8], body: &[u8]) -> Vec<u8> {
    let mut out = control.to_vec();
    out.extend_from_slice(body);
    out
}

/// The control prefix each target consumes is what separates configuration
/// from body.
#[test]
fn the_targets_consume_the_control_prefix_they_document() {
    let body = structured_body(64);
    assert!(encode_plan(&input(&[0; 7], &body), &limits()).is_some());
    assert!(encode_plan(&[0; 6], &limits()).is_none());
    assert!(streaming_encode_plan(&input(&[0; 8], &body), &limits()).is_some());
    assert!(streaming_encode_plan(&[0; 7], &limits()).is_none());
    assert!(dictionary_encode_plan(&input(&[0; 8], &body), &limits()).is_some());
    assert!(dictionary_encode_plan(&[0; 7], &limits()).is_none());
}

/// The amplified shape exists so the fast parsers see a body longer than
/// their window, which is 512 KiB at level one.
#[test]
fn the_amplified_body_outgrows_the_level_one_window() {
    let level = CompressionLevel::try_new(1).unwrap();
    let max_history_bytes = 512 << 10;
    let amplified = shape_body(
        &structured_body(700),
        level,
        BodyShape::Tiled {
            target: body_cap_for(level),
        },
    );
    assert!(
        amplified.len() > max_history_bytes * 2,
        "amplified body is {} bytes against a {}-byte window",
        amplified.len(),
        max_history_bytes,
    );
}

/// Sizes a tiled body can take at `level`, over every flags byte.
fn reachable_body_sizes(level: CompressionLevel) -> Vec<usize> {
    (0..=u8::MAX)
        .filter_map(|flags| match body_shape_from(flags | 4, level) {
            BodyShape::Tiled { target } => Some(target),
            BodyShape::Seed => None,
        })
        .collect()
}

/// Each tier boundary is inclusive, so a body has to be able to land on it
/// and one byte past it for the difference to be under test at all.
#[test]
fn tiled_bodies_bracket_every_tier_boundary() {
    for byte in 0..22u8 {
        let level = level_from(byte);
        let sizes = reachable_body_sizes(level);
        for boundary in [16 << 10, 128 << 10, 256 << 10] {
            assert!(
                sizes.contains(&boundary) || boundary > body_cap_for(level),
                "level {} cannot produce a body of exactly {boundary} bytes",
                level.as_i32(),
            );
            assert!(
                sizes.iter().any(|&size| size > boundary),
                "level {} cannot produce a body past {boundary} bytes",
                level.as_i32(),
            );
        }
    }
}

/// A tiled body that repeated exactly would hide the parser behaviour these
/// targets exist to reach, so the drift has to actually land.
#[test]
fn tiling_perturbs_every_repetition() {
    let seed = structured_body(64);
    let tiled = tile_with_drift(&seed, seed.len() * 8);
    let differing = tiled
        .chunks(seed.len())
        .filter(|tile| tile.len() == seed.len() && *tile != &seed[..])
        .count();
    assert_eq!(differing, 8, "every tile should differ from the seed");
}

/// Every state of both mode switches has to be something a control byte can
/// actually name.
#[test]
fn every_mode_switch_is_reachable() {
    let limits = limits();
    let mut rows = Vec::new();
    let mut literals = Vec::new();
    for byte in 0..=u8::MAX {
        let (options, _) = encoder_options_from([5, byte, 1, 0, 0, 0, 0], &limits);
        rows.push(options.parameters.use_row_match_finder);
        literals.push(options.parameters.literal_compression);
    }
    for mode in [
        RowMatchFinderMode::Auto,
        RowMatchFinderMode::Enabled,
        RowMatchFinderMode::Disabled,
    ] {
        assert!(rows.contains(&mode), "no control byte names {mode:?}");
    }
    for mode in [
        LiteralCompressionMode::Auto,
        LiteralCompressionMode::Enabled,
        LiteralCompressionMode::Disabled,
    ] {
        assert!(literals.contains(&mode), "no control byte names {mode:?}");
    }
    // And the two are cut from disjoint bits, so a byte can ask for any
    // pairing of them rather than only the diagonal.
    assert!(
        (0..=u8::MAX).any(|byte| {
            let (options, _) = encoder_options_from([5, byte, 1, 0, 0, 0, 0], &limits);
            options.parameters.use_row_match_finder == RowMatchFinderMode::Enabled
                && options.parameters.literal_compression == LiteralCompressionMode::Disabled
        }),
        "the two mode switches cannot be set independently"
    );
}

/// Short inputs are not a defect, but they must not be the only thing the
/// fuzzer ever sees succeed.
#[test]
fn inputs_too_short_to_configure_are_declined() {
    for len in 0..3 {
        assert!(encode_plan(&vec![0u8; len], &limits()).is_none());
    }
    for len in 0..4 {
        assert!(streaming_encode_plan(&vec![0u8; len], &limits()).is_none());
        assert!(dictionary_encode_plan(&vec![0u8; len], &limits()).is_none());
    }
}

// ---------------------------------------------------------------------------
// Further cases.

#[test]
fn the_long_distance_window_stays_in_its_band() {
    for mask in [0x00u8, 0x01, 0x20, 0x3f, 0xff] {
        for values in [[0u8, 0], [0x37, 0x9b], [0xff, 0xff], [7, 200], [17, 3]] {
            for ldm in 0..32u8 {
                let o = overrides_from(mask, values, ldm, 0, &limits());
                if ldm & 1 == 0 {
                    assert_eq!(o.long_distance_matching, LdmMode::Auto);
                    assert_eq!(o.ldm_hash_log, None);
                    assert_eq!(o.ldm_min_match, None);
                    continue;
                }
                assert_eq!(o.long_distance_matching, LdmMode::Enabled);
                assert!((14..=18).contains(&o.window_log.unwrap()));
                assert!(o.ldm_hash_log.unwrap_or(0) <= 18);
            }
        }
    }
}

#[test]
fn overrides_take_their_values_from_turned_bytes() {
    let o = overrides_from(0xff, [0x37, 0x9b], 0b11111, 0b1001, &limits());
    // 0x37 is 55, and 10 + 55 % 18 is 11, below the band.
    assert_eq!(o.window_log, Some(14));
    // 0x9b is 155, and 6 + 155 % 25 is 11.
    assert_eq!(o.hash_log, Some(11));
    // 0x37 turned by three is 0xb9, which is 185.
    assert_eq!(o.chain_log, Some(6 + 185 % 25));
    // 0x9b turned by three is 0xdc, which is 220.
    assert_eq!(o.search_log, Some(1 + 220 % 26));
    // 0x37 turned by five is 0xe6, which is 230.
    assert_eq!(o.min_match, Some(3 + 230 % 5));
    // 0x9b turned by five is 0x73, which is 115.
    assert_eq!(o.target_length, Some(115));
    // 0x37 ^ 0x9b is 172, and 172 % 9 is 1.
    assert_eq!(o.strategy, Some(Strategy::DoubleFast));
    assert_eq!(o.use_row_match_finder, RowMatchFinderMode::Enabled);
    assert_eq!(o.literal_compression, LiteralCompressionMode::Disabled);
    // 0x9b turned by one is 0x37.
    assert_eq!(o.ldm_hash_log, Some(6 + 55 % 25));
    // 0x37 turned by one is 0x6e, which is 110.
    assert_eq!(o.ldm_min_match, Some(114));
    // 0x9b turned by seven is 0xcd, which is 205.
    assert_eq!(o.ldm_bucket_size_log, Some(1 + 205 % 8));
    // 0x37 turned by seven is 0x9b.
    assert_eq!(o.ldm_hash_rate_log, Some(155 % 22));

    let none = overrides_from(0, [0x37, 0x9b], 0, 0, &limits());
    assert_eq!(none.window_log, None);
    assert_eq!(none.strategy, None);
    assert_eq!(within(bounds(3, 7), 13), 6);
}

#[test]
fn options_come_from_their_control_bytes() {
    let (options, shape) = encoder_options_from([25, 3, 0b0000_1111, 0, 0, 0, 0b11], &limits());
    assert_eq!(options.compression_level.as_i32(), -5);
    assert_eq!(options.block_size, 5000);
    assert!(options.checksum);
    assert!(options.write_dict_id);
    assert!(!options.write_content_size);
    assert_eq!(options.format, Format::Zstd1Magicless);
    assert_eq!(options.pledged_src_size, None);
    assert_eq!(shape, BodyShape::Tiled { target: 16383 });
    assert_eq!(level_from(0).as_i32(), 1);
    assert_eq!(level_from(21).as_i32(), 22);
    assert_eq!(level_from(31).as_i32(), -131_072);
    assert_eq!(CompressionLevel::try_new(23), None);
    assert_eq!(CompressionLevel::try_new(-131_073), None);
}

#[test]
fn a_tiled_body_is_the_seed_with_one_byte_changed_per_tile() {
    assert_eq!(
        tile_with_drift(b"abcd", 10),
        [
            b'a' ^ 1,
            b'b',
            b'c',
            b'd',
            b'a',
            b'b',
            b'c',
            b'd' ^ 1,
            b'a' ^ 3,
            b'b'
        ]
    );
    let level = level_from(12);
    assert_eq!(shape_body(b"", level, BodyShape::Tiled { target: 9 }), b"");
    assert_eq!(
        shape_body(b"abcdef", level, BodyShape::Tiled { target: 3 }),
        b"abc"
    );
    assert_eq!(shape_body(b"abcdef", level, BodyShape::Seed), b"abcdef");
    assert_eq!(
        shape_body(&vec![1; 400_000], level, BodyShape::Seed).len(),
        body_cap_for(level)
    );
}

#[test]
fn bodies_are_cut_into_pieces() {
    assert_eq!(push_size_for(0x03, 100), 8);
    assert_eq!(push_size_for(0x0f, 100), 100);
    assert_eq!(push_size_for(0x0f, 0), 1);
    assert_eq!(push_size_for(0x00, 1 << 20), 256);
    assert_eq!(feed_size_for(7, 5), 128);
    assert_eq!(feed_size_for(17, 5), 5);
    assert_eq!(feed_size_for(8, 0), 1);

    let plan = streaming_encode_plan(&input(&[0, 0, 0, 0, 0, 0, 0, 0x23], b"hello"), &limits())
        .unwrap();
    assert_eq!(plan.body, b"hello");
    assert_eq!(plan.chunk, 8);
    assert_eq!(plan.flush_every, 2);
    assert!(plan.flushes_after(0) && !plan.flushes_after(1) && plan.flushes_after(2));

    let plan =
        dictionary_encode_plan(&input(&[0, 0, 4, 0, 0, 0, 0, 128], b"abcdefgh"), &limits())
            .unwrap();
    assert_eq!(plan.dictionary, b"abcd");
    assert_eq!(plan.body, b"efgh");
    let plan = encode_plan(&input(&[0; 7], b"xyz"), &limits()).unwrap();
    assert_eq!(plan.body, b"xyz");
    assert_eq!(
        split_control(b"abc", 2),
        Some((&b"ab"[..], &b"c"[..]))
    );
}

#[test]
fn declared_windows_are_held_to_what_the_encoder_used() {
    let mut out = OutBuf::growable(Vec::new());
    write_windowed_header(&mut out, 1 << 20, false).unwrap();
    let frame = out.into_bytes();
    assert_eq!(
        check_declared_window(&frame, Format::Zstd1, 1 << 20, 1000, 10),
        Ok(true)
    );
    assert_eq!(
        check_declared_window(&frame, Format::Zstd1, 1 << 19, 1000, 10),
        Ok(false)
    );
    // Rounded up to a window that a header can declare.
    assert_eq!(
        check_declared_window(&frame, Format::Zstd1, 1000, 1000, (1 << 20) - 1),
        Ok(true)
    );
    let skippable = write_skippable_frame(0, b"x").unwrap();
    assert_eq!(
        check_declared_window(&skippable, Format::Zstd1, 1 << 20, 1000, 10),
        Ok(false)
    );
    assert_eq!(
        check_declared_window(b"", Format::Zstd1, 1, 1, 1),
        Err(Error::UnexpectedEof)
    );
    assert_eq!(
        check_declared_window(&frame, Format::Zstd1, usize::MAX, 1, 1),
        Err(Error::InvalidParameter("window_size is too large"))
    );
}

#[test]
fn parsers_report_what_they_found() {
    let mut out = OutBuf::growable(Vec::new());
    write_single_segment_header(&mut out, 3, false);
    let header = BlockHeader {
        last_block: true,
        block_type: BlockType::Raw,
        block_size: 3,
    };
    header.write_to(&mut out);
    match frame_parse(out.as_slice()) {
        Ok(FrameContents::Block(Ok(found))) => assert_eq!(found, header),
        _ => panic!("expected a block"),
    }
    let skippable = write_skippable_frame(1, b"abc").unwrap();
    assert!(matches!(
        frame_parse(&skippable),
        Ok(FrameContents::Payload(true))
    ));
    assert!(matches!(
        frame_parse(&skippable[..9]),
        Ok(FrameContents::Payload(false))
    ));
    assert_eq!(frame_parse(b"").err(), Some(Error::UnexpectedEof));

    assert_eq!(split_point(b""), 0);
    assert_eq!(split_point(&[5, 0, 0]), 1);

    // Eleven bytes, cut at 16 % 12: two stored literals, and the rest.
    let mut data = vec![16u8, b'a', b'b', 0];
    data.extend_from_slice(&[24, b'x', b'y', b'z', 0, 0, 0]);
    let (first, second) = literals_parse(&data);
    assert_eq!(first, Ok((b"ab".to_vec(), 3)));
    assert_eq!(second, Ok((b"xyz".to_vec(), 4)));

    let mut tables = SequenceTablesState::default();
    assert_eq!(parse_sequence_chunk(&[0], &mut tables), Ok(Some(Vec::new())));
    let found = parse_sequence_chunk(&[1, 0b0101_0100, 7, 0, 4, 1], &mut tables)
        .unwrap()
        .unwrap();
    assert_eq!(found.len(), 1);
    // More sequences than are decoded.
    assert_eq!(
        parse_sequence_chunk(&[0xff, 0, 0, 0b0101_0100, 7, 0, 4, 1], &mut tables),
        Ok(None)
    );
    let (first, second) = sequence_parse(b"");
    assert_eq!(first, Err(Error::UnexpectedEof));
    assert_eq!(second, Err(Error::UnexpectedEof));
}

#[test]
fn decoders_are_held_to_one_another() {
    let good: Result<Vec<u8>, Error> = Ok(b"abc".to_vec());
    let other: Result<Vec<u8>, Error> = Ok(b"abd".to_vec());
    let bad: Result<Vec<u8>, Error> = Err(Error::Generic);
    assert!(full_decode(&good, &good));
    assert!(full_decode(&good, &bad));
    assert!(full_decode(&bad, &bad));
    assert!(!full_decode(&bad, &good));
    assert!(!full_decode(&other, &good));

    let backing = |bytes: &[u8]| {
        let mut out = bytes.to_vec();
        out.extend_from_slice(&[GUARD_BYTE; GUARD]);
        out
    };
    let exact = SliceDecode {
        outcome: Ok(3),
        backing: backing(b"abc"),
    };
    let short = SliceDecode {
        outcome: Err(Error::DstSizeTooSmall),
        backing: backing(b"ab"),
    };
    assert!(slice_decode(b"abc", &exact, Some(&short)));
    assert!(!slice_decode(b"abd", &exact, Some(&short)));
    let mut spilled = SliceDecode {
        outcome: Err(Error::DstSizeTooSmall),
        backing: backing(b"ab"),
    };
    spilled.backing[2] = b'c';
    assert!(!slice_decode(b"abc", &exact, Some(&spilled)));
    let truncated = SliceDecode {
        outcome: Ok(2),
        backing: backing(b"ab"),
    };
    assert!(!slice_decode(b"abc", &exact, Some(&truncated)));
    let empty = SliceDecode {
        outcome: Ok(0),
        backing: backing(b""),
    };
    assert!(slice_decode(b"", &empty, None));
}

#[test]
fn frames_are_fed_in_pieces() {
    assert!(streaming_decode(b"").is_none());
    let (frame, cuts) = streaming_decode(&[1, 10, 20, 30, 40, 50]).unwrap();
    assert_eq!(frame, [10, 20, 30, 40, 50]);
    assert_eq!(cuts, vec![(0, 2), (2, 4), (4, 5)]);
    let (frame, cuts) = streaming_decode(&[8]).unwrap();
    assert!(frame.is_empty() && cuts.is_empty());
}

#[test]
fn encoders_are_held_to_their_plans() {
    let plan = encode_plan(&input(&[0; 7], b"hello"), &limits()).unwrap();
    let mut out = OutBuf::growable(Vec::new());
    write_single_segment_header(&mut out, 5, false);
    let frame = out.into_bytes();
    assert_eq!(encode_roundtrip(&plan, &frame, b"hello", 0), Ok(true));
    assert_eq!(encode_roundtrip(&plan, &frame, b"hellp", 0), Ok(false));
    assert_eq!(
        encode_roundtrip(&plan, b"", b"hello", 0),
        Err(Error::UnexpectedEof)
    );

    let plan = streaming_encode_plan(&input(&[0; 8], b"hello"), &limits()).unwrap();
    assert_eq!(
        streaming_encode_roundtrip(&plan, &frame, b"hello", &frame, b"he", 0),
        Ok(true)
    );
    assert_eq!(
        streaming_encode_roundtrip(&plan, &frame, b"hello", &frame, b"hello", 0),
        Ok(false)
    );

    let plan = dictionary_encode_plan(&input(&[0; 8], b"hello"), &limits()).unwrap();
    assert!(dictionary_encode_roundtrip(&plan, &frame, b"hello", &frame));
    assert!(!dictionary_encode_roundtrip(&plan, &frame, b"hello", b"x"));
}
