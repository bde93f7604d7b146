//! Laws of reading fuzz inputs: what each control byte names.

use crate::block;
use crate::error::Error;
use crate::frame;
use crate::frame::{Format, FrameHeader};
use crate::fuzz;
use crate::fuzz::FrameContents;
use crate::fuzz_config;
use crate::fuzz_config::BodyShape;
use crate::fuzz_plan;
use crate::options::{
    CompressionLevel, LdmMode, LiteralCompressionMode, ParameterBounds, ParameterLimits,
    RowMatchFinderMode, Strategy,
};
use crate::sequence::decode;
use crate::sequence::section;
use crate::sequence::section::KeptTables;
use vstd::arithmetic::div_mod::*;
use vstd::arithmetic::power2::*;
use vstd::prelude::*;

verus! {

/// A byte names one of the levels from 1 to 22 by its place among 32, and one
/// of ten negative levels by the places that are left.
pub proof fn law_levels_that_bytes_name(byte: u8, level: int)
    ensures
        byte % 32 < 22 ==> fuzz_config::level_named(byte) == byte % 32 + 1,
        byte % 32 >= 22 ==> fuzz_config::level_named(byte) == seq![
            -1int, -2, -3, -5, -9, -17, -33, -1000, -100000, -131072,
        ][byte % 32 - 22],
        1 <= level <= 22 ==> exists|b: u8| #[trigger] fuzz_config::level_named(b) == level,
{
    if 1 <= level <= 22 {
        let b = (level - 1) as u8;
        assert(fuzz_config::level_named(b) == level);
    }
}

/// Levels up to four get bodies of up to 1.5 MiB, the others of up to 320 KiB.
pub proof fn law_body_caps(level: CompressionLevel)
    ensures
        level.level <= 4 ==> fuzz_config::body_cap(level) == 3 * 512 * 1024,
        level.level > 4 ==> fuzz_config::body_cap(level) == 320 * 1024,
{
}

/// A seed is taken as it is, up to the level's cap, or repeated up to one of
/// twelve sizes around the borders of blocks and windows.
pub proof fn law_shapes_that_flags_name(flags: u8, level: CompressionLevel)
    ensures
        (flags / 4) % 2 == 0 ==> fuzz_config::shape_named(flags, level) == BodyShape::Seed,
        (flags / 4) % 2 == 1 ==> {
            let size = seq![
                256nat, 16383, 16384, 16385, 131071, 131072, 131073, 262143, 262144, 262145, 327680,
                1572864,
            ][(flags / 8) as int % 12];
            fuzz_config::shape_named(flags, level) matches BodyShape::Tiled { target } && target
                == if size < fuzz_config::body_cap(level) {
                size
            } else {
                fuzz_config::body_cap(level)
            }
        },
{
}

/// A byte picks a value from a parameter's range, and every value of a range
/// of up to 256 is picked by some byte.
pub proof fn law_values_that_bytes_pick(bounds: ParameterBounds, byte: u8, value: u32)
    requires
        bounds.min <= bounds.max,
    ensures
        fuzz_config::picked(bounds, byte) == bounds.min + byte as int % (bounds.max - bounds.min
            + 1),
        bounds.min <= value <= bounds.max && bounds.max - bounds.min < 256 ==> exists|b: u8|
            #[trigger] fuzz_config::picked(bounds, b) == value,
{
    if bounds.min <= value <= bounds.max && bounds.max - bounds.min < 256 {
        let b = (value - bounds.min) as u8;
        vstd::arithmetic::div_mod::lemma_small_mod(
            b as nat,
            (bounds.max - bounds.min + 1) as nat,
        );
        assert(fuzz_config::picked(bounds, b) == value);
    }
    vstd::arithmetic::div_mod::lemma_mod_bound(
        byte as int,
        bounds.max as int - bounds.min as int + 1,
    );
}

/// A byte is turned by moving its upper bits below its lower ones.
pub proof fn law_bytes_are_turned(byte: u8)
    ensures
        fuzz_config::rotated(byte, 1) == (byte % 128) * 2 + byte / 128,
        fuzz_config::rotated(byte, 3) == (byte % 32) * 8 + byte / 32,
        fuzz_config::rotated(byte, 5) == (byte % 8) * 32 + byte / 8,
        fuzz_config::rotated(byte, 7) == (byte % 2) * 128 + byte / 2,
{
    assert((byte << 1u8) | (byte >> 7u8) == ((byte % 128) * 2 + byte / 128) as u8) by (bit_vector);
    assert((byte << 3u8) | (byte >> 5u8) == ((byte % 32) * 8 + byte / 32) as u8) by (bit_vector);
    assert((byte << 5u8) | (byte >> 3u8) == ((byte % 8) * 32 + byte / 8) as u8) by (bit_vector);
    assert((byte << 7u8) | (byte >> 1u8) == ((byte % 2) * 128 + byte / 2) as u8) by (bit_vector);
}

/// Each bit of the mask says whether its parameter is named, and each
/// parameter's value is picked by its own turn of one of the two value bytes.
/// Tables are capped, so that they stay small.
pub proof fn law_parameters_that_bytes_name(
    mask: u8,
    first: u8,
    second: u8,
    ldm: u8,
    modes: u8,
    limits: ParameterLimits,
)
    requires
        limits.wf(),
    ensures
        ({
            let o = fuzz_config::overrides(mask, first, second, ldm, modes, limits);
            let low = |v: u32, most: u32|
                if v > most {
                    most
                } else {
                    v
                };
            &&& ldm % 2 == 0 ==> o.window_log == if mask % 2 == 1 {
                Some(fuzz_config::picked(limits.window_log, first))
            } else {
                None
            }
            &&& o.hash_log == if (mask / 2) % 2 == 1 {
                Some(low(fuzz_config::picked(limits.hash_log, second), 22))
            } else {
                None
            }
            &&& o.chain_log == if (mask / 4) % 2 == 1 {
                Some(low(fuzz_config::picked(limits.chain_log, fuzz_config::rotated(first, 3)), 22))
            } else {
                None
            }
            &&& o.search_log == if (mask / 8) % 2 == 1 {
                Some(fuzz_config::picked(limits.search_log, fuzz_config::rotated(second, 3)))
            } else {
                None
            }
            &&& o.min_match == if (mask / 16) % 2 == 1 {
                Some(fuzz_config::picked(limits.min_match, fuzz_config::rotated(first, 5)))
            } else {
                None
            }
            &&& o.target_length == if (mask / 32) % 2 == 1 {
                Some(fuzz_config::picked(limits.target_length, fuzz_config::rotated(second, 5)))
            } else {
                None
            }
            &&& o.strategy is Some <==> mask / 64 > 0
            &&& o.strategy == Some(Strategy::Fast) ==> (first ^ second) % 9 == 0
            &&& ldm % 2 == 1 ==> {
                &&& o.ldm_hash_log == if (ldm / 2) % 2 == 1 {
                    Some(
                        low(
                            fuzz_config::picked(
                                limits.ldm_hash_log,
                                fuzz_config::rotated(second, 1),
                            ),
                            18,
                        ),
                    )
                } else {
                    None
                }
                &&& o.ldm_min_match == if (ldm / 4) % 2 == 1 {
                    Some(fuzz_config::picked(limits.ldm_min_match, fuzz_config::rotated(first, 1)))
                } else {
                    None
                }
                &&& o.ldm_bucket_size_log == if (ldm / 8) % 2 == 1 {
                    Some(
                        fuzz_config::picked(
                            limits.ldm_bucket_size_log,
                            fuzz_config::rotated(second, 7),
                        ),
                    )
                } else {
                    None
                }
                &&& o.ldm_hash_rate_log == if (ldm / 16) % 2 == 1 {
                    Some(
                        fuzz_config::picked(
                            limits.ldm_hash_rate_log,
                            fuzz_config::rotated(first, 7),
                        ),
                    )
                } else {
                    None
                }
            }
            &&& o.use_row_match_finder == if modes % 4 == 1 {
                RowMatchFinderMode::Enabled
            } else if modes % 4 == 2 {
                RowMatchFinderMode::Disabled
            } else {
                RowMatchFinderMode::Auto
            }
            &&& o.literal_compression == if (modes / 4) % 4 == 1 {
                LiteralCompressionMode::Enabled
            } else if (modes / 4) % 4 == 2 {
                LiteralCompressionMode::Disabled
            } else {
                LiteralCompressionMode::Auto
            }
            &&& o.long_distance_matching == if ldm % 2 == 1 {
                LdmMode::Enabled
            } else {
                LdmMode::Auto
            }
        }),
{
    lemma2_to64();
}

/// Which of the seven control bytes says what: the level; the block size and
/// the modes; two flags; the mask and the two values; and two more flags with
/// the long-distance switches.
pub proof fn law_options_that_bytes_name(control: Seq<u8>, limits: ParameterLimits)
    requires
        control.len() >= 7,
    ensures
        ({
            let o = fuzz_plan::options_named(control, limits);
            &&& o.compression_level.level == fuzz_config::level_named(control[0])
            &&& o.block_size == seq![1024nat, 1031, 4096, 5000, 16384, 65536, 131071, 131072][control[1]
                as int % 8]
            &&& o.checksum == (control[2] % 2 == 1)
            &&& o.write_dict_id == ((control[2] / 2) % 2 == 1)
            &&& o.write_content_size == (control[6] % 2 == 0)
            &&& o.format == if (control[6] / 2) % 2 == 1 {
                Format::Zstd1Magicless
            } else {
                Format::Zstd1
            }
            &&& o.pledged_src_size is None
            &&& o.parameters == fuzz_config::overrides(
                control[3],
                control[4],
                control[5],
                control[6] / 4,
                control[1] / 8,
                limits,
            )
        }),
{
    law_levels_that_bytes_name(control[0], 1);
}

/// Pieces are powers of two, or everything at once; but no body is pushed in
/// more than about four thousand of them.
pub proof fn law_piece_sizes(control: u8, selector: u8, len: nat)
    ensures
        fuzz_plan::push_size(control, len) >= 1,
        control % 16 > 8 && len > 0 ==> fuzz_plan::push_size(control, len) == len,
        control % 16 <= 8 && len / 4096 <= pow2(control as nat % 16) ==> fuzz_plan::push_size(
            control,
            len,
        ) == pow2(control as nat % 16),
        control % 16 <= 8 && len / 4096 > pow2(control as nat % 16) ==> fuzz_plan::push_size(
            control,
            len,
        ) == len / 4096,
        selector % 9 < 8 ==> fuzz_plan::feed_size(selector, len) == pow2(selector as nat % 9),
        selector % 9 == 8 && len > 0 ==> fuzz_plan::feed_size(selector, len) == len,
{
    lemma_pow2_pos(control as nat % 16);
    assert(len / 4096 <= len);
}

/// A frame needs a window for the parser's history, for its blocks, of at least
/// a kibibyte, and for its content, whichever is largest. It may declare no
/// more than the smallest window that holds that, and has to decode to the
/// body.
pub proof fn law_verdicts(
    encoded: Seq<u8>,
    decoded: Seq<u8>,
    body: Seq<u8>,
    format: Format,
    history: nat,
    block_size: nat,
)
    ensures
        ({
            let needed = fuzz_plan::window_needed(history, block_size, body.len());
            &&& needed >= history && needed >= block_size && needed >= 1024 && needed >= body.len()
            &&& needed == history || needed == block_size || needed == 1024 || needed == body.len()
            &&& (frame::frame_header(encoded, format) is Ok && needed <= 15 * 0x40_0000_0000) ==> ({
                let r = fuzz_plan::roundtrip_verdict(encoded, decoded, body, format, needed);
                let small = frame::frame_header(encoded, format)->Ok_0 matches FrameHeader::Zstandard(
                    h,
                ) && forall|d: u8| #[trigger]
                    frame::window_of(d) >= needed ==> h.window_size <= frame::window_of(d);
                r is Ok && (r->Ok_0 <==> small && decoded == body)
            })
            &&& frame::frame_header(encoded, format) matches Err(e)
                ==> fuzz_plan::roundtrip_verdict(encoded, decoded, body, format, needed) == Err::<
                bool,
                Error,
            >(e)
        }),
{
    lemma2_to64_rest();
    assert(frame::window_of(255) == 15 * 0x40_0000_0000) by {
        assert(10 + 255nat / 8 == 41);
        assert(pow2(41) == 0x200_0000_0000);
    }
}

/// Behind a frame's header stands a block's header, and behind that of a
/// skippable frame its payload, which is there or not.
pub proof fn law_what_follows_a_header(data: Seq<u8>)
    ensures
        ({
            let r = fuzz::frame_contents(data);
            match frame::frame_header(data, Format::Zstd1) {
                Ok(FrameHeader::Zstandard(h)) => r matches Ok(FrameContents::Block(b)) && b
                    == block::block_header(data.skip(h.header_size as int)),
                Ok(FrameHeader::Skippable(f)) => r matches Ok(FrameContents::Payload(whole)) && (
                whole <==> data.skip(f.header_size as int).len() >= f.size && f.header_size
                    <= data.len()),
                Err(e) => r is Err && r->Err_0 == e,
            }
        }),
{
    if let Ok(FrameHeader::Skippable(f)) = frame::frame_header(data, Format::Zstd1) {
        assert(f.header_size == 8 && data.len() >= 8);
    }
}

/// An input is cut where its first byte says; where that is behind its end, the
/// byte goes round.
pub proof fn law_where_inputs_are_cut(data: Seq<u8>)
    ensures
        0 <= fuzz::split_of(data) <= data.len(),
        data.len() > 0 && data[0] <= data.len() ==> fuzz::split_of(data) == data[0],
        data.len() > 0 ==> (data[0] - fuzz::split_of(data)) % (data.len() as int + 1) == 0,
{
    if data.len() > 0 {
        let m = data.len() as int + 1;
        let b = data[0] as int;
        lemma_fundamental_div_mod(b, m);
        lemma_mod_multiples_basic(b / m, m);
        assert(b - b % m == (b / m) * m) by (nonlinear_arith)
            requires
                b == m * (b / m) + b % m,
        ;
        if b < m {
            lemma_small_mod(b as nat, m as nat);
        }
    }
}

/// A section of at most 4096 sequences is decoded with the tables that its
/// header left; one of more is not.
pub proof fn law_chunks_are_limited(data: Seq<u8>, before: KeptTables)
    ensures
        ({
            let r = fuzz::chunk_sequences(data, before);
            match section::section_header(data, before) {
                Err(e) => r is Err && r->Err_0 == e,
                Ok(h) => {
                    let all = decode::section_sequences(
                        h.count,
                        h.kept,
                        data.skip(h.size as int),
                    );
                    &&& h.count > 4096 ==> r is Ok && r->Ok_0 is None
                    &&& h.count <= 4096 && all is Ok ==> r is Ok && r->Ok_0 == Some(all->Ok_0)
                    &&& h.count <= 4096 && all is Err ==> r is Err && r->Err_0 == all->Err_0
                },
            }
        }),
{
}

/// A window beside a long-distance table is the one that was picked, where it
/// is neither too small nor too large.
pub proof fn law_windows_beside_long_distance(bounds: ParameterBounds, byte: u8)
    ensures
        ({
            let v = fuzz_config::picked(bounds, byte);
            let w = fuzz_config::ldm_window(bounds, byte);
            &&& 14 <= v <= 18 ==> w == v
            &&& v < 14 ==> w == 14
            &&& v > 18 ==> w == 18
        }),
{
}

} // verus!
