//! A fuzz input read as an encoder configuration and a body to compress.
//!
//! The configuration stands in a few control bytes at the front, so that a
//! mutation can move one knob without disturbing the bytes to be compressed.

use crate::options::CompressionLevel;
use crate::options::LdmMode;
use crate::options::LiteralCompressionMode;
use crate::options::ParameterBounds;
use crate::options::ParameterLimits;
use crate::options::ParameterOverrides;
use crate::options::RowMatchFinderMode;
use crate::options::Strategy;
use vstd::prelude::*;

verus! {

// ---------------------------------------------------------------------------
// Bodies.

/// The sizes that a tiled body is chosen from: small, around each size at
/// which the parameters of a level change, and past all of them.
pub const FUZZ_BODY_SIZES: [usize; 12] = [
    256,
    16383,
    16384,
    16385,
    131071,
    131072,
    131073,
    262143,
    262144,
    262145,
    327680,
    1572864,
];

/// The block sizes to choose from. Those that do not divide evenly leave a
/// short last block.
pub const FUZZ_BLOCK_SIZES: [usize; 8] = [1024, 1031, 4096, 5000, 16384, 65536, 131071, 131072];

/// The largest body of the levels up to four.
pub const FAST_BODY_CAP: usize = 1572864;

/// The largest body of the levels above four.
pub const THOROUGH_BODY_CAP: usize = 327680;

/// The negative levels to choose from.
pub const NEGATIVE_LEVELS: [i32; 10] = [-1, -2, -3, -5, -9, -17, -33, -1000, -100000, -131072];

/// The largest body that is compressed at a level.
pub open spec fn body_cap(level: CompressionLevel) -> nat {
    if level.level <= 4 {
        FAST_BODY_CAP as nat
    } else {
        THOROUGH_BODY_CAP as nat
    }
}

/// The largest body that is compressed at a level. The fast families take
/// bodies that outgrow their window; the others only go far enough to leave the
/// parameters of small sources.
pub fn body_cap_for(level: CompressionLevel) -> (r: usize)
    ensures
        r == body_cap(level),
{
    if level.as_i32() <= 4 {
        FAST_BODY_CAP
    } else {
        THOROUGH_BODY_CAP
    }
}

/// The level that a control byte names: the ordinary levels take the low 22
/// residues of 32, the negative ones the rest.
pub open spec fn level_named(byte: u8) -> int {
    let slot = byte as int % 32;
    if slot < 22 {
        1 + slot
    } else {
        NEGATIVE_LEVELS@[slot - 22] as int
    }
}

/// The level that a control byte names.
pub fn level_from(byte: u8) -> (r: CompressionLevel)
    ensures
        r.level == level_named(byte),
        r.wf(),
{
    let slot: u8 = byte % 32;
    let level: i32 = if slot < 22 {
        1 + slot as i32
    } else {
        NEGATIVE_LEVELS[(slot - 22) as usize]
    };
    CompressionLevel { level }
}

/// The control bytes at the front of an input and the bytes behind them, where
/// there are enough.
pub fn split_control(data: &[u8], n: usize) -> (r: Option<(&[u8], &[u8])>)
    ensures
        r is Some <==> n <= data@.len(),
        r matches Some((control, rest)) ==> control@ == data@.take(n as int) && rest@ == data@.skip(
            n as int,
        ),
{
    if data.len() < n {
        return None;
    }
    let control: &[u8] = &data[0..n];
    let rest: &[u8] = &data[n..data.len()];
    proof {
        assert(control@ =~= data@.take(n as int));
        assert(rest@ =~= data@.skip(n as int));
    }
    Some((control, rest))
}

/// What the changed byte of a tile is changed by.
pub open spec fn drift(tile: nat) -> u8 {
    (tile % 256) as u8 | 1u8
}

/// The first `n` bytes of a seed with one of them changed. Which one depends
/// on the tile's number, which a word holds.
pub open spec fn drifted(seed: Seq<u8>, tile: nat, n: nat) -> Seq<u8> {
    let at = (tile % 0x1_0000_0000) * 7 % n;
    seed.take(n as int).update(at as int, seed[at as int] ^ drift(tile))
}

/// A body of `left` bytes made of tiles from number `tile` on.
pub open spec fn tiles(seed: Seq<u8>, tile: nat, left: nat) -> Seq<u8>
    decreases left,
{
    if left == 0 || seed.len() == 0 {
        Seq::empty()
    } else {
        let n = if seed.len() < left {
            seed.len()
        } else {
            left
        };
        drifted(seed, tile, n) + tiles(seed, tile + 1, (left - n) as nat)
    }
}

/// Every tile differs from the bytes of the seed that it repeats.
pub proof fn law_every_tile_drifts(seed: Seq<u8>, tile: nat, n: nat)
    requires
        0 < n <= seed.len(),
    ensures
        drifted(seed, tile, n).len() == n,
        drifted(seed, tile, n) != seed.take(n as int),
        exists|at: int|
            0 <= at < n && (forall|i: int|
                0 <= i < n && i != at ==> #[trigger] drifted(seed, tile, n)[i] == seed[i])
                && #[trigger] drifted(seed, tile, n)[at] != seed[at],
{
    let at = ((tile % 0x1_0000_0000) * 7 % n) as int;
    let x = seed[at];
    let d = (tile % 256) as u8;
    assert(x ^ (d | 1u8) != x) by (bit_vector);
    assert(drifted(seed, tile, n)[at] != seed[at]);
    assert(seed.take(n as int)[at] == seed[at]);
}

/// Tiles add up to the size asked for.
pub proof fn law_tiles_fill(seed: Seq<u8>, tile: nat, left: nat)
    requires
        seed.len() > 0,
    ensures
        tiles(seed, tile, left).len() == left,
    decreases left,
{
    if left > 0 {
        let n = if seed.len() < left {
            seed.len()
        } else {
            left
        };
        law_tiles_fill(seed, tile + 1, (left - n) as nat);
    }
}

/// Grows a seed to `target` bytes by tiling it, changing one byte of each tile
/// so that the body repeats nearly rather than exactly.
pub fn tile_with_drift(seed: &[u8], target: usize) -> (r: Vec<u8>)
    requires
        seed@.len() > 0,
    ensures
        r@ == tiles(seed@, 0, target as nat),
        r@.len() == target,
{
    let mut out: Vec<u8> = Vec::new();
    let mut tile: u32 = 0;
    let ghost mut number: nat = 0;
    proof {
        law_tiles_fill(seed@, 0, target as nat);
        assert(out@ + tiles(seed@, 0, target as nat) =~= tiles(seed@, 0, target as nat));
    }
    while out.len() < target
        invariant
            seed@.len() > 0,
            out@.len() <= target,
            tile == number % 0x1_0000_0000,
            tiles(seed@, 0, target as nat).len() == target,
            out@ + tiles(seed@, number, (target - out@.len()) as nat) == tiles(
                seed@,
                0,
                target as nat,
            ),
        decreases target - out@.len(),
    {
        let start: usize = out.len();
        let left: usize = target - start;
        let take: usize = if seed.len() < left {
            seed.len()
        } else {
            left
        };
        let at: usize = (tile as u64 * 7 % take as u64) as usize;
        let change: u8 = (tile % 256) as u8 | 1u8;
        let ghost before = out@;
        out.extend_from_slice(&seed[0..take]);
        let byte: u8 = out[start + at] ^ change;
        out.set(start + at, byte);
        proof {
            let piece = drifted(seed@, number, take as nat);
            assert(number % 256 == tile % 256);
            assert(change == drift(number));
            assert(out@ =~= before + piece);
            let rest = tiles(seed@, number + 1, (left - take) as nat);
            assert(before + (piece + rest) =~= (before + piece) + rest);
            number = number + 1;
        }
        tile = tile.wrapping_add(1);
    }
    proof {
        assert(out@ + Seq::<u8>::empty() =~= out@);
    }
    out
}

/// How a seed becomes a body.
#[derive(Debug, Clone, Copy, PartialEq, Eq, Structural)]
pub enum BodyShape {
    /// The seed itself, cut to the level's cap.
    Seed,
    /// The seed tiled up to a size that the level allows.
    Tiled { target: usize },
}

/// The shape that a flags byte names. The size takes the bits above the three
/// flags.
pub open spec fn shape_named(flags: u8, level: CompressionLevel) -> BodyShape {
    if flags / 4 % 2 == 0 {
        BodyShape::Seed
    } else {
        let size = FUZZ_BODY_SIZES@[flags as int / 8 % 12];
        BodyShape::Tiled {
            target: if size < body_cap(level) {
                size
            } else {
                body_cap(level) as usize
            },
        }
    }
}

/// The shape that a flags byte names.
pub fn body_shape_from(flags: u8, level: CompressionLevel) -> (r: BodyShape)
    ensures
        r == shape_named(flags, level),
{
    if flags / 4 % 2 == 0 {
        return BodyShape::Seed;
    }
    let size: usize = FUZZ_BODY_SIZES[(flags / 8) as usize % 12];
    let cap: usize = body_cap_for(level);
    BodyShape::Tiled {
        target: if size < cap {
            size
        } else {
            cap
        },
    }
}

/// At most `n` bytes of `seed`.
pub open spec fn capped(seed: Seq<u8>, n: nat) -> Seq<u8> {
    if seed.len() < n {
        seed
    } else {
        seed.take(n as int)
    }
}

/// The body that a seed becomes.
pub open spec fn shaped(seed: Seq<u8>, level: CompressionLevel, shape: BodyShape) -> Seq<u8> {
    match shape {
        BodyShape::Seed => capped(seed, body_cap(level)),
        BodyShape::Tiled { target } => if seed.len() == 0 || seed.len() >= target {
            capped(seed, target as nat)
        } else {
            tiles(seed, 0, target as nat)
        },
    }
}

fn cut(seed: &[u8], n: usize) -> (r: Vec<u8>)
    ensures
        r@ == capped(seed@, n as nat),
{
    let take: usize = if seed.len() < n {
        seed.len()
    } else {
        n
    };
    let mut out: Vec<u8> = Vec::new();
    out.extend_from_slice(&seed[0..take]);
    proof {
        assert(out@ =~= capped(seed@, n as nat));
    }
    out
}

/// The body that a seed becomes.
pub fn shape_body(seed: &[u8], level: CompressionLevel, shape: BodyShape) -> (r: Vec<u8>)
    ensures
        r@ == shaped(seed@, level, shape),
{
    match shape {
        BodyShape::Seed => cut(seed, body_cap_for(level)),
        BodyShape::Tiled { target } => {
            if seed.len() == 0 || seed.len() >= target {
                cut(seed, target)
            } else {
                tile_with_drift(seed, target)
            }
        },
    }
}

/// A body of the shape that a flags byte names is no larger than the level
/// allows.
pub proof fn law_bodies_are_capped(seed: Seq<u8>, flags: u8, level: CompressionLevel)
    ensures
        shaped(seed, level, shape_named(flags, level)).len() <= body_cap(level),
{
    match shape_named(flags, level) {
        BodyShape::Seed => {},
        BodyShape::Tiled { target } => {
            if seed.len() > 0 {
                law_tiles_fill(seed, 0, target as nat);
            }
        },
    }
}

// ---------------------------------------------------------------------------
// Parameters.

/// The largest table that is asked for, as a power of two.
pub const MAX_FUZZ_TABLE_LOG: u32 = 22;

/// The largest long-distance table, and the largest window beside one.
pub const MAX_FUZZ_LDM_LOG: u32 = 18;

/// The smallest window beside a long-distance table.
pub const MIN_FUZZ_LDM_LOG: u32 = 14;

/// The value that a byte picks.
pub open spec fn picked(bounds: ParameterBounds, byte: u8) -> u32 {
    (bounds.min + byte as int % (bounds.max - bounds.min + 1)) as u32
}

/// The value that a byte picks is one of the parameter's.
pub proof fn law_picks_are_within_bounds(bounds: ParameterBounds, byte: u8)
    requires
        bounds.wf(),
    ensures
        bounds.holds(picked(bounds, byte)),
{
}

/// The value that a byte picks.
pub fn within(bounds: ParameterBounds, byte: u8) -> (r: u32)
    requires
        bounds.wf(),
    ensures
        r == picked(bounds, byte),
        bounds.holds(r),
{
    let span: u32 = bounds.max - bounds.min + 1;
    bounds.min + byte as u32 % span
}

/// The byte with its bits moved up and those pushed out at the top put back in
/// at the bottom.
pub open spec fn rotated(byte: u8, by: u8) -> u8 {
    (byte << by) | (byte >> ((8 - by) as u8))
}

fn rotate(byte: u8, by: u8) -> (r: u8)
    requires
        0 < by < 8,
    ensures
        r == rotated(byte, by),
{
    (byte << by) | (byte >> (8 - by))
}

/// Whether a bit is set.
pub open spec fn bit_set(mask: u8, bit: nat) -> bool {
    mask as nat / vstd::arithmetic::power2::pow2(bit) % 2 == 1
}

fn has_bit(mask: u8, bit: u8) -> (r: bool)
    requires
        bit < 8,
    ensures
        r == bit_set(mask, bit as nat),
{
    proof {
        vstd::bits::lemma_u8_shr_is_div(mask, bit);
    }
    (mask >> bit) % 2 == 1
}

/// A value where it is wanted.
pub open spec fn wanted(on: bool, bounds: ParameterBounds, byte: u8, ceiling: u32) -> Option<u32> {
    if !on {
        None
    } else if picked(bounds, byte) > ceiling {
        Some(ceiling)
    } else {
        Some(picked(bounds, byte))
    }
}

fn pick(on: bool, bounds: ParameterBounds, byte: u8, ceiling: u32) -> (r: Option<u32>)
    requires
        bounds.wf(),
    ensures
        r == wanted(on, bounds, byte, ceiling),
{
    if !on {
        return None;
    }
    let value: u32 = within(bounds, byte);
    if value > ceiling {
        Some(ceiling)
    } else {
        Some(value)
    }
}

/// The window that stands beside a long-distance table.
pub open spec fn ldm_window(bounds: ParameterBounds, byte: u8) -> u32 {
    let value = picked(bounds, byte);
    if value < MIN_FUZZ_LDM_LOG {
        MIN_FUZZ_LDM_LOG
    } else if value > MAX_FUZZ_LDM_LOG {
        MAX_FUZZ_LDM_LOG
    } else {
        value
    }
}

/// The row finder's mode that two bits name.
pub open spec fn row_mode(bits: int) -> RowMatchFinderMode {
    if bits == 1 {
        RowMatchFinderMode::Enabled
    } else if bits == 2 {
        RowMatchFinderMode::Disabled
    } else {
        RowMatchFinderMode::Auto
    }
}

/// The literals' mode that two bits name.
pub open spec fn literal_mode(bits: int) -> LiteralCompressionMode {
    if bits == 1 {
        LiteralCompressionMode::Enabled
    } else if bits == 2 {
        LiteralCompressionMode::Disabled
    } else {
        LiteralCompressionMode::Auto
    }
}

/// The parameters that control bytes name.
///
/// A bit of `mask` says whether a parameter is named at all, and the two value
/// bytes, turned differently for each parameter, pick its value. The lowest
/// bit of `ldm` turns the long-distance matcher on, which always names a
/// window of its own and without which its four parameters are not named.
/// `modes` holds the two modes, two bits each.
pub open spec fn overrides(
    mask: u8,
    first: u8,
    second: u8,
    ldm: u8,
    modes: u8,
    limits: ParameterLimits,
) -> ParameterOverrides {
    let matcher = bit_set(ldm, 0);
    ParameterOverrides {
        window_log: if matcher {
            Some(ldm_window(limits.window_log, first))
        } else {
            wanted(bit_set(mask, 0), limits.window_log, first, u32::MAX)
        },
        hash_log: wanted(bit_set(mask, 1), limits.hash_log, second, MAX_FUZZ_TABLE_LOG),
        chain_log: wanted(bit_set(mask, 2), limits.chain_log, rotated(first, 3), MAX_FUZZ_TABLE_LOG),
        search_log: wanted(bit_set(mask, 3), limits.search_log, rotated(second, 3), u32::MAX),
        min_match: wanted(bit_set(mask, 4), limits.min_match, rotated(first, 5), u32::MAX),
        target_length: wanted(bit_set(mask, 5), limits.target_length, rotated(second, 5), u32::MAX),
        strategy: if mask >= 64 {
            Some(Strategy::of_number((first ^ second) as int % 9))
        } else {
            None
        },
        use_row_match_finder: row_mode(modes as int % 4),
        literal_compression: literal_mode(modes as int / 4 % 4),
        long_distance_matching: if matcher {
            LdmMode::Enabled
        } else {
            LdmMode::Auto
        },
        ldm_hash_log: wanted(
            matcher && bit_set(ldm, 1),
            limits.ldm_hash_log,
            rotated(second, 1),
            MAX_FUZZ_LDM_LOG,
        ),
        ldm_min_match: wanted(
            matcher && bit_set(ldm, 2),
            limits.ldm_min_match,
            rotated(first, 1),
            u32::MAX,
        ),
        ldm_bucket_size_log: wanted(
            matcher && bit_set(ldm, 3),
            limits.ldm_bucket_size_log,
            rotated(second, 7),
            u32::MAX,
        ),
        ldm_hash_rate_log: wanted(
            matcher && bit_set(ldm, 4),
            limits.ldm_hash_rate_log,
            rotated(first, 7),
            u32::MAX,
        ),
    }
}

fn window_override(matcher: bool, mask: u8, bounds: ParameterBounds, byte: u8) -> (r: Option<u32>)
    requires
        bounds.wf(),
    ensures
        r == if matcher {
            Some(ldm_window(bounds, byte))
        } else {
            wanted(bit_set(mask, 0), bounds, byte, u32::MAX)
        },
{
    if !matcher {
        return pick(has_bit(mask, 0), bounds, byte, u32::MAX);
    }
    let value: u32 = within(bounds, byte);
    if value < MIN_FUZZ_LDM_LOG {
        Some(MIN_FUZZ_LDM_LOG)
    } else if value > MAX_FUZZ_LDM_LOG {
        Some(MAX_FUZZ_LDM_LOG)
    } else {
        Some(value)
    }
}

/// The parameters that control bytes name.
pub fn overrides_from(
    mask: u8,
    values: [u8; 2],
    ldm: u8,
    modes: u8,
    limits: &ParameterLimits,
) -> (r: ParameterOverrides)
    requires
        limits.wf(),
    ensures
        r == overrides(mask, values@[0], values@[1], ldm, modes, *limits),
{
    let first: u8 = values[0];
    let second: u8 = values[1];
    let matcher: bool = has_bit(ldm, 0);
    let any: u32 = u32::MAX;
    ParameterOverrides {
        window_log: window_override(matcher, mask, limits.window_log, first),
        hash_log: pick(has_bit(mask, 1), limits.hash_log, second, MAX_FUZZ_TABLE_LOG),
        chain_log: pick(has_bit(mask, 2), limits.chain_log, rotate(first, 3), MAX_FUZZ_TABLE_LOG),
        search_log: pick(has_bit(mask, 3), limits.search_log, rotate(second, 3), any),
        min_match: pick(has_bit(mask, 4), limits.min_match, rotate(first, 5), any),
        target_length: pick(has_bit(mask, 5), limits.target_length, rotate(second, 5), any),
        strategy: if mask >= 64 {
            Some(Strategy::from_number((first ^ second) % 9))
        } else {
            None
        },
        use_row_match_finder: match modes % 4 {
            1 => RowMatchFinderMode::Enabled,
            2 => RowMatchFinderMode::Disabled,
            _ => RowMatchFinderMode::Auto,
        },
        literal_compression: match modes / 4 % 4 {
            1 => LiteralCompressionMode::Enabled,
            2 => LiteralCompressionMode::Disabled,
            _ => LiteralCompressionMode::Auto,
        },
        long_distance_matching: if matcher {
            LdmMode::Enabled
        } else {
            LdmMode::Auto
        },
        ldm_hash_log: pick(
            matcher && has_bit(ldm, 1),
            limits.ldm_hash_log,
            rotate(second, 1),
            MAX_FUZZ_LDM_LOG,
        ),
        ldm_min_match: pick(
            matcher && has_bit(ldm, 2),
            limits.ldm_min_match,
            rotate(first, 1),
            any,
        ),
        ldm_bucket_size_log: pick(
            matcher && has_bit(ldm, 3),
            limits.ldm_bucket_size_log,
            rotate(second, 7),
            any,
        ),
        ldm_hash_rate_log: pick(
            matcher && has_bit(ldm, 4),
            limits.ldm_hash_rate_log,
            rotate(first, 7),
            any,
        ),
    }
}

/// The value is one that the parameter can have, or there is none.
pub open spec fn accepted(value: Option<u32>, bounds: ParameterBounds) -> bool {
    value matches Some(v) ==> bounds.holds(v)
}

/// Whatever the control bytes are, the parameters they name are ones that an
/// encoder accepts, as long as the ceilings used here are values of their
/// parameters.
pub proof fn law_overrides_are_accepted(
    mask: u8,
    first: u8,
    second: u8,
    ldm: u8,
    modes: u8,
    limits: ParameterLimits,
)
    requires
        limits.wf(),
        limits.hash_log.min <= MAX_FUZZ_TABLE_LOG,
        limits.chain_log.min <= MAX_FUZZ_TABLE_LOG,
        limits.ldm_hash_log.min <= MAX_FUZZ_LDM_LOG,
        limits.window_log.min <= MAX_FUZZ_LDM_LOG,
        limits.window_log.max >= MIN_FUZZ_LDM_LOG,
    ensures
        ({
            let o = overrides(mask, first, second, ldm, modes, limits);
            &&& accepted(o.window_log, limits.window_log)
            &&& accepted(o.hash_log, limits.hash_log)
            &&& accepted(o.chain_log, limits.chain_log)
            &&& accepted(o.search_log, limits.search_log)
            &&& accepted(o.min_match, limits.min_match)
            &&& accepted(o.target_length, limits.target_length)
            &&& accepted(o.ldm_hash_log, limits.ldm_hash_log)
            &&& accepted(o.ldm_min_match, limits.ldm_min_match)
            &&& accepted(o.ldm_bucket_size_log, limits.ldm_bucket_size_log)
            &&& accepted(o.ldm_hash_rate_log, limits.ldm_hash_rate_log)
        }),
{
}

/// With the long-distance matcher on, the window is always named and stays in
/// its band, and a table that is named stays small; with it off, none of its
/// parameters is named.
pub proof fn law_long_distance_is_bounded(
    mask: u8,
    first: u8,
    second: u8,
    ldm: u8,
    modes: u8,
    limits: ParameterLimits,
)
    requires
        limits.wf(),
    ensures
        ({
            let o = overrides(mask, first, second, ldm, modes, limits);
            if ldm % 2 == 1 {
                &&& o.long_distance_matching == LdmMode::Enabled
                &&& o.window_log matches Some(w) && MIN_FUZZ_LDM_LOG <= w <= MAX_FUZZ_LDM_LOG
                &&& o.ldm_hash_log matches Some(h) ==> h <= MAX_FUZZ_LDM_LOG
            } else {
                &&& o.long_distance_matching == LdmMode::Auto
                &&& o.ldm_hash_log is None
                &&& o.ldm_min_match is None
                &&& o.ldm_bucket_size_log is None
                &&& o.ldm_hash_rate_log is None
            }
        }),
{
    vstd::arithmetic::power2::lemma2_to64();
}

/// Every pairing of the two modes is named by some byte.
pub proof fn law_every_mode_is_reachable(
    rows: RowMatchFinderMode,
    literals: LiteralCompressionMode,
)
    ensures
        exists|modes: u8| #[trigger]
            row_mode(modes as int % 4) == rows && literal_mode(modes as int / 4 % 4) == literals,
{
    let low: u8 = match rows {
        RowMatchFinderMode::Auto => 0,
        RowMatchFinderMode::Enabled => 1,
        RowMatchFinderMode::Disabled => 2,
    };
    let high: u8 = match literals {
        LiteralCompressionMode::Auto => 0,
        LiteralCompressionMode::Enabled => 1,
        LiteralCompressionMode::Disabled => 2,
    };
    let modes: u8 = (low + 4 * high) as u8;
    assert(row_mode(modes as int % 4) == rows);
    assert(literal_mode(modes as int / 4 % 4) == literals);
}

} // verus!
