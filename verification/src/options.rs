//! How an encoder is configured: the level, the frame's header fields, and the
//! parameters that take the place of the level's own.

use crate::frame::Format;
use vstd::prelude::*;

verus! {

/// The lowest level: fast mode at its fastest.
pub const LEVEL_MIN: i32 = -131072;

/// The highest level.
pub const LEVEL_MAX: i32 = 22;

/// How thorough a parser is. The levels from one on are progressively more
/// thorough; the negative ones trade ratio for speed.
#[derive(Debug, Clone, Copy, PartialEq, Eq, Structural)]
pub struct CompressionLevel {
    pub level: i32,
}

impl CompressionLevel {
    /// The level is one that there is.
    pub open spec fn wf(self) -> bool {
        LEVEL_MIN <= self.level <= LEVEL_MAX
    }

    /// The level with a number, where there is one.
    pub fn try_new(level: i32) -> (r: Option<CompressionLevel>)
        ensures
            LEVEL_MIN <= level <= LEVEL_MAX ==> r == Some(CompressionLevel { level }),
            !(LEVEL_MIN <= level <= LEVEL_MAX) ==> r is None,
    {
        if LEVEL_MIN <= level && level <= LEVEL_MAX {
            Some(CompressionLevel { level })
        } else {
            None
        }
    }

    /// The level's number.
    pub fn as_i32(self) -> (r: i32)
        ensures
            r == self.level,
    {
        self.level
    }
}

/// The parser families.
#[derive(Debug, Clone, Copy, PartialEq, Eq, Structural)]
pub enum Strategy {
    Fast,
    DoubleFast,
    Greedy,
    Lazy,
    Lazy2,
    BinaryTreeLazy2,
    BinaryTreeOpt,
    BinaryTreeUltra,
    BinaryTreeUltra2,
}

impl Strategy {
    /// The family with a number, the fastest being number zero.
    pub open spec fn of_number(n: int) -> Strategy {
        if n == 0 {
            Strategy::Fast
        } else if n == 1 {
            Strategy::DoubleFast
        } else if n == 2 {
            Strategy::Greedy
        } else if n == 3 {
            Strategy::Lazy
        } else if n == 4 {
            Strategy::Lazy2
        } else if n == 5 {
            Strategy::BinaryTreeLazy2
        } else if n == 6 {
            Strategy::BinaryTreeOpt
        } else if n == 7 {
            Strategy::BinaryTreeUltra
        } else {
            Strategy::BinaryTreeUltra2
        }
    }

    /// The family with a number, the fastest being number zero.
    pub fn from_number(n: u8) -> (r: Strategy)
        requires
            n < 9,
        ensures
            r == Strategy::of_number(n as int),
    {
        match n {
            0 => Strategy::Fast,
            1 => Strategy::DoubleFast,
            2 => Strategy::Greedy,
            3 => Strategy::Lazy,
            4 => Strategy::Lazy2,
            5 => Strategy::BinaryTreeLazy2,
            6 => Strategy::BinaryTreeOpt,
            7 => Strategy::BinaryTreeUltra,
            _ => Strategy::BinaryTreeUltra2,
        }
    }
}

/// Whether matches beyond the parser's reach are looked for.
#[derive(Debug, Clone, Copy, PartialEq, Eq, Structural)]
pub enum LdmMode {
    Auto,
    Enabled,
}

/// Whether hash tables are searched by rows.
#[derive(Debug, Clone, Copy, PartialEq, Eq, Structural)]
pub enum RowMatchFinderMode {
    Auto,
    Enabled,
    Disabled,
}

/// Whether literals are coded.
#[derive(Debug, Clone, Copy, PartialEq, Eq, Structural)]
pub enum LiteralCompressionMode {
    Auto,
    Enabled,
    Disabled,
}

/// The values that a parameter can have, both ends among them.
#[derive(Debug, Clone, Copy, PartialEq, Eq, Structural)]
pub struct ParameterBounds {
    pub min: u32,
    pub max: u32,
}

impl ParameterBounds {
    /// There is a value, and the number of values fits in a word.
    pub open spec fn wf(self) -> bool {
        self.min <= self.max && self.max - self.min < u32::MAX
    }

    /// The value is one of them.
    pub open spec fn holds(self, value: u32) -> bool {
        self.min <= value <= self.max
    }
}

/// The values that each parameter can have.
#[derive(Debug, Clone, Copy, PartialEq, Eq, Structural)]
pub struct ParameterLimits {
    pub window_log: ParameterBounds,
    pub hash_log: ParameterBounds,
    pub chain_log: ParameterBounds,
    pub search_log: ParameterBounds,
    pub min_match: ParameterBounds,
    pub target_length: ParameterBounds,
    pub ldm_hash_log: ParameterBounds,
    pub ldm_min_match: ParameterBounds,
    pub ldm_bucket_size_log: ParameterBounds,
    pub ldm_hash_rate_log: ParameterBounds,
}

impl ParameterLimits {
    /// Every parameter can have a value.
    pub open spec fn wf(self) -> bool {
        &&& self.window_log.wf()
        &&& self.hash_log.wf()
        &&& self.chain_log.wf()
        &&& self.search_log.wf()
        &&& self.min_match.wf()
        &&& self.target_length.wf()
        &&& self.ldm_hash_log.wf()
        &&& self.ldm_min_match.wf()
        &&& self.ldm_bucket_size_log.wf()
        &&& self.ldm_hash_rate_log.wf()
    }
}

/// The parameters that take the place of the level's own.
#[derive(Debug, Clone, Copy, PartialEq, Eq, Structural)]
pub struct ParameterOverrides {
    pub window_log: Option<u32>,
    pub hash_log: Option<u32>,
    pub chain_log: Option<u32>,
    pub search_log: Option<u32>,
    pub min_match: Option<u32>,
    pub target_length: Option<u32>,
    pub strategy: Option<Strategy>,
    pub use_row_match_finder: RowMatchFinderMode,
    pub literal_compression: LiteralCompressionMode,
    pub long_distance_matching: LdmMode,
    pub ldm_hash_log: Option<u32>,
    pub ldm_min_match: Option<u32>,
    pub ldm_bucket_size_log: Option<u32>,
    pub ldm_hash_rate_log: Option<u32>,
}

/// How a frame is to be encoded.
#[derive(Debug, Clone, Copy, PartialEq, Eq, Structural)]
pub struct EncoderOptions {
    /// The largest block.
    pub block_size: usize,
    /// Whether the content is followed by its checksum.
    pub checksum: bool,
    /// Whether the header names the dictionary.
    pub write_dict_id: bool,
    pub compression_level: CompressionLevel,
    pub parameters: ParameterOverrides,
    /// The content size that the caller promises.
    pub pledged_src_size: Option<u64>,
    /// Whether the header declares the content size.
    pub write_content_size: bool,
    pub format: Format,
}

} // verus!
