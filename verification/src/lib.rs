//! Zstandard frames, entropy coding and sequence execution, verified.
//!
//! Every function of this crate carries a contract that says what it returns
//! on every input, and the crate's laws are public proof functions next to the
//! code they are about.

pub mod block;
pub mod decode_out;
pub mod entropy;
pub mod error;
pub mod frame;
pub mod frame_laws;
pub mod fuzz;
pub mod fuzz_config;
pub mod fuzz_laws;
pub mod fuzz_plan;
pub mod header_laws;
pub mod io;
pub mod literals;
pub mod literals_laws;
pub mod options;
pub mod outbuf;
pub mod sequence;

pub use crate::block::parse_block_header;
pub use crate::block::BlockHeader;
pub use crate::block::BlockType;
pub use crate::block::BLOCK_SIZE_MAX;
pub use crate::error::Error;
pub use crate::error::Result;
pub use crate::frame::decompress_bound;
pub use crate::frame::decompress_bound_with_format;
pub use crate::frame::decompressed_size;
pub use crate::frame::decompressed_size_with_format;
pub use crate::frame::find_frame_compressed_size;
pub use crate::frame::find_frame_compressed_size_with_format;
pub use crate::frame::parse_frame_header;
pub use crate::frame::parse_frame_header_with_format;
pub use crate::frame::write_skippable_frame;
pub use crate::frame::Format;
pub use crate::frame::FrameHeader;
pub use crate::frame::SkippableFrame;
pub use crate::frame::ZstandardFrameHeader;
pub use crate::frame::ZSTD_MAGIC_NUMBER;
pub use crate::literals::parse_literals_section_layout;
pub use crate::literals::LiteralsSectionLayout;
pub use crate::options::CompressionLevel;
pub use crate::options::EncoderOptions;
pub use crate::options::LdmMode;
pub use crate::options::LiteralCompressionMode;
pub use crate::options::ParameterBounds;
pub use crate::options::ParameterOverrides;
pub use crate::options::RowMatchFinderMode;
pub use crate::options::Strategy;
