//! Bit streams, histograms and the two entropy coders.

pub mod bits;
pub mod bitstream;
pub mod fse;
pub mod fse_cost;
pub mod fse_laws;
pub mod fse_stream;
pub mod hist;
pub mod huff_build;
pub mod huff_code;
pub mod huff_compress;
pub mod huff_compress_laws;
pub mod huff_decode;
pub mod huff_describe;
pub mod huff_double;
pub mod huff_header;
pub mod huff_laws;
pub mod huff_limit;
pub mod huff_sort;
pub mod huff_stream;
pub mod huff_table;
pub mod huff_tree;
pub mod mem;
pub mod ncount;
pub mod ncount_laws;
pub mod normalize;
pub mod normalize_laws;
pub mod spread;
pub mod tally;
