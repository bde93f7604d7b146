//! Decoding with whichever table suits an input.

use crate::entropy::huff_double;
use crate::entropy::huff_double::{
    decompress_1x2_using_dtable,
    decompress_4x2_using_dtable,
    DTableX2,
};
use crate::entropy::huff_header;
use crate::entropy::huff_header::{read_dtable_x1, read_dtable_x2};
use crate::entropy::huff_stream;
use crate::entropy::huff_stream::{decompress_1x1_using_dtable, decompress_4x1_using_dtable};
use crate::entropy::huff_table::{Code, DTableX1};
use crate::error::{Error, Result};
use vstd::prelude::*;

verus! {

/// What it costs to build the table with one symbol for each entry, for each
/// sixteenth of the compression ratio.
pub const SINGLE_BUILD_TIME: [u64; 16] = [
    0, 0, 150, 170, 177, 197, 221, 256, 359, 582, 688, 825, 976, 1180, 1377, 1412,
];

/// What it costs to decode 256 bytes with it.
pub const SINGLE_DECODE_TIME: [u64; 16] = [
    0, 0, 216, 205, 199, 194, 192, 189, 188, 187, 187, 186, 185, 186, 185, 185,
];

/// What it costs to build the table with two symbols for each entry.
pub const DOUBLE_BUILD_TIME: [u64; 16] = [
    1, 1, 381, 514, 539, 644, 735, 881, 1167, 1570, 1712, 1965, 2131, 2070, 1731, 1695,
];

/// What it costs to decode 256 bytes with it.
pub const DOUBLE_DECODE_TIME: [u64; 16] = [
    1, 1, 119, 112, 110, 107, 107, 106, 109, 114, 122, 136, 150, 175, 202, 202,
];

/// The compression ratio in sixteenths.
pub open spec fn ratio(regenerated: nat, compressed: nat) -> nat {
    if compressed >= regenerated {
        15
    } else {
        compressed * 16 / regenerated
    }
}

/// What decoding costs with the table of one symbol for each entry.
pub open spec fn single_time(regenerated: nat, compressed: nat) -> nat {
    let q = ratio(regenerated, compressed) as int;
    SINGLE_BUILD_TIME@[q] as nat + SINGLE_DECODE_TIME@[q] as nat * (regenerated / 256)
}

/// What decoding costs with the table of two symbols for each entry.
pub open spec fn double_time(regenerated: nat, compressed: nat) -> nat {
    let q = ratio(regenerated, compressed) as int;
    DOUBLE_BUILD_TIME@[q] as nat + DOUBLE_DECODE_TIME@[q] as nat * (regenerated / 256)
}

/// The table of two symbols for each entry is faster, with a small handicap
/// for its size.
pub open spec fn double_is_faster(regenerated: nat, compressed: nat) -> bool {
    let double = double_time(regenerated, compressed);
    regenerated > 0 && double + double / 32 < single_time(regenerated, compressed)
}

/// Whether the table of two symbols for each entry suits an input better.
pub fn prefers_double_symbol_decoder(regenerated_size: usize, compressed_size: usize) -> (r: bool)
    ensures
        r == double_is_faster(regenerated_size as nat, compressed_size as nat),
{
    if regenerated_size == 0 {
        return false;
    }
    let q: usize = if compressed_size >= regenerated_size {
        15
    } else {
        proof {
            let c = compressed_size as int;
            let n = regenerated_size as int;
            assert(c * 16 / n < 16) by (nonlinear_arith)
                requires
                    0 <= c < n,
            ;
            assert(0 <= c * 16 / n) by (nonlinear_arith)
                requires
                    0 <= c < n,
            ;
        }
        ((compressed_size as u128 * 16) / regenerated_size as u128) as usize
    };
    let units: u64 = (regenerated_size / 256) as u64;
    let single_build: u64 = SINGLE_BUILD_TIME[q];
    let single_rate: u64 = SINGLE_DECODE_TIME[q];
    let double_build: u64 = DOUBLE_BUILD_TIME[q];
    let double_rate: u64 = DOUBLE_DECODE_TIME[q];
    proof {
        assert(units <= 0xff_ffff_ffff_ffff);
        assert(q < 16);
        assert(single_build <= 1412 && single_rate <= 216 && double_build <= 2131 && double_rate
            <= 202);
        assert(single_rate as int * units as int <= 216 * 0xff_ffff_ffff_ffff) by (nonlinear_arith)
            requires
                0 <= single_rate <= 216,
                0 <= units <= 0xff_ffff_ffff_ffff,
        ;
        assert(double_rate as int * units as int <= 202 * 0xff_ffff_ffff_ffff) by (nonlinear_arith)
            requires
                0 <= double_rate <= 202,
                0 <= units <= 0xff_ffff_ffff_ffff,
        ;
        assert(0 <= single_rate as int * units as int) by (nonlinear_arith);
        assert(0 <= double_rate as int * units as int) by (nonlinear_arith);
    }
    let single: u64 = single_build + single_rate * units;
    let double: u64 = double_build + double_rate * units;
    double + double / 32 < single
}

/// A decoding table of either shape.
pub enum HuffmanDTable {
    Single(DTableX1),
    Double(DTableX2),
}

impl View for HuffmanDTable {
    type V = Code;

    open spec fn view(&self) -> Code {
        match self {
            HuffmanDTable::Single(table) => table@,
            HuffmanDTable::Double(table) => table@,
        }
    }
}

impl HuffmanDTable {
    /// The entries are those of the code.
    pub open spec fn wf(self) -> bool {
        match self {
            HuffmanDTable::Single(table) => table.wf(),
            HuffmanDTable::Double(table) => table.wf(),
        }
    }

    /// Reads a description into the slot, as a table of one symbol for each
    /// entry. The slot is empty where that fails.
    pub fn read_single(slot: &mut Option<HuffmanDTable>, src: &[u8]) -> (r: Result<usize>)
        ensures
            match huff_header::code_description(src@) {
                Err(e) => r == Err::<usize, Error>(e) && *final(slot) is None,
                Ok((code, size)) => r is Ok && r->Ok_0 == size && size <= src@.len() && (
                *final(slot) matches Some(t) && t is Single && t.wf() && t@ == code),
            },
    {
        match read_dtable_x1(src) {
            Ok((table, size)) => {
                *slot = Some(HuffmanDTable::Single(table));
                Ok(size)
            },
            Err(e) => {
                *slot = None;
                Err(e)
            },
        }
    }

    /// Reads a description into the slot, as a table of two symbols for each
    /// entry. The slot is empty where that fails.
    pub fn read_double(slot: &mut Option<HuffmanDTable>, src: &[u8]) -> (r: Result<usize>)
        ensures
            match huff_header::code_description(src@) {
                Err(e) => r == Err::<usize, Error>(e) && *final(slot) is None,
                Ok((code, size)) => r is Ok && r->Ok_0 == size && size <= src@.len() && (
                *final(slot) matches Some(t) && t is Double && t.wf() && t@ == code),
            },
    {
        match read_dtable_x2(src) {
            Ok((table, size)) => {
                *slot = Some(HuffmanDTable::Double(table));
                Ok(size)
            },
            Err(e) => {
                *slot = None;
                Err(e)
            },
        }
    }
}

/// What one stream of `n` symbols decodes to with a table of a shape.
pub open spec fn one_decoding(double: bool, code: Code, src: Seq<u8>, n: nat) -> Result<Seq<u8>> {
    if double {
        huff_double::stream_symbols(code, src, n)
    } else {
        huff_stream::stream_symbols(code, src, n)
    }
}

/// What four streams of `n` symbols decode to with a table of a shape.
pub open spec fn four_decoding(double: bool, code: Code, src: Seq<u8>, n: nat) -> Result<Seq<u8>> {
    if double {
        huff_double::streams_symbols(code, src, n)
    } else {
        huff_stream::streams_symbols(code, src, n)
    }
}

/// Reads one stream of `n` symbols.
pub fn decompress_1x_using_dtable(n: usize, src: &[u8], dtable: &HuffmanDTable) -> (r: Result<
    Vec<u8>,
>)
    requires
        dtable.wf(),
    ensures
        match one_decoding(dtable is Double, dtable@, src@, n as nat) {
            Ok(bytes) => r is Ok && r->Ok_0@ == bytes,
            Err(e) => r == Err::<Vec<u8>, Error>(e),
        },
{
    match dtable {
        HuffmanDTable::Single(table) => decompress_1x1_using_dtable(n, src, table),
        HuffmanDTable::Double(table) => decompress_1x2_using_dtable(n, src, table),
    }
}

/// Reads four streams of `n` symbols.
pub fn decompress_4x_using_dtable(n: usize, src: &[u8], dtable: &HuffmanDTable) -> (r: Result<
    Vec<u8>,
>)
    requires
        dtable.wf(),
    ensures
        match four_decoding(dtable is Double, dtable@, src@, n as nat) {
            Ok(bytes) => r is Ok && r->Ok_0@ == bytes,
            Err(e) => r == Err::<Vec<u8>, Error>(e),
        },
{
    match dtable {
        HuffmanDTable::Single(table) => decompress_4x1_using_dtable(n, src, table),
        HuffmanDTable::Double(table) => decompress_4x2_using_dtable(n, src, table),
    }
}

/// What a description and four streams behind it decode to, `n` symbols in
/// all. As many bytes as symbols are the symbols, and one byte is repeated.
pub open spec fn decompressed(src: Seq<u8>, n: nat) -> Result<Seq<u8>> {
    if n == 0 {
        Err(Error::DstSizeTooSmall)
    } else if src.len() > n {
        Err(Error::Corruption("Huff0 input larger than output"))
    } else if src.len() == n {
        Ok(src)
    } else if src.len() == 1 {
        Ok(Seq::new(n, |i: int| src[0]))
    } else {
        match huff_header::code_description(src) {
            Err(e) => Err(e),
            Ok((code, size)) => if size >= src.len() {
                Err(Error::SrcSizeWrong)
            } else {
                four_decoding(double_is_faster(n, src.len()), code, src.skip(size as int), n)
            },
        }
    }
}

/// Reads a description and four streams of `n` symbols behind it.
pub fn decompress_into(n: usize, src: &[u8]) -> (r: Result<Vec<u8>>)
    ensures
        match decompressed(src@, n as nat) {
            Ok(bytes) => r is Ok && r->Ok_0@ == bytes,
            Err(e) => r == Err::<Vec<u8>, Error>(e),
        },
{
    let len: usize = src.len();
    if n == 0 {
        return Err(Error::DstSizeTooSmall);
    }
    if len > n {
        return Err(Error::Corruption("Huff0 input larger than output"));
    }
    if len == n {
        let mut out: Vec<u8> = Vec::new();
        out.extend_from_slice(src);
        proof {
            assert(out@ =~= src@);
        }
        return Ok(out);
    }
    if len == 1 {
        let out: Vec<u8> = vec![src[0]; n];
        proof {
            assert(out@ =~= Seq::new(n as nat, |i: int| src@[0]));
        }
        return Ok(out);
    }
    let mut slot: Option<HuffmanDTable> = None;
    let double: bool = prefers_double_symbol_decoder(n, len);
    let size: usize = if double {
        HuffmanDTable::read_double(&mut slot, src)?
    } else {
        HuffmanDTable::read_single(&mut slot, src)?
    };
    if size >= len {
        return Err(Error::SrcSizeWrong);
    }
    proof {
        assert(src@.skip(size as int) =~= src@.subrange(size as int, len as int));
    }
    match slot {
        Some(table) => decompress_4x_using_dtable(n, &src[size..len], &table),
        None => Err(Error::Generic),
    }
}

/// Four streams decode alike with either table, wherever they decode with the
/// one of single symbols.
pub proof fn law_shapes_decode_alike(double: bool, code: Code, src: Seq<u8>, n: nat)
    requires
        code.wf(),
        huff_stream::streams_symbols(code, src, n) is Ok,
    ensures
        four_decoding(double, code, src, n) == huff_stream::streams_symbols(code, src, n),
{
    huff_double::law_double_streams_decode_alike(code, src, n);
}

} // verus!
