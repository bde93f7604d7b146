//! Block headers.

use crate::entropy::bits;
use crate::error::{Error, Result};
use crate::outbuf::OutBuf;
use vstd::prelude::*;

verus! {

/// Largest size that any block may decode to.
pub const BLOCK_SIZE_MAX: usize = 131072;

/// Size of a block header.
pub const BLOCK_HEADER_SIZE: usize = 3;

/// How a block's payload is to be read.
#[derive(Debug, Clone, Copy, PartialEq, Eq, Structural)]
pub enum BlockType {
    /// The payload is the output.
    Raw,
    /// The payload is one byte, to be repeated.
    Rle,
    /// The payload is a literals section and a sequences section.
    Compressed,
}

/// A block header: whether the block is the frame's last, its type, and its
/// size, which for an RLE block is the size of the output.
#[derive(Debug, Clone, Copy, PartialEq, Eq, Structural)]
pub struct BlockHeader {
    pub last_block: bool,
    pub block_type: BlockType,
    pub block_size: u32,
}

/// The header at the start of `src`.
pub open spec fn block_header(src: Seq<u8>) -> Result<BlockHeader> {
    if src.len() < 3 {
        Err(Error::UnexpectedEof)
    } else {
        let v = bits::bytes_value(src.take(3));
        let kind = (v / 2) % 4;
        if kind == 3 {
            Err(Error::Corruption("reserved block type"))
        } else {
            Ok(
                BlockHeader {
                    last_block: v % 2 == 1,
                    block_type: if kind == 0 {
                        BlockType::Raw
                    } else if kind == 1 {
                        BlockType::Rle
                    } else {
                        BlockType::Compressed
                    },
                    block_size: (v / 8) as u32,
                },
            )
        }
    }
}

/// The three bytes of a header.
pub open spec fn block_header_bytes(h: BlockHeader) -> Seq<u8> {
    let kind: nat = match h.block_type {
        BlockType::Raw => 0,
        BlockType::Rle => 1,
        BlockType::Compressed => 2,
    };
    let last: nat = if h.last_block {
        1
    } else {
        0
    };
    bits::nat_bytes(last + 2 * kind + 8 * h.block_size as nat, 3)
}

/// The number that three bytes spell.
pub fn read_u24_le(src: &[u8]) -> (r: u32)
    requires
        src@.len() >= 3,
    ensures
        r == bits::bytes_value(src@.take(3)),
        r < 16777216,
{
    proof {
        let s = src@.take(3);
        reveal_with_fuel(bits::bytes_value, 5);
        assert(s.drop_first().drop_first().drop_first() =~= Seq::<u8>::empty());
        assert(s.drop_first()[0] == s[1]);
        assert(s.drop_first().drop_first()[0] == s[2]);
    }
    src[0] as u32 + 256 * (src[1] as u32) + 65536 * (src[2] as u32)
}

/// Reads the header at the start of `src`.
pub fn parse_block_header(src: &[u8]) -> (r: Result<BlockHeader>)
    ensures
        r == block_header(src@),
{
    BlockHeader::parse(src)
}

impl BlockHeader {
    /// How many bytes follow the header.
    pub open spec fn payload(self) -> nat {
        match self.block_type {
            BlockType::Rle => 1,
            _ => self.block_size as nat,
        }
    }

    /// Reads the header at the start of `src`.
    pub fn parse(src: &[u8]) -> (r: Result<BlockHeader>)
        ensures
            r == block_header(src@),
            r matches Ok(h) ==> h.block_size < 2097152,
    {
        if src.len() < BLOCK_HEADER_SIZE {
            return Err(Error::UnexpectedEof);
        }
        let v: u32 = read_u24_le(src);
        let kind: u32 = (v / 2) % 4;
        if kind == 3 {
            return Err(Error::Corruption("reserved block type"));
        }
        let block_type = if kind == 0 {
            BlockType::Raw
        } else if kind == 1 {
            BlockType::Rle
        } else {
            BlockType::Compressed
        };
        Ok(BlockHeader { last_block: v % 2 == 1, block_type, block_size: v / 8 })
    }

    /// How many bytes follow the header.
    pub fn payload_size(&self) -> (r: usize)
        ensures
            r == self.payload(),
    {
        match self.block_type {
            BlockType::Rle => 1,
            BlockType::Raw => self.block_size as usize,
            BlockType::Compressed => self.block_size as usize,
        }
    }

    /// Writes the header.
    pub fn write_to(&self, dst: &mut OutBuf)
        requires
            self.block_size < 2097152,
            old(dst)@.wf(),
            old(dst)@.len() + 3 <= usize::MAX,
        ensures
            final(dst)@ == old(dst)@.append(block_header_bytes(*self)),
            final(dst)@.wf(),
    {
        let kind: u32 = match self.block_type {
            BlockType::Raw => 0,
            BlockType::Rle => 1,
            BlockType::Compressed => 2,
        };
        let last: u32 = if self.last_block {
            1
        } else {
            0
        };
        let v: u32 = last + 2 * kind + 8 * self.block_size;
        let bytes: [u8; 3] = [(v % 256) as u8, ((v / 256) % 256) as u8, (v / 65536) as u8];
        proof {
            reveal_with_fuel(bits::nat_bytes, 4);
            assert(v as nat / 256 / 256 == v as nat / 65536);
            assert(bytes@ =~= block_header_bytes(*self));
        }
        dst.extend_from_slice(bytes.as_slice());
    }
}

/// A block header that was written is read back, whatever follows it.
pub proof fn law_block_header_roundtrip(h: BlockHeader, rest: Seq<u8>)
    requires
        h.block_size < 2097152,
    ensures
        block_header(block_header_bytes(h) + rest) == Ok::<BlockHeader, Error>(h),
{
    let kind: nat = match h.block_type {
        BlockType::Raw => 0,
        BlockType::Rle => 1,
        BlockType::Compressed => 2,
    };
    let last: nat = if h.last_block {
        1
    } else {
        0
    };
    let v = last + 2 * kind + 8 * h.block_size as nat;
    bits::lemma_nat_bytes(v, 3);
    vstd::arithmetic::power2::lemma2_to64();
    assert(vstd::arithmetic::power2::pow2(8 * 3) == 16777216);
    assert(v % 16777216 == v);
    assert(v / 8 == h.block_size && (v / 2) % 4 == kind && v % 2 == last);
    let s = block_header_bytes(h) + rest;
    assert(s.take(3) =~= block_header_bytes(h));
}

} // verus!
