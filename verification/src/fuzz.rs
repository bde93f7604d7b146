//! Entry points for a fuzzer: parsers that are run on arbitrary bytes.

use crate::block;
use crate::block::BLOCK_SIZE_MAX;
use crate::block::BlockHeader;
use crate::error::Error;
use crate::error::Result;
use crate::frame;
use crate::frame::Format;
use crate::frame::FrameHeader;
use crate::fuzz_plan;
use crate::literals;
use crate::literals::LiteralsState;
use crate::sequence::decode;
use crate::sequence::repeat::SequenceCommand;
use crate::sequence::section;
use crate::sequence::section::SequenceTablesState;
use crate::sequence::tables::TableTarget;
use vstd::prelude::*;

verus! {

/// Sections that hold more sequences than this are parsed and not decoded.
pub const MAX_FUZZ_SEQUENCE_COUNT: usize = 4096;

// ---------------------------------------------------------------------------
// Parsers on arbitrary bytes.

/// What follows a frame's header.
pub enum FrameContents {
    /// The header of the first block, or why there is none.
    Block(Result<BlockHeader>),
    /// A skippable frame's payload, and whether all of it is there.
    Payload(bool),
}

/// What follows the header of the frame at the start of `data`.
pub open spec fn frame_contents(data: Seq<u8>) -> Result<FrameContents> {
    match frame::frame_header(data, Format::Zstd1) {
        Err(e) => Err(e),
        Ok(FrameHeader::Zstandard(h)) => Ok(
            FrameContents::Block(block::block_header(data.skip(h.header_size as int))),
        ),
        Ok(FrameHeader::Skippable(f)) => Ok(
            FrameContents::Payload(f.header_size as nat + f.size as nat <= data.len()),
        ),
    }
}

/// Reads a frame's header and looks at what follows it.
pub fn frame_parse(data: &[u8]) -> (r: Result<FrameContents>)
    ensures
        r == frame_contents(data@),
{
    match frame::parse_frame_header(data)? {
        FrameHeader::Zstandard(h) => {
            let blocks: &[u8] = &data[h.header_size..data.len()];
            proof {
                assert(blocks@ =~= data@.skip(h.header_size as int));
            }
            Ok(FrameContents::Block(block::parse_block_header(blocks)))
        },
        FrameHeader::Skippable(f) => {
            let len: u128 = data.len() as u128;
            Ok(FrameContents::Payload(f.header_size as u128 + f.size as u128 <= len))
        },
    }
}

/// Where an input is cut in two.
pub open spec fn split_of(data: Seq<u8>) -> int {
    if data.len() == 0 {
        0
    } else {
        data[0] as int % (data.len() as int + 1)
    }
}

/// Where an input is cut in two.
pub fn split_point(data: &[u8]) -> (r: usize)
    ensures
        r == split_of(data@),
        r <= data@.len(),
{
    if data.len() == 0 {
        0
    } else {
        let parts: u128 = data.len() as u128 + 1;
        (data[0] as u128 % parts) as usize
    }
}

/// The two pieces of an input.
fn halves(data: &[u8]) -> (r: (&[u8], &[u8]))
    ensures
        r.0@ == data@.take(split_of(data@)),
        r.1@ == data@.skip(split_of(data@)),
{
    let at: usize = split_point(data);
    let first: &[u8] = &data[0..at];
    let second: &[u8] = &data[at..data.len()];
    proof {
        assert(first@ =~= data@.take(at as int));
        assert(second@ =~= data@.skip(at as int));
    }
    (first, second)
}

/// The result of decoding literals is what the decoding says.
pub open spec fn decoded_as(r: Result<(Vec<u8>, usize)>, expected: Result<(Seq<u8>, nat)>) -> bool {
    match expected {
        Err(e) => r == Err::<(Vec<u8>, usize), Error>(e),
        Ok((literals, size)) => r matches Ok(x) && x.0@ == literals && x.1 == size,
    }
}

/// Decodes the two pieces of an input as literals sections, the second with
/// the table that the first left.
pub fn literals_parse(data: &[u8]) -> (r: (Result<(Vec<u8>, usize)>, Result<(Vec<u8>, usize)>))
    ensures
        ({
            let at = split_of(data@);
            let first = literals::section_decoding(data@.take(at), BLOCK_SIZE_MAX as nat, None);
            let second = literals::section_decoding(
                data@.skip(at),
                BLOCK_SIZE_MAX as nat,
                first.kept,
            );
            decoded_as(r.0, first.result) && decoded_as(r.1, second.result)
        }),
{
    let (first, second) = halves(data);
    let mut state = LiteralsState::default();
    let a = literals::decode_literals_section(first, &mut state, BLOCK_SIZE_MAX);
    let b = literals::decode_literals_section(second, &mut state, BLOCK_SIZE_MAX);
    (a, b)
}

/// The sequences of a section, where there are not too many of them.
pub open spec fn chunk_sequences(data: Seq<u8>, before: section::KeptTables) -> Result<
    Option<Seq<SequenceCommand>>,
> {
    match section::section_header(data, before) {
        Err(e) => Err(e),
        Ok(h) => if h.count > MAX_FUZZ_SEQUENCE_COUNT {
            Ok(None)
        } else if h.count == 0 {
            Ok(Some(Seq::empty()))
        } else {
            match decode::section_sequences(h.count, h.kept, data.skip(h.size as int)) {
                Err(e) => Err(e),
                Ok(sequences) => Ok(Some(sequences)),
            }
        },
    }
}

/// The result of decoding sequences is what the decoding says.
pub open spec fn sequences_as(
    r: Result<Option<Vec<SequenceCommand>>>,
    expected: Result<Option<Seq<SequenceCommand>>>,
) -> bool {
    match expected {
        Err(e) => r == Err::<Option<Vec<SequenceCommand>>, Error>(e),
        Ok(None) => r == Ok::<Option<Vec<SequenceCommand>>, Error>(None),
        Ok(Some(sequences)) => r matches Ok(Some(x)) && x@ == sequences,
    }
}

/// Parses a sequences section and decodes it, unless it holds too many
/// sequences.
pub fn parse_sequence_chunk(data: &[u8], tables: &mut SequenceTablesState) -> (r: Result<
    Option<Vec<SequenceCommand>>,
>)
    requires
        old(tables).wf(),
        old(tables).plain() == old(tables).kept(),
    ensures
        final(tables).wf(),
        final(tables).plain() == final(tables).kept(),
        final(tables).kept() == section::section_tables(data@, old(tables).kept()),
        sequences_as(r, chunk_sequences(data@, old(tables).kept())),
{
    let parsed = section::parse_sequence_section(data, tables, TableTarget::Both)?;
    if parsed.number_of_sequences > MAX_FUZZ_SEQUENCE_COUNT {
        return Ok(None);
    }
    let sequences: Vec<SequenceCommand> = decode::decode_sequence_commands(&parsed, tables)?;
    Ok(Some(sequences))
}

/// No tables at all.
pub open spec fn no_tables() -> section::KeptTables {
    section::KeptTables { ll: None, of: None, ml: None }
}

/// Decodes the two pieces of an input as sequences sections, the second with
/// the tables that the first left.
pub fn sequence_parse(data: &[u8]) -> (r: (
    Result<Option<Vec<SequenceCommand>>>,
    Result<Option<Vec<SequenceCommand>>>,
))
    ensures
        ({
            let at = split_of(data@);
            let left = section::section_tables(data@.take(at), no_tables());
            &&& sequences_as(r.0, chunk_sequences(data@.take(at), no_tables()))
            &&& sequences_as(r.1, chunk_sequences(data@.skip(at), left))
        }),
{
    let (first, second) = halves(data);
    let mut tables = SequenceTablesState::default();
    let a = parse_sequence_chunk(first, &mut tables);
    let b = parse_sequence_chunk(second, &mut tables);
    (a, b)
}

// ---------------------------------------------------------------------------
// What whole decoders are held to. Each of these takes what the decoders gave
// and says whether they agree.

/// Whether two byte strings are equal.
pub fn same_bytes(a: &[u8], b: &[u8]) -> (r: bool)
    ensures
        r == (a@ == b@),
{
    if a.len() != b.len() {
        return false;
    }
    let mut i: usize = 0;
    while i < a.len()
        invariant
            i <= a@.len() == b@.len(),
            forall|k: int| 0 <= k < i ==> a@[k] == b@[k],
        decreases a@.len() - i,
    {
        if a[i] != b[i] {
            return false;
        }
        i = i + 1;
    }
    proof {
        assert(a@ =~= b@);
    }
    true
}

/// Holds a decoder that accepts a single frame to one that accepts any number
/// of them: whatever the strict one accepts, the other decodes to the same
/// bytes.
pub fn full_decode(relaxed: &Result<Vec<u8>>, strict: &Result<Vec<u8>>) -> (r: bool)
    ensures
        r == match strict {
            Err(_) => true,
            Ok(s) => relaxed matches Ok(bytes) && bytes@ == s@,
        },
{
    match (relaxed, strict) {
        (_, Err(_)) => true,
        (Ok(bytes), Ok(s)) => same_bytes(bytes.as_slice(), s.as_slice()),
        (Err(_), Ok(_)) => false,
    }
}

/// How many bytes stand behind a destination to show a write past its end.
pub const GUARD: usize = 64;

/// What each of them holds.
pub const GUARD_BYTE: u8 = 0xA5;

/// A destination of `len` bytes after a decode into it: what the decode
/// returned, and the bytes of the destination and of the guard behind it.
pub struct SliceDecode {
    pub outcome: Result<usize>,
    pub backing: Vec<u8>,
}

/// The guard behind a destination of `len` bytes is whole.
pub open spec fn guarded(backing: Seq<u8>, len: nat) -> bool {
    &&& backing.len() == len + GUARD
    &&& forall|i: int| len <= i < len + GUARD ==> #[trigger] backing[i] == GUARD_BYTE
}

fn guard_is_whole(backing: &[u8], len: usize) -> (r: bool)
    ensures
        r == guarded(backing@, len as nat),
{
    if backing.len() < GUARD || backing.len() - GUARD != len {
        return false;
    }
    let mut i: usize = len;
    while i < backing.len()
        invariant
            len <= i <= backing@.len() == len + GUARD,
            forall|k: int| len <= k < i ==> #[trigger] backing@[k] == GUARD_BYTE,
        decreases backing@.len() - i,
    {
        if backing[i] != GUARD_BYTE {
            return false;
        }
        i = i + 1;
    }
    true
}

/// Holds decodes into a destination to what a growing decode gave: one of
/// exactly that size is filled, one a byte shorter is refused, and neither
/// touches the guard.
pub fn slice_decode(expected: &[u8], exact: &SliceDecode, short: Option<&SliceDecode>) -> (r: bool)
    requires
        expected@.len() > 0 ==> short is Some,
    ensures
        r == {
            &&& exact.outcome == Ok::<usize, Error>(expected@.len() as usize)
            &&& guarded(exact.backing@, expected@.len())
            &&& exact.backing@.take(expected@.len() as int) == expected@
            &&& expected@.len() > 0 ==> {
                &&& short->0.outcome == Err::<usize, Error>(Error::DstSizeTooSmall)
                &&& guarded(short->0.backing@, (expected@.len() - 1) as nat)
            }
        },
{
    let len: usize = expected.len();
    let filled: bool = match exact.outcome {
        Ok(n) => n == len,
        Err(_) => false,
    };
    if !filled || !guard_is_whole(exact.backing.as_slice(), len) {
        return false;
    }
    let written: &[u8] = &exact.backing.as_slice()[0..len];
    proof {
        assert(written@ =~= exact.backing@.take(len as int));
    }
    if !same_bytes(written, expected) {
        return false;
    }
    if len == 0 {
        return true;
    }
    match short {
        Some(s) => {
            let refused: bool = match s.outcome {
                Err(Error::DstSizeTooSmall) => true,
                _ => false,
            };
            refused && guard_is_whole(s.backing.as_slice(), len - 1)
        },
        None => false,
    }
}

/// The pieces that a frame is fed to a streaming decoder in, in order: where
/// each starts and ends.
pub open spec fn pieces(len: nat, chunk: nat, from: nat) -> Seq<(usize, usize)>
    decreases len - from,
{
    if from >= len || chunk == 0 {
        Seq::empty()
    } else {
        let end = if from + chunk < len {
            from + chunk
        } else {
            len
        };
        seq![(from as usize, end as usize)] + pieces(len, chunk, end)
    }
}

/// Reads an input as a frame and the pieces it is fed to a streaming decoder
/// in. The first byte chooses their size; an empty input is declined.
pub fn streaming_decode(data: &[u8]) -> (r: Option<(&[u8], Vec<(usize, usize)>)>)
    ensures
        r is Some <==> data@.len() > 0,
        r matches Some((frame, cuts)) ==> {
            &&& frame@ == data@.skip(1)
            &&& cuts@ == pieces(
                frame@.len(),
                fuzz_plan::feed_size(data@[0], frame@.len()),
                0,
            )
        },
{
    if data.len() == 0 {
        return None;
    }
    let frame: &[u8] = &data[1..data.len()];
    let len: usize = frame.len();
    let chunk: usize = fuzz_plan::feed_size_for(data[0], len);
    let mut cuts: Vec<(usize, usize)> = Vec::new();
    let mut at: usize = 0;
    proof {
        assert(frame@ =~= data@.skip(1));
        assert(cuts@ + pieces(len as nat, chunk as nat, 0) =~= pieces(len as nat, chunk as nat, 0));
    }
    while at < len
        invariant
            at <= len,
            chunk > 0,
            cuts@ + pieces(len as nat, chunk as nat, at as nat) == pieces(
                len as nat,
                chunk as nat,
                0,
            ),
        decreases len - at,
    {
        let end: usize = if chunk < len - at {
            at + chunk
        } else {
            len
        };
        let ghost before = cuts@;
        cuts.push((at, end));
        proof {
            let rest = pieces(len as nat, chunk as nat, end as nat);
            assert(before + (seq![(at, end)] + rest) =~= cuts@ + rest);
        }
        at = end;
    }
    proof {
        assert(cuts@ + Seq::<(usize, usize)>::empty() =~= cuts@);
    }
    Some((frame, cuts))
}

/// The pieces follow one another without a gap and cover the frame.
pub proof fn law_pieces_cover_the_frame(len: nat, chunk: nat, from: nat)
    requires
        chunk > 0,
        from <= len <= usize::MAX,
    ensures
        ({
            let p = pieces(len, chunk, from);
            &&& from < len ==> p.len() > 0 && p[0].0 == from && p.last().1 == len
            &&& from == len ==> p.len() == 0
            &&& forall|i: int|
                0 <= i < p.len() ==> (#[trigger] p[i]).0 < p[i].1 <= len && p[i].1 - p[i].0 <= chunk
            &&& forall|i: int, j: int|
                0 <= i && j == i + 1 && j < p.len() ==> (#[trigger] p[i]).1 == (#[trigger] p[j]).0
        }),
    decreases len - from,
{
    if from < len {
        let end = if from + chunk < len {
            from + chunk
        } else {
            len
        };
        law_pieces_cover_the_frame(len, chunk, end);
        let rest = pieces(len, chunk, end);
        let p = pieces(len, chunk, from);
        assert(p =~= seq![(from as usize, end as usize)] + rest);
        assert forall|i: int, j: int| 0 <= i && j == i + 1 && j < p.len() implies (
        #[trigger] p[i]).1 == (#[trigger] p[j]).0 by {
            if i > 0 {
                assert(p[i] == rest[i - 1]);
                assert(p[j] == rest[j - 1]);
            } else {
                assert(p[j] == rest[0]);
            }
        }
        assert forall|i: int| 0 <= i < p.len() implies (#[trigger] p[i]).0 < p[i].1 <= len && p[i].1
            - p[i].0 <= chunk by {
            if i > 0 {
                assert(p[i] == rest[i - 1]);
            }
        }
        if rest.len() > 0 {
            assert(p.last() == rest.last());
        }
    }
}

} // verus!
