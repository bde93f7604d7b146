//! Streams of a prefix code: one stream, or four that share a jump table.
//!
//! A stream holds the codes of its symbols, the last symbol's first, so that
//! the reader meets them in order.

use crate::entropy::bits;
use crate::entropy::bits::Bits;
use crate::entropy::bitstream::{BitCStream, BitDStream, Reading, WORD_BYTES};
use crate::entropy::huff_code;
use crate::entropy::huff_table::{lemma_symbol_at, lemma_value_at, CTableX1, Code, DTableX1};
use crate::entropy::mem;
use crate::error::{Error, Result};
use vstd::arithmetic::div_mod::*;
use vstd::arithmetic::power2::*;
use vstd::prelude::*;

verus! {

// ---------------------------------------------------------------------------
// Writing.

/// The bits of the symbols from the `i`-th on.
pub open spec fn encoded(code: Code, src: Seq<u8>, i: nat) -> Bits
    decreases src.len() - i,
{
    if i >= src.len() {
        Bits::empty()
    } else {
        encoded(code, src, i + 1).push(code.value(src[i as int]), code.length(src[i as int]))
    }
}

/// The stream of the symbols, or nothing where it does not fit in `capacity`
/// bytes with a word to spare.
pub open spec fn one_stream(code: Code, src: Seq<u8>, capacity: nat) -> Seq<u8> {
    let b = encoded(code, src, 0);
    if capacity <= WORD_BYTES || src.len() == 0 || (b.len + 1) / 8 >= capacity - WORD_BYTES {
        Seq::empty()
    } else {
        bits::marked_bytes(b)
    }
}

proof fn lemma_length_bound(code: Code, s: u8)
    requires
        code.wf(),
    ensures
        code.length(s) <= 12,
        code.value(s) < pow2(code.length(s)),
        code.value(s) < 4096,
{
    lemma2_to64();
    if code.holds(s) {
        huff_code::lemma_symbol_places(code.weights, code.log, s as int);
        mem::lemma_pow2_monotone(code.length(s), 12);
    }
}

/// The bits of a well-formed code form a well-formed stack.
pub proof fn lemma_encoded_wf(code: Code, src: Seq<u8>, i: nat)
    requires
        code.wf(),
    ensures
        encoded(code, src, i).wf(),
        encoded(code, src, i).len <= 12 * src.len(),
        i <= src.len() ==> encoded(code, src, i).len <= 12 * (src.len() - i),
    decreases src.len() - i,
{
    lemma2_to64();
    if i < src.len() {
        lemma_encoded_wf(code, src, i + 1);
        lemma_length_bound(code, src[i as int]);
        bits::lemma_push_pop(
            encoded(code, src, i + 1),
            code.value(src[i as int]),
            code.length(src[i as int]),
        );
    }
}

/// Writes the symbols as one stream; the result is empty where they do not
/// fit.
pub fn compress_1x_using_ctable(capacity: usize, src: &[u8], ctable: &CTableX1) -> (r: Vec<u8>)
    requires
        ctable.wf(),
    ensures
        r@ == one_stream(ctable@, src@, capacity as nat),
{
    let len: usize = src.len();
    if capacity <= WORD_BYTES || len == 0 {
        return Vec::new();
    }
    let ghost code = ctable@;
    let mut out: BitCStream = match BitCStream::new(capacity) {
        Ok(stream) => stream,
        Err(_) => {
            return Vec::new();
        },
    };
    let mut at: usize = len;
    while at > 0
        invariant
            at <= len,
            len == src@.len(),
            ctable.wf(),
            code == ctable@,
            out.wf(),
            out.capacity() == capacity,
            out.pending() < 8,
            out@ == encoded(code, src@, at as nat),
        decreases at,
    {
        at = at - 1;
        let symbol: u8 = src[at];
        proof {
            lemma_length_bound(code, symbol);
            assert(ctable.entries@[symbol as int].nb_bits == code.length(symbol));
        }
        let entry = ctable.entries[symbol as usize];
        out.add_bits_fast(entry.val as u64, entry.nb_bits as u32);
        out.flush_bits();
    }
    let bytes: Vec<u8> = out.close();
    proof {
        if (encoded(code, src@, 0).len + 1) / 8 >= capacity - WORD_BYTES {
            assert(bytes@ == Seq::<u8>::empty());
        }
    }
    bytes
}

/// The smallest output that four streams are tried for.
pub const BLOCKBOUND_MIN: usize = 17;

/// The length of each of the first three of four segments.
pub open spec fn segment_size(n: nat) -> nat {
    (n + 3) / 4
}

/// One of the four segments of the symbols.
pub open spec fn segment(src: Seq<u8>, k: nat) -> Seq<u8> {
    let size = segment_size(src.len()) as int;
    if k == 0 {
        src.subrange(0, size)
    } else if k == 1 {
        src.subrange(size, 2 * size)
    } else if k == 2 {
        src.subrange(2 * size, 3 * size)
    } else {
        src.subrange(3 * size, src.len() as int)
    }
}

/// The first `k` of four streams, one behind the other; nothing where one of
/// them does not fit, or the length of one of the first three has more than
/// two bytes.
pub open spec fn streams_up_to(code: Code, src: Seq<u8>, capacity: nat, k: nat) -> Option<Seq<u8>>
    decreases k,
{
    if k == 0 {
        Some(Seq::empty())
    } else {
        match streams_up_to(code, src, capacity, (k - 1) as nat) {
            None => None,
            Some(before) => {
                let s = one_stream(
                    code,
                    segment(src, (k - 1) as nat),
                    (capacity - 6 - before.len()) as nat,
                );
                if s.len() == 0 || (k <= 3 && s.len() > 65535) {
                    None
                } else {
                    Some(before + s)
                }
            },
        }
    }
}

/// The jump table and the four streams of the symbols, or nothing where they
/// do not fit or there are too few symbols.
pub open spec fn four_streams(code: Code, src: Seq<u8>, capacity: nat) -> Seq<u8> {
    if capacity < BLOCKBOUND_MIN || src.len() < 12 {
        Seq::empty()
    } else {
        let s1 = streams_up_to(code, src, capacity, 1);
        let s2 = streams_up_to(code, src, capacity, 2);
        let s3 = streams_up_to(code, src, capacity, 3);
        let s4 = streams_up_to(code, src, capacity, 4);
        match s4 {
            None => Seq::empty(),
            Some(all) => bits::nat_bytes(s1->Some_0.len(), 2) + bits::nat_bytes(
                (s2->Some_0.len() - s1->Some_0.len()) as nat,
                2,
            ) + bits::nat_bytes((s3->Some_0.len() - s2->Some_0.len()) as nat, 2) + all,
        }
    }
}

/// A stream keeps at least a word of its capacity free.
pub proof fn lemma_one_stream_fits(code: Code, src: Seq<u8>, capacity: nat)
    requires
        code.wf(),
    ensures
        one_stream(code, src, capacity).len() > 0 ==> one_stream(code, src, capacity).len() + 7
            <= capacity,
{
    let b = encoded(code, src, 0);
    lemma_encoded_wf(code, src, 0);
    bits::lemma_stream_roundtrip(b);
}

/// Four streams leave room behind them.
pub proof fn lemma_streams_fit(code: Code, src: Seq<u8>, capacity: nat, k: nat)
    requires
        code.wf(),
        capacity >= 6,
    ensures
        streams_up_to(code, src, capacity, k) matches Some(s) ==> s.len() + 6 <= capacity,
    decreases k,
{
    if k > 0 {
        lemma_streams_fit(code, src, capacity, (k - 1) as nat);
        match streams_up_to(code, src, capacity, (k - 1) as nat) {
            None => {},
            Some(before) => {
                lemma_one_stream_fits(
                    code,
                    segment(src, (k - 1) as nat),
                    (capacity - 6 - before.len()) as nat,
                );
            },
        }
    }
}

fn write_segment_length(out: &mut Vec<u8>, value: usize)
    requires
        value <= 65535,
    ensures
        final(out)@ == old(out)@ + bits::nat_bytes(value as nat, 2),
{
    let bytes: Vec<u8> = mem::le_bytes(value as u64, 2);
    out.extend_from_slice(bytes.as_slice());
}

/// Writes the `k`-th of four streams behind the earlier ones, and returns its
/// length; zero where it does not fit.
fn append_stream(
    capacity: usize,
    part: &[u8],
    ctable: &CTableX1,
    k: usize,
    all: &mut Vec<u8>,
    Ghost(src): Ghost<Seq<u8>>,
) -> (r: usize)
    requires
        ctable.wf(),
        capacity >= 6,
        k < 4,
        part@ == segment(src, k as nat),
        streams_up_to(ctable@, src, capacity as nat, k as nat) == Some(old(all)@),
    ensures
        match streams_up_to(ctable@, src, capacity as nat, (k + 1) as nat) {
            None => r == 0,
            Some(next) => r > 0 && final(all)@ == next && r == next.len() - old(all)@.len() && (k < 3
                ==> r <= 65535),
        },
{
    proof {
        lemma_streams_fit(ctable@, src, capacity as nat, k as nat);
    }
    let stream: Vec<u8> = compress_1x_using_ctable(capacity - 6 - all.len(), part, ctable);
    if stream.len() == 0 || (k < 3 && stream.len() > 65535) {
        return 0;
    }
    all.extend_from_slice(stream.as_slice());
    stream.len()
}

/// Writes the symbols as four streams behind a jump table; the result is
/// empty where they do not fit or there are fewer than twelve symbols.
pub fn compress_4x_using_ctable(capacity: usize, src: &[u8], ctable: &CTableX1) -> (r: Vec<u8>)
    requires
        ctable.wf(),
    ensures
        r@ == four_streams(ctable@, src@, capacity as nat),
{
    let len: usize = src.len();
    if capacity < BLOCKBOUND_MIN || len < 12 {
        return Vec::new();
    }
    let size: usize = len / 4 + if len % 4 > 0 {
        1
    } else {
        0
    };
    proof {
        assert(size == segment_size(len as nat));
    }
    let ghost s = src@;
    let mut all: Vec<u8> = Vec::new();
    let n1: usize = append_stream(capacity, &src[0..size], ctable, 0, &mut all, Ghost(s));
    if n1 == 0 {
        return Vec::new();
    }
    let n2: usize = append_stream(capacity, &src[size..2 * size], ctable, 1, &mut all, Ghost(s));
    if n2 == 0 {
        return Vec::new();
    }
    let n3: usize = append_stream(
        capacity,
        &src[2 * size..3 * size],
        ctable,
        2,
        &mut all,
        Ghost(s),
    );
    if n3 == 0 {
        return Vec::new();
    }
    let n4: usize = append_stream(capacity, &src[3 * size..len], ctable, 3, &mut all, Ghost(s));
    if n4 == 0 {
        return Vec::new();
    }
    let mut out: Vec<u8> = Vec::new();
    write_segment_length(&mut out, n1);
    write_segment_length(&mut out, n2);
    write_segment_length(&mut out, n3);
    out.extend_from_slice(all.as_slice());
    proof {
        assert(out@ =~= four_streams(ctable@, src@, capacity as nat));
    }
    out
}

// ---------------------------------------------------------------------------
// Reading.

/// The first `n` symbols of what is left of a stream, and what is left then.
pub open spec fn decoded(code: Code, r: Reading, n: nat) -> (Seq<u8>, Reading)
    decreases n,
{
    if n == 0 {
        (Seq::empty(), r)
    } else {
        let s = code.symbol_at(r.look_fast(code.log));
        let rest = decoded(code, r.skip(code.length(s)), (n - 1) as nat);
        (seq![s] + rest.0, rest.1)
    }
}

/// What is wrong with a stream before any symbol is read.
pub open spec fn stream_error(src: Seq<u8>) -> Option<Error> {
    if src.len() == 0 {
        Some(Error::SrcSizeWrong)
    } else if src.last() == 0 {
        Some(Error::Corruption("bitstream end marker is zero"))
    } else {
        None
    }
}

/// Reads `n` symbols and appends them.
pub fn decode_stream_x1(out: &mut Vec<u8>, bit_d: &mut BitDStream, n: usize, dtable: &DTableX1)
    requires
        dtable.wf(),
        old(bit_d).wf(),
    ensures
        final(bit_d).wf(),
        final(out)@ == old(out)@ + decoded(dtable@, old(bit_d)@, n as nat).0,
        final(bit_d)@ == decoded(dtable@, old(bit_d)@, n as nat).1,
{
    let ghost code = dtable@;
    let ghost whole = decoded(code, bit_d@, n as nat);
    let ghost before = out@;
    let log: u32 = dtable.table_log as u32;
    let mut left: usize = n;
    proof {
        assert(before + whole.0 == out@ + whole.0);
    }
    while left > 0
        invariant
            left <= n,
            dtable.wf(),
            code == dtable@,
            log == code.log,
            bit_d.wf(),
            out@ + decoded(code, bit_d@, left as nat).0 == before + whole.0,
            decoded(code, bit_d@, left as nat).1 == whole.1,
        decreases left,
    {
        let ghost written = out@;
        bit_d.reload();
        let place: u64 = bit_d.look_bits_fast(log);
        proof {
            lemma2_to64();
            mem::lemma_pow2_monotone(log as nat, 12);
            lemma_symbol_at(code, place as nat);
        }
        let entry = dtable.entries[place as usize];
        out.push(entry.byte);
        bit_d.skip_bits(entry.nb_bits as u32);
        proof {
            let s = code.symbol_at(place as nat);
            let rest = decoded(code, bit_d@, (left - 1) as nat);
            assert(written.push(s) + rest.0 == written + (seq![s] + rest.0));
        }
        left = left - 1;
    }
    proof {
        assert(out@ + Seq::<u8>::empty() == out@);
    }
}

/// The symbols of a stream that holds `n` of them.
pub open spec fn stream_symbols(code: Code, src: Seq<u8>, n: nat) -> Result<Seq<u8>> {
    match stream_error(src) {
        Some(e) => Err(e),
        None => {
            let d = decoded(code, Reading::start(src), n);
            if d.1.finished() {
                Ok(d.0)
            } else {
                Err(Error::Corruption("Huff0 stream did not terminate cleanly"))
            }
        },
    }
}

/// Reads a stream of `n` symbols; every bit must belong to one of them.
pub fn decompress_1x1_using_dtable(n: usize, src: &[u8], dtable: &DTableX1) -> (r: Result<Vec<u8>>)
    requires
        dtable.wf(),
    ensures
        match stream_symbols(dtable@, src@, n as nat) {
            Ok(bytes) => r is Ok && r->Ok_0@ == bytes,
            Err(e) => r == Err::<Vec<u8>, Error>(e),
        },
{
    let mut bit_d: BitDStream = BitDStream::new(src)?;
    let mut out: Vec<u8> = Vec::new();
    decode_stream_x1(&mut out, &mut bit_d, n, dtable);
    if !bit_d.end_of_stream() {
        return Err(Error::Corruption("Huff0 stream did not terminate cleanly"));
    }
    proof {
        assert(out@ == decoded(dtable@, Reading::start(src@), n as nat).0);
    }
    Ok(out)
}

/// The length that the `k`-th field of a jump table gives.
pub open spec fn jump(src: Seq<u8>, k: int) -> nat {
    src[2 * k] as nat + 256 * src[2 * k + 1] as nat
}

/// What is wrong with the jump table of four streams of `n` symbols.
pub open spec fn jump_error(src: Seq<u8>, n: nat) -> Option<Error> {
    if src.len() < 10 {
        Some(Error::Corruption("truncated Huff0 4X stream"))
    } else if n < 6 {
        Some(Error::Corruption("Huff0 4X output too small to split"))
    } else if jump(src, 0) + jump(src, 1) + jump(src, 2) + 6 > src.len() {
        Some(Error::Corruption("invalid Huff0 4X segment lengths"))
    } else {
        None
    }
}

/// Where the `k`-th of four streams starts.
pub open spec fn stream_start(src: Seq<u8>, k: int) -> int {
    if k == 0 {
        6
    } else if k == 1 {
        6int + jump(src, 0)
    } else if k == 2 {
        6int + jump(src, 0) + jump(src, 1)
    } else if k == 3 {
        6int + jump(src, 0) + jump(src, 1) + jump(src, 2)
    } else {
        src.len() as int
    }
}

/// The `k`-th of four streams.
pub open spec fn stream(src: Seq<u8>, k: int) -> Seq<u8> {
    src.subrange(stream_start(src, k), stream_start(src, k + 1))
}

/// What is wrong with four streams of `n` symbols before any symbol is read.
pub open spec fn streams_error(src: Seq<u8>, n: nat) -> Option<Error> {
    if jump_error(src, n) is Some {
        jump_error(src, n)
    } else if stream_error(stream(src, 0)) is Some {
        stream_error(stream(src, 0))
    } else if stream_error(stream(src, 1)) is Some {
        stream_error(stream(src, 1))
    } else if stream_error(stream(src, 2)) is Some {
        stream_error(stream(src, 2))
    } else {
        stream_error(stream(src, 3))
    }
}

/// How many symbols the `k`-th of four streams holds.
pub open spec fn stream_length(n: nat, k: int) -> nat {
    if k < 3 {
        segment_size(n)
    } else {
        (n - 3 * segment_size(n)) as nat
    }
}

/// The symbols of four streams that hold `n` of them, given what each stream
/// decodes to.
pub open spec fn joined(
    d0: (Seq<u8>, Reading),
    d1: (Seq<u8>, Reading),
    d2: (Seq<u8>, Reading),
    d3: (Seq<u8>, Reading),
) -> Result<Seq<u8>> {
    if d0.1.finished() && d1.1.finished() && d2.1.finished() && d3.1.finished() {
        Ok(d0.0 + d1.0 + d2.0 + d3.0)
    } else {
        Err(Error::Corruption("Huff0 stream did not consume all bits"))
    }
}

/// The symbols of four streams that hold `n` of them.
pub open spec fn streams_symbols(code: Code, src: Seq<u8>, n: nat) -> Result<Seq<u8>> {
    match streams_error(src, n) {
        Some(e) => Err(e),
        None => joined(
            decoded(code, Reading::start(stream(src, 0)), stream_length(n, 0)),
            decoded(code, Reading::start(stream(src, 1)), stream_length(n, 1)),
            decoded(code, Reading::start(stream(src, 2)), stream_length(n, 2)),
            decoded(code, Reading::start(stream(src, 3)), stream_length(n, 3)),
        ),
    }
}

fn read_segment_length(src: &[u8], k: usize) -> (r: usize)
    requires
        k < 3,
        src@.len() >= 6,
    ensures
        r == jump(src@, k as int),
{
    src[2 * k] as usize + 256 * (src[2 * k + 1] as usize)
}

/// Where the streams start, and how many symbols each of the first three
/// holds.
pub struct FourStreams {
    pub start1: usize,
    pub start2: usize,
    pub start3: usize,
    pub segment: usize,
}

/// Reads the jump table of four streams of `n` symbols.
pub fn read_jump_table(n: usize, src: &[u8]) -> (r: Result<FourStreams>)
    ensures
        match jump_error(src@, n as nat) {
            Some(e) => r == Err::<FourStreams, Error>(e),
            None => r matches Ok(f) && f.start1 == stream_start(src@, 1) && f.start2
                == stream_start(src@, 2) && f.start3 == stream_start(src@, 3) && f.segment
                == segment_size(n as nat) && 3 * f.segment <= n && 6 <= f.start1 <= f.start2
                <= f.start3 <= src@.len(),
        },
{
    let len: usize = src.len();
    if len < 10 {
        return Err(Error::Corruption("truncated Huff0 4X stream"));
    }
    if n < 6 {
        return Err(Error::Corruption("Huff0 4X output too small to split"));
    }
    let length1: usize = read_segment_length(src, 0);
    let length2: usize = read_segment_length(src, 1);
    let length3: usize = read_segment_length(src, 2);
    if length1 + length2 + length3 + 6 > len {
        return Err(Error::Corruption("invalid Huff0 4X segment lengths"));
    }
    let segment: usize = n / 4 + if n % 4 > 0 {
        1
    } else {
        0
    };
    proof {
        assert(segment == segment_size(n as nat));
    }
    Ok(
        FourStreams {
            start1: 6 + length1,
            start2: 6 + length1 + length2,
            start3: 6 + length1 + length2 + length3,
            segment,
        },
    )
}

/// Reads four streams of `n` symbols; every bit must belong to one of them.
pub fn decompress_4x1_using_dtable(n: usize, src: &[u8], dtable: &DTableX1) -> (r: Result<Vec<u8>>)
    requires
        dtable.wf(),
    ensures
        match streams_symbols(dtable@, src@, n as nat) {
            Ok(bytes) => r is Ok && r->Ok_0@ == bytes,
            Err(e) => r == Err::<Vec<u8>, Error>(e),
        },
{
    let split: FourStreams = read_jump_table(n, src)?;
    let len: usize = src.len();
    let mut bit_d1: BitDStream = BitDStream::new(&src[6..split.start1])?;
    let mut bit_d2: BitDStream = BitDStream::new(&src[split.start1..split.start2])?;
    let mut bit_d3: BitDStream = BitDStream::new(&src[split.start2..split.start3])?;
    let mut bit_d4: BitDStream = BitDStream::new(&src[split.start3..len])?;
    let mut out: Vec<u8> = Vec::new();
    decode_stream_x1(&mut out, &mut bit_d1, split.segment, dtable);
    decode_stream_x1(&mut out, &mut bit_d2, split.segment, dtable);
    decode_stream_x1(&mut out, &mut bit_d3, split.segment, dtable);
    decode_stream_x1(&mut out, &mut bit_d4, n - 3 * split.segment, dtable);
    if !bit_d1.end_of_stream() || !bit_d2.end_of_stream() || !bit_d3.end_of_stream()
        || !bit_d4.end_of_stream() {
        return Err(Error::Corruption("Huff0 stream did not consume all bits"));
    }
    proof {
        let d0 = decoded(dtable@, Reading::start(stream(src@, 0)), stream_length(n as nat, 0));
        assert(Seq::<u8>::empty() + d0.0 == d0.0);
    }
    Ok(out)
}

// ---------------------------------------------------------------------------
// Laws.

/// Reading the symbols of a stream gives as many as were asked for.
pub proof fn lemma_decoded_length(code: Code, r: Reading, n: nat)
    ensures
        decoded(code, r, n).0.len() == n,
    decreases n,
{
    if n > 0 {
        let s = code.symbol_at(r.look_fast(code.log));
        lemma_decoded_length(code, r.skip(code.length(s)), (n - 1) as nat);
    }
}

/// Reading the codes of some symbols gives the symbols and uses up the bits.
proof fn lemma_decodes_encoded(code: Code, src: Seq<u8>, word: nat, i: nat)
    requires
        code.wf(),
        i <= src.len(),
        forall|k: int| 0 <= k < src.len() ==> code.holds(#[trigger] src[k]),
    ensures
        decoded(
            code,
            Reading::holding(encoded(code, src, i), word),
            (src.len() - i) as nat,
        ) == (src.skip(i as int), Reading::holding(Bits::empty(), word)),
    decreases src.len() - i,
{
    if i < src.len() {
        lemma_decodes_encoded(code, src, word, i + 1);
        let s = src[i as int];
        let rest = encoded(code, src, i + 1);
        let r = Reading::holding(encoded(code, src, i), word);
        let log = code.log;
        assert(code.holds(s));
        lemma_encoded_wf(code, src, i + 1);
        huff_code::lemma_symbol_places(code.weights, log, s as int);
        let n = code.length(s);
        bits::lemma_push_top(rest, code.value(s), n, log);
        lemma_value_at(code, s, rest.top((log - n) as nat));
        assert(r.skip(n) == Reading::holding(rest, word));
        assert(src.skip(i as int) == seq![s] + src.skip(i as int + 1));
    } else {
        assert(src.skip(i as int) == Seq::<u8>::empty());
    }
}

/// A stream of symbols that all have codes is read back as written.
pub proof fn law_one_stream_roundtrip(code: Code, src: Seq<u8>, capacity: nat)
    requires
        code.wf(),
        forall|k: int| 0 <= k < src.len() ==> code.holds(#[trigger] src[k]),
        one_stream(code, src, capacity).len() > 0,
    ensures
        stream_symbols(code, one_stream(code, src, capacity), src.len()) == Ok::<Seq<u8>, Error>(
            src,
        ),
{
    lemma_encoded_wf(code, src, 0);
    bits::lemma_stream_roundtrip(encoded(code, src, 0));
    let stream = bits::marked_bytes(encoded(code, src, 0));
    lemma_decodes_encoded(code, src, Reading::start(stream).word, 0);
    assert(src.skip(0) == src);
}

proof fn lemma_stream_reads_back(code: Code, src: Seq<u8>, capacity: nat)
    requires
        code.wf(),
        forall|k: int| 0 <= k < src.len() ==> code.holds(#[trigger] src[k]),
        one_stream(code, src, capacity).len() > 0,
    ensures
        stream_error(one_stream(code, src, capacity)) is None,
        decoded(code, Reading::start(one_stream(code, src, capacity)), src.len()).0 == src,
        decoded(code, Reading::start(one_stream(code, src, capacity)), src.len()).1.finished(),
{
    lemma_encoded_wf(code, src, 0);
    bits::lemma_stream_roundtrip(encoded(code, src, 0));
    let stream = bits::marked_bytes(encoded(code, src, 0));
    lemma_decodes_encoded(code, src, Reading::start(stream).word, 0);
    assert(src.skip(0) == src);
}

proof fn lemma_two_bytes(v: nat)
    requires
        v <= 65535,
    ensures
        bits::nat_bytes(v, 2).len() == 2,
        bits::nat_bytes(v, 2)[0] as nat + 256 * bits::nat_bytes(v, 2)[1] as nat == v,
{
    reveal_with_fuel(bits::nat_bytes, 3);
}

/// Four streams behind their jump table.
spec fn framed(s0: Seq<u8>, s1: Seq<u8>, s2: Seq<u8>, s3: Seq<u8>) -> Seq<u8> {
    bits::nat_bytes(s0.len(), 2) + bits::nat_bytes(s1.len(), 2) + bits::nat_bytes(s2.len(), 2) + (s0
        + s1 + s2 + s3)
}

/// The jump table finds the four streams.
#[verifier::spinoff_prover]
proof fn lemma_streams_found(s0: Seq<u8>, s1: Seq<u8>, s2: Seq<u8>, s3: Seq<u8>)
    requires
        s0.len() <= 65535,
        s1.len() <= 65535,
        s2.len() <= 65535,
    ensures
        jump(framed(s0, s1, s2, s3), 0) == s0.len(),
        jump(framed(s0, s1, s2, s3), 1) == s1.len(),
        jump(framed(s0, s1, s2, s3), 2) == s2.len(),
        stream(framed(s0, s1, s2, s3), 0) == s0,
        stream(framed(s0, s1, s2, s3), 1) == s1,
        stream(framed(s0, s1, s2, s3), 2) == s2,
        stream(framed(s0, s1, s2, s3), 3) == s3,
{
    let out = framed(s0, s1, s2, s3);
    lemma_two_bytes(s0.len());
    lemma_two_bytes(s1.len());
    lemma_two_bytes(s2.len());
    assert(out[0] == bits::nat_bytes(s0.len(), 2)[0]);
    assert(out[1] == bits::nat_bytes(s0.len(), 2)[1]);
    assert(out[2] == bits::nat_bytes(s1.len(), 2)[0]);
    assert(out[3] == bits::nat_bytes(s1.len(), 2)[1]);
    assert(out[4] == bits::nat_bytes(s2.len(), 2)[0]);
    assert(out[5] == bits::nat_bytes(s2.len(), 2)[1]);
    assert(stream(out, 0) =~= s0);
    assert(stream(out, 1) =~= s1);
    assert(stream(out, 2) =~= s2);
    assert(stream(out, 3) =~= s3);
}

/// The `k`-th of four streams.
spec fn part(code: Code, src: Seq<u8>, capacity: nat, k: nat) -> Seq<u8> {
    one_stream(
        code,
        segment(src, k),
        (capacity - 6 - streams_up_to(code, src, capacity, k)->Some_0.len()) as nat,
    )
}

/// Four streams consist of their parts.
#[verifier::spinoff_prover]
proof fn lemma_streams_are_parts(code: Code, src: Seq<u8>, capacity: nat)
    requires
        four_streams(code, src, capacity).len() > 0,
    ensures
        src.len() >= 12,
        forall|k: nat| k < 4 ==> (#[trigger] part(code, src, capacity, k)).len() > 0,
        forall|k: nat| k < 3 ==> (#[trigger] part(code, src, capacity, k)).len() <= 65535,
        four_streams(code, src, capacity) == framed(
            part(code, src, capacity, 0),
            part(code, src, capacity, 1),
            part(code, src, capacity, 2),
            part(code, src, capacity, 3),
        ),
{
    reveal_with_fuel(streams_up_to, 5);
    let s0 = part(code, src, capacity, 0);
    let s1 = part(code, src, capacity, 1);
    let s2 = part(code, src, capacity, 2);
    let s3 = part(code, src, capacity, 3);
    assert(streams_up_to(code, src, capacity, 4) is Some);
    assert(streams_up_to(code, src, capacity, 3) is Some);
    assert(streams_up_to(code, src, capacity, 2) is Some);
    assert(streams_up_to(code, src, capacity, 1) is Some);
    assert(streams_up_to(code, src, capacity, 1)->Some_0 == Seq::<u8>::empty() + s0);
    assert(Seq::<u8>::empty() + s0 =~= s0);
    assert(streams_up_to(code, src, capacity, 2)->Some_0 == s0 + s1);
    assert(streams_up_to(code, src, capacity, 3)->Some_0 == s0 + s1 + s2);
    assert(streams_up_to(code, src, capacity, 4)->Some_0 == s0 + s1 + s2 + s3);
}

proof fn lemma_segments(src: Seq<u8>)
    requires
        src.len() >= 12,
    ensures
        segment(src, 0) + segment(src, 1) + segment(src, 2) + segment(src, 3) == src,
{
    assert(segment(src, 0) + segment(src, 1) + segment(src, 2) + segment(src, 3) =~= src);
}

/// Each of four streams reads back as its segment.
proof fn lemma_part_reads_back(code: Code, src: Seq<u8>, capacity: nat, k: nat)
    requires
        code.wf(),
        src.len() >= 12,
        k < 4,
        forall|i: int| 0 <= i < src.len() ==> code.holds(#[trigger] src[i]),
        part(code, src, capacity, k).len() > 0,
    ensures
        ({
            let s = part(code, src, capacity, k);
            let d = decoded(code, Reading::start(s), stream_length(src.len(), k as int));
            &&& stream_error(s) is None
            &&& d.0 == segment(src, k)
            &&& d.1.finished()
        }),
{
    let size = segment_size(src.len()) as int;
    assert(segment(src, k).len() == stream_length(src.len(), k as int));
    assert forall|i: int| 0 <= i < segment(src, k).len() implies code.holds(
        #[trigger] segment(src, k)[i],
    ) by {
        assert(k == 0 || k == 1 || k == 2 || k == 3);
        assert(segment(src, k)[i] == src[k * size + i]);
    }
    lemma_stream_reads_back(
        code,
        segment(src, k),
        (capacity - 6 - streams_up_to(code, src, capacity, k)->Some_0.len()) as nat,
    );
}

/// What four streams read back is what their parts read back.
proof fn lemma_joined(code: Code, s0: Seq<u8>, s1: Seq<u8>, s2: Seq<u8>, s3: Seq<u8>, n: nat)
    requires
        n >= 12,
        0 < s0.len() <= 65535,
        0 < s1.len() <= 65535,
        0 < s2.len() <= 65535,
        0 < s3.len(),
        stream_error(s0) is None,
        stream_error(s1) is None,
        stream_error(s2) is None,
        stream_error(s3) is None,
    ensures
        streams_symbols(code, framed(s0, s1, s2, s3), n) == joined(
            decoded(code, Reading::start(s0), stream_length(n, 0)),
            decoded(code, Reading::start(s1), stream_length(n, 1)),
            decoded(code, Reading::start(s2), stream_length(n, 2)),
            decoded(code, Reading::start(s3), stream_length(n, 3)),
        ),
{
    let out = framed(s0, s1, s2, s3);
    lemma_streams_found(s0, s1, s2, s3);
    lemma_two_bytes(s0.len());
    lemma_two_bytes(s1.len());
    lemma_two_bytes(s2.len());
    assert(out.len() == 6 + s0.len() + s1.len() + s2.len() + s3.len());
    assert(jump_error(out, n) is None);
    assert(streams_error(out, n) is None);
}

/// Four streams of symbols that all have codes are read back as written.
#[verifier::spinoff_prover]
pub proof fn law_four_streams_roundtrip(code: Code, src: Seq<u8>, capacity: nat)
    requires
        code.wf(),
        forall|k: int| 0 <= k < src.len() ==> code.holds(#[trigger] src[k]),
        four_streams(code, src, capacity).len() > 0,
    ensures
        streams_symbols(code, four_streams(code, src, capacity), src.len()) == Ok::<
            Seq<u8>,
            Error,
        >(src),
{
    lemma_streams_are_parts(code, src, capacity);
    lemma_segments(src);
    let s0 = part(code, src, capacity, 0);
    let s1 = part(code, src, capacity, 1);
    let s2 = part(code, src, capacity, 2);
    let s3 = part(code, src, capacity, 3);
    lemma_part_reads_back(code, src, capacity, 0);
    lemma_part_reads_back(code, src, capacity, 1);
    lemma_part_reads_back(code, src, capacity, 2);
    lemma_part_reads_back(code, src, capacity, 3);
    lemma_joined(code, s0, s1, s2, s3, src.len());
}

} // verus!
