//! The decoding table whose entries hold up to two symbols.
//!
//! A table of `depth` bits may be deeper than its code. Where the bits behind
//! a symbol's code determine the next symbol too, the entry holds both.

use crate::entropy::bits;
use crate::entropy::bitstream;
use crate::entropy::bitstream::{BitDStream, Reading};
use crate::entropy::huff_code;
use crate::entropy::huff_code::TABLELOG_MAX;
use crate::entropy::huff_stream;
use crate::entropy::huff_stream::{read_jump_table, FourStreams};
use crate::entropy::huff_table::{
    build_dtable_x1,
    lemma_symbol_at,
    lemma_value_at,
    Code,
    DEltX1,
    DTableX1,
};
use crate::entropy::mem;
use crate::error::{Error, Result};
use vstd::arithmetic::div_mod::*;
use vstd::arithmetic::power2::*;
use vstd::prelude::*;

verus! {

/// The depth that shallower codes are expanded to.
pub const DECODER_FAST_TABLELOG: usize = 11;

/// The depth of the table of a code whose longest code has `log` bits.
pub open spec fn depth_of(log: nat) -> nat {
    if log <= DECODER_FAST_TABLELOG {
        DECODER_FAST_TABLELOG as nat
    } else {
        TABLELOG_MAX as nat
    }
}

/// The symbols that some bits determine, and how many bits they take.
pub struct Pair {
    pub first: u8,
    pub second: Option<u8>,
    pub bits: nat,
}

/// The place that `bits` bits of value `v` start.
pub open spec fn place_of(code: Code, v: nat, bits: nat) -> nat {
    if bits >= code.log {
        v / pow2((bits - code.log) as nat)
    } else {
        v * pow2((code.log - bits) as nat)
    }
}

/// The symbols that `depth` bits of value `u` determine.
pub open spec fn pair_at(code: Code, depth: nat, u: nat) -> Pair {
    let first = code.symbol_at(place_of(code, u, depth));
    let n = code.length(first);
    let left = (depth - n) as nat;
    let second = code.symbol_at(place_of(code, u % pow2(left), left));
    if code.length(second) <= left {
        Pair { first, second: Some(second), bits: n + code.length(second) }
    } else {
        Pair { first, second: None, bits: n }
    }
}

/// One entry of the table: the symbols in output order, the first in the low
/// byte, how many bits they take, and how many they are.
#[derive(Debug, Clone, Copy, PartialEq, Eq, Structural)]
pub struct DEltX2 {
    pub sequence: u16,
    pub nb_bits: u8,
    pub length: u8,
}

/// A decoding table whose entries hold up to two symbols.
pub struct DTableX2 {
    pub table_log: u8,
    pub entries: Vec<DEltX2>,
    pub code: Ghost<Code>,
}

impl View for DTableX2 {
    type V = Code;

    open spec fn view(&self) -> Code {
        self.code@
    }
}

/// The entry holds the symbols of the pair.
pub open spec fn is_pair(e: DEltX2, p: Pair) -> bool {
    &&& e.nb_bits == p.bits
    &&& match p.second {
        Some(s) => e.length == 2 && e.sequence == p.first + 256 * s,
        None => e.length == 1 && e.sequence == p.first,
    }
}

impl DTableX2 {
    /// The entries are those of the code.
    pub open spec fn wf(self) -> bool {
        &&& self@.wf()
        &&& self.table_log == depth_of(self@.log)
        &&& self.entries@.len() == pow2(self.table_log as nat)
        &&& forall|u: int|
            0 <= u < self.entries@.len() ==> is_pair(
                #[trigger] self.entries@[u],
                pair_at(self@, self.table_log as nat, u as nat),
            )
    }
}

/// A place of the code starts with the bits that it was made from.
proof fn lemma_place_of(code: Code, v: nat, bits: nat)
    requires
        code.wf(),
        v < pow2(bits),
    ensures
        place_of(code, v, bits) < pow2(code.log),
{
    if bits >= code.log {
        let d = (bits - code.log) as nat;
        lemma_pow2_pos(d);
        lemma_pow2_adds(d, code.log);
        lemma_multiply_divide_lt(v as int, pow2(d) as int, pow2(code.log) as int);
    } else {
        let d = (code.log - bits) as nat;
        lemma_pow2_pos(d);
        lemma_pow2_adds(bits, d);
        assert(v * pow2(d) < pow2(bits) * pow2(d)) by (nonlinear_arith)
            requires
                v < pow2(bits),
                pow2(d) > 0,
        ;
    }
}

fn symbol_entry(dtable: &DTableX1, v: u64, bits: u32) -> (r: DEltX1)
    requires
        dtable.wf(),
        (v as nat) < pow2(bits as nat),
        bits <= 12,
    ensures
        r.byte == dtable@.symbol_at(place_of(dtable@, v as nat, bits as nat)),
        r.nb_bits == dtable@.length(r.byte),
        1 <= r.nb_bits <= dtable@.log,
{
    let log: u32 = dtable.table_log as u32;
    proof {
        lemma_place_of(dtable@, v as nat, bits as nat);
        lemma2_to64();
        mem::lemma_pow2_monotone(log as nat, 12);
        lemma_symbol_at(dtable@, place_of(dtable@, v as nat, bits as nat));
    }
    let place: u64 = if bits >= log {
        mem::high_bits(v, bits - log)
    } else {
        let scale: u64 = mem::power_of_two(log - bits);
        v * scale
    };
    dtable.entries[place as usize]
}

/// The table of a code, of depth eleven or, for the deepest codes, twelve.
pub fn build_dtable_x2(weights: &[u8], log: u32) -> (r: DTableX2)
    requires
        huff_code::complete(weights@, log as nat),
    ensures
        r.wf(),
        r@ == (Code { weights: weights@, log: log as nat }),
{
    let single: DTableX1 = build_dtable_x1(weights, log);
    let ghost code = single@;
    let depth: u32 = if log as usize <= DECODER_FAST_TABLELOG {
        DECODER_FAST_TABLELOG as u32
    } else {
        TABLELOG_MAX as u32
    };
    let size: u64 = mem::power_of_two(depth);
    let mut entries: Vec<DEltX2> = Vec::new();
    let mut u: u64 = 0;
    proof {
        lemma2_to64();
        mem::lemma_pow2_monotone(depth as nat, 12);
    }
    while u < size
        invariant
            u <= size <= 4096,
            single.wf(),
            code == single@,
            code.log <= depth <= 12,
            size == pow2(depth as nat),
            entries@.len() == u,
            forall|k: int|
                0 <= k < u ==> is_pair(
                    #[trigger] entries@[k],
                    pair_at(code, depth as nat, k as nat),
                ),
        decreases size - u,
    {
        let first: DEltX1 = symbol_entry(&single, u, depth);
        let left: u32 = depth - first.nb_bits as u32;
        let low: u64 = mem::low_bits(u, left);
        let second: DEltX1 = symbol_entry(&single, low, left);
        if second.nb_bits as u32 <= left {
            entries.push(
                DEltX2 {
                    sequence: first.byte as u16 + 256 * (second.byte as u16),
                    nb_bits: first.nb_bits + second.nb_bits,
                    length: 2,
                },
            );
        } else {
            entries.push(
                DEltX2 { sequence: first.byte as u16, nb_bits: first.nb_bits, length: 1 },
            );
        }
        u = u + 1;
    }
    DTableX2 { table_log: depth as u8, entries, code: Ghost(code) }
}

/// The first `n` symbols of what is left of a stream, read through pairs, and
/// what is left then. Where the last symbol is the first of a pair, the bits
/// of the pair are taken as far as there are any.
pub open spec fn decoded(code: Code, depth: nat, r: Reading, n: nat) -> (Seq<u8>, Reading)
    decreases n,
{
    let p = pair_at(code, depth, r.look_fast(depth));
    if n == 0 {
        (Seq::empty(), r)
    } else {
        match p.second {
            None => {
                let rest = decoded(code, depth, r.skip(p.bits), (n - 1) as nat);
                (seq![p.first] + rest.0, rest.1)
            },
            Some(s) => if n == 1 {
                (seq![p.first], r.skip_at_most(p.bits))
            } else {
                let rest = decoded(code, depth, r.skip(p.bits), (n - 2) as nat);
                (seq![p.first, s] + rest.0, rest.1)
            },
        }
    }
}

fn entry_at(bit_d: &mut BitDStream, dtable: &DTableX2) -> (r: DEltX2)
    requires
        dtable.wf(),
        old(bit_d).wf(),
    ensures
        final(bit_d).wf(),
        final(bit_d)@ == old(bit_d)@,
        final(bit_d).register().ready(bitstream::READ_MAX as nat),
        is_pair(
            r,
            pair_at(
                dtable@,
                dtable.table_log as nat,
                old(bit_d)@.look_fast(dtable.table_log as nat),
            ),
        ),
        r.nb_bits <= 24,
{
    let depth: u32 = dtable.table_log as u32;
    bit_d.reload();
    let at: u64 = bit_d.look_bits_fast(depth);
    proof {
        lemma2_to64();
        mem::lemma_pow2_monotone(depth as nat, 12);
        lemma_pair_bits(dtable@, depth as nat, at as nat);
    }
    dtable.entries[at as usize]
}

proof fn lemma_pair_bits(code: Code, depth: nat, u: nat)
    requires
        code.wf(),
        code.log <= depth <= 12,
        u < pow2(depth),
    ensures
        pair_at(code, depth, u).bits <= depth,
        pair_at(code, depth, u).bits >= 1,
{
    lemma_place_of(code, u, depth);
    lemma_symbol_at(code, place_of(code, u, depth));
}

/// Reads `n` symbols and appends them.
pub fn decode_stream_x2(out: &mut Vec<u8>, bit_d: &mut BitDStream, n: usize, dtable: &DTableX2)
    requires
        dtable.wf(),
        old(bit_d).wf(),
    ensures
        final(bit_d).wf(),
        final(out)@ == old(out)@ + decoded(
            dtable@,
            dtable.table_log as nat,
            old(bit_d)@,
            n as nat,
        ).0,
        final(bit_d)@ == decoded(dtable@, dtable.table_log as nat, old(bit_d)@, n as nat).1,
{
    let ghost code = dtable@;
    let ghost depth = dtable.table_log as nat;
    let ghost whole = decoded(code, depth, bit_d@, n as nat);
    let ghost before = out@;
    let mut left: usize = n;
    while left > 1
        invariant
            left <= n,
            dtable.wf(),
            code == dtable@,
            depth == dtable.table_log,
            bit_d.wf(),
            out@ + decoded(code, depth, bit_d@, left as nat).0 == before + whole.0,
            decoded(code, depth, bit_d@, left as nat).1 == whole.1,
        decreases left,
    {
        let ghost r = bit_d@;
        let ghost written = out@;
        let entry: DEltX2 = entry_at(bit_d, dtable);
        out.push((entry.sequence % 256) as u8);
        if entry.length == 2 {
            out.push((entry.sequence / 256) as u8);
        }
        bit_d.skip_bits(entry.nb_bits as u32);
        proof {
            let p = pair_at(code, depth, r.look_fast(depth));
            if entry.length == 2 {
                let s = p.second->Some_0;
                let rest = decoded(code, depth, bit_d@, (left - 2) as nat);
                assert(written.push(p.first).push(s) + rest.0 == written + (seq![p.first, s]
                    + rest.0));
            } else {
                let rest = decoded(code, depth, bit_d@, (left - 1) as nat);
                assert(written.push(p.first) + rest.0 == written + (seq![p.first] + rest.0));
            }
        }
        left = left - entry.length as usize;
    }
    if left > 0 {
        decode_last_symbol_x2(out, bit_d, dtable);
    }
    proof {
        assert(out@ + Seq::<u8>::empty() == out@);
        assert(out@ == before + whole.0);
    }
}

/// Reads the last symbol of a stream and appends it.
fn decode_last_symbol_x2(out: &mut Vec<u8>, bit_d: &mut BitDStream, dtable: &DTableX2)
    requires
        dtable.wf(),
        old(bit_d).wf(),
    ensures
        final(bit_d).wf(),
        final(out)@ == old(out)@ + decoded(dtable@, dtable.table_log as nat, old(bit_d)@, 1).0,
        final(bit_d)@ == decoded(dtable@, dtable.table_log as nat, old(bit_d)@, 1).1,
{
    let ghost r = bit_d@;
    let ghost depth = dtable.table_log as nat;
    let ghost p = pair_at(dtable@, depth, r.look_fast(depth));
    let entry: DEltX2 = entry_at(bit_d, dtable);
    out.push((entry.sequence % 256) as u8);
    if entry.length == 1 {
        bit_d.skip_bits(entry.nb_bits as u32);
        proof {
            reveal_with_fuel(decoded, 2);
            assert(seq![p.first] + Seq::<u8>::empty() == seq![p.first]);
        }
    } else {
        bit_d.skip_at_most(entry.nb_bits as u32);
    }
}

/// The symbols of a stream that holds `n` of them, read through pairs.
pub open spec fn stream_symbols(code: Code, src: Seq<u8>, n: nat) -> Result<Seq<u8>> {
    match huff_stream::stream_error(src) {
        Some(e) => Err(e),
        None => {
            let d = decoded(code, depth_of(code.log), Reading::start(src), n);
            if d.1.finished() {
                Ok(d.0)
            } else {
                Err(Error::Corruption("Huff0 stream did not terminate cleanly"))
            }
        },
    }
}

/// Reads a stream of `n` symbols.
pub fn decompress_1x2_using_dtable(n: usize, src: &[u8], dtable: &DTableX2) -> (r: Result<Vec<u8>>)
    requires
        dtable.wf(),
    ensures
        match stream_symbols(dtable@, src@, n as nat) {
            Ok(bytes) => r is Ok && r->Ok_0@ == bytes,
            Err(e) => r == Err::<Vec<u8>, Error>(e),
        },
{
    let mut bit_d: BitDStream = BitDStream::new(src)?;
    let mut out: Vec<u8> = Vec::new();
    decode_stream_x2(&mut out, &mut bit_d, n, dtable);
    if !bit_d.end_of_stream() {
        return Err(Error::Corruption("Huff0 stream did not terminate cleanly"));
    }
    proof {
        let d = decoded(dtable@, depth_of(dtable@.log), Reading::start(src@), n as nat);
        assert(out@ == d.0);
    }
    Ok(out)
}

/// The symbols of four streams that hold `n` of them, read through pairs.
pub open spec fn streams_symbols(code: Code, src: Seq<u8>, n: nat) -> Result<Seq<u8>> {
    let depth = depth_of(code.log);
    match huff_stream::streams_error(src, n) {
        Some(e) => Err(e),
        None => huff_stream::joined(
            decoded(
                code,
                depth,
                Reading::start(huff_stream::stream(src, 0)),
                huff_stream::stream_length(n, 0),
            ),
            decoded(
                code,
                depth,
                Reading::start(huff_stream::stream(src, 1)),
                huff_stream::stream_length(n, 1),
            ),
            decoded(
                code,
                depth,
                Reading::start(huff_stream::stream(src, 2)),
                huff_stream::stream_length(n, 2),
            ),
            decoded(
                code,
                depth,
                Reading::start(huff_stream::stream(src, 3)),
                huff_stream::stream_length(n, 3),
            ),
        ),
    }
}

/// Reads four streams of `n` symbols.
pub fn decompress_4x2_using_dtable(n: usize, src: &[u8], dtable: &DTableX2) -> (r: Result<Vec<u8>>)
    requires
        dtable.wf(),
    ensures
        match streams_symbols(dtable@, src@, n as nat) {
            Ok(bytes) => r is Ok && r->Ok_0@ == bytes,
            Err(e) => r == Err::<Vec<u8>, Error>(e),
        },
{
    let split: FourStreams = read_jump_table(n, src)?;
    let len: usize = src.len();
    let mut bit_d1: BitDStream = BitDStream::new(&src[6..split.start1])?;
    let mut bit_d2: BitDStream = BitDStream::new(&src[split.start1..split.start2])?;
    let mut bit_d3: BitDStream = BitDStream::new(&src[split.start2..split.start3])?;
    let mut bit_d4: BitDStream = BitDStream::new(&src[split.start3..len])?;
    let mut out: Vec<u8> = Vec::new();
    decode_stream_x2(&mut out, &mut bit_d1, split.segment, dtable);
    decode_stream_x2(&mut out, &mut bit_d2, split.segment, dtable);
    decode_stream_x2(&mut out, &mut bit_d3, split.segment, dtable);
    decode_stream_x2(&mut out, &mut bit_d4, n - 3 * split.segment, dtable);
    if !bit_d1.end_of_stream() || !bit_d2.end_of_stream() || !bit_d3.end_of_stream()
        || !bit_d4.end_of_stream() {
        return Err(Error::Corruption("Huff0 stream did not consume all bits"));
    }
    proof {
        let d0 = decoded(
            dtable@,
            depth_of(dtable@.log),
            Reading::start(huff_stream::stream(src@, 0)),
            huff_stream::stream_length(n as nat, 0),
        );
        assert(Seq::<u8>::empty() + d0.0 == d0.0);
    }
    Ok(out)
}

// ---------------------------------------------------------------------------
// Laws.

/// A place that more bits complete belongs to the same symbol, if the fewer
/// bits hold its whole code.
proof fn lemma_prefix_decides(code: Code, v: nat, bits: nat, low: nat)
    requires
        code.wf(),
        bits <= code.log,
        v < pow2(bits),
        low < pow2((code.log - bits) as nat),
        code.length(code.symbol_at(place_of(code, v, bits))) <= bits,
    ensures
        code.symbol_at(v * pow2((code.log - bits) as nat) + low) == code.symbol_at(
            place_of(code, v, bits),
        ),
{
    let a = (code.log - bits) as nat;
    let place = v * pow2(a);
    lemma2_to64();
    if bits == code.log {
        assert(v / 1 == v);
        assert(v * 1 == v);
        assert(pow2(a) == 1);
        assert(place_of(code, v, bits) == v);
    } else {
        lemma_place_of(code, v, bits);
        lemma_symbol_at(code, place);
        let s = code.symbol_at(place);
        let n = code.length(s);
        let free = (code.log - n) as nat;
        let b = (free - a) as nat;
        lemma_pow2_adds(a, b);
        lemma_pow2_pos(a);
        lemma_pow2_pos(b);
        let pa = pow2(a) as int;
        let pb = pow2(b) as int;
        let full = (place + low) as int;
        lemma_fundamental_div_mod_converse(place as int, pa, v as int, 0);
        lemma_fundamental_div_mod_converse(full, pa, v as int, low as int);
        lemma_div_denominator(place as int, pa, pb);
        lemma_div_denominator(full, pa, pb);
        assert(full / (pa * pb) == place as int / (pa * pb));
        lemma_pow2_pos(free);
        lemma_fundamental_div_mod(full, pow2(free) as int);
        let rest = (full % pow2(free) as int) as nat;
        assert(full == code.value(s) * pow2(free) + rest) by (nonlinear_arith)
            requires
                full == pow2(free) * code.value(s) + rest,
        ;
        lemma_value_at(code, s, rest);
    }
}

/// An entry's symbols are those that reading one at a time gives, as far as
/// there are bits left for each.
proof fn lemma_pair_is_two_steps(code: Code, depth: nat, r: Reading)
    requires
        code.wf(),
        r.bits.wf(),
        r.bits.len > 0,
        code.log <= depth,
    ensures
        ({
            let p = pair_at(code, depth, r.look_fast(depth));
            let s = code.symbol_at(r.look_fast(code.log));
            let q = r.skip(code.length(s));
            let t = code.symbol_at(q.look_fast(code.log));
            &&& p.first == s
            &&& q.bits.wf()
            &&& p.second is None ==> p.bits == code.length(s)
            &&& p.second is Some ==> p.bits > code.length(s)
            &&& p.second is Some && q.bits.len > 0 ==> p.second == Some(t) && p.bits
                == code.length(s) + code.length(t) && r.skip(p.bits) == q.skip(code.length(t))
        }),
{
    let log = code.log;
    let b = r.bits;
    let d = (depth - log) as nat;
    bits::lemma_top_split(b, log, d);
    bits::lemma_top_bound(b, log);
    bits::lemma_top_bound(b, depth);
    lemma_pow2_pos(d);
    let x = b.pop(log).top(d);
    assert(b.top(depth) == pow2(d) * b.top(log) + x) by (nonlinear_arith)
        requires
            b.top(depth) == b.top(log) * pow2(d) + x,
    ;
    lemma_fundamental_div_mod_converse(
        b.top(depth) as int,
        pow2(d) as int,
        b.top(log) as int,
        x as int,
    );
    assert(place_of(code, r.look_fast(depth), depth) == b.top(log));
    lemma_symbol_at(code, b.top(log));
    let s = code.symbol_at(b.top(log));
    let n = code.length(s);
    let q = r.skip(n);
    let left = (depth - n) as nat;
    bits::lemma_top_split(b, n, left);
    let v = b.pop(n).top(left);
    lemma_pow2_pos(left);
    assert(b.top(depth) == pow2(left) * b.top(n) + v) by (nonlinear_arith)
        requires
            b.top(depth) == b.top(n) * pow2(left) + v,
    ;
    lemma_fundamental_div_mod_converse(
        b.top(depth) as int,
        pow2(left) as int,
        b.top(n) as int,
        v as int,
    );
    assert(r.look_fast(depth) % pow2(left) == v);
    lemma_place_of(code, v, left);
    let second = code.symbol_at(place_of(code, v, left));
    lemma_symbol_at(code, place_of(code, v, left));
    let m = code.length(second);
    bits::lemma_top_bound(q.bits, log);
    if m <= left && q.bits.len > 0 {
        if left >= log {
            let e = (left - log) as nat;
            lemma_pow2_pos(e);
            bits::lemma_top_split(q.bits, log, e);
            let y = q.bits.pop(log).top(e);
            assert(v == pow2(e) * q.bits.top(log) + y) by (nonlinear_arith)
                requires
                    v == q.bits.top(log) * pow2(e) + y,
            ;
            lemma_fundamental_div_mod_converse(
                v as int,
                pow2(e) as int,
                q.bits.top(log) as int,
                y as int,
            );
        } else {
            let e = (log - left) as nat;
            bits::lemma_top_split(q.bits, left, e);
            lemma_prefix_decides(code, v, left, q.bits.pop(left).top(e));
        }
        assert(code.symbol_at(q.look_fast(log)) == second);
        bits::lemma_top_split(b, n, m);
    }
}

/// A reader that is past its end, or at its end with symbols left to read,
/// does not end cleanly.
proof fn lemma_clean_end(code: Code, r: Reading, n: nat)
    requires
        code.wf(),
        r.bits.wf(),
        r.overflow() ==> r.bits.len == 0,
        huff_stream::decoded(code, r, n).1.finished(),
    ensures
        !r.overflow(),
        n > 0 ==> r.bits.len > 0,
    decreases n,
{
    if n > 0 {
        let s = code.symbol_at(r.look_fast(code.log));
        bitstream::lemma_look_bound(r, code.log);
        lemma_symbol_at(code, r.look_fast(code.log));
        bitstream::lemma_look_bound(r, code.length(s));
        lemma_clean_end(code, r.skip(code.length(s)), (n - 1) as nat);
    }
}

/// Reading the symbols of a stream through pairs gives as many as were asked
/// for.
pub proof fn lemma_decoded_length(code: Code, depth: nat, r: Reading, n: nat)
    ensures
        decoded(code, depth, r, n).0.len() == n,
    decreases n,
{
    let p = pair_at(code, depth, r.look_fast(depth));
    if n > 0 {
        if p.second is None {
            lemma_decoded_length(code, depth, r.skip(p.bits), (n - 1) as nat);
        } else if n > 1 {
            lemma_decoded_length(code, depth, r.skip(p.bits), (n - 2) as nat);
        }
    }
}

/// A stream that ends cleanly when it is read one symbol at a time ends
/// cleanly when it is read through pairs, with the same symbols.
pub proof fn law_pairs_decode_alike(code: Code, depth: nat, r: Reading, n: nat)
    requires
        code.wf(),
        r.bits.wf(),
        code.log <= depth,
        r.overflow() ==> r.bits.len == 0,
        huff_stream::decoded(code, r, n).1.finished(),
    ensures
        decoded(code, depth, r, n).0 == huff_stream::decoded(code, r, n).0,
        decoded(code, depth, r, n).1.finished(),
    decreases n,
{
    if n > 0 {
        lemma_clean_end(code, r, n);
        lemma_pair_is_two_steps(code, depth, r);
        let p = pair_at(code, depth, r.look_fast(depth));
        let s = code.symbol_at(r.look_fast(code.log));
        let q = r.skip(code.length(s));
        let t = code.symbol_at(q.look_fast(code.log));
        lemma_clean_end(code, q, (n - 1) as nat);
        match p.second {
            None => {
                law_pairs_decode_alike(code, depth, q, (n - 1) as nat);
            },
            Some(x) => {
                if n == 1 {
                    reveal_with_fuel(huff_stream::decoded, 2);
                    assert(seq![s] + Seq::<u8>::empty() == seq![s]);
                } else {
                    let next = q.skip(code.length(t));
                    bitstream::lemma_look_bound(q, code.length(t));
                    reveal_with_fuel(huff_stream::decoded, 3);
                    law_pairs_decode_alike(code, depth, next, (n - 2) as nat);
                    let rest = huff_stream::decoded(code, next, (n - 2) as nat);
                    assert(seq![s, t] + rest.0 == seq![s] + (seq![t] + rest.0));
                }
            },
        }
    }
}

/// A stream that decodes one symbol at a time decodes alike through pairs.
pub proof fn law_double_stream_decodes_alike(code: Code, src: Seq<u8>, n: nat)
    requires
        code.wf(),
        huff_stream::stream_symbols(code, src, n) is Ok,
    ensures
        stream_symbols(code, src, n) == huff_stream::stream_symbols(code, src, n),
{
    let r = Reading::start(src);
    lemma_start_wf(src);
    law_pairs_decode_alike(code, depth_of(code.log), r, n);
}

/// What a stream holds at its start is well formed.
pub proof fn lemma_start_wf(src: Seq<u8>)
    ensures
        Reading::start(src).bits.wf(),
{
    let len = bits::stream_bits(src).len;
    lemma_pow2_pos(len);
    lemma_mod_bound(bits::bytes_value(src) as int, pow2(len) as int);
}

/// Four streams that decode one symbol at a time decode alike through pairs.
pub proof fn law_double_streams_decode_alike(code: Code, src: Seq<u8>, n: nat)
    requires
        code.wf(),
        huff_stream::streams_symbols(code, src, n) is Ok,
    ensures
        streams_symbols(code, src, n) == huff_stream::streams_symbols(code, src, n),
{
    let depth = depth_of(code.log);
    assert forall|k: int| 0 <= k < 4 implies {
        let r = Reading::start(#[trigger] huff_stream::stream(src, k));
        let m = huff_stream::stream_length(n, k);
        &&& decoded(code, depth, r, m).0 == huff_stream::decoded(code, r, m).0
        &&& decoded(code, depth, r, m).1.finished()
    } by {
        let r = Reading::start(huff_stream::stream(src, k));
        lemma_start_wf(huff_stream::stream(src, k));
        law_pairs_decode_alike(code, depth, r, huff_stream::stream_length(n, k));
    }
    assert(huff_stream::stream(src, 0) == huff_stream::stream(src, 0));
}

} // verus!
