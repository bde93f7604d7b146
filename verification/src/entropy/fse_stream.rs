//! Streams of finite-state coded symbols.
//!
//! An encoder walks its symbols from the last to the first and writes the low
//! bits of its state before each move; a decoder starts from the encoder's
//! last state and reads the moves back. Byte streams use two states in turn.

use crate::entropy::bits;
use crate::entropy::bits::Bits;
use crate::entropy::bitstream::{BitCStream, BitDStream, BitDStreamStatus, Reading, WORD_BYTES};
use crate::entropy::fse;
use crate::entropy::fse::{CTable, DTable, DecodeEntry};
use crate::entropy::mem;
use crate::entropy::ncount;
use crate::entropy::ncount::NCount;
use crate::entropy::spread;
use crate::error::{Error, Result};
use vstd::arithmetic::div_mod::*;
use vstd::arithmetic::power2::*;
use vstd::prelude::*;

verus! {

/// An encoder's state.
#[derive(Debug, Clone, Copy, PartialEq, Eq, Structural)]
pub struct CState {
    pub value: u32,
}

/// A decoder's state.
#[derive(Debug, Clone, Copy, PartialEq, Eq, Structural)]
pub struct DState {
    pub state: usize,
}

/// The number of bits that a symbol writes is small.
pub proof fn lemma_bits_out_bound(ct: CTable, x: nat, s: u8)
    requires
        ct.sound(),
        x < 1024,
    ensures
        ct.bits_out(x, s) <= ct.table_log + 1,
{
    reveal(CTable::bits_out);
    assert(ct.symbol_tt@[s as int].delta_nb_bits <= 65536 * (ct.table_log + 1));
}

/// Why a symbol cannot be written in the state `x`.
pub open spec fn step_error(ct: CTable, x: nat, s: u8) -> Option<Error> {
    if s > ct.max_symbol_value {
        Some(Error::Corruption("FSE symbol exceeds compression table"))
    } else if 0 <= ct.next_index(x, s) < ct.state_table@.len() {
        None
    } else {
        Some(Error::Corruption("FSE compression state exceeds table size"))
    }
}

/// Why a stream cannot end in a symbol.
pub open spec fn start_error(ct: CTable, s: u8) -> Option<Error> {
    if s > ct.max_symbol_value {
        Some(Error::Corruption("FSE symbol exceeds compression table"))
    } else if 0 <= ct.start_index(s) < ct.state_table@.len() {
        None
    } else {
        Some(Error::Corruption("FSE compression state exceeds table size"))
    }
}

/// The state to start in for the last symbol of a stream.
pub fn init_cstate2(ct: &CTable, symbol: u8) -> (r: Result<CState>)
    requires
        ct.sound(),
    ensures
        match start_error(*ct, symbol) {
            Some(e) => r == Err::<CState, Error>(e),
            None => r == Ok::<CState, Error>(CState { value: ct.start_state(symbol) as u32 })
                && ct.start_state(symbol) < 1024,
        },
        ct.wf() && symbol <= ct.max_symbol_value ==> r is Ok && ct.is_state(
            ct.start_state(symbol),
        ),
{
    proof {
        reveal(CTable::start_index);
        if ct.wf() {
            lemma2_to64();
            assert(0 <= ct.start_index(symbol) < pow2(ct.table_log as nat));
        }
    }
    if symbol as u32 > ct.max_symbol_value {
        return Err(Error::Corruption("FSE symbol exceeds compression table"));
    }
    let transform = ct.symbol_tt[symbol as usize];
    let nb_bits_out: u32 = (transform.delta_nb_bits + 32768) / 65536;
    let value: u32 = 65536 * nb_bits_out - transform.delta_nb_bits;
    proof {
        assert(value <= 1024);
        lemma_pow2_pos(nb_bits_out as nat);
        lemma_div_nonincreasing(value as int, pow2(nb_bits_out as nat) as int);
    }
    let index: i32 = mem::high_bits(value as u64, nb_bits_out) as i32 + transform.delta_find_state;
    proof {
        assert(index == ct.start_index(symbol));
    }
    if index < 0 || index as usize >= ct.state_table.len() {
        return Err(Error::Corruption("FSE compression state exceeds table size"));
    }
    Ok(CState { value: ct.state_table[index as usize] as u32 })
}

/// Writes a symbol and moves the state. The bits are written even where the
/// table has no state to move to.
pub fn encode_symbol(bit_c: &mut BitCStream, state: &mut CState, ct: &CTable, symbol: u8) -> (r:
    Result<()>)
    requires
        old(bit_c).wf(),
        old(bit_c).pending() < 54,
        ct.sound(),
        old(state).value < 1024,
    ensures
        final(bit_c).wf(),
        final(bit_c).capacity() == old(bit_c).capacity(),
        final(state).value < 1024,
        match step_error(*ct, old(state).value as nat, symbol) {
            Some(e) => r == Err::<(), Error>(e) && *final(state) == *old(state),
            None => r is Ok && final(state).value == ct.next_state(
                old(state).value as nat,
                symbol,
            ),
        },
        symbol > ct.max_symbol_value ==> final(bit_c)@ == old(bit_c)@,
        symbol <= ct.max_symbol_value ==> {
            let x = old(state).value as nat;
            &&& final(bit_c)@ == old(bit_c)@.push(x, ct.bits_out(x, symbol))
            &&& final(bit_c).pending() == old(bit_c).pending() + ct.bits_out(x, symbol)
        },
        ct.wf() && ct.is_state(old(state).value as nat) ==> ct.is_state(final(state).value as nat)
            && (symbol <= ct.max_symbol_value ==> r is Ok),
        final(bit_c).pending() <= old(bit_c).pending() + ct.table_log + 1,
{
    proof {
        reveal(CTable::bits_out);
        reveal(CTable::next_index);
    }
    if symbol as u32 > ct.max_symbol_value {
        return Err(Error::Corruption("FSE symbol exceeds compression table"));
    }
    let ghost x = state.value as nat;
    proof {
        lemma_bits_out_bound(*ct, x, symbol);
        if ct.wf() && ct.is_state(x) {
            assert(0 <= ct.next_index(x, symbol) < pow2(ct.table_log as nat));
        }
    }
    let transform = ct.symbol_tt[symbol as usize];
    let nb_bits_out: u32 = (state.value + transform.delta_nb_bits) / 65536;
    bit_c.add_bits(state.value as u64, nb_bits_out);
    let shifted: u64 = mem::high_bits(state.value as u64, nb_bits_out);
    proof {
        lemma_pow2_pos(nb_bits_out as nat);
        lemma_div_nonincreasing(x as int, pow2(nb_bits_out as nat) as int);
    }
    let index: i32 = shifted as i32 + transform.delta_find_state;
    if index < 0 || index as usize >= ct.state_table.len() {
        return Err(Error::Corruption("FSE compression state exceeds table size"));
    }
    *state = CState { value: ct.state_table[index as usize] as u32 };
    Ok(())
}

/// Writes the state itself, for a decoder to start from.
pub fn flush_cstate(bit_c: &mut BitCStream, state: &CState, ct: &CTable)
    requires
        old(bit_c).wf(),
        old(bit_c).pending() < 54,
        ct.sound(),
    ensures
        final(bit_c).wf(),
        final(bit_c).capacity() == old(bit_c).capacity(),
        final(bit_c)@ == old(bit_c)@.push(state.value as nat, ct.table_log as nat),
        final(bit_c).pending() < 8,
{
    bit_c.add_bits(state.value as u64, ct.table_log);
    bit_c.flush_bits();
}

/// Reads the state that an encoder ended in.
pub fn init_dstate(bit_d: &mut BitDStream, dt: &DTable) -> (r: DState)
    requires
        old(bit_d).wf(),
        dt.wf(),
    ensures
        final(bit_d).wf(),
        final(bit_d)@ == old(bit_d)@.skip(dt.table_log as nat),
        r.state == old(bit_d)@.look(dt.table_log as nat),
        r.state < dt.entries@.len(),
{
    proof {
        lemma2_to64();
        mem::lemma_pow2_monotone(dt.table_log as nat, 9);
    }
    bit_d.reload();
    let value: u64 = bit_d.read_bits(dt.table_log);
    DState { state: value as usize }
}

/// The entry of a state, or an error where the table has no such state.
pub fn peek_entry(state: &DState, dt: &DTable) -> (r: Result<DecodeEntry>)
    requires
        dt.wf(),
    ensures
        state.state < dt.entries@.len() ==> r == Ok::<DecodeEntry, Error>(
            dt.entries@[state.state as int],
        ),
        state.state >= dt.entries@.len() ==> r == Err::<DecodeEntry, Error>(
            Error::Corruption("FSE state exceeds table size"),
        ),
{
    if state.state >= dt.entries.len() {
        return Err(Error::Corruption("FSE state exceeds table size"));
    }
    Ok(dt.entries[state.state])
}

/// The symbol of a state.
pub fn peek_symbol(state: &DState, dt: &DTable) -> (r: u8)
    requires
        state.state < dt.entries@.len(),
    ensures
        r == dt.entries@[state.state as int].symbol,
{
    dt.entries[state.state].symbol
}

/// Moves to the next state.
pub fn update_state(state: &mut DState, bit_d: &mut BitDStream, dt: &DTable)
    requires
        old(bit_d).wf(),
        dt.wf(),
        old(state).state < dt.entries@.len(),
    ensures
        final(bit_d).wf(),
        final(state).state < dt.entries@.len(),
        ({
            let e = dt.entries@[old(state).state as int];
            &&& final(bit_d)@ == old(bit_d)@.skip(e.nb_bits as nat)
            &&& final(state).state == e.new_state + old(bit_d)@.look(e.nb_bits as nat)
        }),
{
    let entry = dt.entries[state.state];
    proof {
        lemma2_to64();
        mem::lemma_pow2_monotone(dt.table_log as nat, 9);
    }
    bit_d.reload();
    let low: u64 = bit_d.read_bits(entry.nb_bits as u32);
    *state = DState { state: entry.new_state as usize + low as usize };
}

/// Returns the state's symbol and moves to the next state.
pub fn decode_symbol(state: &mut DState, bit_d: &mut BitDStream, dt: &DTable) -> (r: u8)
    requires
        old(bit_d).wf(),
        dt.wf(),
        old(state).state < dt.entries@.len(),
    ensures
        final(bit_d).wf(),
        final(state).state < dt.entries@.len(),
        ({
            let e = dt.entries@[old(state).state as int];
            &&& r == e.symbol
            &&& final(bit_d)@ == old(bit_d)@.skip(e.nb_bits as nat)
            &&& final(state).state == e.new_state + old(bit_d)@.look(e.nb_bits as nat)
        }),
{
    let symbol: u8 = peek_symbol(state, dt);
    update_state(state, bit_d, dt);
    symbol
}

/// Whether the state is the one that a stream written from the first state
/// ends in.
pub fn end_of_dstate(state: &DState) -> (r: bool)
    ensures
        r == (state.state == 0),
{
    state.state == 0
}

// ---------------------------------------------------------------------------
// Two interleaved states.

/// What an encoder holds when only the first `i` symbols are left to write:
/// the bits, and the states for the symbols at even and at odd places.
pub struct Encoding {
    pub bits: Bits,
    pub even: nat,
    pub odd: nat,
}

/// The encoding of `src` from place `i` on.
pub open spec fn encoding(ct: CTable, src: Seq<u8>, i: nat) -> Encoding
    recommends
        src.len() >= 2,
    decreases src.len() - i,
{
    if i + 2 >= src.len() {
        let last = ct.start_state(src[src.len() - 1]);
        let other = ct.start_state(src[src.len() - 2]);
        if src.len() % 2 == 0 {
            Encoding { bits: Bits::empty(), even: other, odd: last }
        } else {
            Encoding { bits: Bits::empty(), even: last, odd: other }
        }
    } else {
        let rest = encoding(ct, src, i + 1);
        if i % 2 == 0 {
            Encoding {
                bits: rest.bits.push(rest.even, ct.bits_out(rest.even, src[i as int])),
                even: ct.next_state(rest.even, src[i as int]),
                odd: rest.odd,
            }
        } else {
            Encoding {
                bits: rest.bits.push(rest.odd, ct.bits_out(rest.odd, src[i as int])),
                even: rest.even,
                odd: ct.next_state(rest.odd, src[i as int]),
            }
        }
    }
}

/// The bits of a whole stream: the encoding, then the two states.
pub open spec fn stream_encoding(ct: CTable, src: Seq<u8>) -> Bits {
    let e = encoding(ct, src, 0);
    e.bits.push(e.odd, ct.table_log as nat).push(e.even, ct.table_log as nat)
}

/// Why `src` cannot be encoded from place `i` on.
pub open spec fn encoding_error(ct: CTable, src: Seq<u8>, i: nat) -> Option<Error>
    decreases src.len() - i,
{
    if i + 2 >= src.len() {
        match start_error(ct, src[src.len() - 1]) {
            Some(e) => Some(e),
            None => start_error(ct, src[src.len() - 2]),
        }
    } else {
        match encoding_error(ct, src, i + 1) {
            Some(e) => Some(e),
            None => {
                let rest = encoding(ct, src, i + 1);
                step_error(
                    ct,
                    if i % 2 == 0 {
                        rest.even
                    } else {
                        rest.odd
                    },
                    src[i as int],
                )
            },
        }
    }
}

/// An error stays where more symbols are added.
proof fn lemma_encoding_error_stays(ct: CTable, src: Seq<u8>, i: nat)
    requires
        i + 2 <= src.len(),
        encoding_error(ct, src, i) is Some,
    ensures
        encoding_error(ct, src, 0) == encoding_error(ct, src, i),
    decreases i,
{
    if i > 0 {
        lemma_encoding_error_stays(ct, src, (i - 1) as nat);
    }
}

proof fn lemma_only_foreign_symbols(ct: CTable, src: Seq<u8>, i: nat)
    requires
        ct.wf(),
        i + 2 <= src.len(),
    ensures
        encoding_error(ct, src, i) == (if exists|k: int|
            i <= k < src.len() && #[trigger] src[k] > ct.max_symbol_value {
            Some(Error::Corruption("FSE symbol exceeds compression table"))
        } else {
            None
        }),
    decreases src.len() - i,
{
    lemma_encoding_wf(ct, src, i);
    if i + 2 == src.len() {
        let last = src[src.len() - 1];
        let other = src[src.len() - 2];
        assert(0 <= ct.start_index(last) < pow2(ct.table_log as nat));
        assert(0 <= ct.start_index(other) < pow2(ct.table_log as nat));
        if exists|k: int| i <= k < src.len() && #[trigger] src[k] > ct.max_symbol_value {
            let k = choose|k: int| i <= k < src.len() && #[trigger] src[k] > ct.max_symbol_value;
            assert(k == i || k == i + 1);
        }
    } else {
        lemma_only_foreign_symbols(ct, src, i + 1);
        lemma_encoding_wf(ct, src, i + 1);
        let rest = encoding(ct, src, i + 1);
        let x = if i % 2 == 0 {
            rest.even
        } else {
            rest.odd
        };
        assert(0 <= ct.next_index(x, src[i as int]) < pow2(ct.table_log as nat));
        if exists|k: int| i + 1 <= k < src.len() && #[trigger] src[k] > ct.max_symbol_value {
            let k = choose|k: int|
                i + 1 <= k < src.len() && #[trigger] src[k] > ct.max_symbol_value;
            assert(i <= k < src.len() && src[k] > ct.max_symbol_value);
        } else if exists|k: int| i <= k < src.len() && #[trigger] src[k] > ct.max_symbol_value {
            let k = choose|k: int| i <= k < src.len() && #[trigger] src[k] > ct.max_symbol_value;
            assert(k == i);
        }
    }
}

/// A symbol that the table cannot write occurs.
pub open spec fn has_foreign_symbol(ct: CTable, src: Seq<u8>) -> bool {
    exists|i: int| 0 <= i < src.len() && #[trigger] src[i] > ct.max_symbol_value
}

/// With a well-formed table the only error is a symbol that it does not know.
pub proof fn law_only_foreign_symbols_fail(ct: CTable, src: Seq<u8>)
    requires
        ct.wf(),
        src.len() >= 2,
    ensures
        encoding_error(ct, src, 0) == (if has_foreign_symbol(ct, src) {
            Some(Error::Corruption("FSE symbol exceeds compression table"))
        } else {
            None
        }),
{
    lemma_only_foreign_symbols(ct, src, 0);
}

/// A capacity that is generous for the stream of `size` symbols.
pub fn block_bound(size: usize) -> (r: usize)
    requires
        size + size / 128 + 12 <= usize::MAX,
    ensures
        r == size + size / 128 + 4 + WORD_BYTES,
{
    size + size / 128 + 4 + WORD_BYTES
}

/// Writes bytes with two interleaved states. The result is empty where there
/// is nothing to gain: for fewer than three bytes, and where the stream does
/// not fit in `capacity`.
pub fn compress_using_ctable(capacity: usize, src: &[u8], ct: &CTable) -> (r: Result<Vec<u8>>)
    requires
        ct.sound(),
    ensures
        src@.len() <= 2 || capacity <= WORD_BYTES ==> (r matches Ok(v) && v@.len() == 0),
        src@.len() > 2 && capacity > WORD_BYTES ==> {
            let stream = stream_encoding(*ct, src@);
            match encoding_error(*ct, src@, 0) {
                Some(e) => r == Err::<Vec<u8>, Error>(e),
                None => {
                    &&& r is Ok
                    &&& (stream.len + 1) / 8 >= capacity - WORD_BYTES ==> r->Ok_0@.len() == 0
                    &&& (stream.len + 1) / 8 < capacity - WORD_BYTES ==> r->Ok_0@
                        == bits::marked_bytes(stream)
                },
            }
        },
{
    if src.len() <= 2 || capacity <= WORD_BYTES {
        return Ok(Vec::new());
    }
    let mut bit_c = BitCStream::new(capacity)?;
    let mut ip: usize = src.len() - 2;
    proof {
        if encoding_error(*ct, src@, ip as nat) is Some {
            lemma_encoding_error_stays(*ct, src@, ip as nat);
        }
    }
    let last = init_cstate2(ct, src[src.len() - 1])?;
    let other = init_cstate2(ct, src[src.len() - 2])?;
    let mut even = if src.len() % 2 == 0 {
        other
    } else {
        last
    };
    let mut odd = if src.len() % 2 == 0 {
        last
    } else {
        other
    };
    while ip > 0
        invariant
            0 <= ip <= src@.len() - 2,
            ct.sound(),
            bit_c.wf(),
            bit_c.pending() < 8,
            bit_c.capacity() == capacity,
            even.value < 1024,
            odd.value < 1024,
            bit_c@ == encoding(*ct, src@, ip as nat).bits,
            even.value == encoding(*ct, src@, ip as nat).even,
            odd.value == encoding(*ct, src@, ip as nat).odd,
            src@.len() > 2,
            capacity > WORD_BYTES,
            encoding_error(*ct, src@, ip as nat) is None,
        decreases ip,
    {
        ip = ip - 1;
        proof {
            if encoding_error(*ct, src@, ip as nat) is Some {
                lemma_encoding_error_stays(*ct, src@, ip as nat);
            }
        }
        if ip % 2 == 0 {
            encode_symbol(&mut bit_c, &mut even, ct, src[ip])?;
        } else {
            encode_symbol(&mut bit_c, &mut odd, ct, src[ip])?;
        }
        bit_c.flush_bits();
    }
    flush_cstate(&mut bit_c, &odd, ct);
    flush_cstate(&mut bit_c, &even, ct);
    Ok(bit_c.close())
}

/// The symbols that two states in turn find in what is left, `a` being next.
/// The stream ends where a state asks for more bits than are left; then the
/// other state's symbol is the last. `None` where `room` does not suffice.
pub open spec fn interleaved(
    entries: Seq<DecodeEntry>,
    a: nat,
    b: nat,
    r: Reading,
    room: nat,
) -> Option<Seq<u8>>
    decreases room,
{
    if room < 2 {
        None
    } else {
        let e = entries[a as int];
        let after = r.skip(e.nb_bits as nat);
        if after.overflow() {
            Some(seq![e.symbol, entries[b as int].symbol])
        } else {
            match interleaved(
                entries,
                b,
                e.new_state as nat + r.look(e.nb_bits as nat),
                after,
                (room - 1) as nat,
            ) {
                Some(rest) => Some(seq![e.symbol] + rest),
                None => None,
            }
        }
    }
}

/// What a whole stream decodes to.
pub open spec fn stream_decoding(
    entries: Seq<DecodeEntry>,
    log: nat,
    src: Seq<u8>,
    room: nat,
) -> Result<Seq<u8>> {
    let r0 = Reading::start(src);
    let r1 = r0.skip(log);
    let r2 = r1.skip(log);
    if log == 0 {
        Err(Error::Corruption("FSE interleaved decode does not support RLE tables"))
    } else if src.len() == 0 {
        Err(Error::SrcSizeWrong)
    } else if src.last() == 0 {
        Err(Error::Corruption("bitstream end marker is zero"))
    } else if r2.overflow() {
        Err(Error::Corruption("FSE bitstream is too short to hold both initial states"))
    } else {
        match interleaved(entries, r0.look(log), r1.look(log), r2, room) {
            Some(bytes) => Ok(bytes),
            None => Err(Error::DstSizeTooSmall),
        }
    }
}

/// Reads at most `room` bytes that were written with two interleaved states.
pub fn decompress_interleaved2(room: usize, src: &[u8], dt: &DTable) -> (r: Result<Vec<u8>>)
    requires
        dt.wf(),
    ensures
        match stream_decoding(dt.entries@, dt.table_log as nat, src@, room as nat) {
            Ok(bytes) => r matches Ok(v) && v@ == bytes,
            Err(e) => r == Err::<Vec<u8>, Error>(e),
        },
{
    if dt.table_log == 0 {
        return Err(Error::Corruption("FSE interleaved decode does not support RLE tables"));
    }
    let mut bit_d = BitDStream::new(src)?;
    let mut next = init_dstate(&mut bit_d, dt);
    let mut other = init_dstate(&mut bit_d, dt);
    if bit_d.reload() == BitDStreamStatus::Overflow {
        return Err(Error::Corruption("FSE bitstream is too short to hold both initial states"));
    }
    let mut out: Vec<u8> = Vec::new();
    let ghost start = (next.state as nat, other.state as nat, bit_d@);
    loop
        invariant
            dt.wf(),
            bit_d.wf(),
            next.state < dt.entries@.len(),
            other.state < dt.entries@.len(),
            out@.len() <= room,
            dt.table_log != 0,
            src@.len() > 0,
            src@.last() != 0,
            stream_decoding(dt.entries@, dt.table_log as nat, src@, room as nat) == (match interleaved(
                dt.entries@,
                start.0,
                start.1,
                start.2,
                room as nat,
            ) {
                Some(bytes) => Ok::<Seq<u8>, Error>(bytes),
                None => Err::<Seq<u8>, Error>(Error::DstSizeTooSmall),
            }),
            interleaved(dt.entries@, start.0, start.1, start.2, room as nat) == (match interleaved(
                dt.entries@,
                next.state as nat,
                other.state as nat,
                bit_d@,
                (room - out@.len()) as nat,
            ) {
                Some(rest) => Some(out@ + rest),
                None => None::<Seq<u8>>,
            }),
        decreases room - out@.len(),
    {
        if room - out.len() < 2 {
            return Err(Error::DstSizeTooSmall);
        }
        let ghost before = out@;
        let ghost a = next.state as nat;
        let ghost b = other.state as nat;
        let symbol: u8 = decode_symbol(&mut next, &mut bit_d, dt);
        out.push(symbol);
        if bit_d.reload() == BitDStreamStatus::Overflow {
            out.push(peek_symbol(&other, dt));
            proof {
                assert(out@ =~= before + seq![
                    dt.entries@[a as int].symbol,
                    dt.entries@[b as int].symbol,
                ]);
            }
            return Ok(out);
        }
        let moved = next;
        next = other;
        other = moved;
        proof {
            let rest = interleaved(
                dt.entries@,
                next.state as nat,
                other.state as nat,
                bit_d@,
                (room - out@.len()) as nat,
            );
            if rest is Some {
                assert(before + (seq![symbol] + rest->0) =~= out@ + rest->0);
            }
        }
    }
}

/// The encoder's states are states of the table and its bits are well formed.
proof fn lemma_encoding_wf(ct: CTable, src: Seq<u8>, i: nat)
    requires
        ct.wf(),
        src.len() >= 2,
    ensures
        ct.is_state(encoding(ct, src, i).even),
        ct.is_state(encoding(ct, src, i).odd),
        encoding(ct, src, i).bits.wf(),
    decreases src.len() - i,
{
    if i + 2 >= src.len() {
        lemma2_to64();
        assert(0 <= ct.start_index(src[src.len() - 1]) < pow2(ct.table_log as nat));
        assert(0 <= ct.start_index(src[src.len() - 2]) < pow2(ct.table_log as nat));
    } else {
        lemma_encoding_wf(ct, src, i + 1);
        let rest = encoding(ct, src, i + 1);
        let x = if i % 2 == 0 {
            rest.even
        } else {
            rest.odd
        };
        assert(0 <= ct.next_index(x, src[i as int]) < pow2(ct.table_log as nat));
        bits::lemma_push_pop(rest.bits, x, ct.bits_out(x, src[i as int]));
    }
}

/// The bits of a whole stream are well formed.
pub proof fn lemma_stream_encoding_wf(ct: CTable, src: Seq<u8>)
    requires
        ct.wf(),
        src.len() >= 2,
    ensures
        stream_encoding(ct, src).wf(),
{
    lemma_encoding_wf(ct, src, 0);
    let e = encoding(ct, src, 0);
    bits::lemma_push_pop(e.bits, e.odd, ct.table_log as nat);
    bits::lemma_push_pop(e.bits.push(e.odd, ct.table_log as nat), e.even, ct.table_log as nat);
}

/// The symbols of a stream that both tables know: each has states, and none
/// has them all.
pub open spec fn codable(norm: Seq<i16>, n: nat, log: nat, src: Seq<u8>) -> bool {
    forall|i: int|
        0 <= i < src.len() ==> (#[trigger] src[i]) < n && 0 < spread::slots(norm[src[i] as int])
            < pow2(log)
}

#[verifier::spinoff_prover]
#[verifier::rlimit(30)]
proof fn lemma_interleaved_undoes(
    ct: CTable,
    entries: Seq<DecodeEntry>,
    norm: Seq<i16>,
    n: nat,
    log: nat,
    src: Seq<u8>,
    word: nat,
    i: nat,
    room: nat,
)
    requires
        fse::encodes_with(ct, norm, n, log),
        fse::entries_of(entries, norm, n, log),
        codable(norm, n, log, src),
        src.len() >= 2,
        i + 2 <= src.len(),
        room >= src.len() - i,
    ensures
        ({
            let e = encoding(ct, src, i);
            let a = (if i % 2 == 0 {
                e.even
            } else {
                e.odd
            } - pow2(log)) as nat;
            let b = (if i % 2 == 0 {
                e.odd
            } else {
                e.even
            } - pow2(log)) as nat;
            interleaved(entries, a, b, Reading::holding(e.bits, word), room) == Some(
                src.subrange(i as int, src.len() as int),
            )
        }),
    decreases src.len() - i,
{
    fse::lemma_encodes_with(ct, norm, n, log);
    lemma_encoding_wf(ct, src, i);
    let e = encoding(ct, src, i);
    let r = Reading::holding(e.bits, word);
    let size = pow2(log);
    let a = (if i % 2 == 0 {
        e.even
    } else {
        e.odd
    } - size) as nat;
    let b = (if i % 2 == 0 {
        e.odd
    } else {
        e.even
    } - size) as nat;
    let s = src[i as int];
    let ea = entries[a as int];
    if i + 2 == src.len() {
        let t = src[src.len() - 1];
        assert(ea.symbol == s && ea.nb_bits > 0 && entries[b as int].symbol == t) by {
            fse::lemma_start_state_holds_symbol(ct, entries, norm, n, log, s);
            fse::lemma_start_state_holds_symbol(ct, entries, norm, n, log, t);
            let c = spread::slots(norm[s as int]);
            mem::lemma_floor_log2(c);
            if mem::floor_log2(c) >= log {
                mem::lemma_pow2_monotone(log, mem::floor_log2(c));
            }
        }
        assert(src.subrange(i as int, src.len() as int) =~= seq![s, t]);
    } else {
        let rest = encoding(ct, src, i + 1);
        lemma_encoding_wf(ct, src, i + 1);
        let x = if i % 2 == 0 {
            rest.even
        } else {
            rest.odd
        };
        let nb = ct.bits_out(x, s);
        assert(ea.symbol == s && ea.nb_bits == nb && ea.new_state + x % pow2(nb) == x - size) by {
            fse::lemma_decode_step_undoes_encode_step(
                ct,
                entries,
                norm,
                n,
                log,
                x,
                s,
            );
        }
        bits::lemma_push_pop(rest.bits, x, nb);
        assert(r.skip(nb) == Reading::holding(rest.bits, word));
        lemma_interleaved_undoes(ct, entries, norm, n, log, src, word, i + 1, (room - 1) as nat);
        assert(src.subrange(i as int, src.len() as int) =~= seq![s] + src.subrange(
            i as int + 1,
            src.len() as int,
        ));
    }
}

/// Bytes that are written with an encode table and read with the entries of
/// the same distribution come back unchanged, wherever every byte has
/// states in the distribution and no byte has all of them.
pub proof fn lemma_interleaved_roundtrip(
    ct: CTable,
    entries: Seq<DecodeEntry>,
    norm: Seq<i16>,
    n: nat,
    log: nat,
    src: Seq<u8>,
    room: nat,
)
    requires
        fse::encodes_with(ct, norm, n, log),
        fse::entries_of(entries, norm, n, log),
        codable(norm, n, log, src),
        src.len() > 2,
        room >= src.len(),
    ensures
        stream_decoding(entries, log, bits::marked_bytes(stream_encoding(ct, src)), room) == Ok::<
            Seq<u8>,
            Error,
        >(src),
{
    let e = encoding(ct, src, 0);
    fse::lemma_encodes_with(ct, norm, n, log);
    lemma_encoding_wf(ct, src, 0);
    let one = e.bits.push(e.odd, log);
    let two = one.push(e.even, log);
    bits::lemma_push_pop(e.bits, e.odd, log);
    bits::lemma_push_pop(one, e.even, log);
    bits::lemma_stream_roundtrip(two);
    let size = pow2(log) as int;
    lemma_fundamental_div_mod_converse(e.even as int, size, 1, e.even - size);
    lemma_fundamental_div_mod_converse(e.odd as int, size, 1, e.odd - size);
    let word = Reading::start(bits::marked_bytes(two)).word;
    lemma_interleaved_undoes(ct, entries, norm, n, log, src, word, 0, room);
    assert(src.subrange(0, src.len() as int) =~= src);
}

/// Bytes that are written with an encode table and read with the decode table
/// of the same distribution come back unchanged, wherever every byte has
/// states in the distribution and no byte has all of them.
pub proof fn law_interleaved_roundtrip(
    ct: CTable,
    dt: DTable,
    norm: Seq<i16>,
    n: nat,
    log: nat,
    src: Seq<u8>,
    room: nat,
)
    requires
        fse::encodes_with(ct, norm, n, log),
        fse::decodes(dt, norm, n, log),
        codable(norm, n, log, src),
        src.len() > 2,
        room >= src.len(),
    ensures
        stream_decoding(dt.entries@, log, bits::marked_bytes(stream_encoding(ct, src)), room) == Ok::<
            Seq<u8>,
            Error,
        >(src),
{
    fse::lemma_decodes_entries_of(dt, norm, n, log);
    lemma_interleaved_roundtrip(ct, dt.entries@, norm, n, log, src, room);
}

// ---------------------------------------------------------------------------
// The stream of a distribution.

/// Tables with the same numbers write the same.
proof fn lemma_encoding_same(a: CTable, b: CTable, src: Seq<u8>, i: nat)
    requires
        fse::same_table(a, b),
    ensures
        encoding(a, src, i) == encoding(b, src, i),
    decreases src.len() - i,
{
    reveal(CTable::bits_out);
    reveal(CTable::next_index);
    reveal(CTable::start_index);
    if i + 2 < src.len() {
        lemma_encoding_same(a, b, src, i + 1);
    }
}

/// The stream that a distribution's encode table writes.
pub open spec fn distribution_stream(norm: Seq<i16>, n: nat, log: nat, src: Seq<u8>) -> Bits {
    stream_encoding(fse::table_of(norm, n, log), src)
}

/// Every encode table of a distribution writes the same stream.
pub proof fn lemma_distribution_stream(ct: CTable, norm: Seq<i16>, n: nat, log: nat, src: Seq<u8>)
    requires
        fse::encodes_with(ct, norm, n, log),
    ensures
        stream_encoding(ct, src) == distribution_stream(norm, n, log, src),
{
    let other = fse::table_of(norm, n, log);
    fse::lemma_encode_table_unique(ct, other, norm, n, log);
    lemma_encoding_same(ct, other, src, 0);
}

/// What a block of bytes decodes to: a header, and a stream with two
/// interleaved states of its distribution.
pub open spec fn block_decoding(src: Seq<u8>, max_symbol: nat, max_log: nat, room: nat) -> Result<
    Seq<u8>,
> {
    match ncount::parse_header(src, max_symbol + 1, max_log) {
        Err(e) => Err(e),
        Ok(h) => stream_decoding(
            fse::entries_for(h.counts, h.counts.len(), h.log),
            h.log,
            src.skip(h.size as int),
            room,
        ),
    }
}

proof fn lemma_interleaved_fits(
    entries: Seq<DecodeEntry>,
    a: nat,
    b: nat,
    r: Reading,
    room: nat,
)
    ensures
        interleaved(entries, a, b, r, room) matches Some(s) ==> s.len() <= room,
    decreases room,
{
    if room >= 2 {
        let e = entries[a as int];
        lemma_interleaved_fits(
            entries,
            b,
            e.new_state as nat + r.look(e.nb_bits as nat),
            r.skip(e.nb_bits as nat),
            (room - 1) as nat,
        );
    }
}

/// A block decodes to no more than there is room for.
pub proof fn lemma_block_decoding_fits(src: Seq<u8>, max_symbol: nat, max_log: nat, room: nat)
    ensures
        block_decoding(src, max_symbol, max_log, room) matches Ok(s) ==> s.len() <= room,
{
    if let Ok(h) = ncount::parse_header(src, max_symbol + 1, max_log) {
        let entries = fse::entries_for(h.counts, h.counts.len(), h.log);
        let stream = src.skip(h.size as int);
        let r0 = Reading::start(stream);
        let r1 = r0.skip(h.log);
        lemma_interleaved_fits(entries, r0.look(h.log), r1.look(h.log), r1.skip(h.log), room);
    }
}

/// Reads at most `room` bytes from a header and the stream behind it.
pub fn decompress(room: usize, src: &[u8], max_symbol_value: u32, max_table_log: usize) -> (r:
    Result<Vec<u8>>)
    ensures
        if max_symbol_value > 255 {
            r == Err::<Vec<u8>, Error>(Error::MaxSymbolValueTooLarge)
        } else if max_table_log > 9 {
            r == Err::<Vec<u8>, Error>(Error::TableLogTooLarge)
        } else {
            match block_decoding(
                src@,
                max_symbol_value as nat,
                max_table_log as nat,
                room as nat,
            ) {
                Ok(bytes) => r matches Ok(v) && v@ == bytes,
                Err(e) => r == Err::<Vec<u8>, Error>(e),
            }
        },
{
    let mut normalized: Vec<i16> = vec![0i16; 256];
    let header: NCount = ncount::read_ncount(
        &mut normalized,
        max_symbol_value,
        src,
        max_table_log,
    )?;
    let len: usize = src.len();
    let ghost h = ncount::parse_header(
        src@,
        max_symbol_value as nat + 1,
        max_table_log as nat,
    )->Ok_0;
    proof {
        assert(normalized@.subrange(0, h.counts.len() as int) =~= h.counts);
        fse::lemma_filling_numbered(h.counts, h.counts.len(), h.log);
    }
    let dt: DTable = fse::build_dtable(
        &normalized[0..header.max_symbol_value as usize + 1],
        header.max_symbol_value,
        header.table_log,
    )?;
    proof {
        fse::lemma_decodes_entries(dt, h.counts, h.counts.len(), h.log);
        fse::lemma_decodes_wf(dt, h.counts, h.counts.len(), h.log);
        assert(src@.skip(h.size as int) == src@.subrange(h.size as int, src@.len() as int));
    }
    decompress_interleaved2(room, &src[header.size..len], &dt)
}

} // verus!
