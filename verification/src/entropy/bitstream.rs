//! The forward bit writer and the backward bit reader.
//!
//! The writer collects bits in a 64-bit accumulator and moves whole bytes out
//! of it. The reader starts at the end mark, the highest set bit of the last
//! byte, and walks towards the first byte, so that the bits written last are
//! the bits read first.

use crate::entropy::bits;
use crate::entropy::bits::Bits;
use crate::entropy::mem;
use crate::error::{Error, Result};
use vstd::arithmetic::div_mod::*;
use vstd::arithmetic::mul::*;
use vstd::arithmetic::power2::*;
use vstd::prelude::*;

verus! {

/// Width of the accumulator in bytes; a writer keeps that much of its
/// capacity in reserve.
pub const WORD_BYTES: usize = 8;

/// Width of the reader's word in bits.
pub const WORD_BITS: u32 = 64;

/// How many bits the word holds for certain after it was moved, as far as the
/// stream has them.
pub const READ_MAX: u32 = 56;

/// What moving the reader's word says of how much of a stream is left.
#[derive(Debug, Clone, Copy, PartialEq, Eq, Structural)]
pub enum BitDStreamStatus {
    /// The word could be moved behind every byte that was read.
    Unfinished,
    /// The word stands at the first byte, or was moved there over fewer bytes
    /// than were read, and bits of it are left.
    EndOfBuffer,
    /// Every bit was read, and none was missing.
    Completed,
    /// More bits were read than the stream holds.
    Overflow,
}

/// A bit writer with a fixed capacity.
pub struct BitCStream {
    out: Vec<u8>,
    bit_container: u64,
    bit_pos: u32,
    capacity: usize,
}

impl View for BitCStream {
    type V = Bits;

    /// The bits written so far.
    closed spec fn view(&self) -> Bits {
        Bits {
            value: bits::bytes_value(self.out@) + self.bit_container as nat * pow2(
                8 * self.out@.len(),
            ),
            len: 8 * self.out@.len() + self.bit_pos as nat,
        }
    }
}

impl BitCStream {
    /// The accumulator holds its bits below `bit_pos` and nothing above.
    pub closed spec fn wf(self) -> bool {
        &&& self.bit_pos < 64
        &&& (self.bit_container as nat) < pow2(self.bit_pos as nat)
        &&& self.capacity > WORD_BYTES
    }

    /// The number of bits that wait in the accumulator.
    pub closed spec fn pending(self) -> nat {
        self.bit_pos as nat
    }

    /// The size that the writer was made with.
    pub closed spec fn capacity(self) -> nat {
        self.capacity as nat
    }

    /// The bits of a well-formed writer form a well-formed stack.
    pub proof fn lemma_view_wf(self)
        requires
            self.wf(),
        ensures
            self@.wf(),
            self.pending() < 64,
            self@.len >= self.pending(),
    {
        bits::lemma_bytes_value_bound(self.out@);
        let n = 8 * self.out@.len();
        lemma_pow2_adds(n, self.bit_pos as nat);
        let p = pow2(n) as int;
        let c = self.bit_container as int;
        assert(bits::bytes_value(self.out@) + c * p < p * pow2(self.bit_pos as nat))
            by (nonlinear_arith)
            requires
                bits::bytes_value(self.out@) < p,
                c <= pow2(self.bit_pos as nat) - 1,
                p > 0,
        ;
    }

    /// An empty writer. Capacities that do not exceed the reserve are refused.
    pub fn new(capacity: usize) -> (r: Result<BitCStream>)
        ensures
            r is Ok <==> capacity > WORD_BYTES,
            r is Err ==> r == Err::<BitCStream, Error>(Error::DstSizeTooSmall),
            r matches Ok(s) ==> s.wf() && s@ == Bits::empty() && s.pending() == 0 && s.capacity()
                == capacity,
    {
        if capacity <= WORD_BYTES {
            return Err(Error::DstSizeTooSmall);
        }
        proof {
            lemma2_to64();
        }
        let s = BitCStream { out: Vec::new(), bit_container: 0, bit_pos: 0, capacity };
        proof {
            assert(0 * pow2(8 * s.out@.len()) == 0);
        }
        Ok(s)
    }

    /// An empty writer that never runs out of capacity.
    pub fn unbounded() -> (r: BitCStream)
        ensures
            r.wf(),
            r@ == Bits::empty(),
            r.pending() == 0,
    {
        proof {
            lemma2_to64();
        }
        let s = BitCStream {
            out: Vec::new(),
            bit_container: 0,
            bit_pos: 0,
            capacity: usize::MAX,
        };
        proof {
            assert(0 * pow2(8 * s.out@.len()) == 0);
        }
        s
    }

    /// How many bits wait in the accumulator.
    pub fn bit_pos(&self) -> (r: u32)
        requires
            self.wf(),
        ensures
            r == self.pending(),
            r < 64,
    {
        self.bit_pos
    }

    /// Writes the lowest `nb_bits` bits of `value`.
    pub fn add_bits(&mut self, value: u64, nb_bits: u32)
        requires
            old(self).wf(),
            nb_bits + old(self).pending() < 64,
        ensures
            final(self).wf(),
            final(self)@ == old(self)@.push(value as nat, nb_bits as nat),
            final(self).pending() == old(self).pending() + nb_bits,
            final(self).capacity() == old(self).capacity(),
    {
        proof {
            reveal(bits::raised);
            reveal(bits::above);
            reveal(bits::below);
            reveal(bits::padded);
        }
        let field: u64 = mem::low_bits(value, nb_bits);
        self.append_field(field, nb_bits);
        proof {
            lemma_pow2_pos(nb_bits as nat);
            lemma_small_mod(field as nat, pow2(nb_bits as nat));
        }
    }

    /// Writes a value that is known to fit in `nb_bits` bits.
    pub fn add_bits_fast(&mut self, value: u64, nb_bits: u32)
        requires
            old(self).wf(),
            nb_bits + old(self).pending() < 64,
            (value as nat) < pow2(nb_bits as nat),
        ensures
            final(self).wf(),
            final(self)@ == old(self)@.push(value as nat, nb_bits as nat),
            final(self).pending() == old(self).pending() + nb_bits,
            final(self).capacity() == old(self).capacity(),
    {
        self.append_field(value, nb_bits);
    }

    fn append_field(&mut self, field: u64, nb_bits: u32)
        requires
            old(self).wf(),
            nb_bits + old(self).pending() < 64,
            (field as nat) < pow2(nb_bits as nat),
        ensures
            final(self).wf(),
            final(self)@ == old(self)@.push(field as nat, nb_bits as nat),
            final(self).pending() == old(self).pending() + nb_bits,
            final(self).capacity() == old(self).capacity(),
    {
        proof {
            reveal(bits::raised);
            reveal(bits::above);
            reveal(bits::below);
            reveal(bits::padded);
        }
        let ghost c = self.bit_container as int;
        let ghost p = pow2(self.bit_pos as nat) as int;
        let ghost q = pow2(nb_bits as nat) as int;
        let ghost n = 8 * self.out@.len();
        proof {
            lemma_pow2_pos(self.bit_pos as nat);
            lemma_pow2_adds(self.bit_pos as nat, nb_bits as nat);
            mem::lemma_pow2_monotone((self.bit_pos + nb_bits) as nat, 63);
            lemma2_to64_rest();
            lemma_small_mod(field as nat, pow2(nb_bits as nat));
            assert(0 <= c + field as int * p < p * q) by (nonlinear_arith)
                requires
                    0 <= c < p,
                    0 <= field <= q - 1,
            ;
            assert(0 <= field as int * p);
            vstd::bits::lemma_u64_shl_is_mul(field, self.bit_pos as u64);
        }
        self.bit_container = self.bit_container + (field << self.bit_pos);
        proof {
            lemma_pow2_adds(n, self.bit_pos as nat);
            let m = pow2(n) as int;
            assert((c + field as int * p) * m == c * m + field as int * (m * p))
                by (nonlinear_arith);
        }
        self.bit_pos = self.bit_pos + nb_bits;
    }

    /// Moves the accumulator's whole bytes to the output.
    pub fn flush_bits(&mut self)
        requires
            old(self).wf(),
        ensures
            final(self).wf(),
            final(self)@ == old(self)@,
            final(self).pending() == old(self).pending() % 8,
            final(self).capacity() == old(self).capacity(),
    {
        while self.bit_pos >= 8
            invariant
                self.wf(),
                self@ == old(self)@,
                self.pending() % 8 == old(self).pending() % 8,
                self.capacity() == old(self).capacity(),
            decreases self.bit_pos,
        {
            let ghost before = *self;
            proof {
                lemma2_to64();
                lemma_pow2_adds(8, (self.bit_pos - 8) as nat);
                lemma_pow2_adds(8 * self.out@.len(), 8);
                let c = self.bit_container as int;
                let p = pow2((self.bit_pos - 8) as nat) as int;
                assert(c / 256 < p) by (nonlinear_arith)
                    requires
                        c < 256 * p,
                ;
                bits::lemma_bytes_value_push(self.out@, (self.bit_container % 256) as u8);
            }
            let byte: u8 = (self.bit_container % 256) as u8;
            self.out.push(byte);
            self.bit_container = self.bit_container / 256;
            self.bit_pos = self.bit_pos - 8;
            proof {
                let c = before.bit_container as int;
                let m = pow2(8 * before.out@.len()) as int;
                assert((c % 256) * m + (c / 256) * (m * 256) == c * m) by (nonlinear_arith)
                    requires
                        c == 256 * (c / 256) + c % 256,
                ;
                assert(self@.value == before@.value);
            }
        }
    }

    /// Ends the stream with its mark and returns its bytes, or nothing where
    /// they would reach into the reserve.
    pub fn close(self) -> (r: Vec<u8>)
        requires
            self.wf(),
        ensures
            (self@.len + 1) / 8 >= self.capacity() - WORD_BYTES ==> r@.len() == 0,
            (self@.len + 1) / 8 < self.capacity() - WORD_BYTES ==> r@ == bits::marked_bytes(self@),
    {
        proof {
            reveal(bits::raised);
            reveal(bits::above);
            reveal(bits::below);
            reveal(bits::padded);
        }
        let mut s = self;
        s.flush_bits();
        proof {
            lemma2_to64();
        }
        s.add_bits_fast(1, 1);
        s.flush_bits();
        let ghost marked = s@;
        proof {
            lemma_pow2_pos(self@.len);
            lemma_small_mod(1, 2);
            assert(1 * pow2(self@.len) == pow2(self@.len));
            assert(marked.value == self@.value + pow2(self@.len));
        }
        if s.out.len() >= s.capacity - WORD_BYTES {
            return Vec::new();
        }
        let ghost kept = s.out@;
        if s.bit_pos > 0 {
            proof {
                mem::lemma_pow2_monotone(s.bit_pos as nat, 8);
                lemma2_to64();
                bits::lemma_bytes_value_push(kept, s.bit_container as u8);
            }
            let byte: u8 = s.bit_container as u8;
            s.out.push(byte);
        } else {
            proof {
                lemma2_to64();
                assert(s.bit_container == 0);
                assert(0 * pow2(8 * kept.len()) == 0);
            }
        }
        proof {
            bits::lemma_bytes_value_injective(s.out@, marked.value);
        }
        s.out
    }
}

impl BitCStream {
    /// The bytes of the bits written so far, without an end mark; the last
    /// byte is filled up with zeros.
    pub fn into_bytes(self) -> (r: Vec<u8>)
        requires
            self.wf(),
        ensures
            r@ == bits::nat_bytes(self@.value, (self@.len + 7) / 8),
    {
        let mut s = self;
        s.flush_bits();
        let ghost kept = s.out@;
        if s.bit_pos > 0 {
            proof {
                mem::lemma_pow2_monotone(s.bit_pos as nat, 8);
                lemma2_to64();
                bits::lemma_bytes_value_push(kept, s.bit_container as u8);
            }
            let byte: u8 = s.bit_container as u8;
            s.out.push(byte);
        } else {
            proof {
                lemma2_to64();
                assert(s.bit_container == 0);
                assert(0 * pow2(8 * kept.len()) == 0);
            }
        }
        proof {
            bits::lemma_bytes_value_injective(s.out@, self@.value);
        }
        s.out
    }
}

/// What a reader still holds, how far it was asked for more than it held, and
/// the word that the stream starts with.
///
/// A reader that is past its end goes on turning round in the first word, so
/// how far it is past the end is kept up to whole turns: zero where nothing
/// was missing, and from 1 to 64 where something was.
pub struct Reading {
    pub bits: Bits,
    pub missing: nat,
    pub word: nat,
}

/// A distance past the end of a stream, up to whole turns of 64 bits.
pub open spec fn past_end(missing: nat) -> nat {
    if missing == 0 {
        0
    } else {
        ((missing - 1) % 64 + 1) as nat
    }
}

/// The number that the (at most) eight bytes from `at` on spell.
pub open spec fn word_at(src: Seq<u8>, at: int) -> nat {
    bits::bytes_value(
        src.subrange(
            at,
            if at + 8 <= src.len() {
                at + 8
            } else {
                src.len() as int
            },
        ),
    )
}

/// The `n` bits of a word whose lowest one stands at `shift`, counted round.
pub open spec fn turned_field(word: nat, shift: int, n: nat) -> nat {
    (word / pow2((shift % 64) as nat)) % pow2(n)
}

/// The `n` highest of the `k` lowest bits of a word, with zeros below them
/// where there are fewer.
pub open spec fn leading_field(word: nat, k: nat, n: nat) -> nat {
    if n <= k {
        (word % pow2(k)) / pow2((k - n) as nat)
    } else {
        (word % pow2(k)) * pow2((n - k) as nat)
    }
}

impl Reading {
    /// The reading at the start of a stream.
    pub open spec fn start(src: Seq<u8>) -> Reading {
        Reading { bits: bits::stream_bits(src), missing: 0, word: word_at(src, 0) }
    }

    /// The reading of a stack of bits from which nothing was missing so far.
    pub open spec fn holding(bits: Bits, word: nat) -> Reading {
        Reading { bits, missing: 0, word }
    }

    /// More bits were taken than there were.
    pub open spec fn overflow(self) -> bool {
        self.missing > 0
    }

    /// The value of the next `n` bits. Where fewer are left, it is the field of
    /// the first word that the read position has come round to.
    pub open spec fn look(self, n: nat) -> nat {
        if n <= self.bits.len {
            self.bits.top(n)
        } else {
            turned_field(self.word, self.bits.len - self.missing - n, n)
        }
    }

    /// The value of the next `n` bits. Where fewer are left, the others count
    /// as zeros; where none are left, the read position has come round to the
    /// top of the first word.
    pub open spec fn look_fast(self, n: nat) -> nat {
        if n == 0 || self.bits.len > 0 {
            self.bits.top(n)
        } else {
            leading_field(self.word, (64 - self.missing % 64) as nat, n)
        }
    }

    /// What is left after `n` more bits.
    pub open spec fn skip(self, n: nat) -> Reading {
        Reading {
            bits: self.bits.pop(n),
            missing: if n <= self.bits.len {
                self.missing
            } else {
                past_end((self.missing + n - self.bits.len) as nat)
            },
            word: self.word,
        }
    }

    /// What is left after `n` more bits, or after all bits where fewer are
    /// left. Where none are left, nothing changes.
    pub open spec fn skip_at_most(self, n: nat) -> Reading {
        if n <= self.bits.len {
            self.skip(n)
        } else {
            Reading { bits: Bits::empty(), ..self }
        }
    }

    /// Every bit was read and none was missing.
    pub open spec fn finished(self) -> bool {
        self.missing == 0 && self.bits.len == 0
    }
}

/// Looking gives a number of the width asked for, and what is left is well
/// formed.
pub proof fn lemma_look_bound(r: Reading, n: nat)
    requires
        r.bits.wf(),
    ensures
        r.look(n) < pow2(n),
        r.look_fast(n) < pow2(n),
        r.skip(n).bits.wf(),
        r.skip_at_most(n).bits.wf(),
{
    bits::lemma_top_bound(r.bits, n);
    lemma2_to64();
    lemma_pow2_pos(n);
    let shift = r.bits.len - r.missing - n;
    lemma_mod_bound((r.word / pow2((shift % 64) as nat)) as int, pow2(n) as int);
    let k = (64 - r.missing % 64) as nat;
    lemma_leading_field_bound(r.word, k, n);
}

proof fn lemma_leading_field_bound(word: nat, k: nat, n: nat)
    ensures
        leading_field(word, k, n) < pow2(n),
{
    lemma_pow2_pos(k);
    lemma_mod_bound(word as int, pow2(k) as int);
    let x = word % pow2(k);
    if n <= k {
        let d = (k - n) as nat;
        lemma_pow2_adds(d, n);
        lemma_pow2_pos(d);
        lemma_multiply_divide_lt(x as int, pow2(d) as int, pow2(n) as int);
    } else {
        let d = (n - k) as nat;
        lemma_pow2_adds(k, d);
        lemma_pow2_pos(d);
        assert(x * pow2(d) < pow2(k) * pow2(d)) by (nonlinear_arith)
            requires
                x < pow2(k),
                pow2(d) > 0,
        ;
    }
}

/// Where a reader stands: the eight bytes from `at` on are in its word, all
/// bytes where the stream is shorter, and `taken` bits of the word are read,
/// counted from its top. Beyond the word they are counted up to whole turns.
pub struct Register {
    pub src: Seq<u8>,
    pub at: nat,
    pub taken: nat,
}

impl Register {
    /// The word lies inside the source.
    pub open spec fn wf(self) -> bool {
        &&& 0 < self.src.len()
        &&& self.at == 0 || self.at + 8 <= self.src.len()
        &&& self.taken <= 128
        &&& self.src.len() < 8 ==> 64 - 8 * self.src.len() < self.taken
    }

    /// Where a stream starts: behind the mark in its last byte.
    pub open spec fn start(src: Seq<u8>) -> Register {
        let marked = (8 - mem::floor_log2(src.last() as nat)) as nat;
        if src.len() >= 8 {
            Register { src, at: (src.len() - 8) as nat, taken: marked }
        } else {
            Register { src, at: 0, taken: (8 * (8 - src.len()) + marked) as nat }
        }
    }

    pub open spec fn word(self) -> nat {
        word_at(self.src, self.at as int)
    }

    /// The next `n` bits of the word; behind its end it starts over.
    pub open spec fn look(self, n: nat) -> nat {
        turned_field(self.word(), 64 - self.taken - n, n)
    }

    /// The next `n` bits of the word; behind its end there are zeros.
    pub open spec fn look_fast(self, n: nat) -> nat {
        leading_field(self.word(), (64 - self.taken % 64) as nat, n)
    }

    pub open spec fn skip(self, n: nat) -> Register {
        let taken = self.taken + n;
        Register {
            taken: if taken <= 64 {
                taken
            } else {
                64 + past_end((taken - 64) as nat)
            },
            ..self
        }
    }

    /// Takes `n` bits, or what is left of the word where that is less.
    pub open spec fn skip_at_most(self, n: nat) -> Register {
        Register {
            taken: if self.taken >= 64 {
                self.taken
            } else if self.taken + n > 64 {
                64
            } else {
                self.taken + n
            },
            ..self
        }
    }

    /// How many whole bytes the word can move towards the first byte.
    pub open spec fn step(self) -> nat {
        if self.taken > 64 {
            0
        } else if self.taken / 8 > self.at {
            self.at
        } else {
            self.taken / 8
        }
    }

    /// The word moved behind the bytes that were read.
    pub open spec fn reloaded(self) -> Register {
        Register {
            at: (self.at - self.step()) as nat,
            taken: (self.taken - 8 * self.step()) as nat,
            ..self
        }
    }

    /// What a move says of the stream.
    pub open spec fn status(self) -> BitDStreamStatus {
        if self.taken > 64 {
            BitDStreamStatus::Overflow
        } else if self.at == 0 && self.taken < 64 {
            BitDStreamStatus::EndOfBuffer
        } else if self.at == 0 {
            BitDStreamStatus::Completed
        } else if self.taken / 8 > self.at {
            BitDStreamStatus::EndOfBuffer
        } else {
            BitDStreamStatus::Unfinished
        }
    }

    /// What is left of the stream.
    pub open spec fn reading(self) -> Reading {
        let left = if self.taken <= 64 {
            (8 * self.at + 64 - self.taken) as nat
        } else {
            0
        };
        Reading {
            bits: Bits { value: bits::bytes_value(self.src) % pow2(left), len: left },
            missing: if self.taken <= 64 {
                0
            } else {
                (self.taken - 64) as nat
            },
            word: word_at(self.src, 0),
        }
    }

    /// The next `n` bits are in the word, as far as the stream has them.
    pub open spec fn ready(self, n: nat) -> bool {
        self.at == 0 || self.taken + n <= 64
    }
}

/// While the bits asked for are in the word, the word gives what the stream
/// holds.
pub proof fn law_word_gives_the_stream(g: Register, n: nat)
    requires
        g.wf(),
        g.ready(n),
    ensures
        g.look(n) == g.reading().look(n),
        g.look_fast(n) == g.reading().look_fast(n),
        g.skip(n).wf(),
        g.skip(n).reading() == g.reading().skip(n),
        g.skip_at_most(n).wf(),
        g.skip_at_most(n).reading() == g.reading().skip_at_most(n),
        g.reading().bits.wf(),
        g.skip(n).ready(0),
        g.skip_at_most(n).ready(0),
{
    reveal(bits::above);
    reveal(bits::below);
    reveal(bits::padded);
    let total = bits::bytes_value(g.src);
    let r = g.reading();
    let len = r.bits.len;
    lemma_pow2_pos(len);
    lemma_pow2_pos(n);
    lemma_mod_bound(total as int, pow2(len) as int);
    lemma2_to64();
    assert(total % 1 == 0);
    if n <= len {
        let shift = (64 - g.taken - n) as int;
        if g.taken <= 64 {
            let low = shift as nat;
            if low < 64 {
                assert(shift % 64 == shift);
            } else {
                assert(n == 0);
            }
            lemma_field(g.src, g.at as int, low, n);
            bits::lemma_cut_bits(total, (8 * g.at) as nat + low, n);
            bits::lemma_cut_bits(g.word(), low, n);
            assert((8 * g.at) as nat + low + n == len);
            lemma_mod_bound((g.word() / pow2((shift % 64) as nat)) as int, pow2(n) as int);
            lemma_mod_bound((g.word() / pow2(low)) as int, pow2(n) as int);
        } else {
            assert(n == 0);
            lemma_leading_field_bound(g.word(), (64 - g.taken % 64) as nat, 0);
            lemma_mod_bound((g.word() / pow2((shift % 64) as nat)) as int, 1);
        }
        if n == 0 {
            lemma_leading_field_bound(g.word(), (64 - g.taken % 64) as nat, 0);
            lemma_small_div(r.bits.value, pow2(len));
        } else {
            assert(g.taken < 64);
            assert(g.taken % 64 == g.taken);
        }
    } else if len > 0 {
        assert(g.taken % 64 == g.taken);
        lemma_field(g.src, 0, 0, len);
        assert(word_at(g.src, 0) / 1 == word_at(g.src, 0));
        assert(total / 1 == total);
        assert(pow2((8 * 0int) as nat + 0) == 1);
    } else {
        assert(g.taken % 64 == r.missing % 64);
    }
}

proof fn lemma_small_div(x: nat, d: nat)
    requires
        x < d,
    ensures
        x / d == 0,
{
    lemma_fundamental_div_mod_converse(x as int, d as int, 0, x as int);
}

/// Moving the word changes nothing of what is left.
pub proof fn law_moving_keeps_the_stream(g: Register)
    requires
        g.wf(),
    ensures
        g.reloaded().wf(),
        g.reloaded().reading() == g.reading(),
        g.ready(0) ==> g.reloaded().ready(READ_MAX as nat),
        (g.status() == BitDStreamStatus::Overflow) == g.reading().overflow(),
        g.status() == BitDStreamStatus::Completed ==> g.reading().finished(),
{
}

/// A backward bit reader.
pub struct BitDStream<'a> {
    src: &'a [u8],
    /// Where the word stands.
    at: usize,
    /// Bits of the word that were read.
    taken: u32,
}

impl<'a> View for BitDStream<'a> {
    type V = Reading;

    open spec fn view(&self) -> Reading {
        self.register().reading()
    }
}

impl<'a> BitDStream<'a> {
    /// Where the reader stands.
    pub closed spec fn register(&self) -> Register {
        Register { src: self.src@, at: self.at as nat, taken: self.taken as nat }
    }

    /// The reader stands inside its stream, and did not leave a word behind
    /// before the stream's end without moving it.
    pub open spec fn wf(self) -> bool {
        self.register().wf() && self.register().ready(0)
    }

    /// What a well-formed reader holds is a well-formed stack.
    pub proof fn lemma_view_wf(self)
        requires
            self.wf(),
        ensures
            self@.bits.wf(),
            self@.overflow() ==> self@.bits.len == 0,
    {
        law_word_gives_the_stream(self.register(), 0);
    }

    /// Starts at the end mark. An empty source and one whose last byte holds
    /// no mark are refused.
    pub fn new(src: &'a [u8]) -> (r: Result<BitDStream<'a>>)
        ensures
            src@.len() == 0 ==> r == Err::<BitDStream<'a>, Error>(Error::SrcSizeWrong),
            src@.len() > 0 && src@.last() == 0 ==> r == Err::<BitDStream<'a>, Error>(
                Error::Corruption("bitstream end marker is zero"),
            ),
            src@.len() > 0 && src@.last() != 0 ==> r is Ok,
            r matches Ok(s) ==> s.wf() && s.register() == Register::start(src@) && s@
                == Reading::start(src@),
    {
        if src.len() == 0 {
            return Err(Error::SrcSizeWrong);
        }
        let last_byte: u8 = src[src.len() - 1];
        if last_byte == 0 {
            return Err(Error::Corruption("bitstream end marker is zero"));
        }
        let bits: u32 = mem::highbit32(last_byte as u32);
        proof {
            mem::lemma_floor_log2(last_byte as nat);
            lemma2_to64();
            if bits >= 8 {
                mem::lemma_pow2_monotone(8, bits as nat);
            }
        }
        if src.len() >= 8 {
            Ok(BitDStream { src, at: src.len() - 8, taken: 8 - bits })
        } else {
            Ok(BitDStream { src, at: 0, taken: 8 * (8 - src.len() as u32) + 8 - bits })
        }
    }

    /// The next `nb_bits` bits, without taking them. Behind the end of the
    /// word it starts over.
    pub fn look_bits(&self, nb_bits: u32) -> (r: u64)
        requires
            self.register().wf(),
            nb_bits <= WORD_BITS,
        ensures
            r == self.register().look(nb_bits as nat),
            (r as nat) < pow2(nb_bits as nat),
            self.register().ready(nb_bits as nat) ==> r == self@.look(nb_bits as nat),
    {
        let shift: u32 = (64 + 128 - self.taken - nb_bits) % 64;
        let word: u64 = mem::read_word(self.src, self.at);
        let high: u64 = mem::high_bits(word, shift);
        let field: u64 = if nb_bits == WORD_BITS {
            proof {
                lemma2_to64_rest();
                lemma_small_mod(high as nat, pow2(64));
            }
            high
        } else {
            mem::low_bits(high, nb_bits)
        };
        assert(field == self.register().look(nb_bits as nat)) by {
            assert(shift == (64 - self.taken - nb_bits) % 64);
            assert(word == self.register().word());
        }
        assert(self.register().ready(nb_bits as nat) ==> field == self@.look(nb_bits as nat)) by {
            if self.register().ready(nb_bits as nat) {
                law_word_gives_the_stream(self.register(), nb_bits as nat);
            }
        }
        field
    }

    /// The next `nb_bits` bits, without taking them. Behind the end of the
    /// word there are zeros.
    pub fn look_bits_fast(&self, nb_bits: u32) -> (r: u64)
        requires
            self.register().wf(),
            nb_bits <= WORD_BITS,
        ensures
            r == self.register().look_fast(nb_bits as nat),
            (r as nat) < pow2(nb_bits as nat),
            self.register().ready(nb_bits as nat) ==> r == self@.look_fast(nb_bits as nat),
    {
        let kept: u32 = 64 - self.taken % 64;
        let word: u64 = mem::read_word(self.src, self.at);
        proof {
            if self.register().ready(nb_bits as nat) {
                law_word_gives_the_stream(self.register(), nb_bits as nat);
            }
            lemma_leading_field_bound(word as nat, kept as nat, nb_bits as nat);
            lemma_word_bound(self.src@, self.at as int);
        }
        let rest: u64 = if kept == 64 {
            proof {
                lemma_small_mod(word as nat, pow2(64));
            }
            word
        } else {
            mem::low_bits(word, kept)
        };
        if nb_bits == 0 {
            proof {
                lemma2_to64();
            }
            0
        } else if nb_bits <= kept {
            mem::high_bits(rest, kept - nb_bits)
        } else {
            proof {
                mem::lemma_pow2_monotone(nb_bits as nat, 64);
                lemma2_to64_rest();
            }
            rest * mem::power_of_two(nb_bits - kept)
        }
    }

    /// Takes `nb_bits` bits.
    pub fn skip_bits(&mut self, nb_bits: u32)
        requires
            old(self).register().wf(),
            nb_bits <= WORD_BITS,
        ensures
            final(self).register().wf(),
            final(self).register() == old(self).register().skip(nb_bits as nat),
            old(self).register().ready(nb_bits as nat) ==> final(self).wf() && final(self)@
                == old(self)@.skip(nb_bits as nat),
    {
        proof {
            if self.register().ready(nb_bits as nat) {
                law_word_gives_the_stream(self.register(), nb_bits as nat);
            }
        }
        let taken: u32 = self.taken + nb_bits;
        self.taken = if taken <= 64 {
            taken
        } else {
            64 + (taken - 65) % 64 + 1
        };
    }

    /// Takes `nb_bits` bits, or all bits where fewer are left.
    pub fn skip_at_most(&mut self, nb_bits: u32)
        requires
            old(self).register().wf(),
            nb_bits <= WORD_BITS,
        ensures
            final(self).register().wf(),
            final(self).register() == old(self).register().skip_at_most(nb_bits as nat),
            old(self).register().ready(nb_bits as nat) ==> final(self).wf() && final(self)@
                == old(self)@.skip_at_most(nb_bits as nat),
    {
        proof {
            if self.register().ready(nb_bits as nat) {
                law_word_gives_the_stream(self.register(), nb_bits as nat);
            }
        }
        if self.taken < 64 {
            self.taken = if self.taken + nb_bits > 64 {
                64
            } else {
                self.taken + nb_bits
            };
        }
    }

    /// Takes `nb_bits` bits and returns them.
    pub fn read_bits(&mut self, nb_bits: u32) -> (r: u64)
        requires
            old(self).register().wf(),
            nb_bits <= WORD_BITS,
        ensures
            final(self).register().wf(),
            r == old(self).register().look(nb_bits as nat),
            final(self).register() == old(self).register().skip(nb_bits as nat),
            (r as nat) < pow2(nb_bits as nat),
            old(self).register().ready(nb_bits as nat) ==> final(self).wf() && r == old(
                self,
            )@.look(nb_bits as nat) && final(self)@ == old(self)@.skip(nb_bits as nat),
    {
        let value: u64 = self.look_bits(nb_bits);
        self.skip_bits(nb_bits);
        value
    }

    /// Takes `nb_bits` bits and returns them, with zeros behind the end of the
    /// word.
    pub fn read_bits_fast(&mut self, nb_bits: u32) -> (r: u64)
        requires
            old(self).register().wf(),
            nb_bits <= WORD_BITS,
        ensures
            final(self).register().wf(),
            r == old(self).register().look_fast(nb_bits as nat),
            final(self).register() == old(self).register().skip(nb_bits as nat),
            (r as nat) < pow2(nb_bits as nat),
            old(self).register().ready(nb_bits as nat) ==> final(self).wf() && r == old(
                self,
            )@.look_fast(nb_bits as nat) && final(self)@ == old(self)@.skip(nb_bits as nat),
    {
        let value: u64 = self.look_bits_fast(nb_bits);
        self.skip_bits(nb_bits);
        value
    }

    /// Moves the word behind the bytes that were read, as far as there are
    /// bytes, and says how much is left.
    pub fn reload(&mut self) -> (r: BitDStreamStatus)
        requires
            old(self).register().wf(),
        ensures
            final(self).register().wf(),
            r == old(self).register().status(),
            final(self).register() == old(self).register().reloaded(),
            final(self)@ == old(self)@,
            (r == BitDStreamStatus::Overflow) == old(self)@.overflow(),
            old(self).wf() ==> final(self).wf() && final(self).register().ready(READ_MAX as nat),
    {
        proof {
            law_moving_keeps_the_stream(self.register());
        }
        if self.taken > 64 {
            return BitDStreamStatus::Overflow;
        }
        if self.at == 0 {
            return if self.taken < 64 {
                BitDStreamStatus::EndOfBuffer
            } else {
                BitDStreamStatus::Completed
            };
        }
        let step: usize = (self.taken / 8) as usize;
        if step > self.at {
            self.taken = self.taken - 8 * (self.at as u32);
            self.at = 0;
            return BitDStreamStatus::EndOfBuffer;
        }
        self.at = self.at - step;
        self.taken = self.taken % 8;
        BitDStreamStatus::Unfinished
    }

    /// Whether every bit was read and none was missing.
    pub fn end_of_stream(&self) -> (r: bool)
        requires
            self.register().wf(),
        ensures
            r == self@.finished(),
    {
        self.at == 0 && self.taken == 64
    }
}

proof fn lemma_word_bound(src: Seq<u8>, at: int)
    requires
        0 <= at < src.len(),
    ensures
        word_at(src, at) < pow2(64),
{
    let window = src.subrange(
        at,
        if at + 8 <= src.len() {
            at + 8
        } else {
            src.len() as int
        },
    );
    bits::lemma_bytes_value_bound(window);
    mem::lemma_pow2_monotone(8 * window.len(), 64);
}

/// A field of `n` bits at `shift` in byte `at` lies inside the word loaded
/// there.
proof fn lemma_field(src: Seq<u8>, at: int, shift: nat, n: nat)
    requires
        0 <= at < src.len(),
        shift + n <= 64,
    ensures
        ({
            let end = if at + 8 <= src.len() {
                at + 8
            } else {
                src.len() as int
            };
            (bits::bytes_value(src.subrange(at, end)) / pow2(shift)) % pow2(n) == (
            bits::bytes_value(src) / pow2((8 * at) as nat + shift)) % pow2(n)
        }),
{
    let end = if at + 8 <= src.len() {
        at + 8
    } else {
        src.len() as int
    };
    let total = bits::bytes_value(src);
    let above = total / pow2((8 * at) as nat);
    let width = (8 * (end - at)) as nat;
    bits::lemma_bytes_value_window(src, at, end);
    bits::lemma_drop_bits(total, (8 * at) as nat, shift);
    if at + 8 <= src.len() {
        bits::lemma_cut_bits(above, shift, (64 - shift) as nat);
        bits::lemma_cut_bits(above / pow2(shift), n, (64 - shift - n) as nat);
    } else {
        bits::lemma_bytes_value_bound(src);
        lemma_pow2_pos((8 * at) as nat);
        lemma_pow2_adds((8 * at) as nat, width);
        lemma_multiply_divide_lt(total as int, pow2((8 * at) as nat) as int, pow2(width) as int);
        lemma_small_mod(above, pow2(width));
    }
}

/// What moving the word says. Where it is unfinished, at least 57 bits of the
/// stream are in the word then; where the buffer ends, the word holds all that
/// is left, and something is; it is complete where nothing is left and nothing
/// was missing.
pub proof fn law_status_tells_what_is_left(g: Register)
    requires
        g.wf(),
        g.ready(0),
    ensures
        g.status() == BitDStreamStatus::Overflow <==> g.reading().missing > 0,
        g.status() == BitDStreamStatus::Completed <==> g.reading().missing == 0
            && g.reading().bits.len == 0,
        g.status() == BitDStreamStatus::Unfinished ==> g.reading().bits.len >= 57
            && g.reloaded().taken < 8,
        g.status() == BitDStreamStatus::EndOfBuffer ==> g.reloaded().at == 0
            && 0 < g.reading().bits.len <= 64 && g.reading().missing == 0,
        g.at == 0 && g.taken < 64 ==> g.status() == BitDStreamStatus::EndOfBuffer,
        g.at >= 8 && g.taken <= 64 ==> g.status() == BitDStreamStatus::Unfinished,
        0 < g.at < 8 && g.taken <= 64 ==> (g.status() == BitDStreamStatus::Unfinished <==> g.taken
            < 8 * g.at + 8),
{
}

/// A field that runs over the end of the word goes on at its other end; read
/// fast, there are zeros. Past the end the reader goes on turning round.
pub proof fn law_reading_past_the_word(g: Register, n: nat)
    requires
        g.wf(),
        0 < n < 64,
    ensures
        g.taken + n <= 64 ==> g.look(n) == (g.word() / pow2((64 - g.taken - n) as nat)) % pow2(n),
        64 < g.taken + n <= 128 && g.taken <= 64 ==> g.look(n) == (g.word() / pow2(
            (128 - g.taken - n) as nat,
        )) % pow2(n),
        g.taken < 64 && g.taken + n > 64 ==> g.look_fast(n) == (g.word() % pow2(
            (64 - g.taken) as nat,
        )) * pow2((g.taken + n - 64) as nat),
        g.taken == 64 && g.word() < pow2(64) ==> g.look_fast(n) == g.word() / pow2(
            (64 - n) as nat,
        ),
        g.skip(n).taken % 64 == (g.taken + n) % 64,
        g.skip(n).taken > 64 <==> g.taken + n > 64,
{
    if g.taken + n <= 64 {
        let d = 64 - g.taken - n;
        assert(d % 64 == d);
    } else if g.taken <= 64 {
        let d = 64 - g.taken - n;
        assert(d % 64 == d + 64);
    }
    if g.taken == 64 && g.word() < pow2(64) {
        lemma_small_mod(g.word(), pow2(64));
    }
}

} // verus!
