//! Table headers: how a normalized distribution is written down, and read
//! back.
//!
//! The header names the table log in four bits. Then come the counts, each in
//! a field whose width follows from how many states are still to be given
//! away. After a count of zero the run of further zeros is written in units of
//! three, and in units of twenty-four.

use crate::entropy::bits;
use crate::entropy::bits::Bits;
use crate::entropy::bitstream::BitCStream;
use crate::entropy::fse::{MIN_TABLELOG, SYMBOLVALUE_MAX, TABLELOG_MAX};
use crate::entropy::mem;
use crate::entropy::normalize;
use crate::entropy::spread;
use crate::error::{Error, Result};
use vstd::arithmetic::div_mod::*;
use vstd::arithmetic::power2::*;
use vstd::prelude::*;

verus! {

/// Largest value that `ncount_write_bound` returns.
pub const NCOUNT_WRITE_BOUND_MAX: usize = 291;

/// Whether an alphabet and a table log can be written in a header.
pub open spec fn header_shape_error(max_symbol_value: u32, table_log: u32) -> Option<Error> {
    if max_symbol_value > SYMBOLVALUE_MAX {
        Some(Error::MaxSymbolValueTooLarge)
    } else if table_log < MIN_TABLELOG || table_log > TABLELOG_MAX {
        Some(Error::TableLogTooLarge)
    } else {
        None
    }
}

/// The usual room for the header of a distribution over `n` symbols.
pub open spec fn usual_room(n: nat, log: nat) -> nat {
    (n * log + 4 + 2) / 8 + 1 + 2
}

/// Room for the header of a distribution over this alphabet. It is that of a
/// full field for every count, so a distribution with many lone zeros may need
/// a little more.
pub fn ncount_write_bound(max_symbol_value: u32, table_log: u32) -> (r: Result<usize>)
    ensures
        match header_shape_error(max_symbol_value, table_log) {
            Some(e) => r == Err::<usize, Error>(e),
            None => r is Ok && r->Ok_0 == usual_room(
                max_symbol_value as nat + 1,
                table_log as nat,
            ),
        },
        r matches Ok(bound) ==> bound <= NCOUNT_WRITE_BOUND_MAX,
{
    if max_symbol_value as usize > SYMBOLVALUE_MAX {
        return Err(Error::MaxSymbolValueTooLarge);
    }
    if (table_log as usize) < MIN_TABLELOG || table_log as usize > TABLELOG_MAX {
        return Err(Error::TableLogTooLarge);
    }
    proof {
        assert((max_symbol_value + 1) * table_log <= 256 * 9) by (nonlinear_arith)
            requires
                max_symbol_value <= 255,
                table_log <= 9,
        ;
        assert(0 <= (max_symbol_value + 1) * table_log) by (nonlinear_arith)
            requires
                max_symbol_value >= 0,
                table_log >= 0,
        ;
    }
    Ok(((max_symbol_value as usize + 1) * table_log as usize + 4 + 2) / 8 + 1 + 2)
}

// ---------------------------------------------------------------------------
// Writing.

/// The states that a count takes away.
pub open spec fn magnitude(count: int) -> int {
    if count < 0 {
        -count
    } else {
        count
    }
}

/// The largest power of two that does not exceed what remains.
pub open spec fn field_limit(remaining: int) -> int {
    pow2(mem::floor_log2(remaining as nat)) as int
}

/// How many values of a count's field are written with one bit fewer.
pub open spec fn short_values(remaining: int) -> int {
    2 * field_limit(remaining) - 1 - remaining
}

/// The value that a count's field holds.
pub open spec fn field_value(remaining: int, count: int) -> int {
    if count + 1 >= field_limit(remaining) {
        count + 1 + short_values(remaining)
    } else {
        count + 1
    }
}

/// The width of a count's field.
pub open spec fn field_width(remaining: int, count: int) -> nat {
    if field_value(remaining, count) < short_values(remaining) {
        mem::floor_log2(remaining as nat)
    } else {
        mem::floor_log2(remaining as nat) + 1
    }
}

/// The length of the run of zero counts that starts at `i`.
pub open spec fn zero_run(norm: Seq<i16>, n: nat, i: nat) -> nat
    decreases n - i,
{
    if i < n && norm[i as int] == 0 {
        1 + zero_run(norm, n, i + 1)
    } else {
        0
    }
}

/// Bits after a run of zeros was written in units of twenty-four.
pub open spec fn push_long_zeros(b: Bits, run: nat) -> Bits
    decreases run,
{
    if run >= 24 {
        push_long_zeros(b.push(0xFFFF, 16), (run - 24) as nat)
    } else {
        b
    }
}

/// Bits after a run of zeros was written in units of three, with the rest.
pub open spec fn push_short_zeros(b: Bits, run: nat) -> Bits
    decreases run,
{
    if run >= 3 {
        push_short_zeros(b.push(3, 2), (run - 3) as nat)
    } else {
        b.push(run, 2)
    }
}

/// Bits after a run of zeros was written.
pub open spec fn push_zeros(b: Bits, run: nat) -> Bits {
    push_short_zeros(push_long_zeros(b, run), run % 24)
}

/// Bytes that have to be written out before more bits can be taken: pairs of
/// bytes, with one to sixteen bits held back.
pub open spec fn settled_bytes(len: nat) -> nat {
    (2 * ((len - 1) / 16)) as nat
}

/// The header's bits, from the symbol `i` on.
pub open spec fn write_counts(
    norm: Seq<i16>,
    n: nat,
    i: nat,
    remaining: int,
    after_zero: bool,
    b: Bits,
    capacity: nat,
) -> Result<Bits>
    decreases n - i, 1nat,
{
    if i >= n || remaining <= 1 {
        if remaining != 1 {
            Err(Error::Generic)
        } else if settled_bytes(b.len) + 2 > capacity {
            Err(Error::DstSizeTooSmall)
        } else {
            Ok(b)
        }
    } else if after_zero {
        let run = zero_run(norm, n, i);
        let next = push_zeros(b, run);
        if i + run >= n {
            Err(Error::Generic)
        } else if settled_bytes(next.len) > capacity {
            Err(Error::DstSizeTooSmall)
        } else {
            write_count(norm, n, i + run, remaining, next, capacity)
        }
    } else {
        write_count(norm, n, i, remaining, b, capacity)
    }
}

/// The header's bits, from the count of the symbol `i` on.
pub open spec fn write_count(
    norm: Seq<i16>,
    n: nat,
    i: nat,
    remaining: int,
    b: Bits,
    capacity: nat,
) -> Result<Bits>
    decreases n - i, 0nat,
{
    if i >= n {
        Err(Error::Generic)
    } else {
        let count = norm[i as int] as int;
        let left = remaining - magnitude(count);
        let next = b.push(field_value(remaining, count) as nat, field_width(remaining, count));
        if left < 1 {
            Err(Error::Generic)
        } else if settled_bytes(next.len) > capacity {
            Err(Error::DstSizeTooSmall)
        } else {
            write_counts(norm, n, i + 1, left, count == 0, next, capacity)
        }
    }
}

/// The bits of a whole header.
pub open spec fn header_bits(norm: Seq<i16>, n: nat, log: nat, capacity: nat) -> Result<Bits> {
    write_counts(
        norm,
        n,
        0,
        pow2(log) as int + 1,
        false,
        Bits::empty().push((log - MIN_TABLELOG) as nat, 4),
        capacity,
    )
}

/// The bytes of a header.
pub open spec fn header_bytes(b: Bits) -> Seq<u8> {
    bits::nat_bytes(b.value, (b.len + 7) / 8)
}

proof fn lemma_write_counts_fits(
    norm: Seq<i16>,
    n: nat,
    i: nat,
    remaining: int,
    after_zero: bool,
    b: Bits,
    capacity: nat,
)
    ensures
        write_counts(norm, n, i, remaining, after_zero, b, capacity) matches Ok(f)
            ==> settled_bytes(f.len) + 2 <= capacity,
    decreases n - i, 1nat,
{
    if i >= n || remaining <= 1 {
    } else if after_zero {
        let run = zero_run(norm, n, i);
        if i + run < n {
            lemma_write_count_fits(norm, n, i + run, remaining, push_zeros(b, run), capacity);
        }
    } else {
        lemma_write_count_fits(norm, n, i, remaining, b, capacity);
    }
}

proof fn lemma_write_count_fits(
    norm: Seq<i16>,
    n: nat,
    i: nat,
    remaining: int,
    b: Bits,
    capacity: nat,
)
    ensures
        write_count(norm, n, i, remaining, b, capacity) matches Ok(f) ==> settled_bytes(f.len) + 2
            <= capacity,
    decreases n - i, 0nat,
{
    if i < n {
        let count = norm[i as int] as int;
        lemma_write_counts_fits(
            norm,
            n,
            i + 1,
            remaining - magnitude(count),
            count == 0,
            b.push(field_value(remaining, count) as nat, field_width(remaining, count)),
            capacity,
        );
    }
}

/// A header is no longer than the room that it was written in.
pub proof fn lemma_header_fits(norm: Seq<i16>, n: nat, log: nat, capacity: nat)
    ensures
        header_bits(norm, n, log, capacity) matches Ok(f) ==> header_bytes(f).len() <= capacity,
{
    lemma_write_counts_fits(
        norm,
        n,
        0,
        pow2(log) as int + 1,
        false,
        Bits::empty().push((log - MIN_TABLELOG) as nat, 4),
        capacity,
    );
    if let Ok(f) = header_bits(norm, n, log, capacity) {
        bits::lemma_nat_bytes(f.value, (f.len + 7) / 8);
    }
}

/// Facts about a count's field: how wide it is, and that its value fits.
pub proof fn lemma_field(remaining: int, count: int)
    requires
        remaining > 1,
        count >= -1,
        remaining - magnitude(count) >= 1,
    ensures
        field_limit(remaining) <= remaining < 2 * field_limit(remaining),
        field_limit(remaining) >= 2,
        0 <= short_values(remaining) < field_limit(remaining),
        0 <= field_value(remaining, count) < pow2(field_width(remaining, count)),
        field_value(remaining, count) < 2 * field_limit(remaining),
        field_width(remaining, count) >= 1,
{
    let k = mem::floor_log2(remaining as nat);
    mem::lemma_floor_log2(remaining as nat);
    lemma_pow2_unfold(k + 1);
    lemma2_to64();
    if k == 0 {
    } else {
        mem::lemma_pow2_monotone(1, k);
    }
}

/// The run of zeros that starts at `at`.
fn count_zero_run(norm: &[i16], alphabet: usize, at: usize) -> (r: usize)
    requires
        at <= alphabet <= norm@.len(),
    ensures
        r == zero_run(norm@, alphabet as nat, at as nat),
        at + r <= alphabet,
{
    let mut symbol: usize = at;
    while symbol < alphabet && norm[symbol] == 0
        invariant
            at <= symbol <= alphabet <= norm@.len(),
            zero_run(norm@, alphabet as nat, at as nat) == (symbol - at) + zero_run(
                norm@,
                alphabet as nat,
                symbol as nat,
            ),
        decreases alphabet - symbol,
    {
        symbol = symbol + 1;
    }
    symbol - at
}

fn write_zero_run(out: &mut BitCStream, run: usize)
    requires
        old(out).wf(),
        old(out).pending() < 8,
    ensures
        final(out).wf(),
        final(out).pending() < 8,
        final(out)@ == push_zeros(old(out)@, run as nat),
{
    let mut left: usize = run;
    while left >= 24
        invariant
            out.wf(),
            out.pending() < 8,
            left % 24 == run % 24,
            push_long_zeros(old(out)@, run as nat) == push_long_zeros(out@, left as nat),
        decreases left,
    {
        left = left - 24;
        out.add_bits(0xFFFF, 16);
        out.flush_bits();
    }
    let ghost short = out@;
    while left >= 3
        invariant
            out.wf(),
            out.pending() < 8,
            left < 24,
            push_short_zeros(short, run as nat % 24) == push_short_zeros(out@, left as nat),
        decreases left,
    {
        left = left - 3;
        out.add_bits(3, 2);
        out.flush_bits();
    }
    out.add_bits(left as u64, 2);
    out.flush_bits();
}

// ---------------------------------------------------------------------------
// Writing counts that no distribution has.

/// What a header is written through: the bytes that are out, and a word of 32
/// bits with `fill` of them taken. A field whose value is negative reaches into
/// the bits above its own, up to the end of the word.
pub struct Accumulator {
    pub out: Seq<u8>,
    pub word: nat,
    pub fill: nat,
}

impl Accumulator {
    /// A field of `width` bits on top of the others.
    #[verifier::opaque]
    pub open spec fn add(self, value: int, width: nat) -> Accumulator {
        Accumulator {
            out: self.out,
            word: ((self.word + value * pow2(self.fill)) % 0x1_0000_0000) as nat,
            fill: self.fill + width,
        }
    }

    /// The lowest two bytes of the word.
    pub open spec fn low_bytes(self) -> Seq<u8> {
        seq![(self.word % 256) as u8, ((self.word / 256) % 256) as u8]
    }

    /// The lowest two bytes go out. The fill does not count them where it was
    /// at most theirs.
    pub open spec fn spilled(self) -> Accumulator {
        Accumulator {
            out: self.out + self.low_bytes(),
            word: self.word / 65536,
            fill: if self.fill > 16 {
                (self.fill - 16) as nat
            } else {
                self.fill
            },
        }
    }

    /// Two bytes go out where more than sixteen bits are taken; `None` where
    /// there is no room for them.
    pub open spec fn settled(self, capacity: nat) -> Option<Accumulator> {
        if self.fill <= 16 {
            Some(self)
        } else if self.out.len() + 2 > capacity {
            None
        } else {
            Some(self.spilled())
        }
    }

    /// A run of zeros: in units of twenty-four, which go out at once, in units
    /// of three, and the rest.
    pub open spec fn add_zeros(self, run: nat, capacity: nat) -> Option<Accumulator>
        decreases run,
    {
        if run >= 24 {
            if self.out.len() + 2 > capacity {
                None
            } else {
                self.add(0xFFFF, 0).spilled().add_zeros((run - 24) as nat, capacity)
            }
        } else if run >= 3 {
            self.add(3, 2).add_zeros((run - 3) as nat, capacity)
        } else {
            self.add(run as int, 2).settled(capacity)
        }
    }

    /// All bytes, the last of them filled up.
    pub open spec fn bytes(self) -> Seq<u8> {
        self.out + self.low_bytes().take((self.fill + 7) as int / 8)
    }
}

/// The header's bytes, from the symbol `i` on.
pub open spec fn overlay_counts(
    norm: Seq<i16>,
    n: nat,
    i: nat,
    remaining: int,
    after_zero: bool,
    a: Accumulator,
    capacity: nat,
) -> Result<Seq<u8>>
    decreases n - i, 1nat,
{
    if i >= n || remaining <= 1 {
        if remaining != 1 {
            Err(Error::Generic)
        } else if a.out.len() + 2 > capacity {
            Err(Error::DstSizeTooSmall)
        } else {
            Ok(a.bytes())
        }
    } else if after_zero {
        let run = zero_run(norm, n, i);
        if i + run >= n {
            Err(Error::Generic)
        } else {
            match a.add_zeros(run, capacity) {
                None => Err(Error::DstSizeTooSmall),
                Some(next) => overlay_count(norm, n, i + run, remaining, next, capacity),
            }
        }
    } else {
        overlay_count(norm, n, i, remaining, a, capacity)
    }
}

/// The header's bytes, from the count of the symbol `i` on.
pub open spec fn overlay_count(
    norm: Seq<i16>,
    n: nat,
    i: nat,
    remaining: int,
    a: Accumulator,
    capacity: nat,
) -> Result<Seq<u8>>
    decreases n - i, 0nat,
{
    if i >= n {
        Err(Error::Generic)
    } else {
        let count = norm[i as int] as int;
        let left = remaining - magnitude(count);
        let field = a.add(field_value(remaining, count), field_width(remaining, count));
        if left < 1 {
            Err(Error::Generic)
        } else {
            match field.settled(capacity) {
                None => Err(Error::DstSizeTooSmall),
                Some(next) => overlay_counts(
                    norm,
                    n,
                    i + 1,
                    left,
                    count == 0,
                    next,
                    capacity,
                ),
            }
        }
    }
}

/// The bytes of a whole header.
pub open spec fn overlay_header(norm: Seq<i16>, n: nat, log: nat, capacity: nat) -> Result<
    Seq<u8>,
> {
    overlay_counts(
        norm,
        n,
        0,
        pow2(log) as int + 1,
        false,
        Accumulator { out: Seq::empty(), word: (log - MIN_TABLELOG) as nat, fill: 4 },
        capacity,
    )
}

struct HeaderWord {
    out: Vec<u8>,
    word: u32,
    fill: u32,
}

impl HeaderWord {
    spec fn view(self) -> Accumulator {
        Accumulator { out: self.out@, word: self.word as nat, fill: self.fill as nat }
    }

    fn add(&mut self, value: i32, width: u32)
        requires
            old(self).fill < 32,
            width <= 16,
        ensures
            final(self).view() == old(self).view().add(value as int, width as nat),
            final(self).fill == old(self).fill + width,
            final(self).out@ == old(self).out@,
    {
        proof {
            reveal(Accumulator::add);
            lemma2_to64();
            mem::lemma_pow2_monotone(self.fill as nat, 31);
        }
        let scale: u64 = mem::power_of_two(self.fill);
        let raised: u64 = if value < 0 {
            (0x1_0000_0000i64 + value as i64) as u64
        } else {
            value as u64
        };
        proof {
            assert(raised * scale < 0x1_0000_0000 * 0x8000_0000) by (nonlinear_arith)
                requires
                    raised < 0x1_0000_0000,
                    0 < scale <= 0x8000_0000,
            ;
            if value < 0 {
                assert(raised * scale == value * scale + 0x1_0000_0000 * scale) by (nonlinear_arith)
                    requires
                        raised == 0x1_0000_0000 + value,
                ;
                lemma_mod_multiples_vanish(
                    scale as int,
                    self.word + value * scale,
                    0x1_0000_0000,
                );
            }
        }
        self.word = ((self.word as u64 + raised * scale) % 0x1_0000_0000) as u32;
        self.fill = self.fill + width;
    }

    fn spill(&mut self)
        ensures
            final(self).view() == old(self).view().spilled(),
    {
        let ghost before = self.out@;
        self.out.push((self.word % 256) as u8);
        self.out.push(((self.word / 256) % 256) as u8);
        proof {
            assert(self.out@ =~= before + self.view().low_bytes());
        }
        self.word = self.word / 65536;
        if self.fill > 16 {
            self.fill = self.fill - 16;
        }
    }

    fn settle(&mut self, capacity: usize) -> (r: bool)
        requires
            old(self).out@.len() <= capacity,
            old(self).fill <= 32,
        ensures
            r == (old(self).view().settled(capacity as nat) is Some),
            r ==> Some(final(self).view()) == old(self).view().settled(capacity as nat),
            r ==> final(self).fill <= 16 && final(self).out@.len() <= capacity,
    {
        if self.fill <= 16 {
            return true;
        }
        if capacity - self.out.len() < 2 {
            return false;
        }
        self.spill();
        true
    }

    fn add_zeros(&mut self, run: usize, capacity: usize) -> (r: bool)
        requires
            old(self).out@.len() <= capacity,
            old(self).fill <= 16,
        ensures
            r == (old(self).view().add_zeros(run as nat, capacity as nat) is Some),
            r ==> Some(final(self).view()) == old(self).view().add_zeros(
                run as nat,
                capacity as nat,
            ),
            r ==> final(self).fill <= 16 && final(self).out@.len() <= capacity,
    {
        let ghost goal = self.view().add_zeros(run as nat, capacity as nat);
        let mut left: usize = run;
        while left >= 24
            invariant
                self.out@.len() <= capacity,
                self.fill <= 16,
                goal == old(self).view().add_zeros(run as nat, capacity as nat),
                goal == self.view().add_zeros(left as nat, capacity as nat),
            decreases left,
        {
            if capacity - self.out.len() < 2 {
                return false;
            }
            self.add(0xFFFF, 0);
            self.spill();
            left = left - 24;
        }
        while left >= 3
            invariant
                self.out@.len() <= capacity,
                left < 24,
                self.fill + 2 * (left / 3) <= 30,
                goal == old(self).view().add_zeros(run as nat, capacity as nat),
                goal == self.view().add_zeros(left as nat, capacity as nat),
            decreases left,
        {
            self.add(3, 2);
            left = left - 3;
        }
        self.add(left as i32, 2);
        self.settle(capacity)
    }
}

/// Writes the header of counts that no distribution has.
fn write_overlaid(capacity: usize, norm: &[i16], alphabet: usize, table_log: u32) -> (r: Result<
    Vec<u8>,
>)
    requires
        alphabet <= norm@.len(),
        MIN_TABLELOG <= table_log <= TABLELOG_MAX,
    ensures
        match overlay_header(norm@, alphabet as nat, table_log as nat, capacity as nat) {
            Ok(bytes) => r matches Ok(v) && v@ == bytes,
            Err(e) => r == Err::<Vec<u8>, Error>(e),
        },
{
    let ghost n = alphabet as nat;
    proof {
        lemma2_to64();
        mem::lemma_pow2_monotone(table_log as nat, 9);
        mem::lemma_pow2_monotone(5, table_log as nat);
    }
    let mut remaining: i32 = mem::power_of_two(table_log) as i32 + 1;
    let mut header = HeaderWord {
        out: Vec::new(),
        word: table_log - MIN_TABLELOG as u32,
        fill: 4,
    };
    let mut symbol: usize = 0;
    let mut previous_is_zero: bool = false;
    let ghost goal = overlay_header(norm@, n, table_log as nat, capacity as nat);
    proof {
        assert(header.view() == (Accumulator {
            out: Seq::empty(),
            word: (table_log - MIN_TABLELOG) as nat,
            fill: 4,
        }));
    }
    while symbol < alphabet && remaining > 1
        invariant
            symbol <= alphabet == n <= norm@.len(),
            1 <= remaining <= 513,
            header.fill <= 16,
            header.out@.len() <= capacity,
            goal == overlay_header(norm@, n, table_log as nat, capacity as nat),
            goal == overlay_counts(
                norm@,
                n,
                symbol as nat,
                remaining as int,
                previous_is_zero,
                header.view(),
                capacity as nat,
            ),
        decreases alphabet - symbol,
    {
        if previous_is_zero {
            let run: usize = count_zero_run(norm, alphabet, symbol);
            if symbol + run == alphabet {
                return Err(Error::Generic);
            }
            if !header.add_zeros(run, capacity) {
                return Err(Error::DstSizeTooSmall);
            }
            symbol = symbol + run;
        }
        let count: i32 = norm[symbol] as i32;
        let left: i32 = remaining - if count < 0 {
            -count
        } else {
            count
        };
        if left < 1 {
            return Err(Error::Generic);
        }
        proof {
            mem::lemma_floor_log2(remaining as nat);
            lemma2_to64();
            if mem::floor_log2(remaining as nat) > 9 {
                mem::lemma_pow2_monotone(10, mem::floor_log2(remaining as nat));
            }
            lemma_pow2_unfold(mem::floor_log2(remaining as nat) + 1);
        }
        let nb_bits: u32 = mem::highbit32(remaining as u32) + 1;
        let threshold: i32 = mem::power_of_two(nb_bits - 1) as i32;
        let max: i32 = 2 * threshold - 1 - remaining;
        let value: i32 = if count + 1 >= threshold {
            count + 1 + max
        } else {
            count + 1
        };
        let width: u32 = if value < max {
            nb_bits - 1
        } else {
            nb_bits
        };
        header.add(value, width);
        if !header.settle(capacity) {
            return Err(Error::DstSizeTooSmall);
        }
        remaining = left;
        previous_is_zero = count == 0;
        symbol = symbol + 1;
    }
    if remaining != 1 {
        return Err(Error::Generic);
    }
    if capacity - header.out.len() < 2 {
        return Err(Error::DstSizeTooSmall);
    }
    let ghost last = header.view();
    let ghost before = header.out@;
    let mut out: Vec<u8> = header.out;
    if header.fill > 0 {
        out.push((header.word % 256) as u8);
    }
    if header.fill > 8 {
        out.push(((header.word / 256) % 256) as u8);
    }
    proof {
        let k = (last.fill + 7) as int / 8;
        assert(out@ =~= before + last.low_bytes().take(k));
    }
    Ok(out)
}

/// Every count of the first `n` symbols can be one of a distribution.
pub open spec fn proper_counts(norm: Seq<i16>, n: nat) -> bool {
    forall|i: int| 0 <= i < n ==> #[trigger] norm[i] >= -1
}

/// Writes the header of a distribution. Counts below -1 stand for nothing that
/// could be read back; what is written for them is what they leave in the
/// accumulator.
pub fn write_ncount(capacity: usize, norm: &[i16], max_symbol_value: u32, table_log: u32) -> (r:
    Result<Vec<u8>>)
    ensures
        if max_symbol_value >= norm@.len() {
            r == Err::<Vec<u8>, Error>(Error::MaxSymbolValueTooLarge)
        } else {
            match header_shape_error(max_symbol_value, table_log) {
                Some(e) => r == Err::<Vec<u8>, Error>(e),
                None => if proper_counts(norm@, max_symbol_value as nat + 1) {
                    match header_bits(
                        norm@,
                        max_symbol_value as nat + 1,
                        table_log as nat,
                        capacity as nat,
                    ) {
                        Ok(b) => r matches Ok(v) && v@ == header_bytes(b),
                        Err(e) => r == Err::<Vec<u8>, Error>(e),
                    }
                } else {
                    match overlay_header(
                        norm@,
                        max_symbol_value as nat + 1,
                        table_log as nat,
                        capacity as nat,
                    ) {
                        Ok(bytes) => r matches Ok(v) && v@ == bytes,
                        Err(e) => r == Err::<Vec<u8>, Error>(e),
                    }
                },
            }
        },
{
    if max_symbol_value as usize >= norm.len() || max_symbol_value as usize > SYMBOLVALUE_MAX {
        return Err(Error::MaxSymbolValueTooLarge);
    }
    if (table_log as usize) < MIN_TABLELOG || table_log as usize > TABLELOG_MAX {
        return Err(Error::TableLogTooLarge);
    }
    let alphabet: usize = max_symbol_value as usize + 1;
    let ghost n = alphabet as nat;
    let ghost cap = capacity as nat;
    let mut at: usize = 0;
    while at < alphabet
        invariant
            at <= alphabet <= norm@.len(),
            n == alphabet == max_symbol_value + 1,
            max_symbol_value < norm@.len(),
            header_shape_error(max_symbol_value, table_log) is None,
            MIN_TABLELOG <= table_log <= TABLELOG_MAX,
            proper_counts(norm@, at as nat),
        decreases alphabet - at,
    {
        if norm[at] < -1 {
            return write_overlaid(capacity, norm, alphabet, table_log);
        }
        at = at + 1;
    }
    proof {
        lemma2_to64();
        mem::lemma_pow2_monotone(table_log as nat, 9);
        mem::lemma_pow2_monotone(5, table_log as nat);
    }
    let mut remaining: i32 = mem::power_of_two(table_log) as i32 + 1;
    let mut out = BitCStream::unbounded();
    out.add_bits((table_log - MIN_TABLELOG as u32) as u64, 4);
    let mut bit_count: usize = 4;
    let mut symbol: usize = 0;
    let mut previous_is_zero: bool = false;
    let ghost goal = header_bits(norm@, n, table_log as nat, cap);
    while symbol < alphabet && remaining > 1
        invariant
            symbol <= alphabet == n <= norm@.len(),
            n <= 256,
            1 <= remaining <= 513,
            out.wf(),
            out.pending() < 8,
            out@.len == bit_count,
            4 <= bit_count <= 4 + symbol * 32,
            cap == capacity,
            forall|i: int| 0 <= i < n ==> #[trigger] norm@[i] >= -1,
            goal == write_counts(
                norm@,
                n,
                symbol as nat,
                remaining as int,
                previous_is_zero,
                out@,
                cap,
            ),
            max_symbol_value < norm@.len(),
            n == max_symbol_value + 1,
            header_shape_error(max_symbol_value, table_log) is None,
            goal == header_bits(norm@, max_symbol_value as nat + 1, table_log as nat, cap),
        decreases alphabet - symbol,
    {
        if previous_is_zero {
            let run: usize = count_zero_run(norm, alphabet, symbol);
            if symbol + run == alphabet {
                return Err(Error::Generic);
            }
            proof {
                lemma_push_zeros_len(out@, run as nat);
            }
            write_zero_run(&mut out, run);
            bit_count = bit_count + 16 * (run / 24) + 2 * ((run % 24) / 3) + 2;
            if 2 * ((bit_count - 1) / 16) > capacity {
                return Err(Error::DstSizeTooSmall);
            }
            symbol = symbol + run;
        }
        let count: i32 = norm[symbol] as i32;
        let left: i32 = remaining - if count < 0 {
            -count
        } else {
            count
        };
        if left < 1 {
            return Err(Error::Generic);
        }
        proof {
            lemma_field(remaining as int, count as int);
            mem::lemma_floor_log2(remaining as nat);
            if mem::floor_log2(remaining as nat) > 9 {
                mem::lemma_pow2_monotone(10, mem::floor_log2(remaining as nat));
                lemma2_to64();
            }
        }
        let nb_bits: u32 = mem::highbit32(remaining as u32) + 1;
        let threshold: i32 = mem::power_of_two(nb_bits - 1) as i32;
        let max: i32 = 2 * threshold - 1 - remaining;
        let value: i32 = if count + 1 >= threshold {
            count + 1 + max
        } else {
            count + 1
        };
        let width: u32 = if value < max {
            nb_bits - 1
        } else {
            nb_bits
        };
        out.add_bits_fast(value as u64, width);
        out.flush_bits();
        bit_count = bit_count + width as usize;
        if 2 * ((bit_count - 1) / 16) > capacity {
            return Err(Error::DstSizeTooSmall);
        }
        remaining = left;
        previous_is_zero = count == 0;
        symbol = symbol + 1;
    }
    if remaining != 1 {
        return Err(Error::Generic);
    }
    if 2 * ((bit_count - 1) / 16) > capacity || capacity - 2 * ((bit_count - 1) / 16) < 2 {
        return Err(Error::DstSizeTooSmall);
    }
    Ok(out.into_bytes())
}

/// How many bits a run of zeros takes.
pub proof fn lemma_push_zeros_len(b: Bits, run: nat)
    ensures
        push_zeros(b, run).len == b.len + 16 * (run / 24) + 2 * ((run % 24) / 3) + 2,
{
    lemma_push_long_zeros_len(b, run);
    lemma_push_short_zeros_len(push_long_zeros(b, run), run % 24);
}

proof fn lemma_push_long_zeros_len(b: Bits, run: nat)
    ensures
        push_long_zeros(b, run).len == b.len + 16 * (run / 24),
    decreases run,
{
    if run >= 24 {
        lemma_push_long_zeros_len(b.push(0xFFFF, 16), (run - 24) as nat);
    }
}

proof fn lemma_push_short_zeros_len(b: Bits, run: nat)
    ensures
        push_short_zeros(b, run).len == b.len + 2 * (run / 3) + 2,
    decreases run,
{
    if run >= 3 {
        lemma_push_short_zeros_len(b.push(3, 2), (run - 3) as nat);
    }
}

// ---------------------------------------------------------------------------
// Reading.

/// Where a header is being read: a window of 32 bits is loaded at byte `ip`,
/// and its `used` lowest bits were taken.
pub struct Cursor {
    pub ip: nat,
    pub used: nat,
    pub window: nat,
}

/// The number that the four bytes at `ip` spell.
pub open spec fn word_at(src: Seq<u8>, ip: nat) -> nat {
    bits::bytes_value(src.subrange(ip as int, ip as int + 4))
}

/// A window can be loaded past the bytes that were taken.
pub open spec fn can_advance(len: nat, c: Cursor) -> bool {
    c.ip + c.used / 8 + 4 <= len
}

/// The cursor with its window moved past the bytes that were taken.
pub open spec fn advanced(src: Seq<u8>, c: Cursor) -> Cursor {
    let ip = c.ip + c.used / 8;
    Cursor { ip, used: c.used % 8, window: word_at(src, ip) / pow2(c.used % 8) }
}

/// The cursor with its window moved to the last four bytes.
pub open spec fn at_end(src: Seq<u8>, c: Cursor) -> Cursor {
    let ip = (src.len() - 4) as nat;
    let used = (c.used - 8 * (ip - c.ip)) as nat;
    Cursor { ip, used, window: word_at(src, ip) / pow2(used % 32) }
}

/// The cursor after a count was read.
pub open spec fn settled(src: Seq<u8>, c: Cursor) -> Cursor {
    if can_advance(src.len(), c) {
        advanced(src, c)
    } else {
        at_end(src, c)
    }
}

/// The cursor after the units of twenty-four zeros, and the symbol reached.
pub open spec fn read_long_zeros(src: Seq<u8>, c: Cursor, at: nat) -> (Cursor, nat)
    decreases src.len() - c.ip, c.window,
{
    if c.window % 65536 == 65535 {
        if c.ip + 6 <= src.len() {
            let ip = c.ip + 2;
            read_long_zeros(
                src,
                Cursor { ip, used: c.used, window: word_at(src, ip) / pow2(c.used) },
                at + 24,
            )
        } else {
            read_long_zeros(
                src,
                Cursor { ip: c.ip, used: c.used + 16, window: c.window / 65536 },
                at + 24,
            )
        }
    } else {
        (c, at)
    }
}

/// The cursor after the units of three zeros, and the symbol reached.
pub open spec fn read_short_zeros(c: Cursor, at: nat) -> (Cursor, nat)
    decreases c.window,
{
    if c.window % 4 == 3 {
        read_short_zeros(
            Cursor { ip: c.ip, used: c.used + 2, window: c.window / 4 },
            at + 3,
        )
    } else {
        (c, at)
    }
}

/// The cursor after a run of zeros, and the symbol reached.
pub open spec fn read_zeros(src: Seq<u8>, c: Cursor, at: nat) -> (Cursor, nat) {
    let (c1, at1) = read_long_zeros(src, c, at);
    let (c2, at2) = read_short_zeros(c1, at1);
    let c3 = Cursor { ip: c2.ip, used: c2.used + 2, window: c2.window / 4 };
    (
        if can_advance(src.len(), c3) {
            advanced(src, c3)
        } else {
            c3
        },
        at2 + c2.window % 4,
    )
}

/// The next count in a window.
pub open spec fn count_in(remaining: int, window: nat) -> int {
    let limit = field_limit(remaining);
    let short = window as int % limit;
    let full = window as int % (2 * limit);
    if short < short_values(remaining) {
        short - 1
    } else if full >= limit {
        full - short_values(remaining) - 1
    } else {
        full - 1
    }
}

/// The width of the next count's field.
pub open spec fn width_in(remaining: int, window: nat) -> nat {
    if window as int % field_limit(remaining) < short_values(remaining) {
        mem::floor_log2(remaining as nat)
    } else {
        mem::floor_log2(remaining as nat) + 1
    }
}

/// What a reader holds between two counts.
pub struct Reader {
    pub cursor: Cursor,
    pub remaining: int,
    pub counts: Seq<i16>,
}

/// `counts` with zeros put behind it up to the length `n`.
pub open spec fn zero_extended(counts: Seq<i16>, n: nat) -> Seq<i16> {
    Seq::new(
        n,
        |i: int|
            if i < counts.len() {
                counts[i]
            } else {
                0
            },
    )
}

/// Reads counts until all states are given away or the alphabet is used up.
pub open spec fn read_counts(src: Seq<u8>, r: Reader, n: nat, after_zero: bool) -> Result<Reader>
    decreases n - r.counts.len(), 1nat,
{
    if r.remaining <= 1 || r.counts.len() >= n {
        Ok(r)
    } else if after_zero {
        let (cursor, at) = read_zeros(src, r.cursor, r.counts.len());
        if at >= n {
            Err(Error::MaxSymbolValueTooSmall)
        } else {
            read_count(
                src,
                Reader {
                    cursor,
                    remaining: r.remaining,
                    counts: zero_extended(
                        r.counts,
                        if at >= r.counts.len() {
                            at
                        } else {
                            r.counts.len()
                        },
                    ),
                },
                n,
            )
        }
    } else {
        read_count(src, r, n)
    }
}

/// Reads one count, and the others after it.
pub open spec fn read_count(src: Seq<u8>, r: Reader, n: nat) -> Result<Reader>
    decreases n - r.counts.len(), 0nat,
{
    if r.counts.len() >= n {
        Ok(r)
    } else {
        let count = count_in(r.remaining, r.cursor.window);
        let moved = Cursor {
            ip: r.cursor.ip,
            used: r.cursor.used + width_in(r.remaining, r.cursor.window),
            window: r.cursor.window,
        };
        read_counts(
            src,
            Reader {
                cursor: settled(src, moved),
                remaining: r.remaining - magnitude(count),
                counts: r.counts.push(count as i16),
            },
            n,
            count == 0,
        )
    }
}

/// What a header says: the table log, the counts and the bytes it takes.
pub struct Header {
    pub log: nat,
    pub counts: Seq<i16>,
    pub size: nat,
}

/// Reads a header of at least four bytes, over an alphabet of at most `n`
/// symbols.
pub open spec fn parse_full(src: Seq<u8>, n: nat, max_log: nat) -> Result<Header> {
    let word = word_at(src, 0);
    let log = word % 16 + MIN_TABLELOG as nat;
    if log > max_log {
        Err(Error::TableLogTooLarge)
    } else {
        match read_counts(
            src,
            Reader {
                cursor: Cursor { ip: 0, used: 4, window: word / 16 },
                remaining: pow2(log) as int + 1,
                counts: Seq::empty(),
            },
            n,
            false,
        ) {
            Err(e) => Err(e),
            Ok(r) => if r.remaining != 1 || r.cursor.used > 32 {
                Err(Error::Corruption("invalid FSE ncount"))
            } else {
                Ok(
                    Header {
                        log,
                        counts: r.counts,
                        size: r.cursor.ip + (r.cursor.used + 7) / 8,
                    },
                )
            },
        }
    }
}

/// `src` with zero bytes put behind it up to four.
pub open spec fn four_bytes(src: Seq<u8>) -> Seq<u8> {
    Seq::new(
        4,
        |i: int|
            if i < src.len() {
                src[i]
            } else {
                0
            },
    )
}

/// Reads a header; one that is shorter than four bytes is read as if zeros
/// followed, and has to end before them.
pub open spec fn parse_header(src: Seq<u8>, n: nat, max_log: nat) -> Result<Header> {
    if src.len() >= 4 {
        parse_full(src, n, max_log)
    } else {
        match parse_full(four_bytes(src), n, max_log) {
            Err(e) => Err(e),
            Ok(h) => if h.size > src.len() {
                Err(Error::Corruption("truncated FSE ncount"))
            } else {
                Ok(h)
            },
        }
    }
}

/// The numbers of a header that was read.
#[derive(Debug, Clone, Copy, PartialEq, Eq, Structural)]
pub struct NCount {
    pub max_symbol_value: u32,
    pub table_log: u32,
    pub size: usize,
}

fn load_word(src: &[u8], ip: usize) -> (r: u32)
    requires
        ip + 4 <= src@.len(),
    ensures
        r == word_at(src@, ip as nat),
{
    let ghost s = src@.subrange(ip as int, ip as int + 4);
    proof {
        assert(s.drop_first().drop_first().drop_first().drop_first() =~= Seq::<u8>::empty());
        reveal_with_fuel(bits::bytes_value, 6);
        assert(s.drop_first()[0] == s[1]);
        assert(s.drop_first().drop_first()[0] == s[2]);
        assert(s.drop_first().drop_first().drop_first()[0] == s[3]);
    }
    src[ip] as u32 + 256 * (src[ip + 1] as u32) + 65536 * (src[ip + 2] as u32) + 16777216 * (src[ip
        + 3] as u32)
}

/// A window after some of its low bits were taken.
fn shifted_word(src: &[u8], ip: usize, used: u32) -> (r: u32)
    requires
        ip + 4 <= src@.len(),
        used < 32,
    ensures
        r == word_at(src@, ip as nat) / pow2(used as nat),
{
    let word: u32 = load_word(src, ip);
    proof {
        lemma_pow2_pos(used as nat);
        lemma_div_nonincreasing(word as int, pow2(used as nat) as int);
    }
    mem::high_bits(word as u64, used) as u32
}

/// The cursor while a header is read.
struct HeaderCursor {
    ip: usize,
    used: u32,
    window: u32,
}

impl HeaderCursor {
    spec fn view(self) -> Cursor {
        Cursor { ip: self.ip as nat, used: self.used as nat, window: self.window as nat }
    }

    fn can_advance(&self, len: usize) -> (r: bool)
        requires
            self.ip + 4 <= len,
        ensures
            r == can_advance(len as nat, self@),
    {
        (self.used / 8) as usize <= len - 4 - self.ip
    }
}

fn read_zero_run(src: &[u8], from: HeaderCursor, at: usize, limit: usize) -> (r: Option<
    (HeaderCursor, usize),
>)
    requires
        from.ip + 4 <= src@.len(),
        at <= limit <= 256,
        from.used < 8 || from.ip + 4 == src@.len(),
        from.used <= 100000,
    ensures
        match r {
            None => read_zeros(src@, from@, at as nat).1 >= limit,
            Some((c2, at2)) => {
                &&& at2 < limit
                &&& read_zeros(src@, from@, at as nat) == (c2@, at2 as nat)
                &&& c2.ip + 4 <= src@.len()
                &&& at <= at2
                &&& c2.used <= from.used + 16 * (at2 - at) + 2
            },
        },
{
    let mut c = from;
    let mut n0: usize = at;
    let ghost start = c@;
    let ghost used0 = c.used;
    while c.window % 65536 == 65535
        invariant
            start == from@,
            c.ip + 4 <= src@.len(),
            at <= n0 <= 256,
            limit <= 256,
            used0 == from.used <= 100000,
            c.used <= used0 + 16 * (n0 - at),
            c.used < 8 || c.ip + 5 >= src@.len(),
            read_long_zeros(src@, start, at as nat) == read_long_zeros(src@, c@, n0 as nat),
        decreases src@.len() - c.ip, c.window,
    {
        proof {
            lemma_long_zeros_grow(src@, c@, n0 as nat);
        }
        if n0 + 24 >= limit {
            proof {
                let (c1, at1) = read_long_zeros(src@, start, at as nat);
                lemma_short_zeros_grow(c1, at1);
            }
            return None;
        }
        n0 = n0 + 24;
        proof {
            lemma_pow2_pos(c.used as nat);
        }
        if src.len() - c.ip >= 6 {
            let ip: usize = c.ip + 2;
            let window: u32 = shifted_word(src, ip, c.used);
            c = HeaderCursor { ip, used: c.used, window };
        } else {
            c = HeaderCursor { ip: c.ip, used: c.used + 16, window: c.window / 65536 };
        }
    }
    let ghost mid = c@;
    let ghost n1 = n0;
    while c.window % 4 == 3
        invariant
            start == from@,
            c.ip + 4 <= src@.len(),
            n1 <= n0 <= 256,
            limit <= 256,
            used0 == from.used <= 100000,
            c.used <= used0 + 16 * (n0 - at),
            at <= n1,
            read_short_zeros(mid, n1 as nat) == read_short_zeros(c@, n0 as nat),
            read_long_zeros(src@, start, at as nat) == (mid, n1 as nat),
        decreases c.window,
    {
        proof {
            lemma_short_zeros_grow(c@, n0 as nat);
        }
        if n0 + 3 >= limit {
            return None;
        }
        n0 = n0 + 3;
        c = HeaderCursor { ip: c.ip, used: c.used + 2, window: c.window / 4 };
    }
    proof {
        lemma_pow2_pos((c.used + 2) as nat % 8);
    }
    n0 = n0 + (c.window % 4) as usize;
    if n0 >= limit {
        return None;
    }
    c = HeaderCursor { ip: c.ip, used: c.used + 2, window: c.window / 4 };
    if c.can_advance(src.len()) {
        let ip: usize = c.ip + (c.used / 8) as usize;
        let window: u32 = shifted_word(src, ip, c.used % 8);
        c = HeaderCursor { ip, used: c.used % 8, window };
    }
    Some((c, n0))
}

/// Reads the header at the start of `src`, over an alphabet of at most
/// `max_symbol_value + 1` symbols, and stores its counts, with zeros behind
/// them, in `normalized`.
pub fn read_ncount(
    normalized: &mut Vec<i16>,
    max_symbol_value: u32,
    src: &[u8],
    max_table_log: usize,
) -> (r: Result<NCount>)
    ensures
        final(normalized)@.len() == old(normalized)@.len(),
        r is Err ==> final(normalized)@ == old(normalized)@,
        if max_symbol_value > SYMBOLVALUE_MAX || max_symbol_value >= old(normalized)@.len() {
            r == Err::<NCount, Error>(Error::MaxSymbolValueTooLarge)
        } else if max_table_log > TABLELOG_MAX {
            r == Err::<NCount, Error>(Error::TableLogTooLarge)
        } else {
            match parse_header(src@, max_symbol_value as nat + 1, max_table_log as nat) {
                Err(e) => r == Err::<NCount, Error>(e),
                Ok(h) => {
                    &&& r matches Ok(c)
                    &&& c.table_log == h.log
                    &&& c.max_symbol_value == h.counts.len() - 1
                    &&& c.size == h.size
                    &&& final(normalized)@ == zero_extended(
                        h.counts,
                        max_symbol_value as nat + 1,
                    ) + old(normalized)@.skip(max_symbol_value as int + 1)
                    &&& spread::counts_fill(h.counts, h.counts.len(), h.log)
                    &&& 5 <= h.log <= max_table_log
                    &&& h.counts.len() <= max_symbol_value + 1
                    &&& h.size <= src@.len()
                    &&& forall|i: int| 0 <= i < h.counts.len() ==> #[trigger] h.counts[i] >= -1
                },
            }
        },
{
    if max_symbol_value as usize > SYMBOLVALUE_MAX || max_symbol_value as usize
        >= normalized.len() {
        return Err(Error::MaxSymbolValueTooLarge);
    }
    if max_table_log > TABLELOG_MAX {
        return Err(Error::TableLogTooLarge);
    }
    let limit: usize = max_symbol_value as usize + 1;
    let mut counts: Vec<i16> = vec![0i16; limit];
    if src.len() < 4 {
        let mut buffer: Vec<u8> = Vec::new();
        let mut i: usize = 0;
        while i < 4
            invariant
                i <= 4,
                buffer@.len() == i,
                src@.len() < 4,
                forall|k: int| 0 <= k < i ==> #[trigger] buffer@[k] == four_bytes(src@)[k],
            decreases 4 - i,
        {
            let byte: u8 = if i < src.len() {
                src[i]
            } else {
                0
            };
            buffer.push(byte);
            i = i + 1;
        }
        proof {
            assert(buffer@ =~= four_bytes(src@));
        }
        let header = read_full(&mut counts, limit, buffer.as_slice(), max_table_log)?;
        if header.size > src.len() {
            return Err(Error::Corruption("truncated FSE ncount"));
        }
        normalize::put_front(normalized, counts.as_slice());
        return Ok(header);
    }
    let header = read_full(&mut counts, limit, src, max_table_log)?;
    normalize::put_front(normalized, counts.as_slice());
    Ok(header)
}

/// The count that comes next in a window, and its width.
fn next_count(remaining: i32, window: u32) -> (r: (i32, u32))
    requires
        1 < remaining <= 513,
    ensures
        r.0 == count_in(remaining as int, window as nat),
        r.1 == width_in(remaining as int, window as nat),
        -1 <= r.0 <= 513,
        r.1 <= 10,
        remaining - magnitude(r.0 as int) >= 1,
{
    proof {
        mem::lemma_floor_log2(remaining as nat);
        lemma_field(remaining as int, -1);
        lemma2_to64();
        if mem::floor_log2(remaining as nat) > 9 {
            mem::lemma_pow2_monotone(10, mem::floor_log2(remaining as nat));
        }
        mem::lemma_pow2_monotone(mem::floor_log2(remaining as nat), 9);
    }
    let nb_bits: u32 = mem::highbit32(remaining as u32) + 1;
    let threshold: u32 = mem::power_of_two(nb_bits - 1) as u32;
    let max: u32 = 2 * threshold - 1 - remaining as u32;
    let short: u32 = window % threshold;
    let full: u32 = window % (2 * threshold);
    proof {
        lemma_full_and_short(window as nat, threshold as nat);
    }
    if short < max {
        (short as i32 - 1, nb_bits - 1)
    } else if full >= threshold {
        (full as i32 - max as i32 - 1, nb_bits)
    } else {
        (full as i32 - 1, nb_bits)
    }
}

/// Moves the window past the bytes that were taken.
fn settle(src: &[u8], c: HeaderCursor) -> (r: HeaderCursor)
    requires
        c.ip + 4 <= src@.len(),
        c.used <= 100000,
    ensures
        r@ == settled(src@, c@),
        r.ip + 4 <= src@.len(),
        r.used < 8 || r.ip + 4 == src@.len(),
        r.used <= c.used,
{
    if c.can_advance(src.len()) {
        let ip: usize = c.ip + (c.used / 8) as usize;
        let window: u32 = shifted_word(src, ip, c.used % 8);
        HeaderCursor { ip, used: c.used % 8, window }
    } else {
        let ip: usize = src.len() - 4;
        let used: u32 = c.used - 8 * (ip - c.ip) as u32;
        let window: u32 = shifted_word(src, ip, used % 32);
        HeaderCursor { ip, used, window }
    }
}

fn read_full(normalized: &mut Vec<i16>, limit: usize, src: &[u8], max_table_log: usize) -> (r:
    Result<NCount>)
    requires
        1 <= limit <= 256,
        limit <= old(normalized)@.len(),
        max_table_log <= TABLELOG_MAX,
        src@.len() >= 4,
    ensures
        final(normalized)@.len() == old(normalized)@.len(),
        match parse_full(src@, limit as nat, max_table_log as nat) {
            Err(e) => r == Err::<NCount, Error>(e),
            Ok(h) => {
                &&& r matches Ok(c)
                &&& c.table_log == h.log
                &&& c.max_symbol_value == h.counts.len() - 1
                &&& c.size == h.size
                &&& final(normalized)@ == zero_extended(h.counts, limit as nat) + old(
                    normalized,
                )@.skip(limit as int)
                &&& spread::counts_fill(h.counts, h.counts.len(), h.log)
                &&& 5 <= h.log <= max_table_log
                &&& h.counts.len() <= limit
                &&& h.size <= src@.len()
                &&& forall|i: int| 0 <= i < h.counts.len() ==> #[trigger] h.counts[i] >= -1
            },
        },
{
    let ghost n = limit as nat;
    let ghost old_counts = normalized@;
    let len: usize = src.len();
    let mut i: usize = 0;
    while i < limit
        invariant
            i <= limit <= normalized@.len(),
            normalized@.len() == old_counts.len(),
            forall|k: int| 0 <= k < i ==> #[trigger] normalized@[k] == 0,
            forall|k: int| limit <= k < old_counts.len() ==> #[trigger] normalized@[k]
                == old_counts[k],
        decreases limit - i,
    {
        normalized.set(i, 0);
        i = i + 1;
    }
    let word: u32 = load_word(src, 0);
    let log: u32 = word % 16 + MIN_TABLELOG as u32;
    if log as usize > max_table_log {
        return Err(Error::TableLogTooLarge);
    }
    let mut c = HeaderCursor { ip: 0, used: 4, window: word / 16 };
    proof {
        lemma2_to64();
        mem::lemma_pow2_monotone(log as nat, 9);
        mem::lemma_pow2_monotone(5, log as nat);
    }
    let mut remaining: i32 = mem::power_of_two(log) as i32 + 1;
    let mut at: usize = 0;
    let mut previous0: bool = false;
    let ghost mut counts: Seq<i16> = Seq::empty();
    let ghost goal = read_counts(
        src@,
        Reader { cursor: c@, remaining: remaining as int, counts },
        n,
        false,
    );
    proof {
        assert(spread::slots_before(counts, 0) == 0);
    }
    while remaining > 1 && at < limit
        invariant
            n == limit <= 256,
            limit <= normalized@.len() == old_counts.len(),
            old_counts == old(normalized)@,
            4 <= src@.len() <= usize::MAX,
            at <= limit,
            at == counts.len(),
            c.ip + 4 <= src@.len(),
            c.used < 8 || c.ip + 4 == src@.len(),
            c.used <= 32 + 32 * at,
            1 <= remaining <= 513,
            5 <= log <= max_table_log <= TABLELOG_MAX,
            log == word_at(src@, 0) % 16 + MIN_TABLELOG,
            goal == read_counts(
                src@,
                Reader { cursor: c@, remaining: remaining as int, counts },
                n,
                previous0,
            ),
            goal == read_counts(
                src@,
                Reader {
                    cursor: Cursor { ip: 0, used: 4, window: word_at(src@, 0) / 16 },
                    remaining: pow2(log as nat) as int + 1,
                    counts: Seq::empty(),
                },
                n,
                false,
            ),
            spread::slots_before(counts, at as nat) + remaining == pow2(log as nat) + 1,
            forall|k: int| 0 <= k < at ==> #[trigger] counts[k] >= -1,
            forall|k: int| 0 <= k < limit ==> #[trigger] normalized@[k] == (if k < at {
                counts[k]
            } else {
                0
            }),
            forall|k: int| limit <= k < old_counts.len() ==> #[trigger] normalized@[k]
                == old_counts[k],
        decreases limit - at,
    {
        if previous0 {
            match read_zero_run(src, c, at, limit) {
                None => {
                    return Err(Error::MaxSymbolValueTooSmall);
                },
                Some((c2, at2)) => {
                    proof {
                        let longer = zero_extended(counts, at2 as nat);
                        lemma_zero_extended_slots(counts, at2 as nat);
                        counts = longer;
                    }
                    c = c2;
                    at = at2;
                },
            }
        }
        let (count, width): (i32, u32) = next_count(remaining, c.window);
        let ghost before = counts;
        proof {
            counts = counts.push(count as i16);
            lemma_slots_push(before, count as i16);
        }
        normalized.set(at, count as i16);
        remaining = remaining - if count < 0 {
            -count
        } else {
            count
        };
        previous0 = count == 0;
        at = at + 1;
        c = settle(src, HeaderCursor { ip: c.ip, used: c.used + width, window: c.window });
    }
    proof {
        assert(normalized@ =~= zero_extended(counts, n) + old_counts.skip(limit as int));
    }
    if remaining != 1 || c.used > 32 {
        return Err(Error::Corruption("invalid FSE ncount"));
    }
    Ok(
        NCount {
            max_symbol_value: at as u32 - 1,
            table_log: log,
            size: c.ip + ((c.used + 7) / 8) as usize,
        },
    )
}

/// Taking twice the limit keeps or adds one limit.
proof fn lemma_full_and_short(window: nat, limit: nat)
    requires
        limit > 0,
    ensures
        window % (2 * limit) == window % limit || window % (2 * limit) == window % limit + limit,
        window % (2 * limit) < 2 * limit,
        window % limit < limit,
{
    lemma_mod_breakdown(window as int, limit as int, 2);
    lemma_mod_bound(window as int, limit as int);
    assert(limit * 2 == 2 * limit);
    let b = (window as int / limit as int) % 2;
    assert(b == 0 || b == 1);
    assert(limit * 0 == 0 && limit * 1 == limit);
}

proof fn lemma_slots_push(counts: Seq<i16>, c: i16)
    requires
        c >= -1,
    ensures
        spread::slots_before(counts.push(c), counts.len() + 1) == spread::slots_before(
            counts,
            counts.len(),
        ) + magnitude(c as int),
{
    lemma_slots_prefix(counts, counts.push(c), counts.len());
}

proof fn lemma_slots_prefix(a: Seq<i16>, b: Seq<i16>, k: nat)
    requires
        k <= a.len(),
        k <= b.len(),
        forall|i: int| 0 <= i < k ==> a[i] == b[i],
    ensures
        spread::slots_before(a, k) == spread::slots_before(b, k),
    decreases k,
{
    if k > 0 {
        lemma_slots_prefix(a, b, (k - 1) as nat);
    }
}

proof fn lemma_zero_extended_slots(counts: Seq<i16>, n: nat)
    requires
        counts.len() <= n,
    ensures
        spread::slots_before(zero_extended(counts, n), n) == spread::slots_before(
            counts,
            counts.len(),
        ),
    decreases n,
{
    let longer = zero_extended(counts, n);
    if n == counts.len() {
        assert(longer =~= counts);
    } else {
        let m = (n - 1) as nat;
        lemma_zero_extended_slots(counts, m);
        lemma_slots_prefix(zero_extended(counts, m), longer, m);
    }
}

proof fn lemma_long_zeros_grow(src: Seq<u8>, c: Cursor, at: nat)
    ensures
        read_long_zeros(src, c, at).1 >= at,
        c.window % 65536 == 65535 ==> read_long_zeros(src, c, at).1 >= at + 24,
    decreases src.len() - c.ip, c.window,
{
    if c.window % 65536 == 65535 {
        let next = if c.ip + 6 <= src.len() {
            Cursor { ip: c.ip + 2, used: c.used, window: word_at(src, c.ip + 2) / pow2(c.used) }
        } else {
            Cursor { ip: c.ip, used: c.used + 16, window: c.window / 65536 }
        };
        lemma_pow2_pos(c.used);
        lemma_long_zeros_grow(src, next, at + 24);
    }
}

proof fn lemma_short_zeros_grow(c: Cursor, at: nat)
    ensures
        read_short_zeros(c, at).1 >= at,
        c.window % 4 == 3 ==> read_short_zeros(c, at).1 >= at + 3,
    decreases c.window,
{
    if c.window % 4 == 3 {
        lemma_short_zeros_grow(
            Cursor { ip: c.ip, used: c.used + 2, window: c.window / 4 },
            at + 3,
        );
    }
}

} // verus!
