//! What a table header says is what was written.

use crate::entropy::bits;
use crate::entropy::bits::Bits;
use crate::entropy::fse::MIN_TABLELOG;
use crate::entropy::mem;
use crate::entropy::ncount;
use crate::entropy::ncount::{Cursor, Header, Reader};
use crate::entropy::spread;
use crate::error::Error;
use vstd::arithmetic::div_mod::*;
use vstd::arithmetic::power2::*;
use vstd::prelude::*;

verus! {

// ---------------------------------------------------------------------------
// What a reader's window can hide.

/// The byte that the window stands at, and how many of its bits are taken, once
/// so many units of twenty-four zeros were read.
pub open spec fn window_after_units(len: nat, ip: nat, used: nat, units: nat) -> (nat, nat)
    decreases units,
{
    if units == 0 {
        (ip, used)
    } else if ip + 6 <= len {
        window_after_units(len, ip + 2, used, (units - 1) as nat)
    } else {
        window_after_units(len, ip, used + 16, (units - 1) as nat)
    }
}

/// The byte that the window stands at when a count is read behind a run of
/// zeros whose field starts at the bit `at` of `len` bytes.
pub open spec fn window_behind(len: nat, at: nat, run: nat) -> nat {
    let start = if at / 8 + 4 <= len {
        at / 8
    } else {
        (len - 4) as nat
    };
    let (ip, used) = window_after_units(len, start, (at - 8 * start) as nat, run / 24);
    let taken = used + 2 * ((run % 24) / 3) + 2;
    if ip + taken / 8 + 4 <= len {
        ip + taken / 8
    } else {
        ip
    }
}

/// A run of zeros and the count behind it, from the bit `at` to the bit `end` of
/// a header, are cut short: nothing follows the header, the window stays one
/// byte before its end, and a bit is set in what the window leaves out.
pub open spec fn cut_short(f: Bits, at: nat, run: nat, end: nat) -> bool {
    let len = (f.len + 7) / 8;
    let last = (8 * (len - 1)) as nat;
    &&& len >= 5
    &&& window_behind(len, at, run) + 5 == len
    &&& end > last
    &&& (f.value / pow2(last)) % pow2((end - last) as nat) != 0
}

/// Some count of a header is cut short, from the symbol `i` on.
pub open spec fn cut_from(
    norm: Seq<i16>,
    n: nat,
    i: nat,
    remaining: int,
    after_zero: bool,
    b: Bits,
    f: Bits,
) -> bool
    decreases n - i,
{
    if i >= n || remaining <= 1 {
        false
    } else {
        let run = if after_zero {
            ncount::zero_run(norm, n, i)
        } else {
            0
        };
        let before = if after_zero {
            ncount::push_zeros(b, run)
        } else {
            b
        };
        if i + run >= n {
            false
        } else {
            let count = norm[(i + run) as int] as int;
            let next = before.push(
                ncount::field_value(remaining, count) as nat,
                ncount::field_width(remaining, count),
            );
            ||| after_zero && cut_short(f, b.len, run, next.len)
            ||| cut_from(
                norm,
                n,
                i + run + 1,
                remaining - ncount::magnitude(count),
                count == 0,
                next,
                f,
            )
        }
    }
}

/// Some count of the header `f` is cut short where nothing follows it. This
/// takes a long run of zeros right before the header's end.
pub open spec fn cut_at_end(norm: Seq<i16>, n: nat, log: nat, f: Bits) -> bool {
    cut_from(
        norm,
        n,
        0,
        pow2(log) as int + 1,
        false,
        Bits::empty().push((log - MIN_TABLELOG) as nat, 4),
        f,
    )
}

/// The bits of `f` stand at the start of `src`.
spec fn stands_in(f: Bits, src: Seq<u8>) -> bool {
    &&& src.len() >= 4
    &&& f.len <= 8 * src.len()
    &&& bits::bytes_value(src) % pow2(f.len) == f.value
}

/// From the symbol `i` on no count is cut short: a byte follows the header, or
/// the window leaves nothing out.
spec fn uncut(
    norm: Seq<i16>,
    n: nat,
    i: nat,
    remaining: int,
    after_zero: bool,
    b: Bits,
    f: Bits,
    src: Seq<u8>,
) -> bool {
    ||| f.len <= 8 * (src.len() - 1)
    ||| src.len() == (f.len + 7) / 8 && !cut_from(norm, n, i, remaining, after_zero, b, f)
}

/// The window holds what it was loaded with, less the bits that were taken.
spec fn loaded(src: Seq<u8>, c: Cursor) -> bool {
    &&& c.ip + 4 <= src.len()
    &&& c.window == ncount::word_at(src, c.ip) / pow2(c.used)
}

/// The bit position of a cursor.
spec fn position(c: Cursor) -> nat {
    8 * c.ip + c.used
}

/// A window at `ip` shows the source's bits up to `end`.
spec fn shows(src: Seq<u8>, ip: nat, end: nat) -> bool {
    &&& ip + 4 <= src.len()
    &&& 8 * ip <= end
    &&& ncount::word_at(src, ip) % pow2((end - 8 * ip) as nat) == (bits::bytes_value(src) / pow2(
        8 * ip,
    )) % pow2((end - 8 * ip) as nat)
}

/// A window shows its own 32 bits.
proof fn lemma_shows(src: Seq<u8>, ip: nat, end: nat)
    requires
        ip + 4 <= src.len(),
        8 * ip <= end <= 8 * ip + 32,
    ensures
        shows(src, ip, end),
{
    let m = (end - 8 * ip) as nat;
    bits::lemma_bytes_value_window(src, ip as int, ip as int + 4);
    bits::lemma_cut_bits(bits::bytes_value(src) / pow2(8 * ip), m, (32 - m) as nat);
}

/// A window shows zeros behind its own bits.
proof fn lemma_shows_zeros(src: Seq<u8>, ip: nat, end: nat)
    requires
        ip + 4 <= src.len(),
        8 * ip + 32 < end,
        (bits::bytes_value(src) / pow2(8 * ip + 32)) % pow2((end - 8 * ip - 32) as nat) == 0,
    ensures
        shows(src, ip, end),
{
    let high = bits::bytes_value(src) / pow2(8 * ip);
    let word = ncount::word_at(src, ip);
    let e = (end - 8 * ip - 32) as nat;
    bits::lemma_bytes_value_window(src, ip as int, ip as int + 4);
    bits::lemma_drop_bits(bits::bytes_value(src), 8 * ip, 32);
    bits::lemma_cut_bits(high, 32, e);
    let cut = high % pow2(32 + e);
    lemma_pow2_pos(32);
    lemma_fundamental_div_mod(cut as int, pow2(32) as int);
    assert(pow2(32) * 0 == 0);
    assert(cut == word);
    lemma_pow2_pos(32 + e);
    lemma_mod_twice(high as int, pow2(32 + e) as int);
}

/// A window shows what comes before something that it shows.
proof fn lemma_shows_before(src: Seq<u8>, ip: nat, end: nat, sooner: nat)
    requires
        shows(src, ip, end),
        8 * ip <= sooner <= end,
    ensures
        shows(src, ip, sooner),
{
    let m = (sooner - 8 * ip) as nat;
    let more = (end - sooner) as nat;
    bits::lemma_cut_bits(ncount::word_at(src, ip), m, more);
    bits::lemma_cut_bits(bits::bytes_value(src) / pow2(8 * ip), m, more);
}

/// The low bits of a loaded window are the source's bits at its position.
proof fn lemma_window(src: Seq<u8>, c: Cursor, w: nat, end: nat)
    requires
        loaded(src, c),
        shows(src, c.ip, end),
        position(c) + w <= end,
    ensures
        c.window % pow2(w) == (bits::bytes_value(src) / pow2(position(c))) % pow2(w),
{
    let total = bits::bytes_value(src);
    let high = total / pow2(8 * c.ip);
    let word = ncount::word_at(src, c.ip);
    let m = (end - 8 * c.ip) as nat;
    bits::lemma_drop_bits(total, 8 * c.ip, c.used);
    bits::lemma_cut_bits(high, c.used, (m - c.used) as nat);
    bits::lemma_cut_bits(word, c.used, (m - c.used) as nat);
    bits::lemma_cut_bits(high / pow2(c.used), w, (m - c.used - w) as nat);
    bits::lemma_cut_bits(word / pow2(c.used), w, (m - c.used - w) as nat);
}

/// A field that was written is what the window shows.
proof fn lemma_window_field(src: Seq<u8>, c: Cursor, b: Bits, v: nat, w: nat, f: Bits, end: nat)
    requires
        stands_in(f, src),
        loaded(src, c),
        shows(src, c.ip, end),
        b.wf(),
        position(c) == b.len,
        bits::prefix_of(b.push(v, w), f),
        position(c) + w <= end,
    ensures
        c.window % pow2(w) == v % pow2(w),
{
    lemma_window(src, c, w, end);
    bits::lemma_prefix_field(b, v, w, f, bits::bytes_value(src));
}

/// Taking bits off a loaded window leaves it loaded.
proof fn lemma_take(src: Seq<u8>, c: Cursor, w: nat)
    requires
        loaded(src, c),
    ensures
        loaded(
            src,
            Cursor { ip: c.ip, used: c.used + w, window: (c.window / pow2(w)) as nat },
        ),
{
    bits::lemma_drop_bits(ncount::word_at(src, c.ip), c.used, w);
    lemma_pow2_pos(w);
}

// ---------------------------------------------------------------------------
// Everything that is written later stands above what was written before.

proof fn lemma_long_zeros_prefix(b: Bits, run: nat)
    requires
        b.wf(),
    ensures
        bits::prefix_of(b, ncount::push_long_zeros(b, run)),
        ncount::push_long_zeros(b, run).wf(),
        ncount::push_long_zeros(b, run).len == b.len + 16 * (run / 24),
    decreases run,
{
    if run >= 24 {
        let next = b.push(0xFFFF, 16);
        bits::lemma_push_prefix(b, 0xFFFF, 16);
        lemma_long_zeros_prefix(next, (run - 24) as nat);
        bits::lemma_prefix_trans(b, next, ncount::push_long_zeros(b, run));
    } else {
        bits::lemma_prefix_refl(b);
    }
}

proof fn lemma_short_zeros_prefix(b: Bits, run: nat)
    requires
        b.wf(),
    ensures
        bits::prefix_of(b, ncount::push_short_zeros(b, run)),
        ncount::push_short_zeros(b, run).wf(),
        ncount::push_short_zeros(b, run).len == b.len + 2 * (run / 3) + 2,
    decreases run,
{
    if run >= 3 {
        let next = b.push(3, 2);
        bits::lemma_push_prefix(b, 3, 2);
        lemma_short_zeros_prefix(next, (run - 3) as nat);
        bits::lemma_prefix_trans(b, next, ncount::push_short_zeros(b, run));
    } else {
        bits::lemma_push_prefix(b, run, 2);
    }
}

proof fn lemma_write_counts_prefix(
    norm: Seq<i16>,
    n: nat,
    i: nat,
    remaining: int,
    after_zero: bool,
    b: Bits,
    capacity: nat,
)
    requires
        b.wf(),
    ensures
        ncount::write_counts(norm, n, i, remaining, after_zero, b, capacity) matches Ok(f)
            ==> bits::prefix_of(b, f) && f.wf(),
    decreases n - i, 1nat,
{
    if i >= n || remaining <= 1 {
        bits::lemma_prefix_refl(b);
    } else if after_zero {
        let run = ncount::zero_run(norm, n, i);
        let long = ncount::push_long_zeros(b, run);
        let next = ncount::push_zeros(b, run);
        lemma_long_zeros_prefix(b, run);
        lemma_short_zeros_prefix(long, run % 24);
        bits::lemma_prefix_trans(b, long, next);
        if i + run < n && ncount::settled_bytes(next.len) <= capacity {
            lemma_write_count_prefix(norm, n, i + run, remaining, next, capacity);
            match ncount::write_count(norm, n, i + run, remaining, next, capacity) {
                Ok(f) => {
                    bits::lemma_prefix_trans(b, next, f);
                },
                Err(_) => {},
            }
        }
    } else {
        lemma_write_count_prefix(norm, n, i, remaining, b, capacity);
    }
}

proof fn lemma_write_count_prefix(
    norm: Seq<i16>,
    n: nat,
    i: nat,
    remaining: int,
    b: Bits,
    capacity: nat,
)
    requires
        b.wf(),
    ensures
        ncount::write_count(norm, n, i, remaining, b, capacity) matches Ok(f) ==> bits::prefix_of(
            b,
            f,
        ) && f.wf(),
    decreases n - i, 0nat,
{
    if i < n {
        let count = norm[i as int] as int;
        let left = remaining - ncount::magnitude(count);
        let v = ncount::field_value(remaining, count) as nat;
        let w = ncount::field_width(remaining, count);
        let next = b.push(v, w);
        bits::lemma_push_prefix(b, v, w);
        if left >= 1 && ncount::settled_bytes(next.len) <= capacity {
            lemma_write_counts_prefix(norm, n, i + 1, left, count == 0, next, capacity);
            match ncount::write_counts(norm, n, i + 1, left, count == 0, next, capacity) {
                Ok(f) => {
                    bits::lemma_prefix_trans(b, next, f);
                },
                Err(_) => {},
            }
        }
    }
}

// ---------------------------------------------------------------------------
// Runs of zeros.

/// Sixteen one-bits hold no unit other than three.
proof fn lemma_ones(window: nat, q: nat)
    requires
        q <= 7,
        window % 65536 == 65535,
    ensures
        (window / pow2(2 * q)) % 4 == 3,
{
    lemma2_to64();
    bits::lemma_cut_bits(window, 2 * q, (16 - 2 * q) as nat);
    bits::lemma_cut_bits(window / pow2(2 * q), 2, (14 - 2 * q) as nat);
    assert(pow2(2) == 4 && pow2(16) == 65536);
    let cut = 65535nat / pow2(2 * q);
    assert(cut % 4 == 3) by {
        if q == 0 {
            assert(pow2(2 * q) == 1 && 65535nat / 1 == 65535);
        } else if q == 1 {
            assert(pow2(2 * q) == 4 && 65535nat / 4 == 16383);
        } else if q == 2 {
            assert(pow2(2 * q) == 16 && 65535nat / 16 == 4095);
        } else if q == 3 {
            assert(pow2(2 * q) == 64 && 65535nat / 64 == 1023);
        } else if q == 4 {
            assert(pow2(2 * q) == 256 && 65535nat / 256 == 255);
        } else if q == 5 {
            assert(pow2(2 * q) == 1024 && 65535nat / 1024 == 63);
        } else if q == 6 {
            assert(pow2(2 * q) == 4096 && 65535nat / 4096 == 15);
        } else {
            assert(pow2(2 * q) == 16384 && 65535nat / 16384 == 3);
        }
    }
}

/// The window shows the units of three, and the rest, of a short run.
proof fn lemma_short_units(
    src: Seq<u8>,
    c: Cursor,
    b: Bits,
    run: nat,
    q: nat,
    f: Bits,
    end: nat,
)
    requires
        stands_in(f, src),
        loaded(src, c),
        shows(src, c.ip, end),
        b.wf(),
        position(c) == b.len,
        bits::prefix_of(ncount::push_short_zeros(b, run), f),
        position(c) + 2 * (run / 3) + 2 <= end,
        q == run / 3,
    ensures
        (c.window / pow2(2 * q)) % 4 == run % 3,
    decreases run,
{
    lemma2_to64();
    if run >= 3 {
        let next = b.push(3, 2);
        bits::lemma_push_prefix(b, 3, 2);
        lemma_take(src, c, 2);
        let c2 = Cursor { ip: c.ip, used: c.used + 2, window: (c.window / pow2(2)) as nat };
        lemma_short_units(src, c2, next, (run - 3) as nat, (q - 1) as nat, f, end);
        bits::lemma_drop_bits(c.window, 2, (2 * (q - 1)) as nat);
    } else {
        lemma_window_field(src, c, b, run, 2, f, end);
        assert(c.window / 1 == c.window);
    }
}

proof fn lemma_read_short_zeros(
    src: Seq<u8>,
    c: Cursor,
    b: Bits,
    run: nat,
    at: nat,
    f: Bits,
    end: nat,
)
    requires
        stands_in(f, src),
        loaded(src, c),
        shows(src, c.ip, end),
        b.wf(),
        position(c) == b.len,
        bits::prefix_of(ncount::push_short_zeros(b, run), f),
        position(c) + 2 * (run / 3) + 2 <= end,
    ensures
        ({
            let (c2, at2) = ncount::read_short_zeros(c, at);
            &&& at2 + c2.window % 4 == at + run
            &&& loaded(src, Cursor { ip: c2.ip, used: c2.used + 2, window: c2.window / 4 })
            &&& c2.ip == c.ip
            &&& c2.used == c.used + 2 * (run / 3)
        }),
    decreases run,
{
    lemma2_to64();
    if run >= 3 {
        let next = b.push(3, 2);
        bits::lemma_push_prefix(b, 3, 2);
        lemma_short_zeros_prefix(next, (run - 3) as nat);
        bits::lemma_prefix_trans(next, ncount::push_short_zeros(b, run), f);
        lemma_window_field(src, c, b, 3, 2, f, end);
        lemma_take(src, c, 2);
        let c2 = Cursor { ip: c.ip, used: c.used + 2, window: c.window / 4 };
        lemma_read_short_zeros(src, c2, next, (run - 3) as nat, at + 3, f, end);
    } else {
        lemma_window_field(src, c, b, run, 2, f, end);
        lemma_take(src, c, 2);
    }
}

/// Where the window stands after units of zeros.
proof fn lemma_units(len: nat, ip: nat, used: nat, units: nat)
    requires
        ip + 4 <= len,
        used < 8 || ip + 5 >= len,
    ensures
        ({
            let (ip2, used2) = window_after_units(len, ip, used, units);
            &&& ip2 + 4 <= len
            &&& 8 * ip2 + used2 == 8 * ip + used + 16 * units
            &&& used2 < 8 || ip2 + 5 >= len
            &&& ip + 6 > len ==> ip2 == ip
        }),
    decreases units,
{
    if units > 0 {
        if ip + 6 <= len {
            lemma_units(len, ip + 2, used, (units - 1) as nat);
        } else {
            lemma_units(len, ip, used + 16, (units - 1) as nat);
        }
    }
}

proof fn lemma_read_long_zeros(
    src: Seq<u8>,
    c: Cursor,
    b: Bits,
    run: nat,
    at: nat,
    f: Bits,
    end: nat,
)
    requires
        stands_in(f, src),
        loaded(src, c),
        b.wf(),
        position(c) == b.len,
        bits::prefix_of(ncount::push_zeros(b, run), f),
        c.used < 8 || c.ip + 5 >= src.len(),
        ncount::push_zeros(b, run).len <= end,
        shows(src, window_after_units(src.len(), c.ip, c.used, run / 24).0, end),
    ensures
        ({
            let (c2, at2) = ncount::read_long_zeros(src, c, at);
            &&& at2 == at + 24 * (run / 24)
            &&& loaded(src, c2)
            &&& (c2.ip, c2.used) == window_after_units(src.len(), c.ip, c.used, run / 24)
        }),
    decreases run,
{
    lemma2_to64();
    let long = ncount::push_long_zeros(b, run);
    let whole = ncount::push_zeros(b, run);
    lemma_long_zeros_prefix(b, run);
    lemma_short_zeros_prefix(long, run % 24);
    if run >= 24 {
        let next = b.push(0xFFFF, 16);
        let less = (run - 24) as nat;
        bits::lemma_push_prefix(b, 0xFFFF, 16);
        lemma_long_zeros_prefix(next, less);
        lemma_short_zeros_prefix(ncount::push_long_zeros(next, less), less % 24);
        bits::lemma_prefix_trans(next, long, whole);
        bits::lemma_prefix_trans(next, whole, f);
        assert(less % 24 == run % 24 && less / 24 == run / 24 - 1);
        assert(ncount::push_zeros(next, less) == whole);
        if c.ip + 6 <= src.len() {
            lemma_shows(src, c.ip, position(c) + 16);
            lemma_window_field(src, c, b, 0xFFFF, 16, f, position(c) + 16);
            let ip = c.ip + 2;
            lemma_pow2_pos(c.used);
            let c2 = Cursor {
                ip,
                used: c.used,
                window: ncount::word_at(src, ip) / pow2(c.used),
            };
            lemma_read_long_zeros(src, c2, next, less, at + 24, f, end);
        } else {
            lemma_units(src.len(), c.ip, c.used, run / 24);
            lemma_window_field(src, c, b, 0xFFFF, 16, f, end);
            lemma_take(src, c, 16);
            let c2 = Cursor { ip: c.ip, used: c.used + 16, window: c.window / 65536 };
            lemma_read_long_zeros(src, c2, next, less, at + 24, f, end);
        }
    } else {
        lemma_short_units(src, c, b, run, run / 3, f, end);
        if c.window % 65536 == 65535 {
            lemma_ones(c.window, run / 3);
        }
    }
}

/// A run of zeros is read back, and the window then shows the count behind it,
/// whose field ends at `end`.
proof fn lemma_read_zeros(
    src: Seq<u8>,
    c: Cursor,
    b: Bits,
    run: nat,
    at: nat,
    f: Bits,
    end: nat,
)
    requires
        stands_in(f, src),
        loaded(src, c),
        b.wf(),
        position(c) == b.len,
        bits::prefix_of(ncount::push_zeros(b, run), f),
        c.used < 8 || c.ip + 4 == src.len(),
        ncount::push_zeros(b, run).len <= end <= ncount::push_zeros(b, run).len + 10,
        end <= f.len,
        f.len <= 8 * (src.len() - 1) || (src.len() == (f.len + 7) / 8 && !cut_short(
            f,
            b.len,
            run,
            end,
        )),
    ensures
        ({
            let (c2, at2) = ncount::read_zeros(src, c, at);
            &&& at2 == at + run
            &&& loaded(src, c2)
            &&& position(c2) == ncount::push_zeros(b, run).len
            &&& shows(src, c2.ip, end)
        }),
{
    let len = src.len();
    let long = ncount::push_long_zeros(b, run);
    let zeros = ncount::push_zeros(b, run).len;
    lemma_long_zeros_prefix(b, run);
    lemma_short_zeros_prefix(long, run % 24);
    lemma_units(len, c.ip, c.used, run / 24);
    let (ip, used) = window_after_units(len, c.ip, c.used, run / 24);
    let taken = used + 2 * ((run % 24) / 3) + 2;
    assert(8 * ip + taken == zeros);
    if ip + 5 == len && end > 8 * ip + 32 {
        // The count reaches into the last byte, which the window leaves out.
        let last = (8 * (len - 1)) as nat;
        assert(window_behind(len, b.len, run) == ip);
        bits::lemma_cut_bits(bits::bytes_value(src), last, (f.len - last) as nat);
        bits::lemma_cut_bits(
            bits::bytes_value(src) / pow2(last),
            (end - last) as nat,
            (f.len - end) as nat,
        );
        lemma_shows_zeros(src, ip, end);
        lemma_shows_before(src, ip, end, zeros);
    } else {
        lemma_shows(src, ip, zeros);
        if ip + taken / 8 + 4 > len {
            lemma_shows(src, ip, end);
        }
    }
    lemma_read_long_zeros(src, c, b, run, at, f, zeros);
    let (c1, at1) = ncount::read_long_zeros(src, c, at);
    lemma_read_short_zeros(src, c1, long, run % 24, at1, f, zeros);
    let (c2, at2) = ncount::read_short_zeros(c1, at1);
    let c3 = Cursor { ip: c2.ip, used: c2.used + 2, window: c2.window / 4 };
    if ncount::can_advance(src.len(), c3) {
        lemma_pow2_pos(c3.used % 8);
        lemma_shows(src, c3.ip + c3.used / 8, end);
    }
}

// ---------------------------------------------------------------------------
// Counts.

/// The count that the window shows is the count that was written.
proof fn lemma_count_in(remaining: int, count: int, window: nat)
    requires
        remaining > 1,
        count >= -1,
        remaining - ncount::magnitude(count) >= 1,
        window % pow2(ncount::field_width(remaining, count)) == ncount::field_value(
            remaining,
            count,
        ),
    ensures
        ncount::count_in(remaining, window) == count,
        ncount::width_in(remaining, window) == ncount::field_width(remaining, count),
{
    let k = mem::floor_log2(remaining as nat);
    let limit = ncount::field_limit(remaining);
    ncount::lemma_field(remaining, count);
    lemma_pow2_unfold(k + 1);
    let v = ncount::field_value(remaining, count);
    let short = ncount::short_values(remaining);
    if v >= short {
        bits::lemma_cut_bits(window, k, 1);
        assert(window % pow2(k) == v as nat % pow2(k));
        if v < limit {
            lemma_small_mod(v as nat, limit as nat);
        } else {
            lemma_fundamental_div_mod_converse(v, limit, 1, v - limit);
        }
    }
}

/// Counts are read back as they were written.
proof fn lemma_read_counts(
    norm: Seq<i16>,
    n: nat,
    max_n: nat,
    i: nat,
    remaining: int,
    after_zero: bool,
    b: Bits,
    capacity: nat,
    src: Seq<u8>,
    c: Cursor,
    f: Bits,
)
    requires
        n <= norm.len(),
        n <= max_n <= 256,
        forall|k: int| 0 <= k < n ==> #[trigger] norm[k] >= -1,
        n > 0 && norm[n - 1] != 0,
        i <= n,
        1 <= remaining <= 513,
        spread::slots_before(norm, i) + remaining == spread::slots_before(norm, n) + 1,
        b.wf(),
        ncount::write_counts(norm, n, i, remaining, after_zero, b, capacity) == Ok::<Bits, Error>(
            f,
        ),
        stands_in(f, src),
        loaded(src, c) || b.len == f.len,
        uncut(norm, n, i, remaining, after_zero, b, f, src),
        position(c) == b.len,
        c.used < 8 || c.ip + 4 == src.len(),
    ensures
        ({
            let start = Reader { cursor: c, remaining, counts: norm.take(i as int) };
            &&& ncount::read_counts(src, start, max_n, after_zero) matches Ok(end)
            &&& end.counts == norm.take(n as int)
            &&& end.remaining == 1
            &&& position(end.cursor) == f.len
            &&& end.cursor.used <= 32
            &&& end.cursor.used < 8 || end.cursor.ip + 4 == src.len()
        }),
    decreases n - i, 1nat,
{
    if i >= n || remaining <= 1 {
        if i < n {
            spread::lemma_slots_monotone(norm, i, (n - 1) as nat);
            assert(norm[n - 1] >= -1);
            assert(spread::slots(norm[n - 1]) > 0);
        }
    } else if after_zero {
        let run = ncount::zero_run(norm, n, i);
        let long = ncount::push_long_zeros(b, run);
        let next = ncount::push_zeros(b, run);
        lemma_long_zeros_prefix(b, run);
        lemma_short_zeros_prefix(long, run % 24);
        lemma_write_count_prefix(norm, n, i + run, remaining, next, capacity);
        lemma_zero_run(norm, n, i);
        let count = norm[(i + run) as int] as int;
        let field = next.push(
            ncount::field_value(remaining, count) as nat,
            ncount::field_width(remaining, count),
        );
        lemma_written_count(norm, n, i + run, remaining, next, capacity, f);
        lemma_read_zeros(src, c, b, run, i, f, field.len);
        let (c2, at2) = ncount::read_zeros(src, c, i);
        assert(ncount::zero_extended(norm.take(i as int), at2) =~= norm.take(at2 as int));
        lemma_read_count(norm, n, max_n, i + run, remaining, next, capacity, src, c2, f);
    } else {
        let count = norm[i as int] as int;
        lemma_written_count(norm, n, i, remaining, b, capacity, f);
        lemma_shows(src, c.ip, b.len + ncount::field_width(remaining, count));
        lemma_read_count(norm, n, max_n, i, remaining, b, capacity, src, c, f);
    }
}

/// A count that was written takes one to ten bits of the header.
proof fn lemma_written_count(
    norm: Seq<i16>,
    n: nat,
    i: nat,
    remaining: int,
    b: Bits,
    capacity: nat,
    f: Bits,
)
    requires
        i < n,
        norm[i as int] >= -1,
        1 < remaining <= 513,
        b.wf(),
        ncount::write_count(norm, n, i, remaining, b, capacity) == Ok::<Bits, Error>(f),
    ensures
        ({
            let w = ncount::field_width(remaining, norm[i as int] as int);
            1 <= w <= 10 && b.len + w <= f.len
        }),
{
    let count = norm[i as int] as int;
    let left = remaining - ncount::magnitude(count);
    let v = ncount::field_value(remaining, count) as nat;
    let w = ncount::field_width(remaining, count);
    ncount::lemma_field(remaining, count);
    lemma_log_bound(remaining);
    bits::lemma_push_prefix(b, v, w);
    lemma_write_counts_prefix(norm, n, i + 1, left, count == 0, b.push(v, w), capacity);
}

proof fn lemma_zero_run(norm: Seq<i16>, n: nat, i: nat)
    ensures
        forall|k: int| i <= k < i + ncount::zero_run(norm, n, i) ==> #[trigger] norm[k] == 0,
        i <= n ==> i + ncount::zero_run(norm, n, i) <= n,
        spread::slots_before(norm, i + ncount::zero_run(norm, n, i)) == spread::slots_before(
            norm,
            i,
        ),
    decreases n - i,
{
    if i < n && norm[i as int] == 0 {
        lemma_zero_run(norm, n, i + 1);
    }
}

proof fn lemma_read_count(
    norm: Seq<i16>,
    n: nat,
    max_n: nat,
    i: nat,
    remaining: int,
    b: Bits,
    capacity: nat,
    src: Seq<u8>,
    c: Cursor,
    f: Bits,
)
    requires
        n <= norm.len(),
        n <= max_n <= 256,
        forall|k: int| 0 <= k < n ==> #[trigger] norm[k] >= -1,
        n > 0 && norm[n - 1] != 0,
        i < n,
        1 < remaining <= 513,
        spread::slots_before(norm, i) + remaining == spread::slots_before(norm, n) + 1,
        b.wf(),
        ncount::write_count(norm, n, i, remaining, b, capacity) == Ok::<Bits, Error>(f),
        stands_in(f, src),
        loaded(src, c),
        position(c) == b.len,
        shows(src, c.ip, b.len + ncount::field_width(remaining, norm[i as int] as int)),
        ({
            let count = norm[i as int] as int;
            uncut(
                norm,
                n,
                i + 1,
                remaining - ncount::magnitude(count),
                count == 0,
                b.push(
                    ncount::field_value(remaining, count) as nat,
                    ncount::field_width(remaining, count),
                ),
                f,
                src,
            )
        }),
    ensures
        ({
            let start = Reader { cursor: c, remaining, counts: norm.take(i as int) };
            &&& ncount::read_count(src, start, max_n) matches Ok(end)
            &&& end.counts == norm.take(n as int)
            &&& end.remaining == 1
            &&& position(end.cursor) == f.len
            &&& end.cursor.used <= 32
            &&& end.cursor.used < 8 || end.cursor.ip + 4 == src.len()
        }),
    decreases n - i, 0nat,
{
    let count = norm[i as int] as int;
    let left = remaining - ncount::magnitude(count);
    let v = ncount::field_value(remaining, count) as nat;
    let w = ncount::field_width(remaining, count);
    let next = b.push(v, w);
    assert(norm[i as int] >= -1);
    ncount::lemma_field(remaining, count);
    bits::lemma_push_prefix(b, v, w);
    lemma_write_counts_prefix(norm, n, i + 1, left, count == 0, next, capacity);
    lemma_window_field(src, c, b, v, w, f, b.len + w);
    lemma_small_mod(v, pow2(w));
    lemma_count_in(remaining, count, c.window);
    lemma_settled(src, c, w);
    let settled = ncount::settled(
        src,
        Cursor { ip: c.ip, used: c.used + w, window: c.window },
    );
    assert(norm.take(i as int).push(count as i16) =~= norm.take(i as int + 1));
    lemma_read_counts(
        norm,
        n,
        max_n,
        i + 1,
        left,
        count == 0,
        next,
        capacity,
        src,
        settled,
        f,
    );
}

/// After a count the window is loaded at the next position, unless that is the
/// end.
proof fn lemma_settled(src: Seq<u8>, c: Cursor, w: nat)
    requires
        src.len() >= 4,
        c.ip + 4 <= src.len(),
        position(c) + w <= 8 * src.len(),
    ensures
        ({
            let moved = Cursor { ip: c.ip, used: c.used + w, window: c.window };
            let settled = ncount::settled(src, moved);
            &&& loaded(src, settled) || position(settled) == 8 * src.len()
            &&& position(settled) == position(c) + w
            &&& settled.used < 8 || settled.ip + 4 == src.len()
        }),
{
    let moved = Cursor { ip: c.ip, used: c.used + w, window: c.window };
    let settled = ncount::settled(src, moved);
    if ncount::can_advance(src.len(), moved) {
        lemma_pow2_pos(moved.used % 8);
    } else {
        assert(settled.used <= 32);
        lemma_pow2_pos(settled.used);
    }
}

proof fn lemma_log_bound(remaining: int)
    requires
        1 < remaining <= 513,
    ensures
        mem::floor_log2(remaining as nat) <= 9,
{
    lemma2_to64();
    mem::lemma_floor_log2(remaining as nat);
    if mem::floor_log2(remaining as nat) > 9 {
        mem::lemma_pow2_monotone(10, mem::floor_log2(remaining as nat));
    }
}

/// A header that was written is read back: the table log, the counts and the
/// header's size, whatever follows it. Where nothing follows, no count may be
/// cut short.
pub proof fn law_header_roundtrip(
    norm: Seq<i16>,
    n: nat,
    log: nat,
    capacity: nat,
    max_n: nat,
    max_log: nat,
    f: Bits,
    tail: Seq<u8>,
)
    requires
        spread::counts_fill(norm, n, log),
        forall|k: int| 0 <= k < n ==> #[trigger] norm[k] >= -1,
        norm[n - 1] != 0,
        MIN_TABLELOG <= log <= max_log <= 9,
        n <= max_n <= 256,
        ncount::header_bits(norm, n, log, capacity) == Ok::<Bits, Error>(f),
        tail.len() >= 1 || !cut_at_end(norm, n, log, f),
    ensures
        ncount::parse_header(ncount::header_bytes(f) + tail, max_n, max_log) == Ok::<
            Header,
            Error,
        >(
            Header {
                log,
                counts: norm.take(n as int),
                size: ncount::header_bytes(f).len(),
            },
        ),
{
    let bytes = ncount::header_bytes(f);
    let src = bytes + tail;
    if src.len() >= 4 {
        lemma_parse_full(norm, n, log, capacity, max_n, max_log, f, tail);
    } else {
        let zeros = Seq::new((4 - src.len()) as nat, |i: int| 0u8);
        let longer = tail + zeros;
        assert(bytes + longer =~= ncount::four_bytes(src));
        lemma_parse_full(norm, n, log, capacity, max_n, max_log, f, longer);
    }
}

#[verifier::rlimit(30)]
proof fn lemma_parse_full(
    norm: Seq<i16>,
    n: nat,
    log: nat,
    capacity: nat,
    max_n: nat,
    max_log: nat,
    f: Bits,
    tail: Seq<u8>,
)
    requires
        spread::counts_fill(norm, n, log),
        forall|k: int| 0 <= k < n ==> #[trigger] norm[k] >= -1,
        norm[n - 1] != 0,
        MIN_TABLELOG <= log <= max_log <= 9,
        n <= max_n <= 256,
        ncount::header_bits(norm, n, log, capacity) == Ok::<Bits, Error>(f),
        tail.len() >= 1 || !cut_at_end(norm, n, log, f),
        ncount::header_bytes(f).len() + tail.len() >= 4,
    ensures
        ncount::parse_full(ncount::header_bytes(f) + tail, max_n, max_log) == Ok::<Header, Error>(
            Header {
                log,
                counts: norm.take(n as int),
                size: ncount::header_bytes(f).len(),
            },
        ),
{
    let bytes = ncount::header_bytes(f);
    let src = bytes + tail;
    let e = Bits::empty();
    let first = e.push((log - MIN_TABLELOG) as nat, 4);
    lemma2_to64();
    bits::lemma_push_prefix(e, (log - MIN_TABLELOG) as nat, 4);
    lemma_write_counts_prefix(norm, n, 0, pow2(log) as int + 1, false, first, capacity);
    // The header's bits stand at the start of the source.
    let h = (f.len + 7) / 8;
    bits::lemma_nat_bytes(f.value, h);
    mem::lemma_pow2_monotone(f.len, 8 * h);
    lemma_small_mod(f.value, pow2(8 * h));
    bits::lemma_bytes_value_split(src, h as int);
    assert(src.take(h as int) =~= bytes);
    let rest = bits::bytes_value(src.skip(h as int));
    lemma_pow2_adds(f.len, (8 * h - f.len) as nat);
    assert(rest * pow2(8 * h) == (rest * pow2((8 * h - f.len) as nat)) * pow2(f.len))
        by (nonlinear_arith)
        requires
            pow2(8 * h) == pow2(f.len) * pow2((8 * h - f.len) as nat),
    ;
    lemma_mod_multiples_vanish(
        (rest * pow2((8 * h - f.len) as nat)) as int,
        f.value as int,
        pow2(f.len) as int,
    );
    assert(pow2(f.len) * (rest * pow2((8 * h - f.len) as nat)) == (rest * pow2(
        (8 * h - f.len) as nat,
    )) * pow2(f.len)) by (nonlinear_arith);
    lemma_small_mod(f.value, pow2(f.len));
    assert(stands_in(f, src));
    // The first four bits name the table log.
    let c0 = Cursor { ip: 0, used: 0, window: ncount::word_at(src, 0) };
    assert(c0.window / 1 == c0.window);
    assert(loaded(src, c0));
    lemma_shows(src, 0, 4);
    lemma_window_field(src, c0, e, (log - MIN_TABLELOG) as nat, 4, f, 4);
    lemma_take(src, c0, 4);
    let c = Cursor { ip: 0, used: 4, window: ncount::word_at(src, 0) / 16 };
    assert(spread::slots_before(norm, 0) == 0);
    mem::lemma_pow2_monotone(log, 9);
    lemma_pow2_pos(log);
    lemma_read_counts(
        norm,
        n,
        max_n,
        0,
        pow2(log) as int + 1,
        false,
        first,
        capacity,
        src,
        c,
        f,
    );
    assert(norm.take(0) =~= Seq::<i16>::empty());
}

// ---------------------------------------------------------------------------
// What a header needs.

/// Room that every header over `n` symbols fits in: for each a field of one bit
/// more than the table log, and two bits that end a run of zeros.
pub open spec fn ample_room(n: nat, log: nat) -> nat {
    ncount::settled_bytes(4 + n * (log + 3)) + 2
}

proof fn lemma_settled_monotone(a: nat, b: nat)
    requires
        0 < a <= b,
    ensures
        ncount::settled_bytes(a) <= ncount::settled_bytes(b),
{
    lemma_div_is_ordered(a - 1, b - 1, 16);
}

/// Counts that fill a table can be written, but for the room.
proof fn lemma_counts_written(
    norm: Seq<i16>,
    n: nat,
    log: nat,
    i: nat,
    remaining: int,
    after_zero: bool,
    b: Bits,
    capacity: nat,
)
    requires
        spread::counts_fill(norm, n, log),
        forall|k: int| 0 <= k < n ==> #[trigger] norm[k] >= -1,
        log >= MIN_TABLELOG,
        i <= n,
        remaining == 1 + pow2(log) - spread::slots_before(norm, i),
        0 < b.len,
        b.len + (if after_zero {
            2nat
        } else {
            0
        }) <= 4 + i * (log + 3),
    ensures
        ncount::write_counts(norm, n, i, remaining, after_zero, b, capacity) matches Err(e) ==> e
            == Error::DstSizeTooSmall && capacity < ample_room(n, log),
    decreases n - i, 1nat,
{
    spread::lemma_slots_monotone(norm, i, n);
    assert(i * (log + 3) <= n * (log + 3)) by (nonlinear_arith)
        requires
            i <= n,
    ;
    if i >= n || remaining <= 1 {
        lemma_settled_monotone(b.len, 4 + n * (log + 3));
    } else if after_zero {
        let run = ncount::zero_run(norm, n, i);
        let next = ncount::push_zeros(b, run);
        lemma_zero_run(norm, n, i);
        ncount::lemma_push_zeros_len(b, run);
        assert((i + run) * (log + 3) == i * (log + 3) + run * (log + 3)) by (nonlinear_arith);
        assert(run * (log + 3) >= 3 * run) by (nonlinear_arith);
        assert((i + run) * (log + 3) <= n * (log + 3)) by (nonlinear_arith)
            requires
                i + run <= n,
        ;
        lemma_settled_monotone(next.len, 4 + n * (log + 3));
        if i + run < n {
            lemma_count_written(norm, n, log, i + run, remaining, next, capacity);
        }
    } else {
        lemma_count_written(norm, n, log, i, remaining, b, capacity);
    }
}

proof fn lemma_count_written(
    norm: Seq<i16>,
    n: nat,
    log: nat,
    i: nat,
    remaining: int,
    b: Bits,
    capacity: nat,
)
    requires
        spread::counts_fill(norm, n, log),
        forall|k: int| 0 <= k < n ==> #[trigger] norm[k] >= -1,
        log >= MIN_TABLELOG,
        i < n,
        remaining == 1 + pow2(log) - spread::slots_before(norm, i),
        remaining > 1,
        0 < b.len <= 4 + i * (log + 3),
    ensures
        ncount::write_count(norm, n, i, remaining, b, capacity) matches Err(e) ==> e
            == Error::DstSizeTooSmall && capacity < ample_room(n, log),
    decreases n - i, 0nat,
{
    let count = norm[i as int] as int;
    let width = ncount::field_width(remaining, count);
    let next = b.push(ncount::field_value(remaining, count) as nat, width);
    spread::lemma_slots_monotone(norm, i + 1, n);
    assert(spread::slots_before(norm, i + 1) == spread::slots_before(norm, i) + spread::slots(
        norm[i as int],
    ));
    mem::lemma_floor_log2(remaining as nat);
    lemma2_to64();
    mem::lemma_pow2_monotone(5, log);
    lemma_pow2_unfold(log + 1);
    if mem::floor_log2(remaining as nat) > log {
        mem::lemma_pow2_monotone(log + 1, mem::floor_log2(remaining as nat));
    }
    assert((i + 1) * (log + 3) == i * (log + 3) + (log + 3)) by (nonlinear_arith);
    assert((i + 1) * (log + 3) <= n * (log + 3)) by (nonlinear_arith)
        requires
            i + 1 <= n,
    ;
    lemma_settled_monotone(next.len, 4 + n * (log + 3));
    lemma_counts_written(
        norm,
        n,
        log,
        i + 1,
        remaining - ncount::magnitude(count),
        count == 0,
        next,
        capacity,
    );
}

/// What is written does not depend on the room, as long as there is enough.
proof fn lemma_counts_room(
    norm: Seq<i16>,
    n: nat,
    i: nat,
    remaining: int,
    after_zero: bool,
    b: Bits,
    ample: nat,
    capacity: nat,
    f: Bits,
)
    requires
        b.wf(),
        b.len > 0,
        ncount::write_counts(norm, n, i, remaining, after_zero, b, ample) == Ok::<Bits, Error>(f),
    ensures
        ncount::write_counts(norm, n, i, remaining, after_zero, b, capacity) == if settled_room(f)
            <= capacity {
            Ok::<Bits, Error>(f)
        } else {
            Err(Error::DstSizeTooSmall)
        },
    decreases n - i, 1nat,
{
    if i >= n || remaining <= 1 {
    } else if after_zero {
        let run = ncount::zero_run(norm, n, i);
        let long = ncount::push_long_zeros(b, run);
        let next = ncount::push_zeros(b, run);
        lemma_long_zeros_prefix(b, run);
        lemma_short_zeros_prefix(long, run % 24);
        lemma_write_count_prefix(norm, n, i + run, remaining, next, ample);
        lemma_settled_monotone(next.len, f.len);
        lemma_count_room(norm, n, i + run, remaining, next, ample, capacity, f);
    } else {
        lemma_count_room(norm, n, i, remaining, b, ample, capacity, f);
    }
}

proof fn lemma_count_room(
    norm: Seq<i16>,
    n: nat,
    i: nat,
    remaining: int,
    b: Bits,
    ample: nat,
    capacity: nat,
    f: Bits,
)
    requires
        b.wf(),
        b.len > 0,
        ncount::write_count(norm, n, i, remaining, b, ample) == Ok::<Bits, Error>(f),
    ensures
        ncount::write_count(norm, n, i, remaining, b, capacity) == if settled_room(f) <= capacity {
            Ok::<Bits, Error>(f)
        } else {
            Err(Error::DstSizeTooSmall)
        },
    decreases n - i, 0nat,
{
    let count = norm[i as int] as int;
    let left = remaining - ncount::magnitude(count);
    let v = ncount::field_value(remaining, count) as nat;
    let w = ncount::field_width(remaining, count);
    let next = b.push(v, w);
    bits::lemma_push_prefix(b, v, w);
    lemma_write_counts_prefix(norm, n, i + 1, left, count == 0, next, ample);
    lemma_settled_monotone(next.len, f.len);
    lemma_counts_room(norm, n, i + 1, left, count == 0, next, ample, capacity, f);
}

/// The room that a header takes while it is written: pairs of bytes, the last
/// pair included.
pub open spec fn settled_room(f: Bits) -> nat {
    ncount::settled_bytes(f.len) + 2
}

/// The bits of the header of a distribution that fills its table.
pub open spec fn full_header(norm: Seq<i16>, n: nat, log: nat) -> Bits {
    ncount::header_bits(norm, n, log, ample_room(n, log))->Ok_0
}

/// A distribution that fills its table has a header. It is written wherever
/// there is room for it, and otherwise refused for lack of room.
pub proof fn law_header_exists(norm: Seq<i16>, n: nat, log: nat, capacity: nat)
    requires
        spread::counts_fill(norm, n, log),
        forall|k: int| 0 <= k < n ==> #[trigger] norm[k] >= -1,
        log >= MIN_TABLELOG,
    ensures
        ncount::header_bits(norm, n, log, capacity) == if settled_room(full_header(norm, n, log))
            <= capacity {
            Ok::<Bits, Error>(full_header(norm, n, log))
        } else {
            Err(Error::DstSizeTooSmall)
        },
        settled_room(full_header(norm, n, log)) <= ample_room(n, log),
{
    let e = Bits::empty();
    let first = e.push((log - MIN_TABLELOG) as nat, 4);
    let remaining = pow2(log) as int + 1;
    let ample = ample_room(n, log);
    lemma2_to64();
    bits::lemma_push_prefix(e, (log - MIN_TABLELOG) as nat, 4);
    lemma_counts_written(norm, n, log, 0, remaining, false, first, ample);
    let f = full_header(norm, n, log);
    lemma_counts_room(norm, n, 0, remaining, false, first, ample, capacity, f);
    lemma_counts_room(norm, n, 0, remaining, false, first, ample, ample, f);
}

// ---------------------------------------------------------------------------
// The usual room.

/// The symbol `i` has no states, and its neighbours have some.
pub open spec fn alone(norm: Seq<i16>, n: nat, i: int) -> bool {
    &&& norm[i] == 0
    &&& i > 0 ==> norm[i - 1] != 0
    &&& i + 1 < n ==> norm[i + 1] != 0
}

/// How many of the first `k` symbols stand alone without states.
pub open spec fn lone_zeros(norm: Seq<i16>, n: nat, k: nat) -> nat
    decreases k,
{
    if k == 0 {
        0
    } else {
        lone_zeros(norm, n, (k - 1) as nat) + if alone(norm, n, k - 1) {
            1nat
        } else {
            0
        }
    }
}

proof fn lemma_lone_monotone(norm: Seq<i16>, n: nat, j: nat, k: nat)
    requires
        j <= k,
    ensures
        lone_zeros(norm, n, j) <= lone_zeros(norm, n, k),
    decreases k,
{
    if j < k {
        lemma_lone_monotone(norm, n, j, (k - 1) as nat);
    }
}

/// Bits that the first states of a table may cost beyond a table log each.
spec fn slack(log: nat, remaining: int) -> int {
    let given = pow2(log) + 1 - remaining;
    if given < 4 {
        given
    } else {
        4
    }
}

/// A count's field has at most as many bits as the table log. While the first
/// states are given away it may have one more, and that of a zero, with the two
/// bits that end its run, one more again.
proof fn lemma_field_cost(log: nat, remaining: int, count: int)
    requires
        MIN_TABLELOG <= log,
        1 < remaining <= pow2(log) + 1,
        count >= -1,
        remaining - ncount::magnitude(count) >= 1,
    ensures
        ({
            let w = ncount::field_width(remaining, count);
            let left = remaining - ncount::magnitude(count);
            &&& count != 0 ==> w + slack(log, remaining) <= log + slack(log, left)
            &&& count != 0 && w > log ==> slack(log, left) >= slack(log, remaining) + 3
            &&& w <= log + 1
            &&& count == 0 ==> w <= log
            &&& count == 0 && slack(log, remaining) >= 4 ==> w + 1 <= log
        }),
{
    let k = mem::floor_log2(remaining as nat);
    lemma2_to64();
    mem::lemma_pow2_monotone(5, log);
    mem::lemma_floor_log2(remaining as nat);
    lemma_pow2_unfold(log + 1);
    lemma_pow2_unfold(k + 1);
    lemma_pow2_unfold(log);
    if k > log {
        mem::lemma_pow2_monotone(log + 1, k);
    }
    if k + 1 < log {
        mem::lemma_pow2_monotone(k + 2, log);
    }
}

/// The zero before `i` is the first of its run, and `i` follows a run of zeros
/// exactly where it says so.
spec fn follows(norm: Seq<i16>, i: nat, after_zero: bool) -> bool {
    if after_zero {
        &&& i > 0
        &&& norm[i - 1] == 0
        &&& i > 1 ==> norm[i - 2] != 0
    } else {
        i > 0 ==> norm[i - 1] != 0
    }
}

/// Bits that were written up to the symbol `i`, at most.
spec fn spent(norm: Seq<i16>, n: nat, log: nat, i: nat, remaining: int, after_zero: bool) -> int {
    if after_zero {
        4 + i * log + lone_zeros(norm, n, (i - 1) as nat) + slack(log, remaining) - if slack(
            log,
            remaining,
        ) >= 4 {
            1int
        } else {
            0
        }
    } else {
        4 + i * log + lone_zeros(norm, n, i) + slack(log, remaining)
    }
}

proof fn lemma_counts_cost(
    norm: Seq<i16>,
    n: nat,
    log: nat,
    i: nat,
    remaining: int,
    after_zero: bool,
    b: Bits,
    capacity: nat,
)
    requires
        forall|k: int| 0 <= k < n ==> #[trigger] norm[k] >= -1,
        log >= MIN_TABLELOG,
        i <= n,
        remaining <= pow2(log) + 1,
        follows(norm, i, after_zero),
        after_zero ==> remaining > 1,
        b.len <= spent(norm, n, log, i, remaining, after_zero),
    ensures
        ncount::write_counts(norm, n, i, remaining, after_zero, b, capacity) matches Ok(f) ==> f.len
            <= 8 + n * log + lone_zeros(norm, n, n),
    decreases n - i, 1nat,
{
    if i >= n || remaining <= 1 {
        assert(i * log <= n * log) by (nonlinear_arith)
            requires
                i <= n,
        ;
        lemma_lone_monotone(norm, n, i, n);
    } else if after_zero {
        let run = ncount::zero_run(norm, n, i);
        let next = ncount::push_zeros(b, run);
        lemma_zero_run(norm, n, i);
        ncount::lemma_push_zeros_len(b, run);
        lemma_run_ends(norm, n, i);
        lemma_lone_monotone(norm, n, (i - 1) as nat, i + run);
        assert((i + run) * log == i * log + run * log) by (nonlinear_arith);
        if run > 0 {
            assert(run * log >= 5 * run) by (nonlinear_arith)
                requires
                    log >= 5,
            ;
        } else {
            assert(run * log == 0) by (nonlinear_arith)
                requires
                    run == 0,
            ;
            if i < n {
                assert(alone(norm, n, i - 1));
            }
        }
        if i + run < n {
            lemma_count_cost(norm, n, log, i + run, remaining, next, capacity);
        }
    } else {
        lemma_count_cost(norm, n, log, i, remaining, b, capacity);
    }
}

/// A run of zeros ends before a symbol that has states.
proof fn lemma_run_ends(norm: Seq<i16>, n: nat, i: nat)
    ensures
        i + ncount::zero_run(norm, n, i) < n ==> norm[(i + ncount::zero_run(norm, n, i)) as int] != 0,
    decreases n - i,
{
    if i < n && norm[i as int] == 0 {
        lemma_run_ends(norm, n, i + 1);
    }
}

proof fn lemma_count_cost(
    norm: Seq<i16>,
    n: nat,
    log: nat,
    i: nat,
    remaining: int,
    b: Bits,
    capacity: nat,
)
    requires
        forall|k: int| 0 <= k < n ==> #[trigger] norm[k] >= -1,
        log >= MIN_TABLELOG,
        i < n,
        1 < remaining <= pow2(log) + 1,
        norm[i as int] == 0 ==> follows(norm, i, false),
        b.len <= spent(norm, n, log, i, remaining, false) + if norm[i as int] != 0 && slack(
            log,
            remaining,
        ) < 4 {
            1int
        } else {
            0
        },
    ensures
        ncount::write_count(norm, n, i, remaining, b, capacity) matches Ok(f) ==> f.len <= 8 + n
            * log + lone_zeros(norm, n, n),
    decreases n - i, 0nat,
{
    let count = norm[i as int] as int;
    let left = remaining - ncount::magnitude(count);
    let next = b.push(
        ncount::field_value(remaining, count) as nat,
        ncount::field_width(remaining, count),
    );
    assert(norm[i as int] >= -1);
    assert((i + 1) * log == i * log + log) by (nonlinear_arith);
    if left >= 1 {
        lemma_field_cost(log, remaining, count);
        lemma_lone_monotone(norm, n, i, i + 1);
        lemma_counts_cost(norm, n, log, i + 1, left, count == 0, next, capacity);
    }
}

/// The usual room is enough for every distribution that leaves at most seven
/// symbols without states between neighbours that have some.
pub proof fn law_usual_room(norm: Seq<i16>, n: nat, log: nat)
    requires
        spread::counts_fill(norm, n, log),
        forall|k: int| 0 <= k < n ==> #[trigger] norm[k] >= -1,
        log >= MIN_TABLELOG,
        lone_zeros(norm, n, n) <= 7,
    ensures
        settled_room(full_header(norm, n, log)) <= ncount::usual_room(n, log),
{
    let ample = ample_room(n, log);
    let f = full_header(norm, n, log);
    let first = Bits::empty().push((log - MIN_TABLELOG) as nat, 4);
    law_header_exists(norm, n, log, ample);
    lemma2_to64();
    bits::lemma_push_prefix(Bits::empty(), (log - MIN_TABLELOG) as nat, 4);
    lemma_write_counts_prefix(norm, n, 0, pow2(log) as int + 1, false, first, ample);
    assert(0 * log == 0);
    lemma_counts_cost(
        norm,
        n,
        log,
        0,
        pow2(log) as int + 1,
        false,
        first,
        ample,
    );
    assert(4 <= f.len <= 15 + n * log);
}

/// A header that the usual room is enough for is written there and read back
/// from just the bytes that were written, unless a count is cut short.
pub proof fn law_usual_header_roundtrip(
    norm: Seq<i16>,
    n: nat,
    log: nat,
    max_n: nat,
    max_log: nat,
)
    requires
        spread::counts_fill(norm, n, log),
        forall|k: int| 0 <= k < n ==> #[trigger] norm[k] >= -1,
        norm[n - 1] != 0,
        MIN_TABLELOG <= log <= max_log <= 9,
        n <= max_n <= 256,
        settled_room(full_header(norm, n, log)) <= ncount::usual_room(n, log),
        !cut_at_end(norm, n, log, full_header(norm, n, log)),
    ensures
        ({
            let f = full_header(norm, n, log);
            let bytes = ncount::header_bytes(f);
            &&& ncount::header_bits(norm, n, log, ncount::usual_room(n, log)) == Ok::<Bits, Error>(f)
            &&& ncount::parse_header(bytes, max_n, max_log) == Ok::<Header, Error>(
                Header { log, counts: norm.take(n as int), size: bytes.len() },
            )
        }),
{
    let f = full_header(norm, n, log);
    let bytes = ncount::header_bytes(f);
    let room = ncount::usual_room(n, log);
    law_header_exists(norm, n, log, room);
    law_header_roundtrip(norm, n, log, room, max_n, max_log, f, Seq::empty());
    assert(bytes + Seq::<u8>::empty() =~= bytes);
}

} // verus!
