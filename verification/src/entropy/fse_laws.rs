//! Laws of the finite-state coder: how a distribution's header is written, how
//! its symbols are laid out over states, and how states follow each other.

use crate::entropy::bits::Bits;
use crate::entropy::bitstream::Reading;
use crate::entropy::fse;
use crate::entropy::fse::{CTable, DTable, DecodeEntry};
use crate::entropy::fse_cost;
use crate::entropy::fse_stream;
use crate::entropy::mem;
use crate::entropy::ncount;
use crate::entropy::spread;
use crate::error::Error;
use crate::header_laws;
use vstd::arithmetic::div_mod::*;
use vstd::arithmetic::power2::*;
use vstd::prelude::*;

verus! {

// ---------------------------------------------------------------------------
// Headers.

/// A header tells the table log, less five, in its lowest four bits. One that
/// is larger than allowed is refused before anything else is looked at.
pub proof fn law_header_tells_the_table_log(src: Seq<u8>, n: nat, max_log: nat)
    requires
        src.len() >= 4,
    ensures
        src[0] % 16 + 5 > max_log ==> ncount::parse_header(src, n, max_log) is Err
            && ncount::parse_header(src, n, max_log)->Err_0 == Error::TableLogTooLarge,
        ncount::parse_header(src, n, max_log) matches Ok(h) ==> h.log == src[0] % 16 + 5 && h.log
            <= max_log,
{
    let s = src.subrange(0, 4);
    header_laws::lemma_spelled(s);
    let word = ncount::word_at(src, 0);
    let high = s[1] + 256 * s[2] + 65536 * s[3];
    assert(word == s[0] + 256 * high);
    assert(word % 16 == s[0] % 16) by {
        lemma_low_half(s[0], high as nat);
    }
    assert(s[0] == src[0]);
}

proof fn lemma_low_half(b: u8, high: nat)
    ensures
        (b + 256 * high) % 16 == b % 16,
{
}

/// A count is written as one more than it is, so that -1 is zero. While
/// `remaining - 1` states are left to give, the field has as many bits as
/// `remaining`; but the values that one bit fewer can tell apart from all
/// others are written with one bit fewer.
pub proof fn law_count_fields(remaining: int, count: int, k: nat)
    requires
        pow2(k) <= remaining < 2 * pow2(k),
        -1 <= count < remaining,
        remaining > 1,
    ensures
        ({
            let spare = 2 * pow2(k) - 1 - remaining;
            &&& count + 1 < spare ==> ncount::field_width(remaining, count) == k
                && ncount::field_value(remaining, count) == count + 1
            &&& spare <= count + 1 < pow2(k) ==> ncount::field_width(remaining, count) == k + 1
                && ncount::field_value(remaining, count) == count + 1
            &&& count + 1 >= pow2(k) ==> ncount::field_width(remaining, count) == k + 1
                && ncount::field_value(remaining, count) == count + 1 + spare
        }),
{
    lemma_pow2_unfold(k + 1);
    mem::lemma_floor_log2_unique(remaining as nat, k);
}

/// A count that was written is read: in a window that starts with its field,
/// whatever stands above.
pub proof fn law_count_is_read_back(remaining: int, count: int, above: nat)
    requires
        remaining > 1,
        -1 <= count,
        remaining - (if count < 0 {
            -count
        } else {
            count
        }) >= 1,
    ensures
        ({
            let v = ncount::field_value(remaining, count);
            let w = ncount::field_width(remaining, count);
            let window = (v + above * pow2(w)) as nat;
            &&& v >= 0
            &&& ncount::count_in(remaining, window) == count
            &&& ncount::width_in(remaining, window) == w
        }),
{
    ncount::lemma_field(remaining, count);
    let v = ncount::field_value(remaining, count);
    let w = ncount::field_width(remaining, count);
    let k = mem::floor_log2(remaining as nat);
    let limit = pow2(k) as int;
    lemma_pow2_unfold(k + 1);
    lemma_pow2_pos(k);
    let spare = ncount::short_values(remaining);
    let window = v + above * pow2(w);
    if w == k {
        assert(window == above * limit + v);
        lemma_fundamental_div_mod_converse(window, limit, above as int, v);
    } else {
        assert(pow2(w) == 2 * limit);
        lemma_fundamental_div_mod_converse(window, 2 * limit, above as int, v);
        let a = above as int;
        if v >= limit {
            assert(window == (2 * a + 1) * limit + (v - limit)) by (nonlinear_arith)
                requires
                    window == v + a * (2 * limit),
            ;
            lemma_fundamental_div_mod_converse(window, limit, 2 * a + 1, v - limit);
        } else {
            assert(window == (2 * a) * limit + v) by (nonlinear_arith)
                requires
                    window == v + a * (2 * limit),
            ;
            lemma_fundamental_div_mod_converse(window, limit, 2 * a, v);
        }
    }
}

/// A run of zeros behind a zero is written in twos of bits: sixteen ones stand
/// for twenty-four, two ones for three, and less than three is written as it
/// is.
pub proof fn law_zero_runs(b: Bits, run: nat)
    ensures
        run >= 24 ==> ncount::push_zeros(b, run) == ncount::push_zeros(
            b.push(0xFFFF, 16),
            (run - 24) as nat,
        ),
        3 <= run < 24 ==> ncount::push_zeros(b, run) == ncount::push_zeros(
            b.push(3, 2),
            (run - 3) as nat,
        ),
        run < 3 ==> ncount::push_zeros(b, run) == b.push(run, 2),
{
    if run >= 24 {
        assert((run - 24) as nat % 24 == run % 24);
    } else {
        reveal_with_fuel(ncount::push_long_zeros, 2);
    }
}

// ---------------------------------------------------------------------------
// Layout.

/// Symbols with the count -1 take one state each, from the highest state down,
/// in the order of the symbols.
pub proof fn law_rare_symbols_are_on_top(norm: Seq<i16>, n: nat, log: nat, s: int)
    requires
        spread::counts_fill(norm, n, log),
        spread::walkable(log),
        0 <= s < n,
        norm[s] == -1,
    ensures
        ({
            let u = pow2(log) - 1 - spread::rare_before(norm, s as nat);
            0 <= u < pow2(log) && spread::spread(norm, n, log)[u] == s
        }),
{
    spread::lemma_symbol_lists(norm, n);
    lemma_rare_place(norm, n, s);
}

proof fn lemma_rare_place(norm: Seq<i16>, n: nat, s: int)
    requires
        0 <= s < n,
        n <= norm.len(),
        n <= 256,
        norm[s] == -1,
    ensures
        spread::rare_before(norm, s as nat) < spread::rare_symbols(norm, n).len(),
        spread::rare_symbols(norm, n).len() == spread::rare_before(norm, n),
        spread::rare_symbols(norm, n)[spread::rare_before(norm, s as nat) as int] == s,
    decreases n,
{
    spread::lemma_symbol_lists(norm, (n - 1) as nat);
    spread::lemma_symbol_lists(norm, n);
    if s < n - 1 {
        lemma_rare_place(norm, (n - 1) as nat, s);
    }
}

/// The other symbols are dealt out in order, each as often as its count, over
/// a walk from the state 0 in steps of five eighths of the table and three.
/// Where no symbol is rare, the step `i` of the walk gets the symbol whose
/// counts, added up from the first symbol on, pass `i`.
pub proof fn law_symbols_are_dealt_along_the_walk(
    norm: Seq<i16>,
    n: nat,
    log: nat,
    s: int,
    i: nat,
)
    requires
        spread::counts_fill(norm, n, log),
        spread::walkable(log),
        spread::rare_before(norm, n) == 0,
        0 <= s < n,
        spread::slots_before(norm, s as nat) <= i < spread::slots_before(norm, s as nat + 1),
    ensures
        ({
            let size = pow2(log);
            let u = (i * (size / 2 + size / 8 + 3)) % size;
            spread::spread(norm, n, log)[u as int] == s
        }),
{
    let size = pow2(log);
    let u = spread::walk(log, i);
    spread::lemma_step_odd(log);
    spread::lemma_symbol_lists(norm, n);
    spread::lemma_slots_monotone(norm, s as nat + 1, n);
    lemma_mod_bound((i * spread::walk_step(size)) as int, size as int);
    spread::lemma_walked(log, size, size);
    spread::lemma_walk_complete(log, size);
    lemma_whole_walk(log, i, size);
    let walked = spread::walked(log, size, size);
    assert(walked[i as int] == u);
    assert(walked.contains(u));
    let j = walked.index_of(u);
    assert(walked[j] == u && j == i);
    lemma_common_place(norm, n, s, i);
}

proof fn lemma_whole_walk(log: nat, i: nat, k: nat)
    requires
        spread::walkable(log),
        i < k,
    ensures
        spread::walked(log, pow2(log), k).len() == k,
        spread::walked(log, pow2(log), k)[i as int] == spread::walk(log, i),
    decreases k,
{
    spread::lemma_step_odd(log);
    lemma_mod_bound(
        ((k - 1) as nat * spread::walk_step(pow2(log))) as int,
        pow2(log) as int,
    );
    if i < k - 1 {
        lemma_whole_walk(log, i, (k - 1) as nat);
    } else if k > 1 {
        lemma_whole_walk(log, 0, (k - 1) as nat);
    } else {
        reveal_with_fuel(spread::walked, 2);
    }
}

proof fn lemma_common_place(norm: Seq<i16>, n: nat, s: int, i: nat)
    requires
        0 <= s < n,
        n <= norm.len(),
        n <= 256,
        spread::rare_before(norm, n) == 0,
        spread::slots_before(norm, s as nat) <= i < spread::slots_before(norm, s as nat + 1),
    ensures
        spread::common_symbols(norm, n).len() == spread::slots_before(norm, n),
        i < spread::slots_before(norm, n),
        spread::common_symbols(norm, n)[i as int] == s,
    decreases n,
{
    let m = (n - 1) as nat;
    spread::lemma_symbol_lists(norm, m);
    spread::lemma_symbol_lists(norm, n);
    if s < n - 1 {
        lemma_common_place(norm, m, s, i);
    }
}

// ---------------------------------------------------------------------------
// States.

/// The states of a symbol are numbered in order, from its count on. The number
/// times a power of two lies in the upper half of twice the table, and from
/// there the state's bits lead back into the table.
pub proof fn law_states_lead_back(norm: Seq<i16>, n: nat, log: nat, u: int)
    requires
        spread::counts_fill(norm, n, log),
        spread::walkable(log),
        0 <= u < pow2(log),
    ensures
        ({
            let e = fse::distribution_entry(norm, n, log, u);
            let table = spread::spread(norm, n, log);
            let s = table[u];
            let earlier = spread::occurrences(table, s, u as nat);
            let x = earlier + if norm[s as int] == -1 {
                1
            } else {
                norm[s as int] as int
            };
            &&& e.symbol == s
            &&& x * pow2(e.nb_bits as nat) == e.new_state + pow2(log)
            &&& e.new_state + pow2(e.nb_bits as nat) <= pow2(log)
        }),
{
    fse::lemma_distribution_entry(norm, n, log, u);
    spread::lemma_spread(norm, n, log);
    lemma2_to64();
    mem::lemma_pow2_monotone(log, 9);
}

/// Two states take turns. The one whose turn it is gives its symbol and takes
/// its bits, which lead it to its next state; where they are missing, the other
/// state's symbol is the last.
pub proof fn law_states_take_turns(
    entries: Seq<DecodeEntry>,
    a: nat,
    b: nat,
    r: Reading,
    room: nat,
)
    requires
        room >= 2,
        a < entries.len(),
        b < entries.len(),
        r.bits.wf(),
        !r.overflow(),
    ensures
        ({
            let k = entries[a as int].nb_bits as nat;
            let got = fse_stream::interleaved(entries, a, b, r, room);
            &&& k > r.bits.len ==> got == Some(
                seq![entries[a as int].symbol, entries[b as int].symbol],
            )
            &&& k <= r.bits.len ==> match fse_stream::interleaved(
                entries,
                b,
                entries[a as int].new_state as nat + r.bits.top(k),
                r.skip(k),
                (room - 1) as nat,
            ) {
                Some(rest) => got == Some(seq![entries[a as int].symbol] + rest),
                None => got is None,
            }
        }),
{
}

/// A stream starts with the two states, the one that gives the first symbol
/// first.
pub proof fn law_stream_starts_with_its_states(
    entries: Seq<DecodeEntry>,
    log: nat,
    src: Seq<u8>,
    room: nat,
)
    requires
        log > 0,
        src.len() > 0,
        src.last() != 0,
        2 * log <= Reading::start(src).bits.len,
    ensures
        ({
            let b = Reading::start(src).bits;
            let r = fse_stream::stream_decoding(entries, log, src, room);
            match fse_stream::interleaved(
                entries,
                b.top(log),
                b.pop(log).top(log),
                Reading::start(src).skip(log).skip(log),
                room,
            ) {
                Some(bytes) => r is Ok && r->Ok_0 == bytes,
                None => r is Err && r->Err_0 == Error::DstSizeTooSmall,
            }
        }),
{
}

/// A symbol with `c` states costs what its code would have as many bits, on
/// average: all of the table log for one state, one bit less for each doubling,
/// and in between along a straight line.
pub proof fn law_costs_follow_the_states(
    norm: Seq<i16>,
    n: nat,
    log: nat,
    s: int,
    f: nat,
    accuracy: nat,
)
    requires
        spread::counts_fill(norm, n, log),
        1 <= log <= 9,
        0 <= s < n,
        spread::slots(norm[s]) > 0,
        accuracy <= 22,
        spread::slots(norm[s]) > 1 ==> pow2(f) < spread::slots(norm[s]) <= 2 * pow2(f),
    ensures
        ({
            let c = spread::slots(norm[s]);
            let unit = pow2(accuracy);
            let cost = fse_cost::delta_cost(
                fse::transform(norm, n, log, s).delta_nb_bits as int,
                log,
                accuracy,
            );
            &&& c == 1 ==> cost == log * unit
            &&& c > 1 ==> f < log && cost == (log - f + 1) * unit - (c * unit) / pow2(f)
        }),
{
    let c = spread::slots(norm[s]);
    let unit = pow2(accuracy) as int;
    let size = pow2(log) as int;
    spread::lemma_slots_monotone(norm, s as nat + 1, n);
    lemma2_to64();
    mem::lemma_pow2_monotone(log, 9);
    mem::lemma_pow2_monotone(1, log);
    mem::lemma_pow2_monotone(accuracy, 22);
    lemma_pow2_pos(accuracy);
    let delta = fse::transform(norm, n, log, s).delta_nb_bits as int;
    let k = delta / 65536;
    let over = (k + 1) * 65536 - delta - size;
    if c == 1 {
        assert(delta == 65536 * log - size);
        assert(k == log - 1);
        assert(over == 0);
        assert(0 * unit == 0);
        assert(0int % 0x1_0000_0000 == 0 && 0int / size == 0) by (nonlinear_arith)
            requires
                size > 0,
        ;
    } else {
        lemma_pow2_unfold(f + 1);
        mem::lemma_floor_log2_unique((c - 1) as nat, f);
        if f >= log {
            mem::lemma_pow2_monotone(log, f);
        }
        let most = (log - f) as nat;
        lemma_pow2_adds(f, most);
        lemma_pow2_pos(most);
        lemma_pow2_pos(f);
        let p = pow2(most) as int;
        let g = pow2(f) as int;
        let x = c as int;
        assert(g * p < x * p <= 2 * (g * p)) by (nonlinear_arith)
            requires
                g < x <= 2 * g,
                p > 0,
        ;
        assert(delta == 65536 * most - x * p);
        assert(k == most - 1);
        assert(over == x * p - size);
        assert(over * unit == (x * unit) * p - unit * (g * p)) by (nonlinear_arith)
            requires
                over == x * p - g * p,
        ;
        assert(0 <= over * unit <= 512 * 4194304) by (nonlinear_arith)
            requires
                0 <= over <= 512,
                0 < unit <= 4194304,
        ;
        assert(over * unit % 0x1_0000_0000 == over * unit);
        // Dividing by the table's size cancels the scale.
        let q = (x * unit) / g;
        let r = (x * unit) % g;
        lemma_fundamental_div_mod(x * unit, g);
        assert(over * unit == (q - unit) * (g * p) + r * p) by (nonlinear_arith)
            requires
                over * unit == (x * unit) * p - unit * (g * p),
                x * unit == g * q + r,
        ;
        assert(0 <= r * p < g * p) by (nonlinear_arith)
            requires
                0 <= r < g,
                p > 0,
        ;
        lemma_fundamental_div_mod_converse(over * unit, g * p, q - unit, r * p);
        assert((most as int) * unit - (q - unit) == (log - f + 1) * unit - q) by (nonlinear_arith)
            requires
                most == log - f,
        ;
    }
}

/// A symbol with `c` states takes at most as many bits as bring `c` up to the
/// table's size; one without states counts one bit more than the table log.
pub proof fn law_most_bits_of_a_symbol(
    ct: CTable,
    norm: Seq<i16>,
    n: nat,
    log: nat,
    s: int,
    f: nat,
)
    requires
        fse::encodes_with(ct, norm, n, log),
        0 <= s < n,
        spread::slots(norm[s]) > 1 ==> pow2(f) < spread::slots(norm[s]) <= 2 * pow2(f),
    ensures
        spread::slots(norm[s]) == 0 ==> ct.most_bits(s) == log + 1,
        spread::slots(norm[s]) == 1 ==> ct.most_bits(s) == log,
        spread::slots(norm[s]) > 1 ==> ct.most_bits(s) == log - f,
{
    reveal(fse::encodes_with);
    let c = spread::slots(norm[s]);
    assert(ct.symbol_tt@[s] == fse::transform(norm, n, log, s));
    lemma2_to64();
    spread::lemma_step_odd(log);
    spread::lemma_slots_monotone(norm, s as nat + 1, n);
    if c > 1 {
        lemma_pow2_unfold(f + 1);
        mem::lemma_floor_log2_unique((c - 1) as nat, f);
        if f >= log {
            mem::lemma_pow2_monotone(log, f);
        }
        let most = (log - f) as nat;
        lemma_pow2_adds(f, most);
        lemma_pow2_pos(most);
        let p = pow2(most) as int;
        let g = pow2(f) as int;
        let x = c as int;
        assert(g * p < x * p <= 2 * (g * p)) by (nonlinear_arith)
            requires
                g < x <= 2 * g,
                p > 0,
        ;
    }
}

/// The average symbol of a table is the sum over its states, shared out.
pub proof fn law_symbol_sum(dt: DTable, n: nat)
    requires
        n < dt.entries@.len(),
    ensures
        fse_cost::symbol_sum(dt, 0) == 0,
        fse_cost::symbol_sum(dt, n + 1) == fse_cost::symbol_sum(dt, n)
            + dt.entries@[n as int].symbol,
{
}

/// The tables that there are: a symbol is a byte, and has a count; a state is
/// told by one to nine bits.
pub proof fn law_tables_that_there_are(len: nat, max_symbol_value: u32, table_log: u32)
    ensures
        ({
            let e = fse::table_shape_error(len, max_symbol_value, table_log);
            &&& e is None <==> max_symbol_value <= 255 && max_symbol_value < len && 1 <= table_log
                <= 9
            &&& max_symbol_value > 255 || max_symbol_value >= len ==> e == Some(
                Error::MaxSymbolValueTooLarge,
            )
            &&& max_symbol_value <= 255 && max_symbol_value < len && table_log > 9 ==> e == Some(
                Error::TableLogTooLarge,
            )
        }),
{
}

/// The headers that there are: they tell table logs from five to nine.
pub proof fn law_headers_that_there_are(max_symbol_value: u32, table_log: u32)
    ensures
        ({
            let e = ncount::header_shape_error(max_symbol_value, table_log);
            &&& e is None <==> max_symbol_value <= 255 && 5 <= table_log <= 9
            &&& max_symbol_value > 255 ==> e == Some(Error::MaxSymbolValueTooLarge)
            &&& max_symbol_value <= 255 && !(5 <= table_log <= 9) ==> e == Some(
                Error::TableLogTooLarge,
            )
        }),
{
}

} // verus!
