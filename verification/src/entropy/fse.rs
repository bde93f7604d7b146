//! Finite-state entropy coding.

use crate::entropy::mem;
use crate::entropy::spread;
use crate::error::{Error, Result};
use vstd::arithmetic::div_mod::*;
use vstd::arithmetic::power2::*;
use vstd::prelude::*;

verus! {

/// Largest table log that a table may have.
pub const TABLELOG_MAX: usize = 9;

/// Number of states of the largest table.
pub const TABLESIZE_MAX: usize = 512;

/// Largest symbol that an alphabet may hold.
pub const SYMBOLVALUE_MAX: usize = 255;

/// Smallest table log that a table header can name.
pub const MIN_TABLELOG: usize = 5;

/// `2^log` as a machine word.
fn table_size(log: u32) -> (r: usize)
    requires
        log <= TABLELOG_MAX,
    ensures
        r == pow2(log as nat),
        1 <= r <= 512,
{
    proof {
        lemma2_to64();
        mem::lemma_pow2_monotone(log as nat, 9);
        mem::lemma_pow2_monotone(0, log as nat);
    }
    mem::power_of_two(log) as usize
}

/// The states below `open` in the order in which the walk meets them.
fn walk_places(log: u32, open: usize) -> (r: Vec<usize>)
    requires
        spread::walkable(log as nat),
        open <= pow2(log as nat),
    ensures
        r@.len() == open,
        forall|k: int|
            0 <= k < open ==> #[trigger] r@[k] == spread::walked(
                log as nat,
                open as nat,
                pow2(log as nat),
            )[k],
{
    let size: usize = table_size(log);
    let step: usize = size / 2 + size / 8 + 3;
    let mut places: Vec<usize> = Vec::new();
    let mut position: usize = 0;
    let mut i: usize = 0;
    proof {
        spread::lemma_step_odd(log as nat);
        spread::lemma_walk_complete(log as nat, open as nat);
        lemma_small_mod(0, pow2(log as nat));
        assert(0 * spread::walk_step(pow2(log as nat)) == 0);
    }
    while i < size
        invariant
            i <= size == pow2(log as nat),
            4 <= size <= 512,
            spread::walkable(log as nat),
            step == spread::walk_step(size as nat),
            position == spread::walk(log as nat, i as nat),
            position < size,
            places@.len() == spread::walked(log as nat, open as nat, i as nat).len(),
            forall|k: int|
                0 <= k < places@.len() ==> #[trigger] places@[k] == spread::walked(
                    log as nat,
                    open as nat,
                    i as nat,
                )[k],
        decreases size - i,
    {
        if position < open {
            places.push(position);
        }
        proof {
            lemma_walk_next(log as nat, i as nat);
        }
        position = (position + step) % size;
        i = i + 1;
    }
    places
}

/// Lays the symbols of a distribution out over the states of its table, or
/// returns nothing where dealing them out does not end at the state 0.
fn lay_out_symbols(norm: &[i16], alphabet: usize, table_log: u32) -> (r: Option<Vec<u8>>)
    requires
        0 < alphabet <= norm@.len(),
        alphabet <= 256,
        1 <= table_log <= TABLELOG_MAX,
    ensures
        r is Some <==> spread::deals_out(norm@, alphabet as nat, table_log as nat),
        r matches Some(table) ==> table@ == spread::laid_out(
            norm@,
            alphabet as nat,
            table_log as nat,
        ),
{
    let ghost log = table_log as nat;
    let ghost n = alphabet as nat;
    let size: usize = table_size(table_log);
    let mut table: Vec<u8> = vec![0u8; size];
    let mut high: usize = size;
    let mut s: usize = 0;
    proof {
        spread::lemma_symbol_lists(norm@, n);
    }
    while s < alphabet
        invariant
            s <= alphabet == n <= norm@.len(),
            n <= 256,
            1 <= size <= 512,
            table@.len() == size,
            spread::rare_symbols(norm@, s as nat).len() == spread::rare_before(norm@, s as nat),
            high == (if spread::rare_before(norm@, s as nat) < size {
                size - spread::rare_before(norm@, s as nat)
            } else {
                0
            }),
            forall|k: int|
                0 <= k < spread::rare_before(norm@, s as nat) && k < size - 1 ==> table@[size - 1
                    - k] == #[trigger] spread::rare_symbols(norm@, s as nat)[k],
            spread::rare_before(norm@, s as nat) >= size ==> table@[0] == spread::rare_symbols(
                norm@,
                s as nat,
            ).last(),
            spread::rare_before(norm@, s as nat) < size ==> forall|u: int|
                0 <= u < size - spread::rare_before(norm@, s as nat) ==> #[trigger] table@[u] == 0,
        decreases alphabet - s,
    {
        if norm[s] == -1 {
            if high > 0 {
                high = high - 1;
            }
            table.set(high, s as u8);
        }
        s = s + 1;
    }
    let open: usize = if high > 0 {
        high
    } else {
        1
    };
    let ghost rare_table = table@;
    let ghost common = spread::common_symbols(norm@, n);
    if table_log == 1 || table_log == 3 {
        s = 0;
        while s < alphabet
            invariant
                s <= alphabet == n <= norm@.len(),
                n <= 256,
                table@.len() == size == rare_table.len(),
                0 < size,
                spread::common_symbols(norm@, s as nat).len() == 0 ==> table@ == rare_table,
                spread::common_symbols(norm@, s as nat).len() > 0 ==> table@[0]
                    == spread::common_symbols(norm@, s as nat).last(),
                forall|u: int| 0 < u < size ==> #[trigger] table@[u] == rare_table[u],
            decreases alphabet - s,
        {
            if norm[s] > 0 {
                table.set(0, s as u8);
            }
            s = s + 1;
        }
        proof {
            let goal = spread::laid_out(norm@, n, log);
            assert forall|u: int| 0 <= u < size implies table@[u] == goal[u] by {
                if u >= open {
                    let k = size - 1 - u;
                    assert(rare_table[size - 1 - k] == spread::rare_symbols(norm@, n)[k]);
                }
            }
            assert(table@ =~= goal);
        }
        return Some(table);
    }
    let places: Vec<usize> = walk_places(table_log, open);
    let ghost walked = spread::walked(log, open as nat, pow2(log));
    let mut next: usize = 0;
    let ghost mut dealt: nat = 0;
    s = 0;
    proof {
        spread::lemma_walked(log, open as nat, pow2(log));
        spread::lemma_walk_complete(log, open as nat);
        lemma_small_mod(0, open as nat);
    }
    while s < alphabet
        invariant
            s <= alphabet == n <= norm@.len(),
            n <= 256,
            table@.len() == size,
            0 < open <= size,
            common == spread::common_symbols(norm@, n),
            dealt == spread::common_symbols(norm@, s as nat).len(),
            next < open,
            next == dealt % open as nat,
            is_dealt(table@, rare_table, places@, common, open as nat, dealt),
            places@.len() == open,
            walked.no_duplicates(),
            walked.len() == open,
            forall|k: int| 0 <= k < open ==> #[trigger] places@[k] == walked[k],
            forall|k: int| 0 <= k < open ==> 0 <= #[trigger] walked[k] < open,
        decreases alphabet - s,
    {
        let mut c: i16 = 0;
        let count: i16 = if norm[s] > 0 {
            norm[s]
        } else {
            0
        };
        proof {
            spread::lemma_common_prefix(norm@, s as nat + 1, n);
        }
        while c < count
            invariant
                s < alphabet == n <= norm@.len(),
                n <= 256,
                0 <= c <= count,
                count == (if norm@[s as int] > 0 {
                    norm@[s as int]
                } else {
                    0i16
                }),
                table@.len() == size,
                0 < open <= size,
                common == spread::common_symbols(norm@, n),
                spread::common_symbols(norm@, s as nat + 1).len() <= common.len(),
                forall|k: int|
                    0 <= k < spread::common_symbols(norm@, s as nat + 1).len() ==> common[k]
                        == spread::common_symbols(norm@, s as nat + 1)[k],
                dealt == spread::common_symbols(norm@, s as nat).len() + c,
                next < open,
                next == dealt % open as nat,
                is_dealt(table@, rare_table, places@, common, open as nat, dealt),
                places@.len() == open,
                walked.no_duplicates(),
                walked.len() == open,
                forall|k: int| 0 <= k < open ==> #[trigger] places@[k] == walked[k],
                forall|k: int| 0 <= k < open ==> 0 <= #[trigger] walked[k] < open,
            decreases count - c,
        {
            let ghost before = table@;
            assert(walked[next as int] < open);
            table.set(places[next], s as u8);
            proof {
                assert(common[dealt as int] == s as u8);
                lemma_deal_next(before, rare_table, places@, common, open as nat, dealt);
                dealt = dealt + 1;
            }
            next = if next + 1 == open {
                0
            } else {
                next + 1
            };
            c = c + 1;
        }
        s = s + 1;
    }
    if next != 0 {
        return None;
    }
    proof {
        let goal = spread::laid_out(norm@, n, log);
        spread::lemma_pigeonhole(walked, open as nat);
        if 0 < dealt && dealt < open {
            lemma_small_mod(dealt, open as nat);
        }
        assert forall|u: int| 0 <= u < size implies table@[u] == goal[u] by {
            if u < open {
                assert(walked.contains(u));
                let j = walked.index_of(u);
                assert(0 <= j < walked.len() && walked[j] == u);
                assert(places@[j] == u);
                if dealt > 0 {
                    let i = dealt - open + j;
                    lemma_last_round(dealt, open as nat, j);
                    assert(table@[places@[i % open as int] as int] == common[i]);
                }
            } else {
                let k = size - 1 - u;
                assert(rare_table[size - 1 - k] == spread::rare_symbols(norm@, n)[k]);
            }
        }
        assert(table@ =~= goal);
    }
    Some(table)
}

/// The first `dealt` common symbols were dealt out over `places`; what is
/// left are the symbols of the last round.
spec fn is_dealt(
    table: Seq<u8>,
    rare_table: Seq<u8>,
    places: Seq<usize>,
    common: Seq<u8>,
    open: nat,
    dealt: nat,
) -> bool {
    &&& dealt <= common.len()
    &&& table.len() == rare_table.len()
    &&& dealt == 0 ==> table == rare_table
    &&& forall|u: int| open <= u < table.len() ==> #[trigger] table[u] == rare_table[u]
    &&& forall|i: int|
        0 <= i < dealt && dealt - open <= i ==> table[places[i % open as int] as int]
            == #[trigger] common[i]
}

/// One more symbol is dealt.
proof fn lemma_deal_next(
    table: Seq<u8>,
    rare_table: Seq<u8>,
    places: Seq<usize>,
    common: Seq<u8>,
    open: nat,
    dealt: nat,
)
    requires
        0 < open <= table.len(),
        places.len() == open,
        places.no_duplicates(),
        forall|k: int| 0 <= k < open ==> #[trigger] places[k] < open,
        dealt < common.len(),
        is_dealt(table, rare_table, places, common, open, dealt),
    ensures
        is_dealt(
            table.update(places[(dealt % open) as int] as int, common[dealt as int]),
            rare_table,
            places,
            common,
            open,
            dealt + 1,
        ),
        (dealt + 1) % open == (if dealt % open + 1 == open {
            0
        } else {
            dealt % open + 1
        }),
{
    let after = table.update(places[(dealt % open) as int] as int, common[dealt as int]);
    lemma_mod_bound(dealt as int, open as int);
    assert(places[(dealt % open) as int] < open);
    lemma_fundamental_div_mod(dealt as int, open as int);
    let q = dealt as int / open as int;
    let m = dealt as int % open as int;
    if m + 1 == open {
        assert(dealt + 1 == (q + 1) * open + 0) by (nonlinear_arith)
            requires
                dealt == open * q + m,
                m + 1 == open,
        ;
        lemma_fundamental_div_mod_converse(dealt as int + 1, open as int, q + 1, 0);
    } else {
        assert(dealt + 1 == q * open + (m + 1)) by (nonlinear_arith)
            requires
                dealt == open * q + m,
        ;
        lemma_fundamental_div_mod_converse(dealt as int + 1, open as int, q, m + 1);
    }
    assert forall|i: int| 0 <= i < dealt + 1 && dealt + 1 - open <= i implies after[places[i
        % open as int] as int] == #[trigger] common[i] by {
        if i < dealt {
            lemma_mod_bound(i, open as int);
            lemma_near_rounds(i, dealt as int, open as int);
            assert(places[i % open as int] < open);
            assert(table[places[i % open as int] as int] == common[i]);
        }
    }
}

/// Numbers that are less than a round apart stand at different places of it.
proof fn lemma_near_rounds(i: int, j: int, open: int)
    requires
        0 <= i < j < i + open,
    ensures
        i % open != j % open,
{
    lemma_fundamental_div_mod(i, open);
    lemma_fundamental_div_mod(j, open);
    if i % open == j % open {
        let a = i / open;
        let b = j / open;
        assert(j - i == open * (b - a)) by (nonlinear_arith)
            requires
                i == open * a + i % open,
                j == open * b + j % open,
                i % open == j % open,
        ;
        assert(false) by (nonlinear_arith)
            requires
                0 < j - i < open,
                j - i == open * (b - a),
        ;
    }
}

/// The last round after whole rounds.
proof fn lemma_last_round(dealt: nat, open: nat, j: int)
    requires
        0 < open <= dealt,
        dealt % open == 0,
        0 <= j < open,
    ensures
        (dealt - open + j) % open as int == j,
{
    lemma_fundamental_div_mod(dealt as int, open as int);
    let q = dealt as int / open as int;
    assert(dealt - open + j == (q - 1) * open + j) by (nonlinear_arith)
        requires
            dealt == open * q,
    ;
    lemma_fundamental_div_mod_converse(dealt - open + j, open as int, q - 1, j);
}

// ---------------------------------------------------------------------------
// Decode tables.

/// One state of a decode table: the symbol it stands for, and how to reach the
/// next state.
#[derive(Debug, Clone, Copy, PartialEq, Eq, Structural)]
pub struct DecodeEntry {
    pub new_state: u16,
    pub symbol: u8,
    pub nb_bits: u8,
}

/// A decode table: one entry for each of its `2^table_log` states.
pub struct DTable {
    pub table_log: u32,
    pub entries: Vec<DecodeEntry>,
}

impl DTable {
    /// Every state leads to a state of the table.
    pub open spec fn wf(self) -> bool {
        &&& self.table_log <= TABLELOG_MAX
        &&& self.entries@.len() == pow2(self.table_log as nat)
        &&& forall|u: int|
            0 <= u < self.entries@.len() ==> {
                &&& (#[trigger] self.entries@[u]).nb_bits <= self.table_log
                &&& self.entries@[u].new_state + pow2(self.entries@[u].nb_bits as nat)
                    <= self.entries@.len()
            }
    }

    /// Every state's symbol is below `n`.
    pub open spec fn symbols_below(self, n: nat) -> bool {
        forall|u: int| 0 <= u < self.entries@.len() ==> (#[trigger] self.entries@[u]).symbol < n
    }

    /// The table log.
    pub fn table_log(&self) -> (r: u32)
        ensures
            r == self.table_log,
    {
        self.table_log
    }
}

/// The number, in the encoder's count, of the state `u`: it runs from the
/// symbol's slots up to twice that number.
pub open spec fn state_number(norm: Seq<i16>, table: Seq<u8>, u: int) -> nat {
    spread::slots(norm[table[u] as int]) + spread::occurrences(table, table[u], u as nat)
}

/// The entry of the state `u`.
pub open spec fn is_decode_entry(e: DecodeEntry, norm: Seq<i16>, table: Seq<u8>, log: nat, u: int)
    -> bool {
    let x = state_number(norm, table, u);
    &&& e.symbol == table[u]
    &&& e.nb_bits == log - mem::floor_log2(x)
    &&& e.new_state == x * pow2((log - mem::floor_log2(x)) as nat) - pow2(log)
}

/// The table is the decode table of the distribution `norm` over `n` symbols.
#[verifier::opaque]
pub open spec fn decodes(dt: DTable, norm: Seq<i16>, n: nat, log: nat) -> bool {
    &&& spread::counts_fill(norm, n, log)
    &&& spread::walkable(log)
    &&& dt.table_log == log
    &&& dt.entries@.len() == pow2(log)
    &&& forall|u: int|
        0 <= u < pow2(log) ==> is_decode_entry(
            #[trigger] dt.entries@[u],
            norm,
            spread::spread(norm, n, log),
            log,
            u,
        )
}

/// The table is the single-state table of one symbol.
pub open spec fn decodes_only(dt: DTable, symbol: u8) -> bool {
    &&& dt.table_log == 0
    &&& dt.entries@ == seq![DecodeEntry { new_state: 0, symbol, nb_bits: 0 }]
}

/// The bounds of a state number and of what follows from it.
proof fn lemma_state_number(norm: Seq<i16>, n: nat, log: nat, u: int)
    requires
        spread::counts_fill(norm, n, log),
        spread::walkable(log),
        0 <= u < pow2(log),
    ensures
        ({
            let table = spread::spread(norm, n, log);
            let x = state_number(norm, table, u);
            let c = spread::slots(norm[table[u] as int]);
            let nb = (log - mem::floor_log2(x)) as nat;
            &&& c <= x < 2 * c
            &&& 0 < c <= pow2(log)
            &&& mem::floor_log2(x) <= log
            &&& pow2(log) <= x * pow2(nb)
            &&& x * pow2(nb) + pow2(nb) <= 2 * pow2(log)
        }),
{
    let table = spread::spread(norm, n, log);
    let s = table[u];
    let size = pow2(log);
    spread::lemma_spread(norm, n, log);
    assert(spread::occurrences(table, s, size) == spread::slots(norm[s as int]));
    spread::lemma_occurrences_positive(table, u, size);
    spread::lemma_slots_monotone(norm, s as nat + 1, n);
    lemma_number_range(state_number(norm, table, u), log);
}

/// The entry of state `u` in the table of a distribution.
pub open spec fn distribution_entry(norm: Seq<i16>, n: nat, log: nat, u: int) -> DecodeEntry {
    let table = spread::spread(norm, n, log);
    let x = state_number(norm, table, u);
    let nb = (log - mem::floor_log2(x)) as nat;
    DecodeEntry {
        new_state: (x * pow2(nb) - pow2(log)) as u16,
        symbol: table[u],
        nb_bits: nb as u8,
    }
}

/// Every state of a distribution has an entry, whose numbers fit.
pub proof fn lemma_distribution_entry(norm: Seq<i16>, n: nat, log: nat, u: int)
    requires
        spread::counts_fill(norm, n, log),
        spread::walkable(log),
        0 <= u < pow2(log),
    ensures
        is_decode_entry(
            distribution_entry(norm, n, log, u),
            norm,
            spread::spread(norm, n, log),
            log,
            u,
        ),
        distribution_entry(norm, n, log, u).symbol < n,
        ({
            let e = distribution_entry(norm, n, log, u);
            &&& e.nb_bits <= log
            &&& e.new_state + pow2(e.nb_bits as nat) <= pow2(log)
        }),
{
    lemma_state_number(norm, n, log, u);
    spread::lemma_spread(norm, n, log);
    lemma2_to64();
    mem::lemma_pow2_monotone(log, 9);
    let x = state_number(norm, spread::spread(norm, n, log), u);
    lemma_pow2_pos((log - mem::floor_log2(x)) as nat);
}

/// A decode table of a distribution keeps its states and symbols in range.
pub proof fn lemma_decodes_wf(dt: DTable, norm: Seq<i16>, n: nat, log: nat)
    requires
        decodes(dt, norm, n, log),
    ensures
        dt.wf(),
        dt.symbols_below(n),
        dt.table_log == log,
{
    reveal(decodes);
    spread::lemma_spread(norm, n, log);
    assert forall|u: int| 0 <= u < dt.entries@.len() implies {
        &&& (#[trigger] dt.entries@[u]).nb_bits <= dt.table_log
        &&& dt.entries@[u].new_state + pow2(dt.entries@[u].nb_bits as nat) <= dt.entries@.len()
    } by {
        lemma_state_number(norm, n, log, u);
    }
}

/// A single-state table keeps its states and symbols in range.
pub proof fn lemma_decodes_only_wf(dt: DTable, symbol: u8)
    requires
        decodes_only(dt, symbol),
    ensures
        dt.wf(),
        dt.symbols_below(symbol as nat + 1),
{
    lemma2_to64();
}

/// Whether a table header's numbers can stand for a table at all.
pub open spec fn table_shape_error(norm_len: nat, max_symbol_value: u32, table_log: u32) -> Option<
    Error,
> {
    if max_symbol_value > SYMBOLVALUE_MAX || max_symbol_value >= norm_len {
        Some(Error::MaxSymbolValueTooLarge)
    } else if table_log == 0 {
        Some(Error::Corruption("FSE table log must be non-zero"))
    } else if table_log > TABLELOG_MAX {
        Some(Error::TableLogTooLarge)
    } else {
        None
    }
}

fn check_table_shape(norm_len: usize, max_symbol_value: u32, table_log: u32) -> (r: Result<usize>)
    ensures
        match table_shape_error(norm_len as nat, max_symbol_value, table_log) {
            Some(e) => r == Err::<usize, Error>(e),
            None => r == Ok::<usize, Error>((max_symbol_value + 1) as usize),
        },
{
    if max_symbol_value as usize > SYMBOLVALUE_MAX || max_symbol_value as usize >= norm_len {
        return Err(Error::MaxSymbolValueTooLarge);
    }
    if table_log == 0 {
        return Err(Error::Corruption("FSE table log must be non-zero"));
    }
    if table_log as usize > TABLELOG_MAX {
        return Err(Error::TableLogTooLarge);
    }
    Ok(max_symbol_value as usize + 1)
}

/// Every state of what is laid out has a number that a table can express: its
/// symbol counts, and the number is below that of twice the states.
pub open spec fn numbered(norm: Seq<i16>, n: nat, log: nat) -> bool {
    forall|u: int|
        0 <= u < pow2(log) ==> 1 <= #[trigger] state_number(
            norm,
            spread::laid_out(norm, n, log),
            u,
        ) < 2 * pow2(log)
}

/// The table is the decode table of counts that may take more states than
/// there are.
pub open spec fn decodes_laid_out(dt: DTable, norm: Seq<i16>, n: nat, log: nat) -> bool {
    &&& dt.table_log == log
    &&& dt.entries@.len() == pow2(log)
    &&& forall|u: int|
        0 <= u < pow2(log) ==> is_decode_entry(
            #[trigger] dt.entries@[u],
            norm,
            spread::laid_out(norm, n, log),
            log,
            u,
        )
}

/// What a state number within a table's range leads to.
proof fn lemma_number_range(x: nat, log: nat)
    requires
        1 <= x < 2 * pow2(log),
    ensures
        ({
            let nb = (log - mem::floor_log2(x)) as nat;
            &&& mem::floor_log2(x) <= log
            &&& pow2(log) <= x * pow2(nb)
            &&& x * pow2(nb) + pow2(nb) <= 2 * pow2(log)
        }),
{
    mem::lemma_floor_log2(x);
    let f = mem::floor_log2(x);
    lemma_pow2_unfold(log + 1);
    if f > log {
        mem::lemma_pow2_monotone(log + 1, f);
    }
    let nb = (log - f) as nat;
    lemma_pow2_adds(f, nb);
    lemma_pow2_unfold(f + 1);
    let p = pow2(nb) as int;
    assert(pow2(f) * p <= x * p && (x + 1) * p <= 2 * (pow2(f) * p)) by (nonlinear_arith)
        requires
            pow2(f) <= x,
            x + 1 <= 2 * pow2(f),
            p >= 0,
    ;
    assert((x + 1) * p == x * p + p) by (nonlinear_arith);
}

/// Counts that fill a table have numbers for all its states.
pub proof fn lemma_filling_numbered(norm: Seq<i16>, n: nat, log: nat)
    requires
        spread::counts_fill(norm, n, log),
        spread::walkable(log),
    ensures
        spread::deals_out(norm, n, log),
        numbered(norm, n, log),
{
    spread::law_filling_counts_go_round_once(norm, n, log);
    assert forall|u: int| 0 <= u < pow2(log) implies 1 <= #[trigger] state_number(
        norm,
        spread::laid_out(norm, n, log),
        u,
    ) < 2 * pow2(log) by {
        lemma_state_number(norm, n, log, u);
    }
}

/// Builds the decode table of a distribution. Counts that cannot be dealt out
/// in whole rounds are refused. Those that take more states than there are
/// have a table too, as long as the states that are left have numbers.
pub fn build_dtable(norm: &[i16], max_symbol_value: u32, table_log: u32) -> (r: Result<DTable>)
    requires
        table_shape_error(norm@.len(), max_symbol_value, table_log) is None && spread::deals_out(
            norm@,
            (max_symbol_value + 1) as nat,
            table_log as nat,
        ) ==> numbered(norm@, (max_symbol_value + 1) as nat, table_log as nat),
    ensures
        match table_shape_error(norm@.len(), max_symbol_value, table_log) {
            Some(e) => r == Err::<DTable, Error>(e),
            None => {
                let n = (max_symbol_value + 1) as nat;
                &&& spread::deals_out(norm@, n, table_log as nat) <==> r is Ok
                &&& r is Err ==> r == Err::<DTable, Error>(Error::Generic)
                &&& r matches Ok(dt) ==> dt.wf() && dt.symbols_below(n) && decodes_laid_out(
                    dt,
                    norm@,
                    n,
                    table_log as nat,
                )
                &&& r is Ok && spread::walkable(table_log as nat) && spread::counts_fill(
                    norm@,
                    n,
                    table_log as nat,
                ) ==> decodes(
                    r->Ok_0,
                    norm@,
                    n,
                    table_log as nat,
                )
            },
        },
{
    proof {
        reveal(decodes);
    }
    let alphabet: usize = check_table_shape(norm.len(), max_symbol_value, table_log)?;
    let size: usize = table_size(table_log);
    let ghost n = alphabet as nat;
    let ghost log = table_log as nat;
    let ghost table = spread::laid_out(norm@, n, log);
    let symbols: Vec<u8> = match lay_out_symbols(norm, alphabet, table_log) {
        Some(symbols) => symbols,
        None => {
            return Err(Error::Generic);
        },
    };
    let mut next: Vec<u32> = Vec::new();
    let mut s: usize = 0;
    while s < alphabet
        invariant
            s <= alphabet <= norm@.len(),
            next@.len() == s,
            forall|k: int| 0 <= k < s ==> #[trigger] next@[k] == spread::slots(norm@[k]),
        decreases alphabet - s,
    {
        let c: u32 = if norm[s] == -1 {
            1
        } else if norm[s] > 0 {
            norm[s] as u32
        } else {
            0
        };
        next.push(c);
        s = s + 1;
    }
    let mut entries: Vec<DecodeEntry> = Vec::new();
    let mut u: usize = 0;
    proof {
        spread::lemma_laid_out_symbols(norm@, n, log);
    }
    while u < size
        invariant
            u <= size == pow2(log),
            log == table_log <= TABLELOG_MAX,
            size <= 512,
            n == alphabet <= 256,
            0 < n <= norm@.len(),
            numbered(norm@, n, log),
            table == spread::laid_out(norm@, n, log),
            symbols@ == table,
            table.len() == size,
            forall|k: int| 0 <= k < size ==> (#[trigger] table[k]) < n,
            next@.len() == n,
            forall|k: int|
                0 <= k < n ==> #[trigger] next@[k] == spread::slots(norm@[k])
                    + spread::occurrences(table, k as u8, u as nat),
            entries@.len() == u,
            forall|k: int|
                0 <= k < u ==> is_decode_entry(#[trigger] entries@[k], norm@, table, log, k)
                    && entries@[k].nb_bits <= log && entries@[k].new_state + pow2(
                    entries@[k].nb_bits as nat,
                ) <= size,
        decreases size - u,
    {
        let symbol: u8 = symbols[u];
        assert(table[u as int] < n);
        let x: u32 = next[symbol as usize];
        proof {
            assert(x == state_number(norm@, table, u as int));
            lemma_number_range(x as nat, log);
        }
        next.set(symbol as usize, x + 1);
        let nb_bits: u32 = table_log - mem::highbit32(x);
        proof {
            lemma2_to64();
            mem::lemma_pow2_monotone(nb_bits as nat, 9);
        }
        let scale: u32 = mem::power_of_two(nb_bits) as u32;
        proof {
            assert(x * scale <= 1024 * 1024) by (nonlinear_arith)
                requires
                    x <= 1024,
                    scale <= 512,
            ;
        }
        let new_state: u32 = x * scale - size as u32;
        entries.push(
            DecodeEntry { new_state: new_state as u16, symbol, nb_bits: nb_bits as u8 },
        );
        u = u + 1;
    }
    proof {
        if spread::walkable(log) && spread::counts_fill(norm@, n, log) {
            spread::law_filling_counts_go_round_once(norm@, n, log);
        }
    }
    Ok(DTable { table_log, entries })
}

/// Builds the single-state table of one symbol.
pub fn build_rle_dtable(symbol: u8) -> (r: DTable)
    ensures
        decodes_only(r, symbol),
        r.wf(),
{
    let mut entries: Vec<DecodeEntry> = Vec::new();
    entries.push(DecodeEntry { new_state: 0, symbol, nb_bits: 0 });
    let dt = DTable { table_log: 0, entries };
    proof {
        assert(dt.entries@ =~= seq![DecodeEntry { new_state: 0, symbol, nb_bits: 0 }]);
        lemma_decodes_only_wf(dt, symbol);
    }
    dt
}

// ---------------------------------------------------------------------------
// Encode tables.

/// How a symbol moves the encoder: the state number's offset in the state
/// table, and the bits to write, from which the current state tells one more
/// or one fewer.
#[derive(Debug, Clone, Copy, PartialEq, Eq, Structural)]
pub struct SymbolCompressionTransform {
    pub delta_find_state: i32,
    pub delta_nb_bits: u32,
}

/// An encode table.
pub struct CTable {
    pub table_log: u32,
    pub max_symbol_value: u32,
    pub state_table: Vec<u16>,
    pub symbol_tt: Vec<SymbolCompressionTransform>,
}

impl CTable {
    /// The states that an encoder can be in. A table of one symbol has the
    /// single state 0; the others count up from the table's size.
    pub open spec fn is_state(self, x: nat) -> bool {
        if self.table_log == 0 {
            x == 0
        } else {
            pow2(self.table_log as nat) <= x < 2 * pow2(self.table_log as nat)
        }
    }

    /// How many bits the symbol `s` writes in the state `x`.
    #[verifier::opaque]
    pub open spec fn bits_out(self, x: nat, s: u8) -> nat {
        (x + self.symbol_tt@[s as int].delta_nb_bits as nat) / 65536
    }

    /// Where the next state stands.
    #[verifier::opaque]
    pub open spec fn next_index(self, x: nat, s: u8) -> int {
        x / pow2(self.bits_out(x, s)) + self.symbol_tt@[s as int].delta_find_state
    }

    /// The next state.
    pub open spec fn next_state(self, x: nat, s: u8) -> nat {
        self.state_table@[self.next_index(x, s)] as nat
    }

    /// Where the state stands that an encoder starts in for the symbol `s`.
    #[verifier::opaque]
    pub open spec fn start_index(self, s: u8) -> int {
        let delta = self.symbol_tt@[s as int].delta_nb_bits as nat;
        let nb = (delta + 32768) / 65536;
        ((65536 * nb - delta) as nat) / pow2(nb) + self.symbol_tt@[s as int].delta_find_state
    }

    /// The state that an encoder starts in for the symbol `s`.
    pub open spec fn start_state(self, s: u8) -> nat {
        self.state_table@[self.start_index(s)] as nat
    }

    /// The table's numbers are small.
    pub open spec fn sound(self) -> bool {
        &&& self.table_log <= TABLELOG_MAX
        &&& self.max_symbol_value <= SYMBOLVALUE_MAX
        &&& self.symbol_tt@.len() == 256
        &&& 0 < self.state_table@.len() <= TABLESIZE_MAX
        &&& forall|i: int|
            0 <= i < self.state_table@.len() ==> #[trigger] self.state_table@[i] < 1024
        &&& forall|s: int|
            0 <= s < 256 ==> {
                &&& (#[trigger] self.symbol_tt@[s]).delta_nb_bits <= 65536 * (self.table_log + 1)
                &&& self.symbol_tt@[s].delta_nb_bits % 65536 == 0
                    || self.symbol_tt@[s].delta_nb_bits % 65536 >= 64512
                &&& -512 <= self.symbol_tt@[s].delta_find_state <= u16::MAX
            }
    }

    /// The table's numbers are small, its states are states, and every symbol
    /// leads from every state to a state.
    pub open spec fn wf(self) -> bool {
        &&& self.sound()
        &&& pow2(self.table_log as nat) <= self.state_table@.len()
        &&& forall|i: int|
            0 <= i < pow2(self.table_log as nat) ==> self.is_state(
                (#[trigger] self.state_table@[i]) as nat,
            )
        &&& forall|s: int|
            0 <= s < 256 ==> -512 <= (#[trigger] self.symbol_tt@[s]).delta_find_state <= 512
        &&& forall|x: nat, s: u8|
            self.is_state(x) ==> 0 <= #[trigger] self.next_index(x, s) < pow2(
                self.table_log as nat,
            )
        &&& forall|s: u8| 0 <= #[trigger] self.start_index(s) < pow2(self.table_log as nat)
    }
}

/// The transform of the symbol `s`.
pub open spec fn transform(norm: Seq<i16>, n: nat, log: nat, s: int) -> SymbolCompressionTransform {
    let c = if s < n {
        spread::slots(norm[s])
    } else {
        0
    };
    let before = spread::slots_before(norm, s as nat);
    if c == 0 {
        SymbolCompressionTransform {
            delta_find_state: 0,
            delta_nb_bits: (65536 * (log + 1) - pow2(log)) as u32,
        }
    } else if c == 1 {
        SymbolCompressionTransform {
            delta_find_state: (before - 1) as i32,
            delta_nb_bits: (65536 * log - pow2(log)) as u32,
        }
    } else {
        let most = (log - mem::floor_log2((c - 1) as nat)) as nat;
        SymbolCompressionTransform {
            delta_find_state: (before - c) as i32,
            delta_nb_bits: (65536 * most - c * pow2(most)) as u32,
        }
    }
}

/// The place of the state `u` in the state table: each symbol's states stand
/// together, in order.
pub open spec fn state_place(norm: Seq<i16>, table: Seq<u8>, u: int) -> nat {
    spread::slots_before(norm, table[u] as nat) + spread::occurrences(table, table[u], u as nat)
}

/// The table is the encode table of the distribution `norm` over `n` symbols.
#[verifier::opaque]
pub open spec fn encodes_with(ct: CTable, norm: Seq<i16>, n: nat, log: nat) -> bool {
    &&& spread::counts_fill(norm, n, log)
    &&& spread::walkable(log)
    &&& ct.table_log == log
    &&& ct.max_symbol_value == n - 1
    &&& ct.state_table@.len() == TABLESIZE_MAX
    &&& ct.symbol_tt@.len() == 256
    &&& forall|i: int| pow2(log) <= i < TABLESIZE_MAX ==> #[trigger] ct.state_table@[i] == 0
    &&& forall|u: int|
        0 <= u < pow2(log) ==> ct.state_table@[#[trigger] state_place(
            norm,
            spread::spread(norm, n, log),
            u,
        ) as int] == pow2(log) + u
    &&& forall|s: int| 0 <= s < 256 ==> #[trigger] ct.symbol_tt@[s] == transform(norm, n, log, s)
}

/// The table is the single-state table of one symbol.
pub open spec fn encodes_only(ct: CTable, symbol: u8) -> bool {
    &&& ct.table_log == 0
    &&& ct.max_symbol_value == symbol
    &&& ct.state_table@ == seq![0u16]
    &&& ct.symbol_tt@ == Seq::new(
        256,
        |s: int| SymbolCompressionTransform { delta_find_state: 0, delta_nb_bits: 0 },
    )
}

/// Distinct states have distinct places, all inside the table.
proof fn lemma_state_place(norm: Seq<i16>, n: nat, log: nat, u: int)
    requires
        spread::counts_fill(norm, n, log),
        spread::walkable(log),
        0 <= u < pow2(log),
    ensures
        state_place(norm, spread::spread(norm, n, log), u) < pow2(log),
        forall|v: int|
            0 <= v < u ==> #[trigger] state_place(norm, spread::spread(norm, n, log), v)
                != state_place(norm, spread::spread(norm, n, log), u),
{
    let table = spread::spread(norm, n, log);
    let size = pow2(log);
    spread::lemma_spread(norm, n, log);
    spread::lemma_occurrences_positive(table, u, size);
    spread::lemma_slots_monotone(norm, table[u] as nat + 1, n);
    assert(spread::occurrences(table, table[u], size) == spread::slots(norm[table[u] as int]));
    assert forall|v: int| 0 <= v < u implies #[trigger] state_place(norm, table, v) != state_place(
        norm,
        table,
        u,
    ) by {
        spread::lemma_occurrences_positive(table, v, size);
        assert(spread::occurrences(table, table[v], size) == spread::slots(norm[table[v] as int]));
        if table[v] == table[u] {
            spread::lemma_occurrences_positive(table, v, u as nat);
        } else if table[v] < table[u] {
            spread::lemma_slots_monotone(norm, table[v] as nat + 1, table[u] as nat);
        } else {
            spread::lemma_slots_monotone(norm, table[u] as nat + 1, table[v] as nat);
        }
    }
}

/// The bits that a symbol writes bring the state down into the symbol's
/// range, and the state to start in is the first of that range.
#[verifier::rlimit(30)]
proof fn lemma_transform(norm: Seq<i16>, n: nat, log: nat, s: int, x: nat)
    requires
        spread::counts_fill(norm, n, log),
        spread::walkable(log),
        0 <= s < 256,
        pow2(log) <= x < 2 * pow2(log),
    ensures
        ({
            let t = transform(norm, n, log, s);
            let c = if s < n {
                spread::slots(norm[s])
            } else {
                0
            };
            let delta = t.delta_nb_bits as nat;
            let nb = (x + delta) / 65536;
            let first = (delta + 32768) / 65536;
            &&& delta <= 65536 * (log + 1)
            &&& delta % 65536 == 0 || delta % 65536 >= 64512
            &&& -512 <= t.delta_find_state <= 512
            &&& c > 0 ==> {
                &&& nb <= log
                &&& c <= x / pow2(nb) < 2 * c
                &&& t.delta_find_state == spread::slots_before(norm, s as nat) - c
                &&& ((65536 * first - delta) as nat) / pow2(first) == c
            }
            &&& c == 0 ==> {
                &&& nb == log + 1
                &&& x / pow2(nb) == 0
                &&& t.delta_find_state == 0
                &&& ((65536 * first - delta) as nat) / pow2(first) == 0
            }
        }),
{
    let size = pow2(log);
    let c = if s < n {
        spread::slots(norm[s])
    } else {
        0
    };
    assert(4 <= size <= 512 && log <= 9) by {
        spread::lemma_step_odd(log);
    }
    if s < n {
        spread::lemma_slots_monotone(norm, s as nat + 1, n);
    }
    if c <= 1 {
        lemma_shift_small(log, x);
        lemma_shift_small(log, size);
    } else {
        lemma_shift_range(c, log, x);
    }
}

proof fn lemma_shift_small(log: nat, x: nat)
    requires
        pow2(log) <= x < 2 * pow2(log),
    ensures
        x / pow2(log + 1) == 0,
        x / pow2(log) == 1,
{
    lemma_pow2_unfold(log + 1);
    lemma_basic_div(x as int, pow2(log + 1) as int);
    lemma_fundamental_div_mod_converse(x as int, pow2(log) as int, 1, x - pow2(log));
}

/// How far a state has to be shifted to come into the range of a symbol with
/// `c` states.
proof fn lemma_shift_range(c: nat, log: nat, x: nat)
    requires
        1 < c <= pow2(log),
        pow2(log) <= x < 2 * pow2(log),
    ensures
        ({
            let most = (log - mem::floor_log2((c - 1) as nat)) as nat;
            let edge = c * pow2(most);
            &&& 1 <= most <= log
            &&& pow2(log) < edge <= 2 * pow2(log)
            &&& edge / pow2(most) == c
            &&& x >= edge ==> c <= x / pow2(most) < 2 * c
            &&& x < edge ==> c <= x / pow2((most - 1) as nat) < 2 * c
        }),
{
    let h = mem::floor_log2((c - 1) as nat);
    mem::lemma_floor_log2((c - 1) as nat);
    if h >= log {
        mem::lemma_pow2_monotone(log, h);
    }
    let most = (log - h) as nat;
    lemma_pow2_adds(h, most);
    lemma_pow2_unfold(h + 1);
    let p = pow2(most) as int;
    let g = pow2(h) as int;
    lemma_pow2_pos(most);
    lemma_pow2_pos(h);
    assert(g * p < c * p && c * p <= 2 * (g * p)) by (nonlinear_arith)
        requires
            g < c,
            c <= 2 * g,
            p > 0,
    ;
    assert(c * p == p * c + 0) by (nonlinear_arith);
    lemma_fundamental_div_mod_converse(c * p, p, c as int, 0);
    let q = x as int / p;
    lemma_fundamental_div_mod(x as int, p);
    if x >= c * p {
        assert(c <= q < 2 * g) by (nonlinear_arith)
            requires
                x == p * q + x as int % p,
                0 <= x as int % p < p,
                x >= c * p,
                x < 2 * (g * p),
                p > 0,
        ;
    }
    let m = (most - 1) as nat;
    lemma_pow2_unfold(most);
    let r = pow2(m) as int;
    lemma_pow2_pos(m);
    let q = x as int / r;
    lemma_fundamental_div_mod(x as int, r);
    if x < c * p {
        assert(2 * g <= q < 2 * c) by (nonlinear_arith)
            requires
                x == r * q + x as int % r,
                0 <= x as int % r < r,
                x < c * p,
                x >= g * p,
                p == 2 * r,
                r > 0,
        ;
    }
}

/// A built encode table is well formed.
pub proof fn lemma_encodes_with(ct: CTable, norm: Seq<i16>, n: nat, log: nat)
    requires
        encodes_with(ct, norm, n, log),
    ensures
        ct.wf(),
        ct.table_log == log,
        ct.max_symbol_value == n - 1,
        spread::walkable(log),
{
    reveal(CTable::bits_out);
    reveal(CTable::next_index);
    reveal(CTable::start_index);
    reveal(encodes_with);
    let table = spread::spread(norm, n, log);
    let size = pow2(log);
    spread::lemma_step_odd(log);
    spread::lemma_spread(norm, n, log);
    assert forall|i: int| 0 <= i < size implies ct.is_state(
        (#[trigger] ct.state_table@[i]) as nat,
    ) by {
        let u = lemma_place_taken(norm, n, log, i as nat);
        assert(state_place(norm, table, u) == i);
    }
    assert forall|i: int| 0 <= i < TABLESIZE_MAX implies #[trigger] ct.state_table@[i] < 1024 by {
        if i < size {
            assert(ct.is_state(ct.state_table@[i] as nat));
        }
    }
    assert forall|s: int| 0 <= s < 256 implies {
        &&& (#[trigger] ct.symbol_tt@[s]).delta_nb_bits <= 65536 * (ct.table_log + 1)
        &&& ct.symbol_tt@[s].delta_nb_bits % 65536 == 0 || ct.symbol_tt@[s].delta_nb_bits % 65536
            >= 64512
        &&& -512 <= ct.symbol_tt@[s].delta_find_state <= 512
    } by {
        lemma_transform(norm, n, log, s, size);
    }
    assert forall|x: nat, s: u8| ct.is_state(x) implies 0 <= #[trigger] ct.next_index(x, s)
        < pow2(ct.table_log as nat) by {
        lemma_transform(norm, n, log, s as int, x);
        assert(ct.symbol_tt@[s as int] == transform(norm, n, log, s as int));
        if s < n {
            spread::lemma_slots_monotone(norm, s as nat + 1, n);
        }
    }
    assert forall|s: u8| 0 <= #[trigger] ct.start_index(s) < pow2(ct.table_log as nat) by {
        lemma_transform(norm, n, log, s as int, size);
        assert(ct.symbol_tt@[s as int] == transform(norm, n, log, s as int));
        if s < n {
            spread::lemma_slots_monotone(norm, s as nat + 1, n);
        }
    }
}

/// The tables hold the same numbers.
pub open spec fn same_table(a: CTable, b: CTable) -> bool {
    &&& a.table_log == b.table_log
    &&& a.max_symbol_value == b.max_symbol_value
    &&& a.state_table@ == b.state_table@
    &&& a.symbol_tt@ == b.symbol_tt@
}

/// An encode table of a distribution.
pub open spec fn table_of(norm: Seq<i16>, n: nat, log: nat) -> CTable {
    choose|ct: CTable| encodes_with(ct, norm, n, log)
}

/// A distribution has one encode table.
pub proof fn lemma_encode_table_unique(a: CTable, b: CTable, norm: Seq<i16>, n: nat, log: nat)
    requires
        encodes_with(a, norm, n, log),
        encodes_with(b, norm, n, log),
    ensures
        same_table(a, b),
{
    reveal(encodes_with);
    let table = spread::spread(norm, n, log);
    assert forall|i: int| 0 <= i < pow2(log) implies a.state_table@[i] == b.state_table@[i] by {
        let u = lemma_place_taken(norm, n, log, i as nat);
        assert(state_place(norm, table, u) == i);
    }
    assert(a.state_table@ =~= b.state_table@) by {
        assert forall|i: int| 0 <= i < TABLESIZE_MAX implies a.state_table@[i]
            == b.state_table@[i] by {
            if i >= pow2(log) {
                assert(a.state_table@[i] == 0 && b.state_table@[i] == 0);
            }
        }
    }
    assert forall|s: int| 0 <= s < 256 implies a.symbol_tt@[s] == b.symbol_tt@[s] by {
        assert(a.symbol_tt@[s] == transform(norm, n, log, s));
        assert(b.symbol_tt@[s] == transform(norm, n, log, s));
    }
    assert(a.symbol_tt@ =~= b.symbol_tt@);
}

/// The entries of a distribution's decode table.
pub open spec fn entries_for(norm: Seq<i16>, n: nat, log: nat) -> Seq<DecodeEntry> {
    Seq::new(pow2(log), |u: int| distribution_entry(norm, n, log, u))
}

/// A distribution has one decode table.
pub proof fn lemma_decodes_entries(dt: DTable, norm: Seq<i16>, n: nat, log: nat)
    requires
        decodes(dt, norm, n, log),
    ensures
        dt.entries@ == entries_for(norm, n, log),
        dt.table_log == log,
{
    reveal(decodes);
    assert forall|u: int| 0 <= u < pow2(log) implies dt.entries@[u] == distribution_entry(
        norm,
        n,
        log,
        u,
    ) by {
        lemma_distribution_entry(norm, n, log, u);
    }
    assert(dt.entries@ =~= entries_for(norm, n, log));
}

/// Every place of the state table belongs to a state.
proof fn lemma_place_taken(norm: Seq<i16>, n: nat, log: nat, i: nat) -> (u: int)
    requires
        spread::counts_fill(norm, n, log),
        spread::walkable(log),
        i < pow2(log),
    ensures
        0 <= u < pow2(log),
        state_place(norm, spread::spread(norm, n, log), u) == i,
{
    let s = lemma_slot_owner(norm, n, i);
    let table = spread::spread(norm, n, log);
    spread::lemma_spread(norm, n, log);
    assert(spread::occurrences(table, s as u8, pow2(log)) == spread::slots(norm[s as int]));
    spread::lemma_nth_occurrence(
        table,
        s as u8,
        pow2(log),
        (i - spread::slots_before(norm, s)) as nat,
    )
}

proof fn lemma_slot_owner(norm: Seq<i16>, n: nat, i: nat) -> (s: nat)
    requires
        i < spread::slots_before(norm, n),
    ensures
        s < n,
        spread::slots_before(norm, s) <= i < spread::slots_before(norm, s + 1),
    decreases n,
{
    let m = (n - 1) as nat;
    if i < spread::slots_before(norm, m) {
        lemma_slot_owner(norm, m, i)
    } else {
        m
    }
}

/// A single-state encode table is well formed and writes no bits.
pub proof fn lemma_encodes_only(ct: CTable, symbol: u8)
    requires
        encodes_only(ct, symbol),
    ensures
        ct.wf(),
        forall|s: u8| #[trigger] ct.bits_out(0, s) == 0,
        forall|s: u8| #[trigger] ct.next_state(0, s) == 0,
        forall|s: u8| #[trigger] ct.start_state(s) == 0,
{
    reveal(CTable::bits_out);
    reveal(CTable::next_index);
    reveal(CTable::start_index);
    lemma2_to64();
    assert forall|x: nat, s: u8| ct.is_state(x) implies 0 <= #[trigger] ct.next_index(x, s)
        < pow2(ct.table_log as nat) by {
        assert(ct.bits_out(x, s) == 0);
    }
}

/// The entries are those of the distribution's decode table.
pub open spec fn entries_of(entries: Seq<DecodeEntry>, norm: Seq<i16>, n: nat, log: nat) -> bool {
    &&& entries.len() == pow2(log)
    &&& forall|u: int|
        0 <= u < pow2(log) ==> is_decode_entry(
            #[trigger] entries[u],
            norm,
            spread::spread(norm, n, log),
            log,
            u,
        )
}

/// The entries of a distribution are those of its decode table.
pub proof fn lemma_entries_for(norm: Seq<i16>, n: nat, log: nat)
    requires
        spread::counts_fill(norm, n, log),
        spread::walkable(log),
    ensures
        entries_of(entries_for(norm, n, log), norm, n, log),
{
    let entries = entries_for(norm, n, log);
    assert forall|u: int| 0 <= u < pow2(log) implies is_decode_entry(
        #[trigger] entries[u],
        norm,
        spread::spread(norm, n, log),
        log,
        u,
    ) by {
        lemma_distribution_entry(norm, n, log, u);
    }
}

/// The entries of a decode table are those of its distribution.
pub proof fn lemma_decodes_entries_of(dt: DTable, norm: Seq<i16>, n: nat, log: nat)
    requires
        decodes(dt, norm, n, log),
    ensures
        entries_of(dt.entries@, norm, n, log),
{
    reveal(decodes);
}

/// Over entries: in the state that the encoder moves to
/// for a symbol, the decoder finds the symbol, reads as many bits as were
/// written, and comes back to the encoder's state.
pub proof fn lemma_decode_step_undoes_encode_step(
    ct: CTable,
    entries: Seq<DecodeEntry>,
    norm: Seq<i16>,
    n: nat,
    log: nat,
    x: nat,
    s: u8,
)
    requires
        encodes_with(ct, norm, n, log),
        entries_of(entries, norm, n, log),
        ct.is_state(x),
        s < n,
        spread::slots(norm[s as int]) > 0,
    ensures
        ({
            let y = ct.next_state(x, s);
            let e = entries[y - pow2(log)];
            &&& ct.is_state(y)
            &&& e.symbol == s
            &&& e.nb_bits == ct.bits_out(x, s)
            &&& e.new_state + x % pow2(ct.bits_out(x, s)) == x - pow2(log)
        }),
{
    reveal(CTable::bits_out);
    reveal(CTable::next_index);
    reveal(CTable::start_index);
    reveal(encodes_with);
    let size = pow2(log);
    let table = spread::spread(norm, n, log);
    let c = spread::slots(norm[s as int]);
    assert(ct.symbol_tt@[s as int] == transform(norm, n, log, s as int));
    lemma_transform(norm, n, log, s as int, x);
    let nb = ct.bits_out(x, s);
    let q = x / pow2(nb);
    spread::lemma_spread(norm, n, log);
    assert(spread::occurrences(table, s, size) == c);
    let k = (q - c) as nat;
    let u = spread::lemma_nth_occurrence(table, s, size, k);
    assert(state_place(norm, table, u) == ct.next_index(x, s));
    assert(ct.next_state(x, s) == size + u);
    let e = entries[u];
    assert(is_decode_entry(e, norm, table, log, u));
    assert(state_number(norm, table, u) == q);
    // The decoder's bit count is the encoder's.
    let r = (log - nb) as nat;
    lemma_pow2_adds(r, nb);
    lemma_pow2_unfold(log + 1);
    lemma_pow2_unfold(r + 1);
    lemma_pow2_pos(nb);
    let p = pow2(nb) as int;
    lemma_fundamental_div_mod(x as int, p);
    assert(pow2(r) <= q < 2 * pow2(r)) by (nonlinear_arith)
        requires
            x == p * q + x as int % p,
            0 <= x as int % p < p,
            pow2(r) * p <= x,
            x < 2 * (pow2(r) * p),
            p > 0,
    ;
    mem::lemma_floor_log2_unique(q, r);
    assert(q * p == p * q) by (nonlinear_arith);
}

/// Over entries: the state that an encoder starts in for a symbol is the symbol's first
/// state, where a decoder finds the symbol.
pub proof fn lemma_start_state_holds_symbol(
    ct: CTable,
    entries: Seq<DecodeEntry>,
    norm: Seq<i16>,
    n: nat,
    log: nat,
    s: u8,
)
    requires
        encodes_with(ct, norm, n, log),
        entries_of(entries, norm, n, log),
        s < n,
        spread::slots(norm[s as int]) > 0,
    ensures
        ({
            let y = ct.start_state(s);
            let e = entries[y - pow2(log)];
            &&& ct.is_state(y)
            &&& e.symbol == s
            &&& e.nb_bits == log - mem::floor_log2(spread::slots(norm[s as int]))
        }),
{
    reveal(CTable::bits_out);
    reveal(CTable::next_index);
    reveal(CTable::start_index);
    reveal(encodes_with);
    let size = pow2(log);
    let table = spread::spread(norm, n, log);
    let c = spread::slots(norm[s as int]);
    lemma_pow2_pos(log);
    assert(ct.symbol_tt@[s as int] == transform(norm, n, log, s as int));
    lemma_transform(norm, n, log, s as int, size);
    spread::lemma_spread(norm, n, log);
    assert(spread::occurrences(table, s, size) == c);
    let u = spread::lemma_nth_occurrence(table, s, size, 0);
    assert(state_place(norm, table, u) == ct.start_index(s));
    assert(is_decode_entry(entries[u], norm, table, log, u));
}

/// A decode step undoes an encode step: in the state that the encoder moves to
/// for a symbol, the decoder finds the symbol, reads as many bits as were
/// written, and comes back to the encoder's state.
pub proof fn law_decode_step_undoes_encode_step(
    ct: CTable,
    dt: DTable,
    norm: Seq<i16>,
    n: nat,
    log: nat,
    x: nat,
    s: u8,
)
    requires
        encodes_with(ct, norm, n, log),
        decodes(dt, norm, n, log),
        ct.is_state(x),
        s < n,
        spread::slots(norm[s as int]) > 0,
    ensures
        ({
            let y = ct.next_state(x, s);
            let e = dt.entries@[y - pow2(log)];
            &&& ct.is_state(y)
            &&& e.symbol == s
            &&& e.nb_bits == ct.bits_out(x, s)
            &&& e.new_state + x % pow2(ct.bits_out(x, s)) == x - pow2(log)
        }),
{
    reveal(decodes);
    lemma_decode_step_undoes_encode_step(ct, dt.entries@, norm, n, log, x, s);
}

/// The state that an encoder starts in for a symbol is the symbol's first
/// state, where a decoder finds the symbol.
pub proof fn law_start_state_holds_symbol(
    ct: CTable,
    dt: DTable,
    norm: Seq<i16>,
    n: nat,
    log: nat,
    s: u8,
)
    requires
        encodes_with(ct, norm, n, log),
        decodes(dt, norm, n, log),
        s < n,
        spread::slots(norm[s as int]) > 0,
    ensures
        ({
            let y = ct.start_state(s);
            let e = dt.entries@[y - pow2(log)];
            &&& ct.is_state(y)
            &&& e.symbol == s
            &&& e.nb_bits == log - mem::floor_log2(spread::slots(norm[s as int]))
        }),
{
    reveal(decodes);
    lemma_start_state_holds_symbol(ct, dt.entries@, norm, n, log, s);
}

/// The state table after the first `k` states were put in their places; where
/// two states have the same place, it keeps the later one.
pub open spec fn placed_states(norm: Seq<i16>, table: Seq<u8>, size: nat, k: nat) -> Seq<u16>
    decreases k,
{
    if k == 0 {
        Seq::new(TABLESIZE_MAX as nat, |i: int| 0u16)
    } else {
        placed_states(norm, table, size, (k - 1) as nat).update(
            state_place(norm, table, k - 1) as int,
            (size + k - 1) as u16,
        )
    }
}

/// The table is the encode table of counts that may take more states than
/// there are.
pub open spec fn encodes_laid_out(ct: CTable, norm: Seq<i16>, n: nat, log: nat) -> bool {
    let table = spread::laid_out(norm, n, log);
    &&& ct.table_log == log
    &&& ct.max_symbol_value == n - 1
    &&& ct.state_table@ == placed_states(norm, table, pow2(log), pow2(log))
    &&& ct.symbol_tt@ == Seq::new(256, |s: int| transform(norm, n, log, s))
}

/// No symbol has more states than the table, every state that is laid out has
/// its place in the state table, and the counts add up to a 16-bit number.
pub open spec fn placeable(norm: Seq<i16>, n: nat, log: nat) -> bool {
    &&& spread::slots_before(norm, n) <= u16::MAX
    &&& forall|s: int| 0 <= s < n ==> #[trigger] norm[s] <= pow2(log)
    &&& forall|u: int|
        0 <= u < pow2(log) ==> #[trigger] state_place(
            norm,
            spread::laid_out(norm, n, log),
            u,
        ) < TABLESIZE_MAX
}

/// Counts that fill a table have places for all its states.
pub proof fn lemma_filling_placeable(norm: Seq<i16>, n: nat, log: nat)
    requires
        spread::counts_fill(norm, n, log),
        spread::walkable(log),
    ensures
        spread::deals_out(norm, n, log),
        placeable(norm, n, log),
{
    spread::law_filling_counts_go_round_once(norm, n, log);
    spread::lemma_step_odd(log);
    assert forall|s: int| 0 <= s < n implies #[trigger] norm[s] <= pow2(log) by {
        spread::lemma_slots_monotone(norm, s as nat + 1, n);
    }
    assert forall|u: int| 0 <= u < pow2(log) implies #[trigger] state_place(
        norm,
        spread::laid_out(norm, n, log),
        u,
    ) < TABLESIZE_MAX by {
        lemma_state_place(norm, n, log, u);
    }
}

/// Where the counts fill the table, every state keeps its place.
proof fn lemma_placed_once(norm: Seq<i16>, n: nat, log: nat, k: nat)
    requires
        spread::counts_fill(norm, n, log),
        spread::walkable(log),
        k <= pow2(log),
    ensures
        ({
            let table = spread::spread(norm, n, log);
            let states = placed_states(norm, table, pow2(log), k);
            &&& states.len() == TABLESIZE_MAX
            &&& forall|v: int|
                0 <= v < k ==> states[#[trigger] state_place(norm, table, v) as int] == pow2(log)
                    + v
            &&& forall|i: int| pow2(log) <= i < TABLESIZE_MAX ==> #[trigger] states[i] == 0
        }),
    decreases k,
{
    let table = spread::spread(norm, n, log);
    spread::lemma_step_odd(log);
    if k > 0 {
        let m = (k - 1) as nat;
        lemma_placed_once(norm, n, log, m);
        lemma_state_place(norm, n, log, m as int);
        let before = placed_states(norm, table, pow2(log), m);
        let states = placed_states(norm, table, pow2(log), k);
        assert forall|v: int| 0 <= v < k implies states[#[trigger] state_place(
            norm,
            table,
            v,
        ) as int] == pow2(log) + v by {
            lemma_state_place(norm, n, log, v);
            if v < m {
                assert(before[state_place(norm, table, v) as int] == pow2(log) + v);
            }
        }
        assert forall|i: int| pow2(log) <= i < TABLESIZE_MAX implies #[trigger] states[i] == 0 by {
            assert(before[i] == 0);
        }
    }
}

/// Builds the encode table of a distribution. Counts below -1, and counts that
/// cannot be dealt out in whole rounds, are refused. Those that take more
/// states than there are have a table too, as long as its numbers fit; but
/// only counts that fill the table give one to encode with.
pub fn build_ctable(norm: &[i16], max_symbol_value: u32, table_log: u32) -> (r: Result<CTable>)
    requires
        table_shape_error(norm@.len(), max_symbol_value, table_log) is None && spread::deals_out(
            norm@,
            (max_symbol_value + 1) as nat,
            table_log as nat,
        ) ==> (exists|i: int| 0 <= i <= max_symbol_value && #[trigger] norm@[i] < -1) || placeable(
            norm@,
            (max_symbol_value + 1) as nat,
            table_log as nat,
        ),
    ensures
        match table_shape_error(norm@.len(), max_symbol_value, table_log) {
            Some(e) => r == Err::<CTable, Error>(e),
            None => {
                let n = (max_symbol_value + 1) as nat;
                if exists|i: int| 0 <= i < n && #[trigger] norm@[i] < -1 {
                    r == Err::<CTable, Error>(Error::Corruption("invalid normalized FSE count"))
                } else {
                    &&& spread::deals_out(norm@, n, table_log as nat) <==> r is Ok
                    &&& r is Err ==> r == Err::<CTable, Error>(Error::Generic)
                    &&& r matches Ok(ct) ==> ct.sound() && encodes_laid_out(
                        ct,
                        norm@,
                        n,
                        table_log as nat,
                    )
                    &&& r is Ok && spread::walkable(table_log as nat) && spread::counts_fill(
                        norm@,
                        n,
                        table_log as nat,
                    ) ==> encodes_with(
                        r->Ok_0,
                        norm@,
                        n,
                        table_log as nat,
                    )
                }
            },
        },
{
    proof {
        reveal(encodes_with);
    }
    let alphabet: usize = check_table_shape(norm.len(), max_symbol_value, table_log)?;
    let mut s: usize = 0;
    while s < alphabet
        invariant
            s <= alphabet <= norm@.len(),
            table_shape_error(norm@.len(), max_symbol_value, table_log) is None,
            alphabet == max_symbol_value + 1,
            forall|k: int| 0 <= k < s ==> #[trigger] norm@[k] >= -1,
        decreases alphabet - s,
    {
        if norm[s] < -1 {
            return Err(Error::Corruption("invalid normalized FSE count"));
        }
        s = s + 1;
    }
    let size: usize = table_size(table_log);
    let ghost n = alphabet as nat;
    let ghost log = table_log as nat;
    let ghost table = spread::laid_out(norm@, n, log);
    let symbols: Vec<u8> = match lay_out_symbols(norm, alphabet, table_log) {
        Some(symbols) => symbols,
        None => {
            return Err(Error::Generic);
        },
    };
    let mut place: Vec<usize> = Vec::new();
    let mut symbol_tt: Vec<SymbolCompressionTransform> = Vec::new();
    let mut total: usize = 0;
    proof {
        spread::lemma_laid_out_symbols(norm@, n, log);
        mem::lemma_pow2_monotone(1, log);
        lemma2_to64();
        assert(placeable(norm@, n, log));
    }
    s = 0;
    while s < 256
        invariant
            s <= 256,
            n == alphabet <= norm@.len(),
            n <= 256,
            log == table_log <= TABLELOG_MAX,
            size == pow2(log),
            2 <= size <= 512,
            forall|k: int| 0 <= k < n ==> -1 <= #[trigger] norm@[k] <= size,
            total <= 512 * s,
            s <= n ==> total == spread::slots_before(norm@, s as nat),
            symbol_tt@.len() == s,
            forall|k: int| 0 <= k < s ==> #[trigger] symbol_tt@[k] == transform(norm@, n, log, k),
            forall|k: int|
                0 <= k < s ==> {
                    &&& (#[trigger] symbol_tt@[k]).delta_nb_bits <= 65536 * (table_log + 1)
                    &&& symbol_tt@[k].delta_nb_bits % 65536 == 0 || symbol_tt@[k].delta_nb_bits
                        % 65536 >= 64512
                    &&& -512 <= symbol_tt@[k].delta_find_state <= u16::MAX
                },
            spread::slots_before(norm@, n) <= u16::MAX,
            place@.len() == (if s <= n {
                s as nat
            } else {
                n
            }),
            forall|k: int|
                0 <= k < place@.len() ==> #[trigger] place@[k] == spread::slots_before(
                    norm@,
                    k as nat,
                ),
        decreases 256 - s,
    {
        proof {
            lemma2_to64();
        }
        let count: i16 = if s < alphabet {
            norm[s]
        } else {
            0
        };
        if s < alphabet {
            proof {
                spread::lemma_slots_monotone(norm@, s as nat, n);
            }
            place.push(total);
        }
        if count == 0 {
            symbol_tt.push(
                SymbolCompressionTransform {
                    delta_find_state: 0,
                    delta_nb_bits: 65536 * (table_log + 1) - size as u32,
                },
            );
        } else if count == -1 || count == 1 {
            symbol_tt.push(
                SymbolCompressionTransform {
                    delta_find_state: total as i32 - 1,
                    delta_nb_bits: 65536 * table_log - size as u32,
                },
            );
            total = total + 1;
        } else {
            let c: u32 = count as u32;
            let high: u32 = mem::highbit32(c - 1);
            proof {
                mem::lemma_floor_log2((c - 1) as nat);
                if high >= log {
                    mem::lemma_pow2_monotone(log, high as nat);
                }
                let most = (log - high) as nat;
                lemma_pow2_adds(high as nat, most);
                lemma_pow2_unfold(high as nat + 1);
                mem::lemma_pow2_monotone(most, 9);
                assert(c * pow2(most) <= 2 * (pow2(high as nat) * pow2(most)) && c * pow2(most)
                    >= 0) by (nonlinear_arith)
                    requires
                        c <= 2 * pow2(high as nat),
                ;
            }
            let most: u32 = table_log - high;
            let scale: u32 = mem::power_of_two(most) as u32;
            symbol_tt.push(
                SymbolCompressionTransform {
                    delta_find_state: total as i32 - c as i32,
                    delta_nb_bits: 65536 * most - c * scale,
                },
            );
            total = total + c as usize;
        }
        s = s + 1;
    }
    let mut state_table: Vec<u16> = vec![0u16; TABLESIZE_MAX];
    let mut u: usize = 0;
    proof {
        assert(state_table@ =~= placed_states(norm@, table, pow2(log), 0));
        assert(symbol_tt@ =~= Seq::new(256, |s: int| transform(norm@, n, log, s)));
    }
    while u < size
        invariant
            u <= size == pow2(log),
            n == alphabet <= 256,
            2 <= size <= 512,
            placeable(norm@, n, log),
            table == spread::laid_out(norm@, n, log),
            symbols@ == table,
            table.len() == size,
            forall|k: int| 0 <= k < size ==> (#[trigger] table[k]) < n,
            place@.len() == n,
            forall|k: int|
                0 <= k < n ==> #[trigger] place@[k] == spread::slots_before(norm@, k as nat)
                    + spread::occurrences(table, k as u8, u as nat),
            state_table@.len() == TABLESIZE_MAX,
            state_table@ == placed_states(norm@, table, pow2(log), u as nat),
            forall|k: int| 0 <= k < TABLESIZE_MAX ==> #[trigger] state_table@[k] < 1024,
        decreases size - u,
    {
        let symbol: u8 = symbols[u];
        assert(table[u as int] < n);
        let at: usize = place[symbol as usize];
        assert(at == state_place(norm@, table, u as int));
        state_table.set(at, (size + u) as u16);
        place.set(symbol as usize, at + 1);
        u = u + 1;
    }
    proof {
        if spread::walkable(log) && spread::counts_fill(norm@, n, log) {
            spread::law_filling_counts_go_round_once(norm@, n, log);
            lemma_placed_once(norm@, n, log, pow2(log));
        }
    }
    Ok(CTable { table_log, max_symbol_value, state_table, symbol_tt })
}

impl CTable {
    /// A table that holds the same numbers.
    pub fn duplicate(&self) -> (r: CTable)
        ensures
            r.table_log == self.table_log,
            r.max_symbol_value == self.max_symbol_value,
            r.state_table@ == self.state_table@,
            r.symbol_tt@ == self.symbol_tt@,
    {
        let mut state_table: Vec<u16> = Vec::new();
        state_table.extend_from_slice(self.state_table.as_slice());
        let mut symbol_tt: Vec<SymbolCompressionTransform> = Vec::new();
        let mut i: usize = 0;
        while i < self.symbol_tt.len()
            invariant
                i <= self.symbol_tt@.len(),
                symbol_tt@ == self.symbol_tt@.take(i as int),
            decreases self.symbol_tt@.len() - i,
        {
            symbol_tt.push(self.symbol_tt[i]);
            i = i + 1;
            proof {
                assert(symbol_tt@ =~= self.symbol_tt@.take(i as int));
            }
        }
        proof {
            assert(symbol_tt@ =~= self.symbol_tt@);
            assert(state_table@ =~= self.state_table@);
        }
        CTable {
            table_log: self.table_log,
            max_symbol_value: self.max_symbol_value,
            state_table,
            symbol_tt,
        }
    }
}

/// Builds the single-state table of one symbol.
pub fn build_rle_ctable(symbol: u8) -> (r: CTable)
    ensures
        encodes_only(r, symbol),
        r.wf(),
{
    let mut state_table: Vec<u16> = Vec::new();
    state_table.push(0);
    let mut symbol_tt: Vec<SymbolCompressionTransform> = Vec::new();
    while symbol_tt.len() < 256
        invariant
            symbol_tt@.len() <= 256,
            forall|k: int|
                0 <= k < symbol_tt@.len() ==> #[trigger] symbol_tt@[k] == (
                SymbolCompressionTransform { delta_find_state: 0, delta_nb_bits: 0 }),
        decreases 256 - symbol_tt@.len(),
    {
        symbol_tt.push(SymbolCompressionTransform { delta_find_state: 0, delta_nb_bits: 0 });
    }
    let ct = CTable { table_log: 0, max_symbol_value: symbol as u32, state_table, symbol_tt };
    proof {
        assert(ct.state_table@ =~= seq![0u16]);
        assert(ct.symbol_tt@ =~= Seq::new(
            256,
            |s: int| SymbolCompressionTransform { delta_find_state: 0, delta_nb_bits: 0 },
        ));
        lemma_encodes_only(ct, symbol);
    }
    ct
}

proof fn lemma_walk_next(log: nat, i: nat)
    ensures
        spread::walk(log, i + 1) == (spread::walk(log, i) + spread::walk_step(pow2(log)))
            % pow2(log) as int,
        0 <= spread::walk(log, i + 1) < pow2(log),
{
    let s = spread::walk_step(pow2(log)) as int;
    lemma_pow2_pos(log);
    assert((i + 1) * s == s + i * s) by (nonlinear_arith);
    lemma_add_mod_noop_right(s, i * s, pow2(log) as int);
    lemma_mod_bound(((i + 1) * s) as int, pow2(log) as int);
}

} // verus!
