//! Decoding and encoding tables of a prefix code.

use crate::entropy::huff_code;
use crate::entropy::huff_code::TABLELOG_MAX;
use crate::entropy::mem;
use vstd::arithmetic::div_mod::*;
use vstd::arithmetic::power2::*;
use vstd::prelude::*;

verus! {

/// A prefix code: the weights of its symbols, and the length of its longest
/// code.
pub struct Code {
    pub weights: Seq<u8>,
    pub log: nat,
}

impl Code {
    /// The weights give away every place.
    pub open spec fn wf(self) -> bool {
        huff_code::complete(self.weights, self.log)
    }

    /// The symbol has a code.
    pub open spec fn holds(self, s: u8) -> bool {
        s < self.weights.len() && self.weights[s as int] > 0
    }

    /// How many bits the symbol's code has; zero where it has none.
    pub open spec fn length(self, s: u8) -> nat {
        if self.holds(s) {
            huff_code::code_length(self.weights, self.log, s as int)
        } else {
            0
        }
    }

    /// The bits of the symbol's code.
    pub open spec fn value(self, s: u8) -> nat {
        if self.holds(s) {
            huff_code::code_value(self.weights, s as int)
        } else {
            0
        }
    }

    /// The symbol whose code a place starts with.
    pub open spec fn symbol_at(self, place: nat) -> u8 {
        huff_code::owner(self.weights, place) as u8
    }

    /// Every byte has a code.
    pub open spec fn holds_all(self) -> bool {
        self.weights.len() == 256 && forall|i: int| 0 <= i < 256 ==> #[trigger] self.weights[i] > 0
    }
}

/// A place's symbol has a code, and the place starts with it.
pub proof fn lemma_symbol_at(code: Code, place: nat)
    requires
        code.wf(),
        place < pow2(code.log),
    ensures
        ({
            let s = code.symbol_at(place);
            let free = (code.log - code.length(s)) as nat;
            &&& s as int == huff_code::owner(code.weights, place)
            &&& code.holds(s)
            &&& 1 <= code.length(s) <= code.log
            &&& place / pow2(free) == code.value(s)
            &&& code.value(s) < pow2(code.length(s))
        }),
{
    huff_code::lemma_place_code(code.weights, code.log, place);
    huff_code::lemma_symbol_places(
        code.weights,
        code.log,
        huff_code::owner(code.weights, place),
    );
}

/// A place that starts with a symbol's code is that symbol's.
pub proof fn lemma_value_at(code: Code, s: u8, low: nat)
    requires
        code.wf(),
        code.holds(s),
        low < pow2((code.log - code.length(s)) as nat),
    ensures
        ({
            let place = code.value(s) * pow2((code.log - code.length(s)) as nat) + low;
            &&& place < pow2(code.log)
            &&& code.symbol_at(place) == s
        }),
        1 <= code.length(s) <= code.log,
        code.value(s) < pow2(code.length(s)),
{
    huff_code::lemma_symbol_places(code.weights, code.log, s as int);
    huff_code::lemma_code_places(code.weights, code.log, s as int, low);
}

/// One entry of a decoding table: a symbol and the length of its code.
#[derive(Debug, Clone, Copy, PartialEq, Eq, Structural)]
pub struct DEltX1 {
    pub byte: u8,
    pub nb_bits: u8,
}

/// A decoding table with one symbol for each place of the code.
pub struct DTableX1 {
    pub table_log: u8,
    pub entries: Vec<DEltX1>,
    pub weights: Ghost<Seq<u8>>,
}

impl View for DTableX1 {
    type V = Code;

    open spec fn view(&self) -> Code {
        Code { weights: self.weights@, log: self.table_log as nat }
    }
}

/// The entry names the symbol of its place and the length of its code.
pub open spec fn is_entry(e: DEltX1, weights: Seq<u8>, log: nat, place: nat) -> bool {
    let s = huff_code::owner(weights, place);
    e.byte == s && e.nb_bits == huff_code::code_length(weights, log, s)
}

impl DTableX1 {
    /// The entries are those of the code.
    pub open spec fn wf(self) -> bool {
        &&& self@.wf()
        &&& self.entries@.len() == pow2(self@.log)
        &&& forall|u: int|
            0 <= u < self.entries@.len() ==> is_entry(
                #[trigger] self.entries@[u],
                self.weights@,
                self@.log,
                u as nat,
            )
    }
}

/// The decoding table of a code.
pub fn build_dtable_x1(weights: &[u8], log: u32) -> (r: DTableX1)
    requires
        huff_code::complete(weights@, log as nat),
    ensures
        r.wf(),
        r@ == (Code { weights: weights@, log: log as nat }),
{
    let mut entries: Vec<DEltX1> = Vec::new();
    let mut w: u32 = 1;
    while w <= log
        invariant
            1 <= w <= log + 1,
            huff_code::complete(weights@, log as nat),
            entries@.len() == huff_code::places_up_to(weights@, (w - 1) as nat),
            forall|u: int|
                0 <= u < entries@.len() ==> is_entry(
                    #[trigger] entries@[u],
                    weights@,
                    log as nat,
                    u as nat,
                ),
        decreases log + 1 - w,
    {
        let mut s: usize = 0;
        let ghost below = huff_code::places_up_to(weights@, (w - 1) as nat);
        proof {
            assert(0 * huff_code::width(w as nat) == 0);
        }
        while s < weights.len()
            invariant
                1 <= w <= log,
                s <= weights@.len(),
                huff_code::complete(weights@, log as nat),
                below == huff_code::places_up_to(weights@, (w - 1) as nat),
                entries@.len() == below + huff_code::of_weight(weights@, w as nat, s as nat)
                    * huff_code::width(w as nat),
                forall|u: int|
                    0 <= u < entries@.len() ==> is_entry(
                        #[trigger] entries@[u],
                        weights@,
                        log as nat,
                        u as nat,
                    ),
            decreases weights@.len() - s,
        {
            if weights[s] as u32 == w {
                let ghost first = entries@.len();
                let count: u64 = mem::power_of_two(w - 1);
                let entry = DEltX1 { byte: s as u8, nb_bits: (log + 1 - w) as u8 };
                let mut i: u64 = 0;
                while i < count
                    invariant
                        i <= count,
                        s < weights@.len(),
                        1 <= w <= log,
                        weights@[s as int] == w,
                        huff_code::complete(weights@, log as nat),
                        count == huff_code::width(w as nat),
                        first == huff_code::first_place(weights@, s as int),
                        entries@.len() == first + i,
                        entry.byte == s,
                        entry.nb_bits == log + 1 - w,
                        forall|u: int|
                            0 <= u < entries@.len() ==> is_entry(
                                #[trigger] entries@[u],
                                weights@,
                                log as nat,
                                u as nat,
                            ),
                    decreases count - i,
                {
                    proof {
                        assert(huff_code::owns(weights@, s as int, (first + i) as nat));
                        huff_code::lemma_owner_is(
                            weights@,
                            log as nat,
                            s as int,
                            (first + i) as nat,
                        );
                    }
                    entries.push(entry);
                    i = i + 1;
                }
                proof {
                    let o = huff_code::of_weight(weights@, w as nat, s as nat) as int;
                    let p = huff_code::width(w as nat) as int;
                    assert((o + 1) * p == o * p + p) by (nonlinear_arith);
                }
            }
            s = s + 1;
        }
        w = w + 1;
    }
    proof {
        huff_code::lemma_places_total(weights@, log as nat);
    }
    DTableX1 { table_log: log as u8, entries, weights: Ghost(weights@) }
}

/// One entry of an encoding table: a code and its length.
#[derive(Debug, Clone, Copy, PartialEq, Eq, Structural)]
pub struct CElt {
    pub val: u16,
    pub nb_bits: u8,
}

/// An encoding table with one entry for each byte.
pub struct CTableX1 {
    pub table_log: u8,
    pub entries: Vec<CElt>,
    pub weights: Ghost<Seq<u8>>,
}

impl View for CTableX1 {
    type V = Code;

    open spec fn view(&self) -> Code {
        Code { weights: self.weights@, log: self.table_log as nat }
    }
}

impl CTableX1 {
    /// The entries are those of the code.
    pub open spec fn wf(self) -> bool {
        &&& self@.wf()
        &&& self.entries@.len() == 256
        &&& forall|s: u8|
            (#[trigger] self.entries@[s as int]).val == self@.value(s)
                && self.entries@[s as int].nb_bits == self@.length(s)
    }

    /// How many bits the symbol's code has; zero where it has none.
    pub fn symbol_nb_bits(&self, symbol: u8) -> (r: u8)
        requires
            self.wf(),
        ensures
            r == self@.length(symbol),
    {
        self.entries[symbol as usize].nb_bits
    }

    /// The length of the longest code.
    pub fn table_log(&self) -> (r: u32)
        requires
            self.wf(),
        ensures
            r == self@.log,
            1 <= r <= TABLELOG_MAX,
    {
        self.table_log as u32
    }

    /// A second table with the same entries.
    pub fn duplicate(&self) -> (r: CTableX1)
        requires
            self.wf(),
        ensures
            r.wf(),
            r@ == self@,
    {
        let mut entries: Vec<CElt> = Vec::new();
        let mut i: usize = 0;
        while i < 256
            invariant
                i <= 256,
                self.entries@.len() == 256,
                entries@ == self.entries@.take(i as int),
            decreases 256 - i,
        {
            let entry: CElt = self.entries[i];
            entries.push(entry);
            proof {
                assert(entries@ == self.entries@.take(i + 1));
            }
            i = i + 1;
        }
        proof {
            assert(entries@ == self.entries@);
        }
        CTableX1 { table_log: self.table_log, entries, weights: self.weights }
    }
}

/// The entries of the symbols whose weight is below `w`, and of those of
/// weight `w` before symbol `k`.
spec fn filled(entries: Seq<CElt>, code: Code, w: nat, k: nat) -> bool {
    &&& entries.len() == 256
    &&& forall|s: int|
        0 <= s < 256 ==> {
            let done = s < code.weights.len() && 0 < code.weights[s] && (code.weights[s] < w || (
            code.weights[s] == w && s < k));
            (#[trigger] entries[s]).val == (if done {
                code.value(s as u8)
            } else {
                0
            }) && entries[s].nb_bits == (if done {
                code.length(s as u8)
            } else {
                0
            })
        }
}

/// The encoding table of a code.
pub fn build_ctable_from_weights(weights: &[u8], log: u32) -> (r: CTableX1)
    requires
        huff_code::complete(weights@, log as nat),
    ensures
        r.wf(),
        r@ == (Code { weights: weights@, log: log as nat }),
{
    let ghost code = Code { weights: weights@, log: log as nat };
    let mut entries: Vec<CElt> = Vec::new();
    let mut i: usize = 0;
    while i < 256
        invariant
            i <= 256,
            entries@.len() == i,
            forall|k: int|
                0 <= k < i ==> (#[trigger] entries@[k]) == (CElt { val: 0, nb_bits: 0 }),
        decreases 256 - i,
    {
        entries.push(CElt { val: 0, nb_bits: 0 });
        i = i + 1;
    }
    let mut place: u64 = 0;
    let mut w: u32 = 1;
    while w <= log
        invariant
            1 <= w <= log + 1,
            huff_code::complete(weights@, log as nat),
            code == (Code { weights: weights@, log: log as nat }),
            place == huff_code::places_up_to(weights@, (w - 1) as nat),
            filled(entries@, code, w as nat, 0),
        decreases log + 1 - w,
    {
        let mut s: usize = 0;
        let ghost below = place as nat;
        proof {
            assert(0 * huff_code::width(w as nat) == 0);
        }
        while s < weights.len()
            invariant
                1 <= w <= log <= TABLELOG_MAX,
                s <= weights@.len(),
                huff_code::complete(weights@, log as nat),
                code == (Code { weights: weights@, log: log as nat }),
                below == huff_code::places_up_to(weights@, (w - 1) as nat),
                place == below + huff_code::of_weight(weights@, w as nat, s as nat)
                    * huff_code::width(w as nat),
                filled(entries@, code, w as nat, s as nat),
            decreases weights@.len() - s,
        {
            if weights[s] as u32 == w {
                proof {
                    huff_code::lemma_symbol_places(weights@, log as nat, s as int);
                    lemma2_to64();
                    mem::lemma_pow2_monotone(log as nat, 12);
                    mem::lemma_pow2_monotone(
                        huff_code::code_length(weights@, log as nat, s as int),
                        12,
                    );
                    let o = huff_code::of_weight(weights@, w as nat, s as nat) as int;
                    let p = huff_code::width(w as nat) as int;
                    assert((o + 1) * p == o * p + p) by (nonlinear_arith);
                }
                let ghost before = entries@;
                let val: u64 = mem::high_bits(place, w - 1);
                let entry = CElt { val: val as u16, nb_bits: (log + 1 - w) as u8 };
                entries.set(s, entry);
                place = place + mem::power_of_two(w - 1);
                proof {
                    assert forall|t: int| 0 <= t < 256 && t != s implies entries@[t]
                        == #[trigger] before[t] by {}
                    assert(code.holds(s as u8));
                }
            }
            s = s + 1;
        }
        w = w + 1;
    }
    let r = CTableX1 { table_log: log as u8, entries, weights: Ghost(weights@) };
    proof {
        assert forall|s: u8|
            (#[trigger] r.entries@[s as int]).val == r@.value(s) && r.entries@[s as int].nb_bits
                == r@.length(s) by {
            assert(filled(entries@, code, (log + 1) as nat, 0));
            if s < weights@.len() {
                assert(weights@[s as int] <= log);
            }
        }
    }
    r
}

} // verus!
