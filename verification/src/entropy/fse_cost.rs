//! What symbols cost in a table.

use crate::entropy::fse;
use crate::entropy::fse::{CTable, DTable};
use crate::entropy::mem;
use crate::entropy::spread;
use crate::error::{Error, Result};
use vstd::arithmetic::div_mod::*;
use vstd::arithmetic::mul::*;
use vstd::arithmetic::power2::*;
use vstd::prelude::*;

verus! {

/// The sum of the symbols of the first `n` entries.
pub open spec fn symbol_sum(dt: DTable, n: nat) -> nat
    decreases n,
{
    if n == 0 {
        0
    } else {
        symbol_sum(dt, (n - 1) as nat) + dt.entries@[n - 1].symbol as nat
    }
}

impl DTable {
    /// The average symbol over the table's states, rounded down.
    pub fn avg_symbol(&self) -> (r: u32)
        requires
            self.wf(),
        ensures
            r == symbol_sum(*self, self.entries@.len()) / self.entries@.len(),
    {
        proof {
            lemma2_to64();
            mem::lemma_pow2_monotone(self.table_log as nat, 9);
            lemma_pow2_pos(self.table_log as nat);
        }
        let mut total: u32 = 0;
        let mut i: usize = 0;
        while i < self.entries.len()
            invariant
                i <= self.entries@.len() <= 512,
                total == symbol_sum(*self, i as nat),
                total <= 255 * i,
            decreases self.entries@.len() - i,
        {
            total = total + self.entries[i].symbol as u32;
            i = i + 1;
        }
        total / self.entries.len() as u32
    }
}

impl CTable {
    /// The most bits that a symbol can take.
    pub open spec fn most_bits(self, symbol: int) -> nat {
        (self.symbol_tt@[symbol].delta_nb_bits as nat + 65535) / 65536
    }

    /// The most bits that a symbol can take.
    pub fn max_nb_bits(&self, symbol: usize) -> (r: u32)
        requires
            self.sound(),
            symbol < 256,
        ensures
            r == self.most_bits(symbol as int),
    {
        (self.symbol_tt[symbol].delta_nb_bits + 65535) / 65536
    }

    /// Every symbol's cost lies between two whole numbers of bits, as in the
    /// table of a distribution.
    pub open spec fn graded(self) -> bool {
        forall|s: int|
            0 <= s < 256 ==> {
                let gap = 65536 - (#[trigger] self.symbol_tt@[s]).delta_nb_bits % 65536;
                pow2(self.table_log as nat) <= gap <= 2 * pow2(self.table_log as nat)
            }
    }
}

/// The table log.
pub fn ctable_log(ct: &CTable) -> (r: u32)
    ensures
        r == ct.table_log,
{
    ct.table_log
}

/// The largest symbol of the table.
pub fn ctable_max_symbol_value(ct: &CTable) -> (r: u32)
    ensures
        r == ct.max_symbol_value,
{
    ct.max_symbol_value
}

/// What a symbol costs on average, in units of `1/2^accuracy` bits: the more
/// bits of the two that it can take, less the share of the states that are
/// content with fewer. The share is reckoned in 32 bits, which is exact up to
/// an accuracy of 22.
pub open spec fn delta_cost(delta: int, log: nat, accuracy: nat) -> int {
    let size = pow2(log) as int;
    let unit = pow2(accuracy) as int;
    let over = (delta / 65536 + 1) * 65536 - delta - size;
    (delta / 65536 + 1) * unit - (over * unit % 0x1_0000_0000) / size
}

/// What a symbol costs on average in a table.
pub open spec fn bit_cost(ct: CTable, symbol: int, accuracy: nat) -> int {
    delta_cost(ct.symbol_tt@[symbol].delta_nb_bits as int, ct.table_log as nat, accuracy)
}

/// The costs of a graded table are small numbers.
pub proof fn lemma_bit_cost(ct: CTable, symbol: int, accuracy: nat)
    requires
        ct.sound(),
        ct.graded(),
        0 <= symbol < 256,
    ensures
        0 <= bit_cost(ct, symbol, accuracy) <= 11 * pow2(accuracy),
        ({
            let delta = ct.symbol_tt@[symbol].delta_nb_bits as int;
            let size = pow2(ct.table_log as nat) as int;
            let over = (delta / 65536 + 1) * 65536 - delta - size;
            &&& 0 <= over <= size <= 512
            &&& 0 <= (over * pow2(accuracy) % 0x1_0000_0000) / size <= pow2(accuracy)
            &&& 0 <= over * pow2(accuracy) <= 512 * pow2(accuracy)
            &&& accuracy <= 22 ==> over * pow2(accuracy) % 0x1_0000_0000 == over * pow2(accuracy)
            &&& delta / 65536 <= 10
        }),
{
    let delta = ct.symbol_tt@[symbol].delta_nb_bits as int;
    let size = pow2(ct.table_log as nat) as int;
    let unit = pow2(accuracy) as int;
    lemma_pow2_pos(ct.table_log as nat);
    lemma_pow2_pos(accuracy);
    lemma2_to64();
    mem::lemma_pow2_monotone(ct.table_log as nat, 9);
    let over = (delta / 65536 + 1) * 65536 - delta - size;
    assert(over == 65536 - delta % 65536 - size);
    assert(ct.symbol_tt@[symbol].delta_nb_bits <= 65536 * (ct.table_log + 1));
    assert(0 <= over * unit <= size * unit && over * unit <= 512 * unit) by (nonlinear_arith)
        requires
            0 <= over <= size <= 512,
            unit > 0,
    ;
    let kept = over * unit % 0x1_0000_0000;
    assert(0 <= kept <= over * unit);
    lemma_div_is_ordered(kept, size * unit, size);
    lemma_div_multiples_vanish(unit, size);
    assert(size * unit == unit * size) by (nonlinear_arith);
    lemma_div_pos_is_pos(kept, size);
    if accuracy <= 22 {
        mem::lemma_pow2_monotone(accuracy, 22);
    }
    let k = delta / 65536;
    assert(unit <= (k + 1) * unit <= 11 * unit) by (nonlinear_arith)
        requires
            0 <= k <= 10,
            unit > 0,
    ;
}

/// The table of a distribution is graded.
pub proof fn lemma_distribution_graded(ct: CTable, norm: Seq<i16>, n: nat, log: nat)
    requires
        fse::encodes_with(ct, norm, n, log),
    ensures
        ct.graded(),
{
    reveal(fse::encodes_with);
    lemma2_to64();
    mem::lemma_pow2_monotone(log, 9);
    mem::lemma_pow2_monotone(2, log);
    let size = pow2(log);
    assert forall|s: int| 0 <= s < 256 implies {
        let gap = 65536 - (#[trigger] ct.symbol_tt@[s]).delta_nb_bits % 65536;
        pow2(ct.table_log as nat) <= gap <= 2 * pow2(ct.table_log as nat)
    } by {
        let t = fse::transform(norm, n, log, s);
        assert(ct.symbol_tt@[s] == t);
        let c = if s < n {
            spread::slots(norm[s])
        } else {
            0
        };
        if c >= 2 {
            spread::lemma_slots_monotone(norm, s as nat + 1, n);
            let f = mem::floor_log2((c - 1) as nat);
            mem::lemma_floor_log2((c - 1) as nat);
            if f >= log {
                mem::lemma_pow2_monotone(log, f);
            }
            let most = (log - f) as nat;
            lemma_pow2_adds(f, most);
            lemma_pow2_unfold(f + 1);
            let p = pow2(most) as int;
            lemma_pow2_pos(most);
            assert(size <= c * p <= 2 * size) by (nonlinear_arith)
                requires
                    size == pow2(f) * p,
                    pow2(f) <= c,
                    c <= 2 * pow2(f),
                    p > 0,
            ;
            assert(t.delta_nb_bits == 65536 * most - c * p);
        }
    }
}

/// What a symbol costs on average, in units of `1/2^accuracy_log` bits. A
/// symbol that the table does not hold is refused.
pub fn ctable_bit_cost(ct: &CTable, symbol: u8, accuracy_log: u32) -> (r: Result<u32>)
    requires
        ct.sound(),
        ct.graded(),
        accuracy_log < 32,
        symbol <= ct.max_symbol_value ==> (ct.symbol_tt@[symbol as int].delta_nb_bits as int / 65536
            + 1) * pow2(accuracy_log as nat) <= u32::MAX,
    ensures
        symbol > ct.max_symbol_value ==> r == Err::<u32, Error>(
            Error::Corruption("FSE symbol exceeds compression table"),
        ),
        symbol <= ct.max_symbol_value ==> r is Ok && r->Ok_0 == bit_cost(
            *ct,
            symbol as int,
            accuracy_log as nat,
        ) && r->Ok_0 <= 11 * pow2(accuracy_log as nat),
{
    if symbol as u32 > ct.max_symbol_value {
        return Err(Error::Corruption("FSE symbol exceeds compression table"));
    }
    proof {
        lemma_bit_cost(*ct, symbol as int, accuracy_log as nat);
        lemma2_to64();
        lemma2_to64_rest();
        mem::lemma_pow2_monotone(accuracy_log as nat, 31);
    }
    let delta: u64 = ct.symbol_tt[symbol as usize].delta_nb_bits as u64;
    let unit: u64 = mem::power_of_two(accuracy_log);
    let size: u64 = mem::power_of_two(ct.table_log);
    let whole: u64 = delta / 65536 + 1;
    let over: u64 = whole * 65536 - delta - size;
    proof {
        assert(whole * unit >= unit) by (nonlinear_arith)
            requires
                1 <= whole,
                0 <= unit,
        ;
    }
    Ok((whole * unit - (over * unit) % 0x1_0000_0000 / size) as u32)
}

} // verus!
