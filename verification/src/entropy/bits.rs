//! The mathematical model of a bit stream.
//!
//! A stream is a stack of bits. Writing `n` bits pushes them on top, reading
//! `n` bits takes them off the top, so that a reader hands back what a writer
//! wrote last. The stack is held as the natural number that its bits spell,
//! the first bit written being the least significant one.

use crate::entropy::mem;
use vstd::arithmetic::div_mod::*;
use vstd::arithmetic::mul::*;
use vstd::arithmetic::power2::*;
use vstd::prelude::*;

verus! {

/// A stack of `len` bits that spell the number `value`.
pub struct Bits {
    pub value: nat,
    pub len: nat,
}

impl Bits {
    /// Every bit of `value` lies below position `len`.
    pub open spec fn wf(self) -> bool {
        self.value < pow2(self.len)
    }

    /// The stack without bits.
    pub open spec fn empty() -> Bits {
        Bits { value: 0, len: 0 }
    }

    /// The stack after the `n` lowest bits of `v` were written.
    pub open spec fn push(self, v: nat, n: nat) -> Bits {
        Bits { value: raised(self.value, self.len, v, n), len: self.len + n }
    }

    /// The number that the `n` topmost bits spell; where fewer are left, the
    /// missing ones count as zeros below the others.
    pub open spec fn top(self, n: nat) -> nat {
        if n <= self.len {
            above(self.value, (self.len - n) as nat)
        } else {
            padded(self.value, (n - self.len) as nat)
        }
    }

    /// The stack without its `n` topmost bits.
    pub open spec fn pop(self, n: nat) -> Bits {
        if n <= self.len {
            Bits {
                value: below(self.value, (self.len - n) as nat),
                len: (self.len - n) as nat,
            }
        } else {
            Bits::empty()
        }
    }
}

/// `value` with the `n` lowest bits of `v` put at position `len`.
#[verifier::opaque]
pub open spec fn raised(value: nat, len: nat, v: nat, n: nat) -> nat {
    value + (v % pow2(n)) * pow2(len)
}

/// The bits of `value` from position `k` on.
#[verifier::opaque]
pub open spec fn above(value: nat, k: nat) -> nat {
    value / pow2(k)
}

/// The bits of `value` below position `k`.
#[verifier::opaque]
pub open spec fn below(value: nat, k: nat) -> nat {
    value % pow2(k)
}

/// `value` with `k` zero bits put under it.
#[verifier::opaque]
pub open spec fn padded(value: nat, k: nat) -> nat {
    value * pow2(k)
}

/// Reading `n` bits right after writing `n` bits gives them back and leaves
/// the stack as it was before.
pub proof fn lemma_push_pop(b: Bits, v: nat, n: nat)
    requires
        b.wf(),
    ensures
        b.push(v, n).wf(),
        b.push(v, n).top(n) == v % pow2(n),
        b.push(v, n).pop(n) == b,
{
    reveal(raised);
    reveal(above);
    reveal(below);
    reveal(padded);
    let l = pow2(b.len) as int;
    let w = (v % pow2(n)) as int;
    lemma_pow2_pos(b.len);
    lemma_pow2_pos(n);
    lemma_pow2_adds(b.len, n);
    lemma_mod_bound(v as int, pow2(n) as int);
    let total = b.value + w * l;
    assert(total < pow2(n) * l) by (nonlinear_arith)
        requires
            total == b.value + w * l,
            b.value < l,
            w <= pow2(n) - 1,
            l > 0,
    ;
    assert(pow2(n) * l == l * pow2(n)) by (nonlinear_arith);
    assert(total == l * w + b.value) by (nonlinear_arith)
        requires
            total == b.value + w * l,
    ;
    lemma_fundamental_div_mod_converse(total, l, w, b.value as int);
}

/// What is read never exceeds its width, and what is left is well formed.
pub proof fn lemma_top_bound(b: Bits, n: nat)
    requires
        b.wf(),
    ensures
        b.top(n) < pow2(n),
        b.pop(n).wf(),
{
    reveal(raised);
    reveal(above);
    reveal(below);
    reveal(padded);
    lemma_pow2_pos(n);
    lemma2_to64();
    if n <= b.len {
        let r = (b.len - n) as nat;
        lemma_pow2_pos(r);
        lemma_pow2_adds(r, n);
        assert(b.value < pow2(r) * pow2(n));
        lemma_multiply_divide_lt(b.value as int, pow2(r) as int, pow2(n) as int);
        lemma_mod_bound(b.value as int, pow2(r) as int);
    } else {
        let r = (n - b.len) as nat;
        lemma_pow2_pos(r);
        lemma_pow2_adds(b.len, r);
        assert(b.value * pow2(r) < pow2(b.len) * pow2(r)) by (nonlinear_arith)
            requires
                b.value < pow2(b.len),
                pow2(r) > 0,
        ;
    }
}

/// The `n` bits above position `r` of a number, cut out in either order.
pub proof fn lemma_cut_bits(x: nat, r: nat, n: nat)
    ensures
        (x % pow2(r + n)) / pow2(r) == (x / pow2(r)) % pow2(n),
        (x % pow2(r + n)) % pow2(r) == x % pow2(r),
{
    lemma_pow2_pos(r);
    lemma_pow2_pos(n);
    lemma_pow2_adds(r, n);
    let p = pow2(r) as int;
    lemma_mod_breakdown(x as int, p, pow2(n) as int);
    lemma_mod_bound(x as int, p);
    lemma_fundamental_div_mod_converse(
        (x % pow2(r + n)) as int,
        p,
        ((x as int) / p) % (pow2(n) as int),
        (x as int) % p,
    );
}

/// Dropping `a` bits and then `b` bits drops `a + b` bits.
pub proof fn lemma_drop_bits(x: nat, a: nat, b: nat)
    ensures
        (x / pow2(a)) / pow2(b) == x / pow2(a + b),
{
    lemma_pow2_pos(a);
    lemma_pow2_pos(b);
    lemma_pow2_adds(a, b);
    lemma_div_denominator(x as int, pow2(a) as int, pow2(b) as int);
}

/// The bits that were written first stay where they are, and the field that is
/// pushed stands right above them.
pub proof fn lemma_push_prefix(b: Bits, v: nat, n: nat)
    requires
        b.wf(),
    ensures
        b.push(v, n).wf(),
        b.push(v, n).value % pow2(b.len) == b.value,
        b.push(v, n).value / pow2(b.len) == v % pow2(n),
{
    lemma_push_pop(b, v, n);
    reveal(above);
    reveal(below);
}

/// `b` holds the bits that were first written to `f`.
pub open spec fn prefix_of(b: Bits, f: Bits) -> bool {
    &&& b.wf()
    &&& b.len <= f.len
    &&& f.value % pow2(b.len) == b.value
}

/// What was written first of a prefix was written first of the whole.
pub proof fn lemma_prefix_trans(a: Bits, b: Bits, f: Bits)
    requires
        prefix_of(a, b),
        prefix_of(b, f),
    ensures
        prefix_of(a, f),
{
    lemma_cut_bits(f.value, a.len, (b.len - a.len) as nat);
}

/// A stack is a prefix of itself.
pub proof fn lemma_prefix_refl(b: Bits)
    requires
        b.wf(),
    ensures
        prefix_of(b, b),
{
    lemma_small_mod(b.value, pow2(b.len));
}

/// A field that was written stands in the bits of the whole, right above what
/// was written before it.
pub proof fn lemma_prefix_field(b: Bits, v: nat, n: nat, f: Bits, x: nat)
    requires
        b.wf(),
        prefix_of(b.push(v, n), f),
        x % pow2(f.len) == f.value,
    ensures
        (x / pow2(b.len)) % pow2(n) == v % pow2(n),
{
    let p = b.push(v, n);
    lemma_push_prefix(b, v, n);
    lemma_cut_bits(x, p.len, (f.len - p.len) as nat);
    assert(x % pow2(p.len) == p.value);
    lemma_cut_bits(x, b.len, n);
}

/// The number that bytes spell, the first one being the least significant.
pub open spec fn bytes_value(s: Seq<u8>) -> nat
    decreases s.len(),
{
    if s.len() == 0 {
        0
    } else {
        s[0] as nat + 256 * bytes_value(s.drop_first())
    }
}

/// `n` bytes spell less than `2^(8n)`.
pub proof fn lemma_bytes_value_bound(s: Seq<u8>)
    ensures
        bytes_value(s) < pow2(8 * s.len()),
    decreases s.len(),
{
    lemma2_to64();
    if s.len() > 0 {
        lemma_bytes_value_bound(s.drop_first());
        lemma_pow2_adds(8, (8 * (s.len() - 1)) as nat);
    }
}

/// Bytes spell what their first part spells plus what the rest spells, moved
/// up by the first part's width.
pub proof fn lemma_bytes_value_split(s: Seq<u8>, k: int)
    requires
        0 <= k <= s.len(),
    ensures
        bytes_value(s) == bytes_value(s.take(k)) + bytes_value(s.skip(k)) * pow2((8 * k) as nat),
    decreases k,
{
    lemma2_to64();
    if k == 0 {
        assert(s.skip(0) =~= s);
        assert(bytes_value(s.take(0)) == 0);
        assert(bytes_value(s) * 1 == bytes_value(s));
    } else {
        lemma_bytes_value_split(s.drop_first(), k - 1);
        assert(s.drop_first().take(k - 1) =~= s.take(k).drop_first());
        assert(s.drop_first().skip(k - 1) =~= s.skip(k));
        lemma_pow2_adds(8, (8 * (k - 1)) as nat);
        assert(8 + (8 * (k - 1)) as nat == (8 * k) as nat);
        assert(s.take(k)[0] == s[0]);
        let a = bytes_value(s.skip(k)) as int;
        let p = pow2((8 * (k - 1)) as nat) as int;
        assert(256 * (a * p) == a * (256 * p)) by (nonlinear_arith);
    }
}

/// One more byte adds its value above the others.
pub proof fn lemma_bytes_value_push(s: Seq<u8>, b: u8)
    ensures
        bytes_value(s.push(b)) == bytes_value(s) + b as nat * pow2((8 * s.len()) as nat),
{
    let t = s.push(b);
    lemma_bytes_value_split(t, s.len() as int);
    assert(t.take(s.len() as int) =~= s);
    assert(t.skip(s.len() as int) =~= seq![b]);
    assert(seq![b].drop_first() =~= Seq::<u8>::empty());
    assert(bytes_value(Seq::<u8>::empty()) == 0);
    assert(bytes_value(seq![b]) == b as nat);
}

/// The part of the spelled number between two byte positions is what the bytes
/// there spell.
pub proof fn lemma_bytes_value_window(s: Seq<u8>, lo: int, hi: int)
    requires
        0 <= lo <= hi <= s.len(),
    ensures
        (bytes_value(s) / pow2((8 * lo) as nat)) % pow2((8 * (hi - lo)) as nat) == bytes_value(
            s.subrange(lo, hi),
        ),
{
    let p = pow2((8 * lo) as nat);
    let q = pow2((8 * (hi - lo)) as nat);
    lemma_pow2_pos((8 * lo) as nat);
    lemma_pow2_pos((8 * (hi - lo)) as nat);
    lemma_bytes_value_split(s, lo);
    lemma_bytes_value_bound(s.take(lo));
    let rest = s.skip(lo);
    let low = bytes_value(s.take(lo)) as int;
    let high = bytes_value(rest) as int;
    assert(bytes_value(s) == p * high + low) by (nonlinear_arith)
        requires
            bytes_value(s) == low + high * p,
    ;
    lemma_fundamental_div_mod_converse(bytes_value(s) as int, p as int, high, low);
    lemma_bytes_value_split(rest, hi - lo);
    lemma_bytes_value_bound(rest.take(hi - lo));
    assert(rest.take(hi - lo) =~= s.subrange(lo, hi));
    let a = bytes_value(rest.take(hi - lo)) as int;
    let b = bytes_value(rest.skip(hi - lo)) as int;
    assert(high == q * b + a) by (nonlinear_arith)
        requires
            high == a + b * q,
    ;
    lemma_fundamental_div_mod_converse(high, q as int, b, a);
}

/// The bits of a closed stream: everything below its highest set bit, which is
/// the end mark.
pub open spec fn stream_bits(src: Seq<u8>) -> Bits {
    let len = (8 * (src.len() - 1)) as nat + mem::floor_log2(src.last() as nat);
    Bits { value: (bytes_value(src) % pow2(len)) as nat, len }
}

/// The `n` lowest bytes of a number.
pub open spec fn nat_bytes(v: nat, n: nat) -> Seq<u8>
    decreases n,
{
    if n == 0 {
        Seq::empty()
    } else {
        seq![(v % 256) as u8] + nat_bytes(v / 256, (n - 1) as nat)
    }
}

/// What is read in one field can be read in two.
pub proof fn lemma_top_split(b: Bits, a: nat, c: nat)
    requires
        b.wf(),
    ensures
        b.top(a + c) == b.top(a) * pow2(c) + b.pop(a).top(c),
        b.pop(a).pop(c) == b.pop(a + c),
        b.pop(a).wf(),
        b.pop(a).top(c) < pow2(c),
{
    reveal(above);
    reveal(below);
    reveal(padded);
    lemma_top_bound(b, a);
    lemma_top_bound(b.pop(a), c);
    let v = b.value;
    lemma2_to64();
    if a + c <= b.len {
        let r = (b.len - a - c) as nat;
        lemma_pow2_pos(r);
        lemma_pow2_pos(c);
        lemma_pow2_adds(r, c);
        lemma_drop_bits(v, r, c);
        lemma_cut_bits(v, r, c);
        let x = v / pow2(r);
        lemma_fundamental_div_mod(x as int, pow2(c) as int);
        assert(pow2(c) * (x / pow2(c)) == (x / pow2(c)) * pow2(c)) by (nonlinear_arith);
    } else if a <= b.len {
        let k = (b.len - a) as nat;
        let d = (c - k) as nat;
        lemma_pow2_pos(k);
        lemma_pow2_adds(k, d);
        lemma_fundamental_div_mod(v as int, pow2(k) as int);
        let q = v as int / pow2(k) as int;
        let m = v as int % pow2(k) as int;
        let x = pow2(k) as int;
        let y = pow2(d) as int;
        assert((x * q + m) * y == q * (x * y) + m * y) by (nonlinear_arith);
        assert(a + c - b.len == d);
    } else {
        let d = (a - b.len) as nat;
        lemma_pow2_adds(d, c);
        let x = pow2(d) as int;
        let y = pow2(c) as int;
        assert(v * (x * y) == (v * x) * y) by (nonlinear_arith);
        assert(0 * pow2(c) == 0);
        assert((a + c - b.len) as nat == d + c);
        assert(0int / 1 == 0);
    }
}

/// Reading past a field that was just written reads what lies below it.
pub proof fn lemma_push_top(b: Bits, v: nat, n: nat, m: nat)
    requires
        b.wf(),
        v < pow2(n),
        n <= m,
    ensures
        b.push(v, n).wf(),
        b.push(v, n).top(m) == v * pow2((m - n) as nat) + b.top((m - n) as nat),
        b.top((m - n) as nat) < pow2((m - n) as nat),
        b.push(v, n).pop(n) == b,
{
    lemma_push_pop(b, v, n);
    lemma_small_mod(v, pow2(n));
    lemma_top_split(b.push(v, n), n, (m - n) as nat);
}

/// The bytes of a stream that is closed with an end mark on top.
pub open spec fn marked_bytes(b: Bits) -> Seq<u8> {
    nat_bytes(b.value + pow2(b.len), b.len / 8 + 1)
}

/// The bytes of a number spell it, as far as they reach.
pub proof fn lemma_nat_bytes(v: nat, n: nat)
    ensures
        nat_bytes(v, n).len() == n,
        bytes_value(nat_bytes(v, n)) == v % pow2(8 * n),
    decreases n,
{
    lemma2_to64();
    if n == 0 {
    } else {
        let m = (n - 1) as nat;
        lemma_nat_bytes(v / 256, m);
        let s = nat_bytes(v, n);
        assert(s.drop_first() =~= nat_bytes(v / 256, m));
        lemma_pow2_adds(8, 8 * m);
        lemma_pow2_pos(8 * m);
        lemma_mod_breakdown(v as int, 256, pow2(8 * m) as int);
    }
}

/// The bytes of a number that fits in them spell it.
pub proof fn lemma_nat_bytes_exact(v: nat, n: nat)
    requires
        v < pow2(8 * n),
    ensures
        nat_bytes(v, n).len() == n,
        bytes_value(nat_bytes(v, n)) == v,
{
    lemma_nat_bytes(v, n);
    lemma_small_mod(v, pow2(8 * n));
}

/// Bytes are determined by their number and by what they spell.
pub proof fn lemma_bytes_value_injective(s: Seq<u8>, v: nat)
    requires
        bytes_value(s) == v,
    ensures
        s == nat_bytes(v, s.len()),
    decreases s.len(),
{
    if s.len() > 0 {
        lemma_bytes_value_injective(s.drop_first(), v / 256);
        assert(s =~= seq![s[0]] + s.drop_first());
    } else {
        assert(s =~= Seq::<u8>::empty());
    }
}

/// Opening a closed stream gives back the bits that were closed.
pub proof fn lemma_stream_roundtrip(b: Bits)
    requires
        b.wf(),
    ensures
        marked_bytes(b).len() == b.len / 8 + 1,
        marked_bytes(b).last() != 0,
        stream_bits(marked_bytes(b)) == b,
{
    let n = b.len / 8 + 1;
    let v = b.value + pow2(b.len);
    let s = marked_bytes(b);
    lemma_nat_bytes(v, n);
    lemma_pow2_adds(b.len, 1);
    lemma2_to64();
    mem::lemma_pow2_monotone(b.len + 1, 8 * n);
    lemma_small_mod(v, pow2(8 * n));
    assert(bytes_value(s) == v);
    let m = (n - 1) as nat;
    let r = (b.len - 8 * m) as nat;
    lemma_bytes_value_split(s, m as int);
    let lower = bytes_value(s.take(m as int));
    lemma_bytes_value_bound(s.take(m as int));
    assert(s.skip(m as int) =~= seq![s.last()]);
    assert(seq![s.last()].drop_first() =~= Seq::<u8>::empty());
    assert(bytes_value(Seq::<u8>::empty()) == 0);
    let t = s.last() as nat;
    assert(v == lower + t * pow2(8 * m));
    lemma_pow2_adds(8 * m, r);
    lemma_pow2_adds(8 * m, r + 1);
    let p = pow2(8 * m);
    lemma_pow2_pos(8 * m);
    assert(pow2(r) <= t < pow2(r + 1)) by (nonlinear_arith)
        requires
            p * pow2(r) <= v < p * pow2(r + 1),
            v == lower + t * p,
            0 <= lower < p,
            p > 0,
    ;
    lemma_pow2_pos(r);
    mem::lemma_floor_log2_unique(t, r);
    lemma_mod_multiples_vanish(1, b.value as int, pow2(b.len) as int);
    lemma_small_mod(b.value, pow2(b.len));
}

} // verus!
