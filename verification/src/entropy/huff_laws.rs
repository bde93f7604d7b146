//! Laws of prefix codes: how codes follow from weights, what the bytes of a
//! description stand for, and where the streams of symbols lie.

use crate::entropy::bits;
use crate::entropy::bits::Bits;
use crate::entropy::bitstream::Reading;
use crate::entropy::fse_stream;
use crate::entropy::huff_code;
use crate::entropy::huff_header;
use crate::entropy::huff_stream;
use crate::entropy::huff_table::Code;
use crate::entropy::mem;
use crate::error::Error;
use vstd::arithmetic::div_mod::*;
use vstd::arithmetic::power2::*;
use vstd::prelude::*;

verus! {

// ---------------------------------------------------------------------------
// Bits.

/// A field that is written stands above all that was written before, and what
/// is read is what stands highest.
pub proof fn law_bits_are_stacked(b: Bits, v: nat, n: nat)
    requires
        b.wf(),
    ensures
        b.push(v, n).len == b.len + n,
        b.push(v, n).value == b.value + (v % pow2(n)) * pow2(b.len),
        n <= b.len ==> {
            &&& b.value == b.top(n) * pow2((b.len - n) as nat) + b.pop(n).value
            &&& b.pop(n).value < pow2((b.len - n) as nat)
            &&& b.pop(n).len == b.len - n
        },
        n > b.len ==> b.top(n) == b.value * pow2((n - b.len) as nat) && b.pop(n).len == 0
            && b.pop(n).value == 0,
{
    reveal(bits::raised);
    reveal(bits::above);
    reveal(bits::below);
    reveal(bits::padded);
    if n <= b.len {
        let k = (b.len - n) as nat;
        lemma_pow2_pos(k);
        lemma_fundamental_div_mod(b.value as int, pow2(k) as int);
        let q = b.value as int / pow2(k) as int;
        assert(pow2(k) as int * q == q * pow2(k)) by (nonlinear_arith);
    }
}

/// The bits of a stream are those of its bytes, from the low end, up to the
/// highest bit that is set, which marks the end.
pub proof fn law_stream_ends_at_its_mark(src: Seq<u8>)
    requires
        src.len() > 0,
        src.last() != 0,
    ensures
        ({
            let b = Reading::start(src).bits;
            &&& bits::bytes_value(src) == b.value + pow2(b.len)
            &&& b.value < pow2(b.len)
            &&& !Reading::start(src).overflow()
        }),
{
    let m = (src.len() - 1) as nat;
    let last = src.last() as nat;
    let k = mem::floor_log2(last);
    mem::lemma_floor_log2(last);
    bits::lemma_bytes_value_split(src, m as int);
    let low = bits::bytes_value(src.take(m as int));
    bits::lemma_bytes_value_bound(src.take(m as int));
    let one = src.skip(m as int);
    assert(one.drop_first() =~= Seq::<u8>::empty());
    assert(bits::bytes_value(one) == last) by {
        assert(one[0] == src.last());
        reveal_with_fuel(bits::bytes_value, 2);
    }
    let p = pow2(8 * m) as int;
    lemma_pow2_adds(8 * m, k);
    lemma_pow2_unfold(k + 1);
    let q = pow2(k) as int;
    let rest = (last - q) * p + low;
    assert(bits::bytes_value(src) == p * q + rest) by (nonlinear_arith)
        requires
            bits::bytes_value(src) == low + last * p,
            rest == (last - q) * p + low,
    ;
    assert(0 <= rest < p * q) by (nonlinear_arith)
        requires
            rest == (last - q) * p + low,
            0 <= low < p,
            q <= last < 2 * q,
    ;
    lemma_fundamental_div_mod_converse(bits::bytes_value(src) as int, p * q, 1, rest);
}

// ---------------------------------------------------------------------------
// Codes.

/// A symbol's weight and the length of its code add up to one more than the
/// longest length. Codes follow each other by weight, the lightest first, and
/// among equal weights by symbol: read as the leading bits of places of the
/// longest length, the places of an earlier code all lie before those of a
/// later one.
pub proof fn law_codes_follow_from_weights(code: Code, s: u8, t: u8)
    requires
        code.wf(),
        code.holds(s),
        code.holds(t),
    ensures
        code.length(s) + code.weights[s as int] == code.log + 1,
        code.value(s) < pow2(code.length(s)),
        code.weights[s as int] < code.weights[t as int] || (code.weights[s as int]
            == code.weights[t as int] && s < t) ==> (code.value(s) + 1) * pow2(
            (code.weights[s as int] - 1) as nat,
        ) <= code.value(t) * pow2((code.weights[t as int] - 1) as nat),
{
    huff_code::lemma_symbol_places(code.weights, code.log, s as int);
    huff_code::lemma_symbol_places(code.weights, code.log, t as int);
    let v = code.value(s) as int;
    let w = pow2((code.weights[s as int] - 1) as nat) as int;
    assert((v + 1) * w == v * w + w) by (nonlinear_arith);
    if code.weights[s as int] < code.weights[t as int] || (code.weights[s as int]
        == code.weights[t as int] && s < t) {
        huff_code::lemma_places_ordered(code.weights, code.log, s as int, t as int);
    }
}

/// No place is left over: every place of the longest length starts with the
/// code of exactly one symbol, which is the one that is read there.
pub proof fn law_every_place_has_a_code(code: Code, place: nat)
    requires
        code.wf(),
        place < pow2(code.log),
    ensures
        code.holds(code.symbol_at(place)),
        place / pow2((code.weights[code.symbol_at(place) as int] - 1) as nat) == code.value(
            code.symbol_at(place),
        ),
        forall|s: u8|
            code.holds(s) && place / pow2((code.weights[s as int] - 1) as nat) == #[trigger] code.value(
                s,
            ) ==> s == code.symbol_at(place),
{
    crate::entropy::huff_table::lemma_symbol_at(code, place);
    let at = code.symbol_at(place);
    huff_code::lemma_symbol_places(code.weights, code.log, at as int);
    assert((code.log - code.length(at)) as nat == (code.weights[at as int] - 1) as nat);
    assert forall|s: u8|
        code.holds(s) && place / pow2((code.weights[s as int] - 1) as nat) == #[trigger] code.value(
            s,
        ) implies s == at by {
        let w = (code.weights[s as int] - 1) as nat;
        lemma_pow2_pos(w);
        lemma_fundamental_div_mod(place as int, pow2(w) as int);
        huff_code::lemma_symbol_places(code.weights, code.log, s as int);
        let low = place % pow2(w);
        let v = code.value(s) as int;
        assert(pow2(w) as int * v == v * pow2(w)) by (nonlinear_arith);
        huff_code::lemma_code_places(code.weights, code.log, s as int, low);
    }
}

// ---------------------------------------------------------------------------
// Descriptions.

/// A description whose first byte is at least 128 announces as many weights as
/// that is over 127. They follow as half-bytes, the upper half first.
pub proof fn law_half_byte_description(src: Seq<u8>)
    requires
        src.len() > 0,
        src[0] >= 128,
    ensures
        ({
            let n = src[0] - 127;
            let r = huff_header::explicit_weights(src);
            &&& src.len() < 1 + (n + 1) / 2 ==> r is Err && r->Err_0 == Error::SrcSizeWrong
            &&& src.len() >= 1 + (n + 1) / 2 ==> {
                &&& r is Ok
                &&& r->Ok_0.1 == 1 + (n + 1) / 2
                &&& r->Ok_0.0.len() == n
                &&& forall|i: int|
                    0 <= i < n && i % 2 == 0 ==> #[trigger] r->Ok_0.0[i] == src[1 + i / 2] / 16
                &&& forall|i: int|
                    0 <= i < n && i % 2 == 1 ==> #[trigger] r->Ok_0.0[i] == src[1 + i / 2] % 16
            }
        }),
{
}

/// Below 128 the first byte tells how many bytes follow, which hold the
/// weights as a block of the finite-state coder with table logs up to six.
pub proof fn law_coded_description(src: Seq<u8>)
    requires
        src.len() > 0,
        src[0] < 128,
    ensures
        ({
            let r = huff_header::explicit_weights(src);
            &&& src.len() < 1 + src[0] ==> r is Err && r->Err_0 == Error::SrcSizeWrong
            &&& src.len() >= 1 + src[0] ==> match fse_stream::block_decoding(
                src.subrange(1, 1 + src[0]),
                12,
                6,
                255,
            ) {
                Ok(weights) => r is Ok && r->Ok_0.0 == weights && r->Ok_0.1 == 1 + src[0],
                Err(e) => r is Err && r->Err_0 == e,
            }
        }),
{
}

/// The last symbol's weight is the one that makes the code complete: what the
/// others leave of the next power of two has to be a power of two itself. The
/// longest codes come in pairs, and none is longer than twelve bits.
pub proof fn law_last_weight_completes(explicit: Seq<u8>)
    requires
        explicit.len() <= 255,
    ensures
        huff_header::described(explicit) matches Ok(code) ==> {
            let total = huff_code::weight_sum(explicit, explicit.len());
            let ones = huff_code::of_weight(code.weights, 1, code.weights.len());
            &&& code.weights.len() == explicit.len() + 1
            &&& forall|i: int|
                0 <= i < explicit.len() ==> #[trigger] code.weights[i] == explicit[i]
                    && explicit[i] < 12
            &&& pow2((code.log - 1) as nat) <= total < pow2(code.log)
            &&& total + pow2((code.weights.last() - 1) as nat) == pow2(code.log)
            &&& 1 <= code.log <= 12
            &&& ones >= 2 && ones % 2 == 0
        },
{
    huff_header::lemma_described(explicit);
    if let Ok(code) = huff_header::described(explicit) {
        let total = huff_code::weight_sum(explicit, explicit.len());
        mem::lemma_floor_log2(total);
        let rest = (pow2(code.log) - total) as nat;
        mem::lemma_floor_log2(rest);
        assert(code.weights.last() == (mem::floor_log2(rest) + 1) as u8);
        if mem::floor_log2(rest) > 12 {
            mem::lemma_pow2_monotone(13, mem::floor_log2(rest));
            mem::lemma_pow2_monotone(code.log, 12);
            lemma2_to64();
        }
    }
}

/// Weights that leave a power of two of the next power of two are accepted, if
/// they are below twelve, some are there, and the longest codes come in pairs.
pub proof fn law_complete_weights_are_accepted(explicit: Seq<u8>, log: nat, last: nat)
    requires
        explicit.len() <= 255,
        forall|i: int| 0 <= i < explicit.len() ==> #[trigger] explicit[i] < 12,
        1 <= log <= 12,
        1 <= last <= log,
        pow2((log - 1) as nat) <= huff_code::weight_sum(explicit, explicit.len()),
        huff_code::weight_sum(explicit, explicit.len()) + pow2((last - 1) as nat) == pow2(log),
        huff_code::of_weight(explicit.push(last as u8), 1, explicit.len() + 1) >= 2,
        huff_code::of_weight(explicit.push(last as u8), 1, explicit.len() + 1) % 2 == 0,
    ensures
        huff_header::described(explicit) == Ok::<Code, Error>(
            Code { weights: explicit.push(last as u8), log },
        ),
{
    let total = huff_code::weight_sum(explicit, explicit.len());
    lemma_pow2_unfold(log);
    lemma_pow2_pos((last - 1) as nat);
    lemma_pow2_pos((log - 1) as nat);
    mem::lemma_floor_log2_unique(total, (log - 1) as nat);
    lemma_pow2_unfold(last);
    mem::lemma_floor_log2_unique(pow2((last - 1) as nat), (last - 1) as nat);
    assert(huff_header::described(explicit)->Ok_0.weights =~= explicit.push(last as u8));
}

// ---------------------------------------------------------------------------
// Streams.

/// Symbols are read in order, the first of a stream first, and each takes the
/// bits of its code, which are the ones that stand next.
pub proof fn law_symbols_are_read_in_order(code: Code, r: Reading, n: nat)
    requires
        code.wf(),
        r.bits.wf(),
        n > 0,
        code.log <= r.bits.len,
    ensures
        ({
            let s = huff_stream::decoded(code, r, n).0[0];
            let b = r.bits;
            &&& code.holds(s)
            &&& b.top(code.length(s)) == code.value(s)
            &&& huff_stream::decoded(code, r, n).0.drop_first() == huff_stream::decoded(
                code,
                r.skip(code.length(s)),
                (n - 1) as nat,
            ).0
            &&& huff_stream::decoded(code, r, n).1 == huff_stream::decoded(
                code,
                r.skip(code.length(s)),
                (n - 1) as nat,
            ).1
            &&& r.skip(code.length(s)).bits.len == b.len - code.length(s)
        }),
{
    let b = r.bits;
    let place = b.top(code.log);
    bits::lemma_top_bound(b, code.log);
    let s = code.symbol_at(place);
    crate::entropy::huff_table::lemma_symbol_at(code, place);
    let k = code.length(s);
    let d = (code.log - k) as nat;
    bits::lemma_top_split(b, k, d);
    bits::lemma_top_bound(b.pop(k), d);
    lemma_pow2_pos(d);
    let low = b.pop(k).top(d) as int;
    let high = b.top(k) as int;
    bits::lemma_top_bound(b, k);
    lemma_fundamental_div_mod_converse(place as int, pow2(d) as int, high, low);
    let rest = huff_stream::decoded(code, r.skip(k), (n - 1) as nat);
    assert((seq![s] + rest.0).drop_first() =~= rest.0);
}

/// Four streams stand behind six bytes that tell the sizes of the first three.
/// The first three hold a quarter of the symbols each, rounded up, and the last
/// one the others.
pub proof fn law_four_streams_are_four_streams(code: Code, src: Seq<u8>, n: nat)
    requires
        huff_stream::streams_symbols(code, src, n) is Ok,
    ensures
        ({
            let all = huff_stream::streams_symbols(code, src, n)->Ok_0;
            let a = 6 + src[0] + 256 * src[1];
            let b = a + src[2] + 256 * src[3];
            let c = b + src[4] + 256 * src[5];
            let q = (n + 3) / 4;
            let p0 = huff_stream::stream_symbols(code, src.subrange(6, a), q);
            let p1 = huff_stream::stream_symbols(code, src.subrange(a, b), q);
            let p2 = huff_stream::stream_symbols(code, src.subrange(b, c), q);
            let p3 = huff_stream::stream_symbols(
                code,
                src.subrange(c, src.len() as int),
                (n - 3 * q) as nat,
            );
            &&& src.len() >= 10
            &&& n >= 6
            &&& c <= src.len()
            &&& p0 is Ok && p1 is Ok && p2 is Ok && p3 is Ok
            &&& all == p0->Ok_0 + p1->Ok_0 + p2->Ok_0 + p3->Ok_0
        }),
{
}

/// Four streams that can each be read, behind a jump table that finds them,
/// can be read together.
pub proof fn law_four_good_streams_are_read(code: Code, src: Seq<u8>, n: nat)
    requires
        src.len() >= 10,
        n >= 6,
        ({
            let a = 6 + src[0] + 256 * src[1];
            let b = a + src[2] + 256 * src[3];
            let c = b + src[4] + 256 * src[5];
            let q = (n + 3) / 4;
            &&& c <= src.len()
            &&& huff_stream::stream_symbols(code, src.subrange(6, a), q) is Ok
            &&& huff_stream::stream_symbols(code, src.subrange(a, b), q) is Ok
            &&& huff_stream::stream_symbols(code, src.subrange(b, c), q) is Ok
            &&& huff_stream::stream_symbols(
                code,
                src.subrange(c, src.len() as int),
                (n - 3 * q) as nat,
            ) is Ok
        }),
    ensures
        huff_stream::streams_symbols(code, src, n) is Ok,
{
}

} // verus!
