//! Laws of literals sections: what the bytes of a header stand for, what the
//! section decodes to, and that nothing behind it matters.

use crate::entropy::bits;
use crate::entropy::huff_header;
use crate::entropy::mem;
use crate::error::Error;
use crate::header_laws;
use crate::literals;
use crate::literals::KeptTable;
use vstd::arithmetic::power2::*;
use vstd::prelude::*;

verus! {

/// How many bytes the header of plain or repeated literals takes, and how many
/// literals it announces: five bits, twelve, or twenty, behind the type and the
/// format of the size.
pub proof fn law_plain_header(src: Seq<u8>)
    requires
        src.len() > 0,
        src[0] % 4 <= 1,
    ensures
        ({
            let r = literals::section_layout(src);
            let format = (src[0] / 4) % 4;
            let need = if format == 1 {
                2int
            } else if format == 3 {
                3
            } else {
                1
            };
            let n = if format == 1 {
                src[0] / 16 + 16 * src[1]
            } else if format == 3 {
                src[0] / 16 + 16 * src[1] + 4096 * src[2]
            } else {
                src[0] as int / 8
            };
            &&& src.len() < need ==> r is Err && r->Err_0 == Error::UnexpectedEof
            &&& src.len() >= need ==> {
                &&& r is Ok
                &&& r->Ok_0.header_size == need
                &&& r->Ok_0.regenerated_size == n
                &&& r->Ok_0.section_size == need + if src[0] % 4 == 0 {
                    n
                } else {
                    1
                }
                &&& !r->Ok_0.compressed
            }
        }),
{
    header_laws::lemma_spelled(src.take(1));
    if src.len() >= 2 {
        header_laws::lemma_spelled(src.take(2));
    }
    if src.len() >= 3 {
        header_laws::lemma_spelled(src.take(3));
    }
}

/// Plain literals are the bytes behind the header, as many as it announces.
pub proof fn law_plain_literals(src: Seq<u8>, block_size_max: nat, kept: Option<KeptTable>)
    requires
        src.len() > 0,
        src[0] % 4 == 0,
        literals::section_layout(src) is Ok,
    ensures
        ({
            let layout = literals::section_layout(src)->Ok_0;
            let h = layout.header_size as int;
            let n = layout.regenerated_size as int;
            let d = literals::section_decoding(src, block_size_max, kept);
            &&& d.kept == kept
            &&& n > block_size_max ==> d.result is Err && d.result->Err_0 == Error::Corruption(
                "literals section exceeds the frame block size limit",
            )
            &&& n <= block_size_max && h + n > src.len() ==> d.result is Err && d.result->Err_0
                == Error::UnexpectedEof
            &&& n <= block_size_max && h + n <= src.len() ==> {
                &&& d.result is Ok
                &&& d.result->Ok_0.1 == h + n
                &&& d.result->Ok_0.0.len() == n
                &&& forall|i: int| 0 <= i < n ==> #[trigger] d.result->Ok_0.0[i] == src[h + i]
            }
        }),
{
    literals::lemma_plain_header_bounds(src, literals::size_format(src));
    assert(literals::section_kind(src) == src[0] % 4);
}

/// Repeated literals are the one byte right behind the header, as many times
/// as it announces.
pub proof fn law_repeated_literals(src: Seq<u8>, block_size_max: nat, kept: Option<KeptTable>)
    requires
        src.len() > 0,
        src[0] % 4 == 1,
        literals::section_layout(src) is Ok,
    ensures
        ({
            let layout = literals::section_layout(src)->Ok_0;
            let h = layout.header_size as int;
            let n = layout.regenerated_size as int;
            let d = literals::section_decoding(src, block_size_max, kept);
            &&& d.kept == kept
            &&& n > block_size_max ==> d.result is Err && d.result->Err_0 == Error::Corruption(
                "literals section exceeds the frame block size limit",
            )
            &&& n <= block_size_max && h == src.len() ==> d.result is Err && d.result->Err_0
                == Error::UnexpectedEof
            &&& n <= block_size_max && h < src.len() ==> {
                &&& d.result is Ok
                &&& d.result->Ok_0.1 == h + 1
                &&& d.result->Ok_0.0.len() == n
                &&& forall|i: int| 0 <= i < n ==> #[trigger] d.result->Ok_0.0[i] == src[h]
            }
        }),
{
    literals::lemma_plain_header_bounds(src, literals::size_format(src));
    assert(literals::section_kind(src) == src[0] % 4);
}

/// The two sizes of a header of coded literals, whose number is `v`.
proof fn lemma_coded_sizes(src: Seq<u8>, format: nat, v: nat, cut: nat, unit: nat)
    requires
        format < 4,
        src.len() >= literals::coded_header_size(format),
        v == literals::leading(src, literals::coded_header_size(format)),
        cut == pow2(4 + literals::coded_size_bits(format)),
        unit == pow2(literals::coded_size_bits(format)),
        v < cut * unit,
    ensures
        ({
            let f = literals::coded_header(src, format);
            let size = v / cut;
            &&& size == 0 || (format != 0 && size < 10) ==> f is Err && f->Err_0 is Corruption
            &&& size > 0 && (format == 0 || size >= 10) ==> {
                &&& f is Ok
                &&& f->Ok_0.header_size == literals::coded_header_size(format)
                &&& f->Ok_0.regenerated_size == (v / 16) % unit
                &&& f->Ok_0.compressed_size == size
                &&& f->Ok_0.four_streams == (format != 0)
            }
        }),
{
    lemma_pow2_pos(4 + literals::coded_size_bits(format));
    lemma_pow2_pos(literals::coded_size_bits(format));
    vstd::arithmetic::div_mod::lemma_multiply_divide_lt(v as int, cut as int, unit as int);
    vstd::arithmetic::div_mod::lemma_small_mod(v / cut, unit);
    vstd::arithmetic::div_mod::lemma_mod_bound((v / 16) as int, unit as int);
    lemma2_to64();
    mem::lemma_pow2_monotone(literals::coded_size_bits(format), 18);
    assert(v / cut < unit <= 262144);
    assert(literals::leading(src, literals::coded_header_size(format)) / pow2(
        4 + literals::coded_size_bits(format),
    ) % pow2(literals::coded_size_bits(format)) == v / cut);
}

/// The header of coded literals: three, four or five bytes, with two sizes of
/// ten, fourteen or eighteen bits behind the type and the format. Only the
/// first format has a single stream. Nothing at all cannot be a code, and four
/// streams have at least a jump table and a byte each.
pub proof fn law_coded_header(src: Seq<u8>)
    requires
        src.len() > 0,
    ensures
        ({
            let format = (src[0] / 4) % 4;
            let f = literals::coded_header(src, format as nat);
            let need = if format == 3 {
                5int
            } else if format == 2 {
                4
            } else {
                3
            };
            let three = src[0] + 256 * src[1] + 65536 * src[2];
            let four = three + 16777216 * src[3];
            let five = four + 0x1_0000_0000 * src[4];
            let n = if format == 3 {
                (five / 16) % 262144
            } else if format == 2 {
                (four / 16) % 16384
            } else {
                (three / 16) % 1024
            };
            let size = if format == 3 {
                five / 4194304
            } else if format == 2 {
                four / 262144
            } else {
                three / 16384
            };
            &&& src.len() < need ==> f is Err && f->Err_0 == Error::UnexpectedEof
            &&& src.len() >= need && (size == 0 || (format != 0 && size < 10)) ==> f is Err
                && f->Err_0 is Corruption
            &&& src.len() >= need && size > 0 && (format == 0 || size >= 10) ==> {
                &&& f is Ok
                &&& f->Ok_0.header_size == need
                &&& f->Ok_0.regenerated_size == n
                &&& f->Ok_0.compressed_size == size
                &&& f->Ok_0.four_streams == (format != 0)
            }
        }),
{
    lemma2_to64();
    let format = (src[0] / 4) % 4;
    if format == 3 {
        if src.len() >= 5 {
            let s = src.take(5);
            header_laws::lemma_spelled(s);
            let v = bits::bytes_value(s);
            assert(pow2(4 + 18) == 4194304);
            assert(v < 4194304 * 262144);
            lemma_coded_sizes(src, 3, v, 4194304, 262144);
        }
    } else if format == 2 {
        if src.len() >= 4 {
            let s = src.take(4);
            header_laws::lemma_spelled(s);
            let v = bits::bytes_value(s);
            assert(pow2(4 + 14) == 262144);
            lemma_coded_sizes(src, 2, v, 262144, 16384);
        }
    } else {
        if src.len() >= 3 {
            let s = src.take(3);
            header_laws::lemma_spelled(s);
            let v = bits::bytes_value(s);
            assert(pow2(4 + 10) == 16384);
            lemma_coded_sizes(src, format as nat, v, 16384, 1024);
        }
    }
}

/// The layout of a section of coded literals is that of its header: what is
/// behind the header is as long as it says.
pub proof fn law_coded_layout(src: Seq<u8>)
    requires
        src.len() > 0,
        src[0] % 4 >= 2,
    ensures
        ({
            let r = literals::section_layout(src);
            match literals::coded_header(src, ((src[0] / 4) % 4) as nat) {
                Err(e) => r is Err && r->Err_0 == e,
                Ok(h) => {
                    &&& r is Ok
                    &&& r->Ok_0.header_size == h.header_size
                    &&& r->Ok_0.regenerated_size == h.regenerated_size
                    &&& r->Ok_0.section_size == h.header_size + h.compressed_size
                    &&& r->Ok_0.compressed
                },
            }
        }),
{
    literals::lemma_coded_header_bounds(src, literals::size_format(src));
}

proof fn lemma_leading(a: Seq<u8>, b: Seq<u8>, n: nat, k: nat)
    requires
        n <= k,
        k <= a.len(),
        k <= b.len(),
        a.take(k as int) == b.take(k as int),
    ensures
        literals::leading(a, n) == literals::leading(b, n),
{
    assert(a.take(n as int) =~= a.take(k as int).take(n as int));
    assert(b.take(n as int) =~= b.take(k as int).take(n as int));
}

/// What a section decodes to depends on its own bytes alone: whatever stands
/// behind them, it gives the same literals, takes as many bytes and leaves the
/// same table.
pub proof fn law_section_ignores_rest(
    src: Seq<u8>,
    rest: Seq<u8>,
    block_size_max: nat,
    kept: Option<KeptTable>,
)
    requires
        literals::section_decoding(src, block_size_max, kept).result is Ok,
    ensures
        ({
            let d = literals::section_decoding(src, block_size_max, kept);
            let size = d.result->Ok_0.1;
            &&& size <= src.len()
            &&& literals::section_decoding(src.take(size as int) + rest, block_size_max, kept) == d
        }),
{
    let d = literals::section_decoding(src, block_size_max, kept);
    let size = d.result->Ok_0.1;
    let b = src.take(size as int) + rest;
    let format = literals::size_format(src);
    literals::lemma_plain_header_bounds(src, format);
    literals::lemma_coded_header_bounds(src, format);
    assert(size <= src.len());
    assert(b.take(size as int) =~= src.take(size as int));
    assert(size > 0);
    assert(b[0] == src[0]);
    if literals::section_kind(src) <= 1 {
        let (h, n) = literals::plain_header(src, format)->Ok_0;
        lemma_leading(src, b, h, size);
        if literals::section_kind(src) == 0 {
            assert(b.subrange(h as int, (h + n) as int) =~= src.subrange(
                h as int,
                (h + n) as int,
            ));
        } else {
            assert(b[h as int] == src[h as int]);
        }
        assert(literals::plain_header(b, format) == literals::plain_header(src, format));
    } else {
        let need = literals::coded_header_size(format);
        lemma_leading(src, b, need, size);
        let h = literals::coded_header(src, format)->Ok_0;
        assert(literals::coded_header(b, format) == literals::coded_header(src, format));
        assert(b.subrange(h.header_size as int, size as int) =~= src.subrange(
            h.header_size as int,
            size as int,
        ));
    }
}

/// Coded literals come with the description of their code, which is kept for
/// sections without one. Such a section needs a code that was kept, and leaves
/// it. A description that cannot be read leaves no code at all.
pub proof fn law_kept_codes(src: Seq<u8>, block_size_max: nat, kept: Option<KeptTable>)
    requires
        src.len() > 0,
        src[0] % 4 >= 2,
        literals::section_layout(src) is Ok,
        literals::section_layout(src)->Ok_0.section_size <= src.len(),
        literals::section_layout(src)->Ok_0.regenerated_size <= block_size_max,
    ensures
        ({
            let layout = literals::section_layout(src)->Ok_0;
            let payload = src.subrange(layout.header_size as int, layout.section_size as int);
            let d = literals::section_decoding(src, block_size_max, kept);
            &&& src[0] % 4 == 3 ==> d.kept == kept
            &&& src[0] % 4 == 3 && kept is None ==> d.result is Err && d.result->Err_0
                == Error::Corruption("treeless literals require a prior Huff0 table")
            &&& src[0] % 4 == 2 ==> match huff_header::code_description(payload) {
                Ok((code, _)) => d.kept is Some && d.kept->0.code == code,
                Err(e) => d.kept is None && d.result is Err && d.result->Err_0 == e,
            }
            &&& d.result is Ok ==> d.result->Ok_0.1 == layout.section_size
        }),
{
    literals::lemma_coded_header_bounds(src, literals::size_format(src));
    assert(literals::section_kind(src) == src[0] % 4);
}

} // verus!
