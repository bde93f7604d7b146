//! Laws of decoding and executing sequences.

use crate::entropy::bits;
use crate::entropy::bitstream::Reading;
use crate::error::Error;
use crate::sequence::decode;
use crate::sequence::decode::Decoding;
use crate::sequence::execute::{Block, Executing};
use crate::sequence::fused;
use crate::sequence::fused::{Budget, OutputLimit};
use crate::sequence::repeat::{RepeatOffsets, SequenceCommand};
use crate::sequence::section;
use crate::sequence::section::{KeptTables, Tables, SEQUENCE_COUNT_END};
use crate::sequence::stream;
use crate::sequence::stream::EncodeTables;
use crate::sequence::tables::SequencePart;
use crate::sequence::write::{KeptState, SectionPlan};
use vstd::arithmetic::div_mod::*;
use vstd::arithmetic::power2::*;
use vstd::prelude::*;

verus! {

/// Executing only adds to the output.
proof fn lemma_execute_all_grows(block: Block, x: Executing, sequences: Seq<SequenceCommand>)
    requires
        block.execute_all(x, sequences) is Ok,
        x.used <= block.literals.len(),
    ensures
        x.out.len() <= block.execute_all(x, sequences)->Ok_0.out.len(),
        block.execute_all(x, sequences)->Ok_0.used <= block.literals.len(),
    decreases sequences.len(),
{
    if sequences.len() > 0 {
        let y = block.execute(x, sequences[0])->Ok_0;
        lemma_execute_all_grows(block, y, sequences.drop_first());
    }
}

/// Decoding and executing in one pass does what executing the decoded list
/// does.
proof fn lemma_run(
    block: Block,
    budget: Budget,
    t: Tables,
    d: Decoding,
    n: nat,
    total: nat,
    x: Executing,
)
    requires
        t.wf(),
        d.within(t),
        n > 0,
        budget.start <= x.out.len(),
        total <= budget.spent(x.out.len()),
        budget.block <= usize::MAX,
        block.literals.len() <= usize::MAX,
        x.used <= block.literals.len(),
    ensures
        fused::run(block, budget, t, d, n, x) matches Ok(y) ==> {
            &&& decode::sequences_from(t, d, n, total) matches Ok(sequences)
            &&& block.execute_all(x, sequences) == Ok::<Executing, Error>(y)
            &&& y.used <= block.literals.len()
            &&& y.out.len() >= x.out.len()
        },
        decode::sequences_from(t, d, n, total) matches Ok(sequences) ==> (block.execute_all(
            x,
            sequences,
        ) matches Ok(y) ==> (budget.spent(y.out.len()) <= budget.block && budget.spent(y.out.len())
            <= budget.output ==> fused::run(block, budget, t, d, n, x) == Ok::<Executing, Error>(
            y,
        ))),
    decreases n,
{
    let (s, r) = d.sequence(t);
    decode::lemma_step(t, d);
    let next = d.next(t, r);
    let one = seq![s];
    let nothing = Seq::<SequenceCommand>::empty();
    assert(one.drop_first() =~= nothing);
    let stepped = fused::execute_one(block, budget, x, s);
    if stepped is Ok {
        let y = stepped->Ok_0;
        assert(block.execute(x, s) == Ok::<Executing, Error>(y));
        assert(y.out.len() == x.out.len() + s.literal_length + s.match_length);
        if n == 1 {
            assert(block.execute_all(y, nothing) == Ok::<Executing, Error>(y));
        } else {
            lemma_run(
                block,
                budget,
                t,
                next,
                (n - 1) as nat,
                total + s.match_length as nat,
                y,
            );
        }
    }
    let decoded = decode::sequences_from(t, d, n, total);
    if decoded is Ok {
        let sequences = decoded->Ok_0;
        let rest = if n == 1 {
            nothing
        } else {
            decode::sequences_from(
                t,
                next,
                (n - 1) as nat,
                total + s.match_length as nat,
            )->Ok_0
        };
        assert(sequences =~= one + rest);
        assert(sequences[0] == s);
        assert(sequences.drop_first() =~= rest);
        let all = block.execute_all(x, sequences);
        if all is Ok {
            let y = block.execute(x, s)->Ok_0;
            lemma_execute_all_grows(block, y, rest);
            if budget.spent(all->Ok_0.out.len()) <= budget.block && budget.spent(
                all->Ok_0.out.len(),
            ) <= budget.output {
                assert(stepped == Ok::<Executing, Error>(y));
            }
        }
    }
}

/// Decoding and executing a block's sequences in one pass gives what decoding
/// them into a list and executing the list gives, and succeeds whenever that
/// does and the limits allow the result.
pub proof fn law_one_pass_is_decode_then_execute(
    block: Block,
    limit: OutputLimit,
    block_size_max: nat,
    kept: KeptTables,
    n: nat,
    bitstream: Seq<u8>,
    out: Seq<u8>,
    reps: RepeatOffsets,
)
    requires
        n > 0,
        kept.complete(),
        kept.tables().wf(),
        limit.room(out.len()) is Ok,
        block_size_max <= usize::MAX,
        block.literals.len() <= usize::MAX,
    ensures
        ({
            let start = Executing { out, used: 0, reps };
            let result = fused::block_output(
                block,
                limit,
                block_size_max,
                kept,
                n,
                bitstream,
                out,
                reps,
            );
            let decoded = decode::stream_sequences(kept.tables(), bitstream, n);
            &&& result matches Ok((bytes, after)) ==> {
                &&& decoded matches Ok(sequences)
                &&& block.execute_all(start, sequences) matches Ok(y)
                &&& y.reps == after
                &&& block.finish(y) == Ok::<Seq<u8>, Error>(bytes)
            }
            &&& decoded matches Ok(sequences) ==> (block.execute_all(start, sequences) matches Ok(y)
                ==> (block.finish(y) matches Ok(bytes) ==> (bytes.len() - out.len()
                <= block_size_max && bytes.len() - out.len() <= limit.room(out.len())->Ok_0
                ==> result == Ok::<(Seq<u8>, RepeatOffsets), Error>((bytes, y.reps)))))
        }),
{
    let t = kept.tables();
    let start = Executing { out, used: 0, reps };
    let budget = Budget::of_block(limit, out.len(), block_size_max);
    if bitstream.len() > 0 && bitstream.last() != 0 {
        let first = Reading::start(bitstream);
        lemma_pow2_pos(first.bits.len);
        lemma_mod_bound(bits::bytes_value(bitstream) as int, pow2(first.bits.len) as int);
        decode::lemma_start(t, bitstream);
        lemma_run(block, budget, t, Decoding::start(t, bitstream), n, 0, start);
        let decoded = decode::stream_sequences(t, bitstream, n);
        if decoded is Ok {
            let all = block.execute_all(start, decoded->Ok_0);
            if all is Ok {
                lemma_execute_all_grows(block, start, decoded->Ok_0);
            }
        }
    }
}

/// A section that was written for a list of sequences has the effect of the
/// list: reading its header and decoding and executing it in one pass gives
/// the bytes and the repeat offsets that executing the list gives, wherever the
/// limits allow them.
pub proof fn law_written_section_executes(
    bytes: Seq<u8>,
    plan: SectionPlan,
    sequences: Seq<SequenceCommand>,
    state: KeptState,
    before: KeptTables,
    block: Block,
    limit: OutputLimit,
    block_size_max: nat,
    out: Seq<u8>,
    reps: RepeatOffsets,
)
    requires
        0 < sequences.len() < SEQUENCE_COUNT_END,
        stream::all_encodable(sequences),
        decode::match_bytes(sequences) <= usize::MAX,
        crate::sequence::write::plan_sound(plan, stream::all_coded(sequences), state),
        crate::sequence::write::section_bytes(bytes, plan, stream::all_coded(sequences)),
        crate::sequence::write::agree(state, before),
        limit.room(out.len()) is Ok,
        block_size_max <= usize::MAX,
        block.literals.len() <= usize::MAX,
    ensures
        ({
            let start = Executing { out, used: 0, reps };
            let header = section::section_header(bytes, before);
            &&& header is Ok
            &&& block.execute_all(start, sequences) matches Ok(y) ==> (block.finish(y) matches Ok(
                result,
            ) ==> (result.len() - out.len() <= block_size_max && result.len() - out.len()
                <= limit.room(out.len())->Ok_0 ==> fused::block_output(
                block,
                limit,
                block_size_max,
                header->Ok_0.kept,
                header->Ok_0.count,
                bytes.skip(header->Ok_0.size as int),
                out,
                reps,
            ) == Ok::<(Seq<u8>, RepeatOffsets), Error>((result, y.reps))))
        }),
{
    crate::sequence::write::law_section_roundtrip(bytes, plan, sequences, state, before);
    let ct = choose|ct: EncodeTables| #[trigger]
        plan.sources().paired(ct) && bytes == plan.header(sequences.len()) + bits::marked_bytes(
            stream::stream_encoding(ct, stream::all_coded(sequences)),
        );
    stream::lemma_source_table_wf(SequencePart::LiteralLength, plan.sources().ll);
    stream::lemma_source_table_wf(SequencePart::Offset, plan.sources().of);
    stream::lemma_source_table_wf(SequencePart::MatchLength, plan.sources().ml);
    let header = section::section_header(bytes, before)->Ok_0;
    law_one_pass_is_decode_then_execute(
        block,
        limit,
        block_size_max,
        header.kept,
        header.count,
        bytes.skip(header.size as int),
        out,
        reps,
    );
}

} // verus!
