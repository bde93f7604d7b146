//! Laws of executing sequences: what a match can reach and what it copies,
//! what a sequence adds to the output, and what a block comes to.

use crate::error::Error;
use crate::sequence::decode;
use crate::sequence::decode::Decoding;
use crate::sequence::execute;
use crate::sequence::execute::{Block, Executing, Place};
use crate::sequence::fused;
use crate::sequence::fused::{Budget, OutputLimit};
use crate::sequence::repeat::{RepeatOffsets, SequenceCommand};
use crate::sequence::section::{KeptTables, Tables};
use vstd::prelude::*;

verus! {

// ---------------------------------------------------------------------------
// Matches.

/// As long as no more than a window was produced in the frame, a match may
/// start anywhere in the dictionary and in what was produced, however small the
/// window is. It copies what stands there.
pub proof fn law_dictionary_is_in_reach(
    place: Place,
    capacity: Option<nat>,
    out: Seq<u8>,
    offset: nat,
    length: nat,
)
    requires
        place.dictionary is Some,
        place.frame_start <= out.len(),
        out.len() - place.frame_start <= place.window,
        0 < offset <= place.dictionary->0.len() + (out.len() - place.frame_start),
        place.dictionary->0.len() + (out.len() - place.frame_start) <= usize::MAX,
        capacity matches Some(c) ==> out.len() + length <= c,
    ensures
        place.matched(capacity, out, offset, length) == Ok::<Seq<u8>, Error>(
            out + execute::match_copy(
                place.dictionary->0 + out.skip(place.frame_start as int),
                offset,
                length,
            ),
        ),
{
}

/// A match reaches back at most a window and at most to the start of the
/// frame; with a dictionary it reaches that as well, until more than a window
/// was produced. Nothing else is in reach, and what is not in reach is refused
/// as damage, whatever room there is.
pub proof fn law_reach_of_a_match(
    place: Place,
    capacity: Option<nat>,
    out: Seq<u8>,
    offset: nat,
    length: nat,
)
    requires
        place.frame_start <= out.len(),
        offset > 0,
        place.dictionary matches Some(d) ==> d.len() + (out.len() - place.frame_start)
            <= usize::MAX,
    ensures
        ({
            let produced = out.len() - place.frame_start;
            let reached = offset <= produced && offset <= place.window || (place.dictionary is Some
                && produced <= place.window && offset <= produced + place.dictionary->0.len());
            &&& !reached ==> place.matched(capacity, out, offset, length) == Err::<Seq<u8>, Error>(
                Error::Corruption("sequence offset exceeds the available history window"),
            )
            &&& reached && capacity is None ==> place.matched(capacity, out, offset, length) is Ok
            &&& reached ==> (capacity matches Some(c) ==> (place.matched(
                capacity,
                out,
                offset,
                length,
            ) is Ok <==> out.len() + length <= c))
            &&& reached && place.matched(capacity, out, offset, length) is Err ==> place.matched(
                capacity,
                out,
                offset,
                length,
            ) == Err::<Seq<u8>, Error>(Error::DstSizeTooSmall)
        }),
{
}

/// A match adds as many bytes as it is long, behind all that was there. Every
/// one of them is the byte that stands `offset` places before it, in the frame
/// so far with the dictionary in front.
pub proof fn law_match_repeats_what_stands_back(
    place: Place,
    capacity: Option<nat>,
    out: Seq<u8>,
    offset: nat,
    length: nat,
    i: int,
)
    requires
        place.frame_start <= out.len(),
        offset > 0,
        place.matched(capacity, out, offset, length) is Ok,
        0 <= i < length,
    ensures
        ({
            let new = place.matched(capacity, out, offset, length)->Ok_0;
            let front = match place.dictionary {
                Some(d) => d,
                None => Seq::<u8>::empty(),
            };
            let now = front + new.skip(place.frame_start as int);
            let at = front.len() + (out.len() - place.frame_start) + i;
            &&& new.len() == out.len() + length
            &&& new.take(out.len() as int) == out
            &&& 0 <= at - offset
            &&& now[at] == now[at - offset]
        }),
{
    let new = place.matched(capacity, out, offset, length)->Ok_0;
    let front = match place.dictionary {
        Some(d) => d,
        None => Seq::<u8>::empty(),
    };
    let past = front + out.skip(place.frame_start as int);
    assert(past =~= place.history(out));
    execute::law_match_repeats(past, offset, length, i);
    assert(new.take(out.len() as int) =~= out);
    assert(front + new.skip(place.frame_start as int) =~= past + execute::match_copy(
        past,
        offset,
        length,
    ));
}

// ---------------------------------------------------------------------------
// Repeat offsets.

/// A value above three is an offset, less three. It becomes the most recent
/// one, and the oldest is forgotten.
pub proof fn law_explicit_offset(reps: RepeatOffsets, literal_length: u32, offset_value: u32)
    requires
        offset_value > 3,
    ensures
        reps.resolution(literal_length, offset_value) == Ok::<(u32, RepeatOffsets), Error>(
            (
                (offset_value - 3) as u32,
                RepeatOffsets {
                    first: (offset_value - 3) as u32,
                    second: reps.first,
                    third: reps.second,
                },
            ),
        ),
{
}

/// Behind literals the values from one to three name the remembered offsets,
/// the most recent one first. The one that is used becomes the most recent,
/// and the others keep their order.
pub proof fn law_repeat_behind_literals(reps: RepeatOffsets, literal_length: u32)
    requires
        literal_length > 0,
    ensures
        reps.resolution(literal_length, 1) == Ok::<(u32, RepeatOffsets), Error>((reps.first, reps)),
        reps.resolution(literal_length, 2) == Ok::<(u32, RepeatOffsets), Error>(
            (
                reps.second,
                RepeatOffsets { first: reps.second, second: reps.first, third: reps.third },
            ),
        ),
        reps.resolution(literal_length, 3) == Ok::<(u32, RepeatOffsets), Error>(
            (
                reps.third,
                RepeatOffsets { first: reps.third, second: reps.first, third: reps.second },
            ),
        ),
{
}

/// Without literals the most recent offset would only carry the match before
/// on. So the values name the second, the third, and the first less one, which
/// must not come to zero.
pub proof fn law_repeat_without_literals(reps: RepeatOffsets)
    ensures
        reps.resolution(0, 1) == Ok::<(u32, RepeatOffsets), Error>(
            (
                reps.second,
                RepeatOffsets { first: reps.second, second: reps.first, third: reps.third },
            ),
        ),
        reps.resolution(0, 2) == Ok::<(u32, RepeatOffsets), Error>(
            (
                reps.third,
                RepeatOffsets { first: reps.third, second: reps.first, third: reps.second },
            ),
        ),
        reps.first > 1 ==> reps.resolution(0, 3) == Ok::<(u32, RepeatOffsets), Error>(
            (
                (reps.first - 1) as u32,
                RepeatOffsets {
                    first: (reps.first - 1) as u32,
                    second: reps.first,
                    third: reps.second,
                },
            ),
        ),
        reps.first <= 1 ==> reps.resolution(0, 3) is Err,
        forall|literal_length: u32| #[trigger] reps.resolution(literal_length, 0) is Err,
{
}

/// An encoder names an offset by the smallest value that stands for it, and
/// writes it out only where no smaller value does.
pub proof fn law_offset_value_is_smallest(
    reps: RepeatOffsets,
    raw_offset: u32,
    literal_length: u32,
    other: u32,
)
    requires
        raw_offset > 0,
        reps.expressible(raw_offset, literal_length),
        reps.resolution(literal_length, other) matches Ok((o, _)) && o == raw_offset,
    ensures
        reps.classification(raw_offset, literal_length) <= other,
        reps.resolution(literal_length, reps.classification(raw_offset, literal_length)) matches Ok(
            (o, after),
        ) && o == raw_offset && after == reps.after_use(raw_offset, literal_length),
{
}

// ---------------------------------------------------------------------------
// Sequences.

/// A sequence adds its literals, the next ones that are unused, and behind
/// them its match, whose bytes stand as far back as the offset that is the
/// most recent one afterwards.
pub proof fn law_sequence_adds_literals_and_match(
    block: Block,
    x: Executing,
    s: SequenceCommand,
    i: int,
)
    requires
        block.place.frame_start <= x.out.len(),
        x.reps.wf(),
        block.execute(x, s) is Ok,
        0 <= i < s.match_length,
    ensures
        ({
            let y = block.execute(x, s)->Ok_0;
            let front = match block.place.dictionary {
                Some(d) => d,
                None => Seq::<u8>::empty(),
            };
            let now = front + y.out.skip(block.place.frame_start as int);
            let at = now.len() - s.match_length + i;
            &&& y.used == x.used + s.literal_length <= block.literals.len()
            &&& y.out.len() == x.out.len() + s.literal_length + s.match_length
            &&& y.out.take(x.out.len() as int) == x.out
            &&& y.out.subrange(x.out.len() as int, x.out.len() + s.literal_length)
                == block.literals.subrange(x.used as int, y.used as int)
            &&& 0 < y.reps.first <= at
            &&& now[at] == now[at - y.reps.first]
        }),
{
    let y = block.execute(x, s)->Ok_0;
    let (offset, reps) = x.reps.resolution(s.literal_length, s.offset_value)->Ok_0;
    let middle = block.put_literals(x.out, x.used, s.literal_length as nat)->Ok_0;
    let front = match block.place.dictionary {
        Some(d) => d,
        None => Seq::<u8>::empty(),
    };
    law_match_repeats_what_stands_back(
        block.place,
        block.capacity,
        middle,
        offset as nat,
        s.match_length as nat,
        i,
    );
    assert(y.reps.first == offset);
    assert(y.out.take(x.out.len() as int) =~= x.out) by {
        assert(y.out.take(middle.len() as int) == middle);
        assert forall|k: int| 0 <= k < x.out.len() implies y.out[k] == x.out[k] by {
            assert(y.out.take(middle.len() as int)[k] == middle[k]);
        }
    }
    assert(y.out.subrange(x.out.len() as int, x.out.len() + s.literal_length)
        =~= block.literals.subrange(x.used as int, y.used as int)) by {
        assert forall|k: int| x.out.len() <= k < middle.len() implies y.out[k] == middle[k] by {
            assert(y.out.take(middle.len() as int)[k] == middle[k]);
        }
    }
}

/// A sequence without a match to copy adds its literals alone.
pub proof fn law_sequence_of_literals(block: Block, x: Executing, s: SequenceCommand)
    requires
        block.place.frame_start <= x.out.len(),
        block.execute(x, s) is Ok,
        s.match_length == 0,
    ensures
        block.execute(x, s)->Ok_0.out == x.out + block.literals.subrange(
            x.used as int,
            x.used + s.literal_length,
        ),
        block.execute(x, s)->Ok_0.used == x.used + s.literal_length,
{
    let middle = block.put_literals(x.out, x.used, s.literal_length as nat)->Ok_0;
    let y = block.execute(x, s)->Ok_0;
    assert(y.out =~= middle);
}

/// Lists are executed one sequence after the other: a list that is made of two
/// is executed as the one and then the other.
pub proof fn law_lists_are_executed_in_order(
    block: Block,
    x: Executing,
    a: Seq<SequenceCommand>,
    b: Seq<SequenceCommand>,
)
    ensures
        block.execute_all(x, a + b) == (match block.execute_all(x, a) {
            Ok(y) => block.execute_all(y, b),
            Err(e) => Err::<Executing, Error>(e),
        }),
        block.execute_all(x, Seq::<SequenceCommand>::empty()) == Ok::<Executing, Error>(x),
        forall|s: SequenceCommand|
            #[trigger] block.execute_all(x, seq![s]) == block.execute(x, s),
    decreases a.len(),
{
    assert forall|s: SequenceCommand| #[trigger] block.execute_all(x, seq![s]) == block.execute(
        x,
        s,
    ) by {
        reveal_with_fuel(Block::execute_all, 2);
        assert(seq![s].drop_first() =~= Seq::<SequenceCommand>::empty());
    }
    if a.len() == 0 {
        assert(a + b =~= b);
    } else {
        assert((a + b)[0] == a[0]);
        assert((a + b).drop_first() =~= a.drop_first() + b);
        if block.execute(x, a[0]) is Ok {
            law_lists_are_executed_in_order(block, block.execute(x, a[0])->Ok_0, a.drop_first(), b);
        }
    }
}

/// A block comes to what was there, all its literals, and its matches: the
/// literals that no sequence uses stand at the end.
pub proof fn law_block_comes_to_literals_and_matches(
    block: Block,
    x: Executing,
    sequences: Seq<SequenceCommand>,
)
    requires
        x.used <= block.literals.len(),
        block.execute_all(x, sequences) is Ok,
        block.finish(block.execute_all(x, sequences)->Ok_0) is Ok,
    ensures
        ({
            let y = block.execute_all(x, sequences)->Ok_0;
            let bytes = block.finish(y)->Ok_0;
            &&& bytes.len() == x.out.len() + (block.literals.len() - x.used) + decode::match_bytes(
                sequences,
            )
            &&& bytes == y.out + block.literals.skip(y.used as int)
            &&& x.used <= y.used <= block.literals.len()
        }),
    decreases sequences.len(),
{
    let y = block.execute_all(x, sequences)->Ok_0;
    if sequences.len() > 0 {
        let next = block.execute(x, sequences[0])->Ok_0;
        law_block_comes_to_literals_and_matches(block, next, sequences.drop_first());
    } else {
        assert(block.literals.subrange(x.used as int, block.literals.len() as int)
            =~= block.literals.skip(x.used as int));
    }
}

// ---------------------------------------------------------------------------
// Limits.

/// A block is let through exactly where its size is within the frame's block
/// size and the whole output within the caller's limit; one that is too large
/// for the frame is damaged, and the other error tells the size.
pub proof fn law_block_size_limits(
    out_len: nat,
    literals: nat,
    matched: nat,
    block_size_max: nat,
    max_output_size: Option<usize>,
)
    requires
        out_len + literals + matched <= usize::MAX,
    ensures
        ({
            let r = execute::size_error(
                out_len,
                literals,
                matched,
                block_size_max,
                max_output_size,
            );
            &&& r is None <==> literals + matched <= block_size_max && (max_output_size matches Some(
                m,
            ) ==> out_len + literals + matched <= m)
            &&& literals + matched > block_size_max ==> r == Some(
                Error::Corruption("compressed block output exceeds the frame block size limit"),
            )
            &&& r is Some && literals + matched <= block_size_max ==> r == Some(
                Error::OutputSizeTooLarge {
                    output_size: (out_len + literals + matched) as u64,
                    max_output_size: max_output_size->0,
                },
            )
        }),
{
}

/// What a limit leaves and what was produced, before and in this output, come
/// to the limit. An output over the limit is refused.
pub proof fn law_room_fills_the_limit(limit: OutputLimit, out_len: nat)
    requires
        limit.produced_before + out_len <= u64::MAX,
    ensures
        limit.max_output_size is None ==> limit.room(out_len) == Ok::<nat, Error>(
            usize::MAX as nat,
        ),
        limit.max_output_size matches Some(max) ==> {
            &&& limit.room(out_len) is Ok <==> limit.produced_before + out_len <= max
            &&& limit.room(out_len) matches Ok(room) ==> limit.produced_before + out_len + room
                == max
            &&& limit.room(out_len) matches Err(e) ==> e == (Error::OutputSizeTooLarge {
                output_size: (limit.produced_before + out_len) as u64,
                max_output_size: max,
            })
        },
{
}

/// A block may produce as much as the frame's block size and the caller's
/// limit both allow, counted from where the block started.
pub proof fn law_budget_is_the_smaller_limit(
    limit: OutputLimit,
    start: nat,
    block_size_max: nat,
    out_len: nat,
    additional: nat,
)
    requires
        limit.room(start) is Ok,
        start <= out_len,
        out_len + additional <= usize::MAX,
        limit.produced_before + out_len + additional <= u64::MAX,
    ensures
        Budget::of_block(limit, start, block_size_max).error(out_len, additional) is None <==> {
            &&& out_len + additional <= start + block_size_max
            &&& limit.max_output_size matches Some(max) ==> limit.produced_before + out_len
                + additional <= max
        },
        out_len + additional > start + block_size_max ==> Budget::of_block(
            limit,
            start,
            block_size_max,
        ).error(out_len, additional) == Some(
            Error::Corruption("compressed block output exceeds the frame block size limit"),
        ),
{
}

/// A sequence is executed within a budget exactly where it would be executed
/// without one and the budget allows what it adds.
pub proof fn law_budget_only_refuses(
    block: Block,
    budget: Budget,
    x: Executing,
    s: SequenceCommand,
)
    requires
        block.literals.len() <= usize::MAX,
    ensures
        ({
            let within = budget.error(
                x.out.len(),
                s.literal_length as nat + s.match_length as nat,
            ) is None;
            &&& within && block.execute(x, s) is Ok ==> fused::execute_one(block, budget, x, s)
                == block.execute(x, s)
            &&& fused::execute_one(block, budget, x, s) is Ok ==> within && block.execute(x, s)
                == fused::execute_one(block, budget, x, s)
        }),
{
}

proof fn lemma_run_grows(
    block: Block,
    budget: Budget,
    t: Tables,
    d: Decoding,
    n: nat,
    x: Executing,
)
    requires
        fused::run(block, budget, t, d, n, x) is Ok,
        x.used <= block.literals.len(),
    ensures
        x.out.len() <= fused::run(block, budget, t, d, n, x)->Ok_0.out.len(),
        fused::run(block, budget, t, d, n, x)->Ok_0.used <= block.literals.len(),
    decreases n,
{
    if n > 1 {
        let (s, r) = d.sequence(t);
        let y = fused::execute_one(block, budget, x, s)->Ok_0;
        lemma_run_grows(block, budget, t, d.next(t, r), (n - 1) as nat, y);
    }
}

/// A block that is decoded and executed in one pass stays within the frame's
/// block size and within the caller's limit.
pub proof fn law_one_pass_stays_within_the_limits(
    block: Block,
    limit: OutputLimit,
    block_size_max: nat,
    kept: KeptTables,
    n: nat,
    bitstream: Seq<u8>,
    out: Seq<u8>,
    reps: RepeatOffsets,
)
    requires
        fused::block_output(block, limit, block_size_max, kept, n, bitstream, out, reps) is Ok,
    ensures
        ({
            let (bytes, _) = fused::block_output(
                block,
                limit,
                block_size_max,
                kept,
                n,
                bitstream,
                out,
                reps,
            )->Ok_0;
            &&& out.len() <= bytes.len() <= out.len() + block_size_max
            &&& limit.max_output_size matches Some(max) ==> limit.produced_before + out.len()
                <= u64::MAX ==> limit.produced_before + bytes.len() <= max
            &&& block.capacity matches Some(c) ==> bytes.len() <= c
        }),
{
    let budget = Budget::of_block(limit, out.len(), block_size_max);
    let start = Executing { out, used: 0, reps };
    if n > 0 {
        let t = kept.tables();
        lemma_run_grows(block, budget, t, Decoding::start(t, bitstream), n, start);
    }
}

// ---------------------------------------------------------------------------
// Failures.

/// What was there stays: a match that fails leaves the output as it was, or
/// with the part of it that the dictionary holds, where that part fits.
pub proof fn law_failed_match_keeps_the_output(
    place: Place,
    capacity: Option<nat>,
    out: Seq<u8>,
    offset: nat,
    length: nat,
)
    requires
        place.frame_start <= out.len(),
        offset > 0,
        place.matched(capacity, out, offset, length) is Err,
    ensures
        ({
            let after = place.left(capacity, out, offset, length);
            let first = offset - (out.len() - place.frame_start);
            &&& place.dictionary is None ==> after == out
            &&& place.matched(capacity, out, offset, length)->Err_0 is Corruption ==> after == out
            &&& after == out || (place.dictionary matches Some(d) && 0 < first < length && first
                <= d.len() && after == out + d.subrange(d.len() - first, d.len() as int))
            &&& capacity matches Some(c) ==> out.len() <= c ==> after.len() <= c
        }),
{
    let first = offset - (out.len() - place.frame_start);
    if let Some(d) = place.dictionary {
        if place.offset_error(out, offset) is None && 0 < first {
            assert(d.skip(d.len() - first) =~= d.subrange(d.len() - first, d.len() as int));
        }
    }
}

/// A sequence that fails in a list leaves what the sequences before it made:
/// nothing of it where its offset value stands for nothing, and otherwise its
/// literals, as far as they are there and fit.
pub proof fn law_failed_sequence_keeps_the_output(
    block: Block,
    x: Executing,
    a: Seq<SequenceCommand>,
    s: SequenceCommand,
    b: Seq<SequenceCommand>,
)
    requires
        block.execute_all(x, a) is Ok,
        block.execute(block.execute_all(x, a)->Ok_0, s) is Err,
    ensures
        ({
            let y = block.execute_all(x, a)->Ok_0;
            let after = block.left_all(x, a + seq![s] + b);
            &&& block.execute_all(x, a + seq![s] + b) is Err
            &&& block.execute_all(x, a + seq![s] + b)->Err_0 == block.execute(y, s)->Err_0
            &&& y.reps.resolution(s.literal_length, s.offset_value) is Err ==> after == y
            &&& y.reps.resolution(s.literal_length, s.offset_value) matches Ok((_, reps)) ==> {
                &&& after.reps == reps
                &&& y.used + s.literal_length > block.literals.len() ==> after.out == y.out
            }
        }),
    decreases a.len(),
{
    let all = a + seq![s] + b;
    if a.len() == 0 {
        assert(all[0] == s);
        assert(block.execute_all(x, a) == Ok::<Executing, Error>(x));
    } else {
        assert(all[0] == a[0]);
        assert(all.drop_first() =~= a.drop_first() + seq![s] + b);
        law_failed_sequence_keeps_the_output(
            block,
            block.execute(x, a[0])->Ok_0,
            a.drop_first(),
            s,
            b,
        );
    }
}

/// One pass takes the sequences in turn: each is executed before the bits of
/// the next are looked at. Bits that are missing between two sequences, and
/// bits that are left behind the last one, are damage.
pub proof fn law_one_pass_steps(
    block: Block,
    budget: Budget,
    t: Tables,
    d: Decoding,
    n: nat,
    x: Executing,
)
    requires
        n > 0,
    ensures
        ({
            let (s, r) = d.sequence(t);
            let one = fused::execute_one(block, budget, x, s);
            let all = fused::run(block, budget, t, d, n, x);
            &&& one matches Err(e) ==> all is Err && all->Err_0 == e
            &&& one is Ok && n == 1 ==> (all is Ok <==> !r.overflow() && r.bits.len == 0)
            &&& one is Ok && n == 1 && all is Err ==> all->Err_0 == Error::Corruption(
                "sequence bitstream was not fully consumed",
            )
            &&& one is Ok && n > 1 && d.next(t, r).reading.overflow() ==> all is Err && all->Err_0
                == Error::Corruption("sequence bitstream overflow")
            &&& one is Ok && n > 1 && !d.next(t, r).reading.overflow() ==> all == fused::run(
                block,
                budget,
                t,
                d.next(t, r),
                (n - 1) as nat,
                one->Ok_0,
            )
        }),
{
}

/// The literals that are left are copied within the budget, and the block is
/// done.
pub proof fn law_rest_is_copied_within_the_budget(
    block: Block,
    budget: Budget,
    x: Executing,
)
    requires
        x.used <= block.literals.len(),
    ensures
        ({
            let left = (block.literals.len() - x.used) as nat;
            let r = fused::finish(block, budget, x);
            &&& budget.error(x.out.len(), left) is Some ==> r is Err
            &&& budget.error(x.out.len(), left) is None && (block.capacity matches Some(c)
                ==> x.out.len() + left <= c) ==> r is Ok && r->Ok_0 == x.out
                + block.literals.skip(x.used as int)
            &&& budget.error(x.out.len(), left) is None && (block.capacity matches Some(c) && c
                < x.out.len() + left) ==> r is Err && r->Err_0 == Error::DstSizeTooSmall
        }),
{
    assert(block.literals.subrange(x.used as int, block.literals.len() as int)
        =~= block.literals.skip(x.used as int));
}

/// What was produced counts what the output no longer holds; a number too
/// large for a word counts as the largest.
pub proof fn law_produced_counts_everything(limit: OutputLimit, out_len: nat)
    ensures
        limit.produced_before + out_len <= u64::MAX ==> limit.total(out_len)
            == limit.produced_before + out_len,
        limit.produced_before + out_len > u64::MAX ==> limit.total(out_len) == u64::MAX,
{
}

} // verus!
