//! Repeat offsets: the three offsets used last, which a sequence can name by
//! a number from one to three in place of an offset.

use crate::error::{Error, Result};
use crate::sequence::codes;
use vstd::prelude::*;

verus! {

/// One sequence: how many literals to copy, then where to copy a match from,
/// and how much of it.
#[derive(Debug, Clone, Copy, PartialEq, Eq, Structural)]
pub struct SequenceCommand {
    pub literal_length: u32,
    pub offset_value: u32,
    pub match_length: u32,
}

/// The three offsets used last, the most recent one first.
#[derive(Debug, Clone, Copy, PartialEq, Eq, Structural)]
pub struct RepeatOffsets {
    pub first: u32,
    pub second: u32,
    pub third: u32,
}

impl Default for RepeatOffsets {
    fn default() -> (r: RepeatOffsets)
        ensures
            r == (RepeatOffsets { first: 1, second: 4, third: 8 }),
            r.wf(),
    {
        RepeatOffsets { first: 1, second: 4, third: 8 }
    }
}

/// The offset value of an offset that is written out.
pub open spec fn explicit_value(raw_offset: u32) -> u32 {
    (raw_offset + 3) as u32
}

impl RepeatOffsets {
    /// No remembered offset is zero.
    pub open spec fn wf(self) -> bool {
        self.first > 0 && self.second > 0 && self.third > 0
    }

    /// The offsets after `offset` was used: it moves, or comes, to the front.
    pub open spec fn use_offset(self, offset: u32, rank: int) -> RepeatOffsets {
        if rank == 1 {
            self
        } else if rank == 2 {
            RepeatOffsets { first: offset, second: self.first, third: self.third }
        } else {
            RepeatOffsets { first: offset, second: self.first, third: self.second }
        }
    }

    /// Which remembered offset an offset value names: the first, the second,
    /// the third, or, as the fourth, the first less one. Without literals the
    /// first would repeat the previous match, so the count starts later.
    pub open spec fn rank_of(literal_length: u32, offset_value: u32) -> int {
        offset_value as int + if literal_length == 0 {
            1int
        } else {
            0
        }
    }

    /// What an offset value stands for, and the offsets remembered after it.
    pub open spec fn resolution(self, literal_length: u32, offset_value: u32) -> Result<
        (u32, RepeatOffsets),
    > {
        if offset_value == 0 {
            Err(Error::Corruption("sequence offset value is zero"))
        } else if offset_value > 3 {
            let offset = (offset_value - 3) as u32;
            Ok((offset, self.use_offset(offset, 4)))
        } else {
            let rank = RepeatOffsets::rank_of(literal_length, offset_value);
            if rank == 1 {
                Ok((self.first, self))
            } else if rank == 2 {
                Ok((self.second, self.use_offset(self.second, 2)))
            } else if rank == 3 {
                Ok((self.third, self.use_offset(self.third, 3)))
            } else if self.first <= 1 {
                Err(Error::Corruption("repeat offset 1 minus 1 is zero"))
            } else {
                let offset = (self.first - 1) as u32;
                Ok((offset, self.use_offset(offset, 4)))
            }
        }
    }

    /// The value by which an encoder names an offset: the number of a
    /// remembered one where there is one.
    pub open spec fn classification(self, raw_offset: u32, literal_length: u32) -> u32 {
        let start = if literal_length == 0 {
            1int
        } else {
            0
        };
        if literal_length != 0 && raw_offset == self.first {
            1
        } else if raw_offset == self.second {
            (2 - start) as u32
        } else if raw_offset == self.third {
            (3 - start) as u32
        } else if literal_length == 0 && self.first > 1 && raw_offset == self.first - 1 {
            3
        } else {
            explicit_value(raw_offset)
        }
    }

    /// An offset is a remembered one, or a value is left to write it out.
    pub open spec fn expressible(self, raw_offset: u32, literal_length: u32) -> bool {
        ||| raw_offset <= u32::MAX - 3
        ||| literal_length != 0 && raw_offset == self.first
        ||| raw_offset == self.second
        ||| raw_offset == self.third
        ||| literal_length == 0 && self.first > 1 && raw_offset == self.first - 1
    }

    /// The offsets remembered after an encoder used one.
    pub open spec fn after_use(self, raw_offset: u32, literal_length: u32) -> RepeatOffsets {
        if literal_length != 0 && raw_offset == self.first {
            self
        } else if raw_offset == self.second {
            self.use_offset(raw_offset, 2)
        } else {
            self.use_offset(raw_offset, 3)
        }
    }

    /// The offsets from an array, the most recent one first.
    pub fn from_values(values: [u32; 3]) -> (r: RepeatOffsets)
        ensures
            r.first == values@[0],
            r.second == values@[1],
            r.third == values@[2],
    {
        RepeatOffsets { first: values[0], second: values[1], third: values[2] }
    }

    /// The offsets as an array, the most recent one first.
    pub fn values(self) -> (r: [u32; 3])
        ensures
            r@ == seq![self.first, self.second, self.third],
    {
        let r: [u32; 3] = [self.first, self.second, self.third];
        proof {
            assert(r@ =~= seq![self.first, self.second, self.third]);
        }
        r
    }

    /// The value that names an offset, without remembering it.
    pub fn classify_offset(&self, raw_offset: u32, literal_length: u32) -> (r: u32)
        requires
            0 < raw_offset,
            self.expressible(raw_offset, literal_length),
        ensures
            r == self.classification(raw_offset, literal_length),
    {
        let ll_zero: bool = literal_length == 0;
        if !ll_zero && raw_offset == self.first {
            return 1;
        }
        if raw_offset == self.second {
            return if ll_zero {
                1
            } else {
                2
            };
        }
        if raw_offset == self.third {
            return if ll_zero {
                2
            } else {
                3
            };
        }
        if ll_zero && self.first > 1 && raw_offset == self.first - 1 {
            return 3;
        }
        raw_offset + 3
    }

    /// The value that names an offset; the offset is remembered.
    pub fn encode_offset_value_and_update(&mut self, raw_offset: u32, literal_length: u32) -> (r:
        u32)
        requires
            0 < raw_offset,
            old(self).expressible(raw_offset, literal_length),
        ensures
            r == old(self).classification(raw_offset, literal_length),
            *final(self) == old(self).after_use(raw_offset, literal_length),
            old(self).wf() ==> final(self).wf(),
    {
        let value: u32 = self.classify_offset(raw_offset, literal_length);
        if literal_length != 0 && raw_offset == self.first {
            return value;
        }
        if raw_offset == self.second {
            *self = RepeatOffsets {
                first: raw_offset,
                second: self.first,
                third: self.third,
            };
        } else {
            *self = RepeatOffsets {
                first: raw_offset,
                second: self.first,
                third: self.second,
            };
        }
        value
    }

    /// The value of an offset that is known not to be remembered; it is from
    /// now on.
    pub fn update_explicit_offset(&mut self, raw_offset: u32) -> (r: u32)
        requires
            0 < raw_offset <= u32::MAX - 3,
        ensures
            r == explicit_value(raw_offset),
            *final(self) == old(self).use_offset(raw_offset, 4),
            old(self).wf() ==> final(self).wf(),
    {
        *self = RepeatOffsets { first: raw_offset, second: self.first, third: self.second };
        raw_offset + 3
    }

    /// The value that names an offset; the offset is remembered. An offset of
    /// zero is refused.
    pub fn encode_offset_value(&mut self, raw_offset: u32, literal_length: u32) -> (r: Result<u32>)
        requires
            old(self).expressible(raw_offset, literal_length),
        ensures
            raw_offset == 0 ==> r == Err::<u32, Error>(
                Error::InvalidParameter("raw_offset must be non-zero"),
            ) && *final(self) == *old(self),
            raw_offset > 0 ==> r == Ok::<u32, Error>(
                old(self).classification(raw_offset, literal_length),
            ) && *final(self) == old(self).after_use(raw_offset, literal_length),
            old(self).wf() ==> final(self).wf(),
    {
        if raw_offset == 0 {
            return Err(Error::InvalidParameter("raw_offset must be non-zero"));
        }
        Ok(self.encode_offset_value_and_update(raw_offset, literal_length))
    }

    /// What an offset value stands for; the offset is remembered.
    pub fn resolve_values(&mut self, literal_length: u32, offset_value: u32) -> (r: Result<u32>)
        ensures
            match old(self).resolution(literal_length, offset_value) {
                Ok((offset, after)) => r == Ok::<u32, Error>(offset) && *final(self) == after,
                Err(e) => r == Err::<u32, Error>(e) && *final(self) == *old(self),
            },
            old(self).wf() ==> final(self).wf(),
            old(self).wf() && r is Ok ==> r->Ok_0 > 0,
    {
        if offset_value > 3 {
            let offset: u32 = offset_value - 3;
            *self = RepeatOffsets { first: offset, second: self.first, third: self.second };
            return Ok(offset);
        }
        if offset_value == 0 {
            return Err(Error::Corruption("sequence offset value is zero"));
        }
        let rank: u32 = if literal_length == 0 {
            offset_value + 1
        } else {
            offset_value
        };
        let offset: u32 = if rank == 1 {
            self.first
        } else if rank == 2 {
            self.second
        } else if rank == 3 {
            self.third
        } else {
            if self.first <= 1 {
                return Err(Error::Corruption("repeat offset 1 minus 1 is zero"));
            }
            self.first - 1
        };
        if rank > 1 {
            let third: u32 = if rank == 2 {
                self.third
            } else {
                self.second
            };
            *self = RepeatOffsets { first: offset, second: self.first, third };
        }
        Ok(offset)
    }

    /// What a sequence's offset value stands for; the offset is remembered.
    pub fn resolve(&mut self, sequence: &SequenceCommand) -> (r: Result<u32>)
        ensures
            match old(self).resolution(sequence.literal_length, sequence.offset_value) {
                Ok((offset, after)) => r == Ok::<u32, Error>(offset) && *final(self) == after,
                Err(e) => r == Err::<u32, Error>(e) && *final(self) == *old(self),
            },
            old(self).wf() ==> final(self).wf(),
            old(self).wf() && r is Ok ==> r->Ok_0 > 0,
    {
        self.resolve_values(sequence.literal_length, sequence.offset_value)
    }

    /// What an offset value stands for, where it is known to stand for
    /// something; the offset is remembered.
    pub fn resolve_encode(&mut self, literal_length: u32, offset_value: u32) -> (r: u32)
        requires
            old(self).resolution(literal_length, offset_value) is Ok,
        ensures
            old(self).resolution(literal_length, offset_value) == Ok::<(u32, RepeatOffsets), Error>(
                (r, *final(self)),
            ),
            old(self).wf() ==> final(self).wf(),
    {
        if offset_value > 3 {
            let offset: u32 = offset_value - 3;
            *self = RepeatOffsets { first: offset, second: self.first, third: self.second };
            return offset;
        }
        let rank: u32 = if literal_length == 0 {
            offset_value + 1
        } else {
            offset_value
        };
        let offset: u32 = if rank == 1 {
            self.first
        } else if rank == 2 {
            self.second
        } else if rank == 3 {
            self.third
        } else {
            self.first - 1
        };
        if rank > 1 {
            let third: u32 = if rank == 2 {
                self.third
            } else {
                self.second
            };
            *self = RepeatOffsets { first: offset, second: self.first, third };
        }
        offset
    }

    /// The second offset, which the value one names where there are no
    /// literals. A zero is refused.
    pub fn resolve_zero_literal_rep2(&mut self) -> (r: Result<u32>)
        ensures
            old(self).second == 0 ==> r == Err::<u32, Error>(
                Error::Corruption("repeat offset 2 is zero"),
            ) && *final(self) == *old(self),
            old(self).second != 0 ==> r == Ok::<u32, Error>(old(self).second) && old(
                self,
            ).resolution(0, 1) == Ok::<(u32, RepeatOffsets), Error>(
                (old(self).second, *final(self)),
            ),
    {
        if self.second == 0 {
            return Err(Error::Corruption("repeat offset 2 is zero"));
        }
        Ok(self.resolve_zero_literal_rep2_encode())
    }

    /// The second offset, which the value one names where there are no
    /// literals.
    pub fn resolve_zero_literal_rep2_encode(&mut self) -> (r: u32)
        requires
            old(self).second > 0,
        ensures
            old(self).resolution(0, 1) == Ok::<(u32, RepeatOffsets), Error>((r, *final(self))),
            r == old(self).second,
    {
        *self = RepeatOffsets { first: self.second, second: self.first, third: self.third };
        self.first
    }
}

/// A decoder that remembers what the encoder remembers reads back the offset
/// that the encoder named, and both remember the same afterwards.
pub proof fn law_offset_value_roundtrip(reps: RepeatOffsets, raw_offset: u32, literal_length: u32)
    requires
        0 < raw_offset,
        reps.expressible(raw_offset, literal_length),
    ensures
        reps.resolution(literal_length, reps.classification(raw_offset, literal_length)) == Ok::<
            (u32, RepeatOffsets),
            Error,
        >((raw_offset, reps.after_use(raw_offset, literal_length))),
{
}

// ---------------------------------------------------------------------------
// Moving sequences to another history.

/// What a repeat value names, where the first less one may be zero.
pub open spec fn repeat_raw(reps: RepeatOffsets, offset_value: u32, no_literals: bool) -> u32 {
    let rank = offset_value as int + if no_literals {
        1int
    } else {
        0
    };
    if rank == 1 {
        reps.first
    } else if rank == 2 {
        reps.second
    } else if rank == 3 {
        reps.third
    } else if reps.first > 0 {
        (reps.first - 1) as u32
    } else {
        0
    }
}

/// The offsets remembered after an offset value was used.
pub open spec fn advanced(reps: RepeatOffsets, offset_value: u32, no_literals: bool) -> RepeatOffsets {
    if offset_value > 3 {
        reps.use_offset((offset_value - 3) as u32, 4)
    } else {
        let rank = offset_value as int + if no_literals {
            1int
        } else {
            0
        };
        reps.use_offset(repeat_raw(reps, offset_value, no_literals), rank)
    }
}

/// A repeat value names one offset to the compressor and another to the
/// decoder.
pub open spec fn misnamed(
    sequence: SequenceCommand,
    decoder: RepeatOffsets,
    compressor: RepeatOffsets,
) -> bool {
    let no_literals = sequence.literal_length == 0;
    1 <= sequence.offset_value <= 3 && repeat_raw(compressor, sequence.offset_value, no_literals)
        != repeat_raw(decoder, sequence.offset_value, no_literals)
}

/// A sequence in terms of the decoder's history: a repeat value that would
/// name another offset there is replaced by the offset itself.
pub open spec fn reconciled(
    sequence: SequenceCommand,
    decoder: RepeatOffsets,
    compressor: RepeatOffsets,
) -> SequenceCommand {
    let no_literals = sequence.literal_length == 0;
    if misnamed(sequence, decoder, compressor) {
        SequenceCommand {
            literal_length: sequence.literal_length,
            offset_value: explicit_value(
                repeat_raw(compressor, sequence.offset_value, no_literals),
            ),
            match_length: sequence.match_length,
        }
    } else {
        sequence
    }
}

/// Every offset value is an offset value.
pub open spec fn named(sequences: Seq<SequenceCommand>) -> bool {
    forall|i: int| 0 <= i < sequences.len() ==> (#[trigger] sequences[i]).offset_value > 0
}

fn resolve_repcode_to_raw(reps: RepeatOffsets, offset_value: u32, no_literals: bool) -> (r: u32)
    requires
        1 <= offset_value <= 3,
    ensures
        r == repeat_raw(reps, offset_value, no_literals),
{
    let rank: u32 = if no_literals {
        offset_value + 1
    } else {
        offset_value
    };
    if rank == 1 {
        reps.first
    } else if rank == 2 {
        reps.second
    } else if rank == 3 {
        reps.third
    } else if reps.first > 0 {
        reps.first - 1
    } else {
        0
    }
}

fn advance_rep_state(reps: RepeatOffsets, offset_value: u32, no_literals: bool) -> (r:
    RepeatOffsets)
    requires
        offset_value >= 1,
    ensures
        r == advanced(reps, offset_value, no_literals),
{
    if offset_value > 3 {
        return RepeatOffsets {
            first: offset_value - 3,
            second: reps.first,
            third: reps.second,
        };
    }
    let rank: u32 = if no_literals {
        offset_value + 1
    } else {
        offset_value
    };
    let offset: u32 = resolve_repcode_to_raw(reps, offset_value, no_literals);
    if rank == 1 {
        reps
    } else if rank == 2 {
        RepeatOffsets { first: offset, second: reps.first, third: reps.third }
    } else {
        RepeatOffsets { first: offset, second: reps.first, third: reps.second }
    }
}

/// The sequences in terms of the decoder's history, one after the other. The
/// compressor's history moves on by what it wrote, the decoder's by what it
/// reads.
pub open spec fn reconciliation(
    sequences: Seq<SequenceCommand>,
    decoder: RepeatOffsets,
    compressor: RepeatOffsets,
    n: nat,
) -> (Seq<SequenceCommand>, RepeatOffsets, RepeatOffsets)
    decreases n,
{
    if n == 0 {
        (Seq::empty(), decoder, compressor)
    } else {
        let (done, d, c) = reconciliation(sequences, decoder, compressor, (n - 1) as nat);
        let s = reconciled(sequences[n - 1], d, c);
        let no_literals = s.literal_length == 0;
        (
            done.push(s),
            advanced(d, s.offset_value, no_literals),
            advanced(c, sequences[n - 1].offset_value, no_literals),
        )
    }
}

/// The offsets leave room for the values that name them.
pub open spec fn nameable(reps: RepeatOffsets) -> bool {
    &&& reps.first <= u32::MAX - 3
    &&& reps.second <= u32::MAX - 3
    &&& reps.third <= u32::MAX - 3
}

/// The offset codes of the sequences, with those of rewritten sequences put
/// right.
pub open spec fn reconciled_codes(
    offset_codes: Seq<u8>,
    sequences: Seq<SequenceCommand>,
    decoder: RepeatOffsets,
    compressor: RepeatOffsets,
) -> Seq<u8> {
    Seq::new(
        offset_codes.len(),
        |i: int|
            {
                let (_, d, c) = reconciliation(sequences, decoder, compressor, i as nat);
                if misnamed(sequences[i], d, c) {
                    codes::offset_class(reconciled(sequences[i], d, c).offset_value as nat) as u8
                } else {
                    offset_codes[i]
                }
            },
    )
}

/// Rewrites sequences that were made with the compressor's history, and their
/// offset codes, for a decoder that has another one. Both histories move on
/// over the sequences.
pub fn reconcile_subblock_repcodes(
    sequences: &mut Vec<SequenceCommand>,
    offset_codes: &mut Vec<u8>,
    decoder_reps: &mut RepeatOffsets,
    compressor_reps: &mut RepeatOffsets,
)
    requires
        named(old(sequences)@),
        nameable(*old(compressor_reps)),
        old(offset_codes)@.len() == old(sequences)@.len(),
    ensures
        reconciliation(
            old(sequences)@,
            *old(decoder_reps),
            *old(compressor_reps),
            old(sequences)@.len(),
        ) == (final(sequences)@, *final(decoder_reps), *final(compressor_reps)),
        final(offset_codes)@ == reconciled_codes(
            old(offset_codes)@,
            old(sequences)@,
            *old(decoder_reps),
            *old(compressor_reps),
        ),
{
    let ghost all = sequences@;
    let ghost old_codes = offset_codes@;
    let mut i: usize = 0;
    let mut decoder: RepeatOffsets = *decoder_reps;
    let mut compressor: RepeatOffsets = *compressor_reps;
    let ghost d0 = decoder;
    let ghost c0 = compressor;
    while i < sequences.len()
        invariant
            i <= sequences@.len() == all.len(),
            offset_codes@.len() == all.len(),
            old_codes.len() == all.len(),
            named(all),
            nameable(compressor),
            reconciliation(all, d0, c0, i as nat) == (
                sequences@.take(i as int),
                decoder,
                compressor,
            ),
            forall|k: int| i <= k < all.len() ==> #[trigger] sequences@[k] == all[k],
            forall|k: int|
                0 <= k < i ==> #[trigger] offset_codes@[k] == reconciled_codes(
                    old_codes,
                    all,
                    d0,
                    c0,
                )[k],
            forall|k: int| i <= k < all.len() ==> #[trigger] offset_codes@[k] == old_codes[k],
        decreases sequences@.len() - i,
    {
        let sequence = sequences[i];
        let no_literals: bool = sequence.literal_length == 0;
        let mut value: u32 = sequence.offset_value;
        proof {
            assert(all[i as int].offset_value > 0);
            assert(reconciliation(all, d0, c0, i as nat).2 == compressor);
            assert(offset_codes@[i as int] == old_codes[i as int]);
        }
        if value <= 3 {
            let wanted: u32 = resolve_repcode_to_raw(compressor, value, no_literals);
            if wanted != resolve_repcode_to_raw(decoder, value, no_literals) {
                value = wanted + 3;
                offset_codes.set(i, codes::offset_code_unchecked(value));
            }
        }
        let ghost before = sequences@.take(i as int);
        let patched = SequenceCommand {
            literal_length: sequence.literal_length,
            offset_value: value,
            match_length: sequence.match_length,
        };
        sequences.set(i, patched);
        compressor = advance_rep_state(compressor, sequence.offset_value, no_literals);
        decoder = advance_rep_state(decoder, value, no_literals);
        i = i + 1;
        proof {
            assert(sequences@.take(i as int) =~= before.push(patched));
        }
    }
    proof {
        assert(sequences@.take(i as int) =~= sequences@);
        assert(offset_codes@ =~= reconciled_codes(old_codes, all, d0, c0));
    }
    *decoder_reps = decoder;
    *compressor_reps = compressor;
}

/// A reconciled sequence means to the decoder what the sequence meant to the
/// compressor.
pub proof fn law_reconciled_offset(
    sequence: SequenceCommand,
    decoder: RepeatOffsets,
    compressor: RepeatOffsets,
    offset: u32,
    after: RepeatOffsets,
)
    requires
        compressor.resolution(sequence.literal_length, sequence.offset_value) == Ok::<
            (u32, RepeatOffsets),
            Error,
        >((offset, after)),
        0 < offset <= u32::MAX - 3,
    ensures
        ({
            let s = reconciled(sequence, decoder, compressor);
            &&& decoder.resolution(s.literal_length, s.offset_value) matches Ok((seen, d))
            &&& seen == offset
            &&& d == advanced(decoder, s.offset_value, s.literal_length == 0)
            &&& s.literal_length == sequence.literal_length
            &&& s.match_length == sequence.match_length
        }),
{
}

/// The offsets that the first `n` sequences stand for, and what is remembered
/// after them.
pub open spec fn resolutions(reps: RepeatOffsets, sequences: Seq<SequenceCommand>, n: nat) -> Result<
    (Seq<u32>, RepeatOffsets),
>
    decreases n,
{
    if n == 0 {
        Ok((Seq::empty(), reps))
    } else {
        match resolutions(reps, sequences, (n - 1) as nat) {
            Err(e) => Err(e),
            Ok((offsets, last)) => {
                let s = sequences[n - 1];
                match last.resolution(s.literal_length, s.offset_value) {
                    Err(e) => Err(e),
                    Ok((offset, after)) => Ok((offsets.push(offset), after)),
                }
            },
        }
    }
}

/// The decoder resolves from the reconciled sequences, one after the other, the
/// offsets that the compressor meant, and both histories move on accordingly.
/// Nothing but the offset values is changed.
pub proof fn law_reconciled_list(
    sequences: Seq<SequenceCommand>,
    decoder: RepeatOffsets,
    compressor: RepeatOffsets,
    n: nat,
    offsets: Seq<u32>,
    after: RepeatOffsets,
)
    requires
        n <= sequences.len(),
        compressor.wf(),
        nameable(compressor),
        resolutions(compressor, sequences, n) == Ok::<(Seq<u32>, RepeatOffsets), Error>(
            (offsets, after),
        ),
    ensures
        ({
            let (list, d, c) = reconciliation(sequences, decoder, compressor, n);
            &&& resolutions(decoder, list, n) == Ok::<(Seq<u32>, RepeatOffsets), Error>(
                (offsets, d),
            )
            &&& c == after
            &&& list.len() == n
            &&& forall|i: int|
                0 <= i < n ==> (#[trigger] list[i]).literal_length == sequences[i].literal_length
                    && list[i].match_length == sequences[i].match_length
        }),
{
    lemma_reconciled_list(sequences, decoder, compressor, n);
}

/// Resolving looks at the first `n` sequences alone.
proof fn lemma_resolutions_prefix(
    reps: RepeatOffsets,
    a: Seq<SequenceCommand>,
    b: Seq<SequenceCommand>,
    n: nat,
)
    requires
        forall|i: int| 0 <= i < n ==> #[trigger] a[i] == b[i],
    ensures
        resolutions(reps, a, n) == resolutions(reps, b, n),
    decreases n,
{
    if n > 0 {
        lemma_resolutions_prefix(reps, a, b, (n - 1) as nat);
        assert(a[n - 1] == b[n - 1]);
    }
}

proof fn lemma_reconciled_list(
    sequences: Seq<SequenceCommand>,
    decoder: RepeatOffsets,
    compressor: RepeatOffsets,
    n: nat,
)
    requires
        n <= sequences.len(),
        compressor.wf(),
        nameable(compressor),
        resolutions(compressor, sequences, n) is Ok,
    ensures
        ({
            let (list, d, c) = reconciliation(sequences, decoder, compressor, n);
            let (offsets, after) = resolutions(compressor, sequences, n)->Ok_0;
            &&& resolutions(decoder, list, n) == Ok::<(Seq<u32>, RepeatOffsets), Error>(
                (offsets, d),
            )
            &&& c == after
            &&& after.wf()
            &&& nameable(after)
            &&& list.len() == n
            &&& forall|i: int|
                0 <= i < n ==> (#[trigger] list[i]).literal_length == sequences[i].literal_length
                    && list[i].match_length == sequences[i].match_length
        }),
    decreases n,
{
    if n > 0 {
        let k = (n - 1) as nat;
        lemma_reconciled_list(sequences, decoder, compressor, k);
        let (done, d, c) = reconciliation(sequences, decoder, compressor, k);
        let (list, _, _) = reconciliation(sequences, decoder, compressor, n);
        let sequence = sequences[k as int];
        let (offset, after) = c.resolution(sequence.literal_length, sequence.offset_value)->Ok_0;
        law_reconciled_offset(sequence, d, c, offset, after);
        lemma_resolutions_prefix(decoder, done, list, k);
    }
}

/// A sequence is left as it is where its offset is written out, and where its
/// value names the same offset to both sides; otherwise the offset is written
/// out.
pub proof fn law_reconciling_changes_little(
    sequence: SequenceCommand,
    decoder: RepeatOffsets,
    compressor: RepeatOffsets,
    offset: u32,
    after: RepeatOffsets,
)
    requires
        compressor.resolution(sequence.literal_length, sequence.offset_value) == Ok::<
            (u32, RepeatOffsets),
            Error,
        >((offset, after)),
        0 < offset <= u32::MAX - 3,
    ensures
        ({
            let s = reconciled(sequence, decoder, compressor);
            let seen = decoder.resolution(sequence.literal_length, sequence.offset_value);
            &&& sequence.offset_value > 3 ==> s == sequence
            &&& seen is Ok && seen->Ok_0.0 == offset ==> s == sequence
            &&& seen is Err || seen->Ok_0.0 != offset ==> s.offset_value == offset + 3
        }),
{
}

} // verus!
