//! Executing sequences: copying literals and matches to the output.

use crate::decode_out;
use crate::decode_out::DecodeOut;
use crate::error::{Error, Result};
use crate::sequence::decode;
use crate::sequence::repeat::{RepeatOffsets, SequenceCommand};
use vstd::arithmetic::div_mod::*;
use vstd::prelude::*;

verus! {

// ---------------------------------------------------------------------------
// Matches.

/// What a match can reach: the output from `frame_start` on, and before it a
/// dictionary.
pub struct Place {
    pub frame_start: nat,
    pub window: nat,
    pub dictionary: Option<Seq<u8>>,
}

impl Place {
    /// Everything that a match could refer to.
    pub open spec fn history(self, out: Seq<u8>) -> Seq<u8> {
        match self.dictionary {
            Some(d) => d + out.skip(self.frame_start as int),
            None => out.skip(self.frame_start as int),
        }
    }

    /// Why an offset reaches too far back, where it does. The window limits
    /// how far; the dictionary is in reach until more than a window was
    /// produced.
    pub open spec fn offset_error(self, out: Seq<u8>, offset: nat) -> Option<Error> {
        let produced = (out.len() - self.frame_start) as nat;
        if offset <= produced && offset <= self.window {
            None
        } else {
            match self.dictionary {
                None => Some(
                    Error::Corruption("sequence offset exceeds the available history window"),
                ),
                Some(d) => if produced > self.window {
                    Some(Error::Corruption("sequence offset exceeds the available history window"))
                } else if d.len() + produced > usize::MAX {
                    Some(Error::OutputSizeOverflow)
                } else if offset > d.len() + produced {
                    Some(Error::Corruption("sequence offset exceeds the available history window"))
                } else {
                    None
                },
            }
        }
    }
}

/// The bytes of a match: what stands `offset` bytes back, over and over.
pub open spec fn match_copy(history: Seq<u8>, offset: nat, length: nat) -> Seq<u8> {
    Seq::new(length, |i: int| history[history.len() - offset + i % offset as int])
}

/// Every byte of a match is the byte `offset` places before it.
pub proof fn law_match_repeats(history: Seq<u8>, offset: nat, length: nat, i: int)
    requires
        0 < offset <= history.len(),
        0 <= i < length,
    ensures
        (history + match_copy(history, offset, length))[history.len() + i] == (history + match_copy(
            history,
            offset,
            length,
        ))[history.len() + i - offset],
{
    if i < offset {
        lemma_small_mod(i as nat, offset);
    } else {
        lemma_mod_sub_multiples_vanish(i, offset as int);
    }
}

/// A match depends on the last `offset` bytes alone.
pub proof fn lemma_match_source(a: Seq<u8>, b: Seq<u8>, offset: nat, length: nat)
    requires
        0 < offset <= a.len(),
        offset <= b.len(),
        a.skip(a.len() - offset) == b.skip(b.len() - offset),
    ensures
        match_copy(a, offset, length) == match_copy(b, offset, length),
{
    assert forall|i: int| 0 <= i < length implies #[trigger] match_copy(a, offset, length)[i]
        == match_copy(b, offset, length)[i] by {
        lemma_mod_bound(i, offset as int);
        let k = i % offset as int;
        assert(a.skip(a.len() - offset)[k] == a[a.len() - offset + k]);
        assert(b.skip(b.len() - offset)[k] == b[b.len() - offset + k]);
    }
    assert(match_copy(a, offset, length) =~= match_copy(b, offset, length));
}

impl Place {
    /// The output with a match behind it, where it has room for that.
    pub open spec fn matched(
        self,
        capacity: Option<nat>,
        out: Seq<u8>,
        offset: nat,
        length: nat,
    ) -> Result<Seq<u8>> {
        match self.offset_error(out, offset) {
            Some(e) => Err(e),
            None => if decode_out::fits(capacity, out.len() + length) {
                Ok(out + match_copy(self.history(out), offset, length))
            } else {
                Err(Error::DstSizeTooSmall)
            },
        }
    }

    /// The output after a match that failed. A match that starts in the
    /// dictionary and runs into the frame is written in two parts, and the
    /// first may fit where the second does not.
    pub open spec fn left(
        self,
        capacity: Option<nat>,
        out: Seq<u8>,
        offset: nat,
        length: nat,
    ) -> Seq<u8> {
        let produced = out.len() - self.frame_start;
        let first = offset - produced;
        match self.dictionary {
            Some(d) => if self.offset_error(out, offset) is None && 0 < first < length
                && decode_out::fits(capacity, (out.len() + first) as nat) {
                out + d.skip(d.len() - first)
            } else {
                out
            },
            None => out,
        }
    }
}

/// Writes a match whose source starts at `match_start`.
pub fn append_match_from_history(out: &mut DecodeOut, match_start: usize, match_length: usize) -> (r:
    Result<()>)
    requires
        old(out).wf(),
        match_start < old(out)@.len(),
    ensures
        final(out).wf(),
        final(out).capacity() == old(out).capacity(),
        if decode_out::fits(old(out).capacity(), old(out)@.len() + match_length as nat) {
            &&& r == Ok::<(), Error>(())
            &&& final(out)@ == old(out)@ + match_copy(
                old(out)@,
                (old(out)@.len() - match_start) as nat,
                match_length as nat,
            )
        } else {
            r == Err::<(), Error>(Error::DstSizeTooSmall) && final(out)@ == old(out)@
        },
{
    out.ensure_room(match_length)?;
    let ghost before = out@;
    let distance: usize = out.len() - match_start;
    let ghost offset = distance as nat;
    let mut done: usize = 0;
    while done < match_length
        invariant
            done <= match_length,
            out.wf(),
            out.capacity() == old(out).capacity(),
            before == old(out)@,
            match_start < before.len(),
            offset == distance == before.len() - match_start,
            decode_out::fits(old(out).capacity(), before.len() + match_length as nat),
            out@ == before + match_copy(before, offset, done as nat),
        decreases match_length - done,
    {
        proof {
            let all = before + match_copy(before, offset, match_length as nat);
            law_match_repeats(before, offset, match_length as nat, done as int);
            assert(all[match_start + done] == out@[match_start + done]);
            assert(out@.push(all[match_start + done]) =~= before + match_copy(
                before,
                offset,
                (done + 1) as nat,
            ));
        }
        let byte: u8 = out.byte(out.len() - distance);
        out.push(byte);
        done = done + 1;
    }
    Ok(())
}

/// Writes a match that may start in a dictionary. Where it does not fit, the
/// part that the dictionary holds is still written if that part fits.
pub fn append_match_from_dictionary_history(
    out: &mut DecodeOut,
    frame_start: usize,
    dictionary: &[u8],
    offset: usize,
    match_length: usize,
) -> (r: Result<()>)
    requires
        old(out).wf(),
        frame_start <= old(out)@.len(),
        0 < offset <= dictionary@.len() + old(out)@.len() - frame_start,
        dictionary@.len() + old(out)@.len() - frame_start <= usize::MAX,
    ensures
        final(out).wf(),
        final(out).capacity() == old(out).capacity(),
        if decode_out::fits(old(out).capacity(), old(out)@.len() + match_length as nat) {
            &&& r == Ok::<(), Error>(())
            &&& final(out)@ == old(out)@ + match_copy(
                dictionary@ + old(out)@.skip(frame_start as int),
                offset as nat,
                match_length as nat,
            )
        } else {
            let source = dictionary@.len() + old(out)@.len() - frame_start - offset;
            let tail = dictionary@.len() - source;
            &&& r == Err::<(), Error>(Error::DstSizeTooSmall)
            &&& final(out)@ == if 0 < tail < match_length && decode_out::fits(
                old(out).capacity(),
                (old(out)@.len() + tail) as nat,
            ) {
                old(out)@ + dictionary@.skip(source)
            } else {
                old(out)@
            }
        },
{
    let ghost before = out@;
    let ghost history = dictionary@ + before.skip(frame_start as int);
    let history_len: usize = dictionary.len() + (out.len() - frame_start);
    let source: usize = history_len - offset;
    if source >= dictionary.len() {
        let match_start: usize = frame_start + (source - dictionary.len());
        proof {
            assert(before.len() - match_start == offset);
            assert(before.skip(before.len() - offset) =~= history.skip(history.len() - offset));
            lemma_match_source(before, history, offset as nat, match_length as nat);
        }
        return append_match_from_history(out, match_start, match_length);
    }
    let tail: usize = dictionary.len() - source;
    let first: usize = if tail < match_length {
        tail
    } else {
        match_length
    };
    let chunk: &[u8] = &dictionary[source..source + first];
    proof {
        if first == tail {
            assert(chunk@ =~= dictionary@.skip(source as int));
        }
    }
    out.append(chunk)?;
    let rest: usize = match_length - first;
    let ghost all = match_copy(history, offset as nat, match_length as nat);
    proof {
        assert forall|i: int| 0 <= i < first implies all[i] == chunk@[i] by {
            lemma_small_mod(i as nat, offset as nat);
        }
        assert(before + chunk@ =~= before + all.take(first as int));
    }
    if rest == 0 {
        proof {
            assert(all.take(first as int) =~= all);
        }
        return Ok(());
    }
    let ghost middle = out@;
    proof {
        // From here on the source runs over the frame, whose bytes stand right
        // behind the dictionary's tail.
        let period = (middle.len() - frame_start) as nat;
        assert(period == offset);
        assert(match_copy(middle, period, rest as nat) =~= all.skip(first as int)) by {
            assert forall|i: int| 0 <= i < rest implies #[trigger] match_copy(
                middle,
                period,
                rest as nat,
            )[i] == all.skip(first as int)[i] by {
                lemma_tail_of_match(before, dictionary@, frame_start as nat, offset as nat, i);
            }
        }
        assert(middle + all.skip(first as int) =~= before + all);
    }
    append_match_from_history(out, frame_start, rest)
}

/// A match that starts in the dictionary and runs into the frame goes on as a
/// match over the frame and what was just written.
proof fn lemma_tail_of_match(
    before: Seq<u8>,
    dictionary: Seq<u8>,
    frame_start: nat,
    offset: nat,
    i: int,
)
    requires
        frame_start <= before.len(),
        before.len() - frame_start < offset <= dictionary.len() + before.len() - frame_start,
        i >= 0,
    ensures
        ({
            let history = dictionary + before.skip(frame_start as int);
            let first = (offset - (before.len() - frame_start)) as nat;
            let source = history.len() - offset;
            let middle = before + dictionary.subrange(source, source + first);
            middle[frame_start + i % offset as int] == history[source + (first + i)
                % offset as int]
        }),
{
    let history = dictionary + before.skip(frame_start as int);
    let produced = (before.len() - frame_start) as nat;
    let first = (offset - produced) as nat;
    let source = history.len() - offset;
    let k = i % offset as int;
    lemma_mod_bound(i, offset as int);
    assert((first + i) % offset as int == (first + k) % offset as int) by {
        lemma_add_mod_noop_right(first as int, i, offset as int);
    }
    if k < produced {
        lemma_small_mod((first + k) as nat, offset);
        assert(history[source + first + k] == before[frame_start + k]);
    } else {
        lemma_fundamental_div_mod_converse(first + k, offset as int, 1, k - produced);
    }
}

// ---------------------------------------------------------------------------
// Single sequences.

/// What an executor holds: the output, how many literals it used, and the
/// offsets that it remembers.
pub struct Executing {
    pub out: Seq<u8>,
    pub used: nat,
    pub reps: RepeatOffsets,
}

/// What stays the same over a block.
pub struct Block {
    pub capacity: Option<nat>,
    pub place: Place,
    pub literals: Seq<u8>,
}

impl Block {
    /// Copies the literals of a sequence.
    pub open spec fn put_literals(self, out: Seq<u8>, used: nat, length: nat) -> Result<Seq<u8>> {
        if decode_out::fits(self.capacity, out.len() + length) {
            Ok(out + self.literals.subrange(used as int, (used + length) as int))
        } else {
            Err(Error::DstSizeTooSmall)
        }
    }

    /// Copies a match.
    pub open spec fn put_match(self, out: Seq<u8>, offset: nat, length: nat) -> Result<Seq<u8>> {
        self.place.matched(self.capacity, out, offset, length)
    }

    /// Copies a sequence's literals and then its match.
    pub open spec fn put(self, x: Executing, s: SequenceCommand, offset: u32, reps: RepeatOffsets)
        -> Result<Executing> {
        match self.put_literals(x.out, x.used, s.literal_length as nat) {
            Err(e) => Err(e),
            Ok(out) => match self.put_match(out, offset as nat, s.match_length as nat) {
                Err(e) => Err(e),
                Ok(out) => Ok(Executing { out, used: x.used + s.literal_length as nat, reps }),
            },
        }
    }

    /// Executes one sequence of a list.
    pub open spec fn execute(self, x: Executing, s: SequenceCommand) -> Result<Executing> {
        match x.reps.resolution(s.literal_length, s.offset_value) {
            Err(e) => Err(e),
            Ok((offset, reps)) => if x.used + s.literal_length > usize::MAX {
                Err(Error::OutputSizeOverflow)
            } else if x.used + s.literal_length > self.literals.len() {
                Err(Error::Corruption("sequence literal length exceeds literals buffer"))
            } else {
                self.put(x, s, offset, reps)
            },
        }
    }

    /// Executes a list of sequences.
    pub open spec fn execute_all(self, x: Executing, sequences: Seq<SequenceCommand>) -> Result<
        Executing,
    >
        decreases sequences.len(),
    {
        if sequences.len() == 0 {
            Ok(x)
        } else {
            match self.execute(x, sequences[0]) {
                Err(e) => Err(e),
                Ok(y) => self.execute_all(y, sequences.drop_first()),
            }
        }
    }
}

impl Block {
    /// What is there after a sequence of a list that failed. Its offset is
    /// remembered once it is known, and its literals stay once they are
    /// copied.
    pub open spec fn left(self, x: Executing, s: SequenceCommand) -> Executing {
        match x.reps.resolution(s.literal_length, s.offset_value) {
            Err(_) => x,
            Ok((offset, reps)) => if x.used + s.literal_length > self.literals.len() {
                Executing { reps, ..x }
            } else {
                match self.put_literals(x.out, x.used, s.literal_length as nat) {
                    Err(_) => Executing { reps, ..x },
                    Ok(out) => Executing {
                        out: self.place.left(
                            self.capacity,
                            out,
                            offset as nat,
                            s.match_length as nat,
                        ),
                        used: x.used + s.literal_length as nat,
                        reps,
                    },
                }
            },
        }
    }

    /// What is there after a list of which a sequence failed.
    pub open spec fn left_all(self, x: Executing, sequences: Seq<SequenceCommand>) -> Executing
        decreases sequences.len(),
    {
        if sequences.len() == 0 {
            x
        } else {
            match self.execute(x, sequences[0]) {
                Err(_) => self.left(x, sequences[0]),
                Ok(y) => self.left_all(y, sequences.drop_first()),
            }
        }
    }
}

/// A dictionary as a sequence.
pub open spec fn dictionary_view(dictionary: Option<&[u8]>) -> Option<Seq<u8>> {
    match dictionary {
        Some(d) => Some(d@),
        None => None,
    }
}

/// Copies the literals of a sequence. Returns how many literals were used.
pub fn append_sequence_literals(
    out: &mut DecodeOut,
    literals: &[u8],
    literal_cursor: usize,
    sequence: &SequenceCommand,
) -> (r: Result<usize>)
    requires
        old(out).wf(),
        literal_cursor <= literals@.len(),
    ensures
        final(out).wf(),
        final(out).capacity() == old(out).capacity(),
        r is Err ==> final(out)@ == old(out)@,
        ({
            let end = literal_cursor + sequence.literal_length;
            if end > usize::MAX {
                r == Err::<usize, Error>(Error::OutputSizeOverflow)
            } else if end > literals@.len() {
                r == Err::<usize, Error>(
                    Error::Corruption("sequence literal length exceeds literals buffer"),
                )
            } else if !decode_out::fits(
                old(out).capacity(),
                old(out)@.len() + sequence.literal_length as nat,
            ) {
                r == Err::<usize, Error>(Error::DstSizeTooSmall)
            } else {
                r == Ok::<usize, Error>(end as usize) && final(out)@ == old(out)@
                    + literals@.subrange(literal_cursor as int, end)
            }
        }),
{
    let length: usize = sequence.literal_length as usize;
    if length > usize::MAX - literal_cursor {
        return Err(Error::OutputSizeOverflow);
    }
    let end: usize = literal_cursor + length;
    if end > literals.len() {
        return Err(Error::Corruption("sequence literal length exceeds literals buffer"));
    }
    out.append(&literals[literal_cursor..end])?;
    Ok(end)
}

/// Copies a match from the output or from the dictionary.
pub fn append_match(
    out: &mut DecodeOut,
    frame_start: usize,
    window_size: usize,
    dictionary: Option<&[u8]>,
    offset: usize,
    match_length: usize,
) -> (r: Result<()>)
    requires
        old(out).wf(),
        frame_start <= old(out)@.len(),
        offset > 0,
    ensures
        final(out).wf(),
        final(out).capacity() == old(out).capacity(),
        ({
            let place = Place {
                frame_start: frame_start as nat,
                window: window_size as nat,
                dictionary: dictionary_view(dictionary),
            };
            match place.matched(
                old(out).capacity(),
                old(out)@,
                offset as nat,
                match_length as nat,
            ) {
                Ok(bytes) => r == Ok::<(), Error>(()) && final(out)@ == bytes,
                Err(e) => r == Err::<(), Error>(e) && final(out)@ == place.left(
                    old(out).capacity(),
                    old(out)@,
                    offset as nat,
                    match_length as nat,
                ),
            }
        }),
{
    let produced: usize = out.len() - frame_start;
    let ghost before = out@;
    let ghost place = Place {
        frame_start: frame_start as nat,
        window: window_size as nat,
        dictionary: dictionary_view(dictionary),
    };
    if offset <= produced && offset <= window_size {
        let match_start: usize = out.len() - offset;
        proof {
            let history = place.history(before);
            assert(before.skip(before.len() - offset) =~= history.skip(history.len() - offset));
            lemma_match_source(before, history, offset as nat, match_length as nat);
        }
        return append_match_from_history(out, match_start, match_length);
    }
    match dictionary {
        Some(d) => {
            if produced > window_size {
                return Err(
                    Error::Corruption("sequence offset exceeds the available history window"),
                );
            }
            if d.len() > usize::MAX - produced {
                return Err(Error::OutputSizeOverflow);
            }
            if offset > d.len() + produced {
                return Err(
                    Error::Corruption("sequence offset exceeds the available history window"),
                );
            }
            append_match_from_dictionary_history(out, frame_start, d, offset, match_length)
        },
        None => Err(Error::Corruption("sequence offset exceeds the available history window")),
    }
}

// ---------------------------------------------------------------------------
// Lists of sequences.

/// Executes a list of sequences. Returns how many literals were used.
fn execute_list(
    out: &mut DecodeOut,
    frame_start: usize,
    window_size: usize,
    dictionary: Option<&[u8]>,
    literals: &[u8],
    sequences: &[SequenceCommand],
    repeat_offsets: &mut RepeatOffsets,
    Ghost(block): Ghost<Block>,
) -> (r: Result<usize>)
    requires
        old(out).wf(),
        old(repeat_offsets).wf(),
        frame_start <= old(out)@.len(),
        block == (Block {
            capacity: old(out).capacity(),
            place: Place {
                frame_start: frame_start as nat,
                window: window_size as nat,
                dictionary: dictionary_view(dictionary),
            },
            literals: literals@,
        }),
    ensures
        final(out).wf(),
        final(repeat_offsets).wf(),
        final(out).capacity() == old(out).capacity(),
        match block.execute_all(
            Executing { out: old(out)@, used: 0, reps: *old(repeat_offsets) },
            sequences@,
        ) {
            Ok(x) => r == Ok::<usize, Error>(x.used as usize) && x.used <= literals@.len() && x.out
                == final(out)@ && x.reps == *final(repeat_offsets),
            Err(e) => {
                let left = block.left_all(
                    Executing { out: old(out)@, used: 0, reps: *old(repeat_offsets) },
                    sequences@,
                );
                &&& r == Err::<usize, Error>(e)
                &&& final(out)@ == left.out
                &&& *final(repeat_offsets) == left.reps
            },
        },
{
    let ghost start = Executing { out: out@, used: 0, reps: *repeat_offsets };
    let mut used: usize = 0;
    let mut i: usize = 0;
    proof {
        assert(sequences@.skip(0) =~= sequences@);
    }
    while i < sequences.len()
        invariant
            i <= sequences@.len(),
            out.wf(),
            repeat_offsets.wf(),
            frame_start <= old(out)@.len() <= out@.len(),
            used <= literals@.len(),
            out.capacity() == old(out).capacity(),
            old(out)@.is_prefix_of(out@),
            start == (Executing { out: old(out)@, used: 0, reps: *old(repeat_offsets) }),
            block == (Block {
                capacity: old(out).capacity(),
                place: Place {
                    frame_start: frame_start as nat,
                    window: window_size as nat,
                    dictionary: dictionary_view(dictionary),
                },
                literals: literals@,
            }),
            block.execute_all(start, sequences@) == block.execute_all(
                Executing { out: out@, used: used as nat, reps: *repeat_offsets },
                sequences@.skip(i as int),
            ),
            block.left_all(start, sequences@) == block.left_all(
                Executing { out: out@, used: used as nat, reps: *repeat_offsets },
                sequences@.skip(i as int),
            ),
        decreases sequences@.len() - i,
    {
        let ghost rest = sequences@.skip(i as int);
        let ghost x = Executing { out: out@, used: used as nat, reps: *repeat_offsets };
        let sequence = sequences[i];
        proof {
            assert(rest[0] == sequence);
            assert(literals.len() == literals@.len());
            assert(rest.drop_first() =~= sequences@.skip(i as int + 1));
        }
        let offset: u32 = repeat_offsets.resolve(&sequence)?;
        used = append_sequence_literals(out, literals, used, &sequence)?;
        append_match(
            out,
            frame_start,
            window_size,
            dictionary,
            offset as usize,
            sequence.match_length as usize,
        )?;
        proof {
            assert(block.execute(x, sequence) == Ok::<Executing, Error>(
                Executing { out: out@, used: used as nat, reps: *repeat_offsets },
            ));
        }
        i = i + 1;
    }
    proof {
        assert(sequences@.skip(i as int) =~= Seq::<SequenceCommand>::empty());
    }
    Ok(used)
}

/// The error of a block whose output does not fit its limits.
pub open spec fn size_error(
    out_len: nat,
    literals: nat,
    matched: nat,
    block_size_max: nat,
    max_output_size: Option<usize>,
) -> Option<Error> {
    let size = literals + matched;
    if size > usize::MAX {
        Some(Error::OutputSizeOverflow)
    } else if size > block_size_max {
        Some(Error::Corruption("compressed block output exceeds the frame block size limit"))
    } else if out_len + size > usize::MAX {
        Some(Error::OutputSizeOverflow)
    } else if max_output_size is Some && out_len + size > max_output_size->0 {
        Some(
            Error::OutputSizeTooLarge {
                output_size: (out_len + size) as u64,
                max_output_size: max_output_size->0,
            },
        )
    } else {
        None
    }
}

impl Block {
    /// Executes a block's sequences and copies the literals that are left.
    pub open spec fn finish(self, x: Executing) -> Result<Seq<u8>> {
        self.put_literals(x.out, x.used, (self.literals.len() - x.used) as nat)
    }
}

/// Executes a list of sequences whose match lengths add up to
/// `total_match_bytes`, and copies the literals that are left.
pub fn execute_sequences_with_total_match_bytes(
    out: &mut DecodeOut,
    frame_start: usize,
    window_size: usize,
    block_size_max: usize,
    dictionary: Option<&[u8]>,
    literals: &[u8],
    sequences: &[SequenceCommand],
    repeat_offsets: &mut RepeatOffsets,
    max_output_size: Option<usize>,
    total_match_bytes: usize,
) -> (r: Result<()>)
    requires
        old(out).wf(),
        old(repeat_offsets).wf(),
        frame_start <= old(out)@.len(),
    ensures
        final(out).wf(),
        final(repeat_offsets).wf(),
        final(out).capacity() == old(out).capacity(),
        ({
            let block = Block {
                capacity: old(out).capacity(),
                place: Place {
                    frame_start: frame_start as nat,
                    window: window_size as nat,
                    dictionary: dictionary_view(dictionary),
                },
                literals: literals@,
            };
            let start = Executing { out: old(out)@, used: 0, reps: *old(repeat_offsets) };
            match size_error(
                old(out)@.len(),
                literals@.len(),
                total_match_bytes as nat,
                block_size_max as nat,
                max_output_size,
            ) {
                Some(e) => {
                    &&& r == Err::<(), Error>(e)
                    &&& final(out)@ == old(out)@
                    &&& *final(repeat_offsets) == *old(repeat_offsets)
                },
                None => match block.execute_all(start, sequences@) {
                    Err(e) => {
                        &&& r == Err::<(), Error>(e)
                        &&& final(out)@ == block.left_all(start, sequences@).out
                        &&& *final(repeat_offsets) == block.left_all(start, sequences@).reps
                    },
                    Ok(x) => match block.finish(x) {
                        Err(e) => {
                            &&& r == Err::<(), Error>(e)
                            &&& final(out)@ == x.out
                            &&& *final(repeat_offsets) == x.reps
                        },
                        Ok(bytes) => {
                            &&& r == Ok::<(), Error>(())
                            &&& final(out)@ == bytes
                            &&& *final(repeat_offsets) == x.reps
                        },
                    },
                },
            }
        }),
{
    let len: usize = out.len();
    let ghost block = Block {
        capacity: out.capacity(),
        place: Place {
            frame_start: frame_start as nat,
            window: window_size as nat,
            dictionary: dictionary_view(dictionary),
        },
        literals: literals@,
    };
    if literals.len() > usize::MAX - total_match_bytes {
        return Err(Error::OutputSizeOverflow);
    }
    let block_output_size: usize = literals.len() + total_match_bytes;
    if block_output_size > block_size_max {
        return Err(
            Error::Corruption("compressed block output exceeds the frame block size limit"),
        );
    }
    if len > usize::MAX - block_output_size {
        return Err(Error::OutputSizeOverflow);
    }
    let final_len: usize = len + block_output_size;
    if let Some(limit) = max_output_size {
        if final_len > limit {
            return Err(
                Error::OutputSizeTooLarge {
                    output_size: final_len as u64,
                    max_output_size: limit,
                },
            );
        }
    }
    let used: usize = execute_list(
        out,
        frame_start,
        window_size,
        dictionary,
        literals,
        sequences,
        repeat_offsets,
        Ghost(block),
    )?;
    out.append(&literals[used..literals.len()])
}

/// Executes a list of sequences and copies the literals that are left.
pub fn execute_sequences(
    out: &mut DecodeOut,
    frame_start: usize,
    window_size: usize,
    block_size_max: usize,
    dictionary: Option<&[u8]>,
    literals: &[u8],
    sequences: &[SequenceCommand],
    repeat_offsets: &mut RepeatOffsets,
    max_output_size: Option<usize>,
) -> (r: Result<()>)
    requires
        old(out).wf(),
        old(repeat_offsets).wf(),
        frame_start <= old(out)@.len(),
    ensures
        final(out).wf(),
        final(repeat_offsets).wf(),
        final(out).capacity() == old(out).capacity(),
        ({
            let block = Block {
                capacity: old(out).capacity(),
                place: Place {
                    frame_start: frame_start as nat,
                    window: window_size as nat,
                    dictionary: dictionary_view(dictionary),
                },
                literals: literals@,
            };
            let start = Executing { out: old(out)@, used: 0, reps: *old(repeat_offsets) };
            let matched = decode::match_bytes(sequences@);
            match size_error(
                old(out)@.len(),
                literals@.len(),
                matched,
                block_size_max as nat,
                max_output_size,
            ) {
                Some(e) => {
                    &&& r == Err::<(), Error>(e)
                    &&& final(out)@ == old(out)@
                    &&& *final(repeat_offsets) == *old(repeat_offsets)
                },
                None => match block.execute_all(start, sequences@) {
                    Err(e) => {
                        &&& r == Err::<(), Error>(e)
                        &&& final(out)@ == block.left_all(start, sequences@).out
                        &&& *final(repeat_offsets) == block.left_all(start, sequences@).reps
                    },
                    Ok(x) => match block.finish(x) {
                        Err(e) => {
                            &&& r == Err::<(), Error>(e)
                            &&& final(out)@ == x.out
                            &&& *final(repeat_offsets) == x.reps
                        },
                        Ok(bytes) => {
                            &&& r == Ok::<(), Error>(())
                            &&& final(out)@ == bytes
                            &&& *final(repeat_offsets) == x.reps
                        },
                    },
                },
            }
        }),
{
    let mut total: usize = 0;
    let mut i: usize = 0;
    while i < sequences.len()
        invariant
            i <= sequences@.len(),
            *out == *old(out),
            *repeat_offsets == *old(repeat_offsets),
            old(out).wf(),
            old(repeat_offsets).wf(),
            total == decode::match_bytes(sequences@.take(i as int)),
        decreases sequences@.len() - i,
    {
        let sequence = sequences[i];
        proof {
            assert(sequences@.take(i as int + 1) =~= sequences@.take(i as int).push(sequence));
            decode::lemma_match_bytes_push(sequences@.take(i as int), sequence);
            decode::lemma_match_bytes_prefix(sequences@, i as int + 1);
        }
        if sequence.match_length as usize > usize::MAX - total {
            return Err(Error::OutputSizeOverflow);
        }
        total = total + sequence.match_length as usize;
        i = i + 1;
    }
    proof {
        assert(sequences@.take(i as int) =~= sequences@);
    }
    execute_sequences_with_total_match_bytes(
        out,
        frame_start,
        window_size,
        block_size_max,
        dictionary,
        literals,
        sequences,
        repeat_offsets,
        max_output_size,
        total,
    )
}

} // verus!
