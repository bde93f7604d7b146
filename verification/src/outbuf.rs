//! Output sink for the encoder.
//!
//! A sink grows without bound, or holds a fixed number of bytes. Writes never
//! fail: what a fixed sink has no room for is counted and dropped, so that
//! every length computed from it is the length that an unbounded sink would
//! give, and the overflow can be reported once, at the end.

use vstd::prelude::*;

verus! {

/// What a sink holds: the bytes stored, and how many were dropped.
pub struct Output {
    pub stored: Seq<u8>,
    pub dropped: nat,
    pub capacity: Option<nat>,
}

impl Output {
    /// Bytes are dropped only where the sink is full.
    pub open spec fn wf(self) -> bool {
        match self.capacity {
            None => self.dropped == 0,
            Some(c) => self.stored.len() <= c && (self.dropped > 0 ==> self.stored.len() == c),
        }
    }

    /// Bytes written, stored or not.
    pub open spec fn len(self) -> nat {
        self.stored.len() + self.dropped
    }

    /// How many of `n` more bytes fit.
    pub open spec fn fits(self, n: nat) -> nat {
        match self.capacity {
            None => n,
            Some(c) => if c - self.stored.len() < n {
                (c - self.stored.len()) as nat
            } else {
                n
            },
        }
    }

    /// The sink after `bytes` were written.
    pub open spec fn append(self, bytes: Seq<u8>) -> Output {
        let fits = self.fits(bytes.len());
        Output {
            stored: self.stored + bytes.take(fits as int),
            dropped: self.dropped + (bytes.len() - fits) as nat,
            capacity: self.capacity,
        }
    }

    /// The sink after everything past `n` was discarded.
    pub open spec fn truncate(self, n: nat) -> Output {
        if n >= self.len() {
            self
        } else {
            let kept = if n < self.stored.len() {
                n
            } else {
                self.stored.len()
            };
            Output {
                stored: self.stored.take(kept as int),
                dropped: (n - kept) as nat,
                capacity: self.capacity,
            }
        }
    }

    /// The sink after `bytes` were written over what stands at `pos`; a target
    /// that is not stored in full is left alone.
    pub open spec fn write_at(self, pos: nat, bytes: Seq<u8>) -> Output {
        if pos + bytes.len() <= self.stored.len() {
            Output {
                stored: self.stored.take(pos as int) + bytes + self.stored.skip(
                    (pos + bytes.len()) as int,
                ),
                dropped: self.dropped,
                capacity: self.capacity,
            }
        } else {
            self
        }
    }
}

/// Where the encoder writes.
pub struct OutBuf {
    bytes: Vec<u8>,
    dropped: usize,
    capacity: Option<usize>,
}

impl View for OutBuf {
    type V = Output;

    closed spec fn view(&self) -> Output {
        Output {
            stored: self.bytes@,
            dropped: self.dropped as nat,
            capacity: match self.capacity {
                None => None,
                Some(c) => Some(c as nat),
            },
        }
    }
}

impl OutBuf {
    /// A sink that grows. What `bytes` holds is kept and written behind.
    pub fn growable(bytes: Vec<u8>) -> (r: OutBuf)
        ensures
            r@ == (Output { stored: bytes@, dropped: 0, capacity: None }),
            r@.wf(),
    {
        OutBuf { bytes, dropped: 0, capacity: None }
    }

    /// A sink that holds at most `capacity` bytes.
    pub fn fixed(capacity: usize) -> (r: OutBuf)
        ensures
            r@ == (Output {
                stored: Seq::empty(),
                dropped: 0,
                capacity: Some(capacity as nat),
            }),
            r@.wf(),
    {
        let r = OutBuf { bytes: Vec::new(), dropped: 0, capacity: Some(capacity) };
        proof {
            assert(r@.stored =~= Seq::<u8>::empty());
        }
        r
    }

    /// Bytes written so far, stored or not.
    pub fn len(&self) -> (r: usize)
        requires
            self@.wf(),
            self@.len() <= usize::MAX,
        ensures
            r == self@.len(),
    {
        self.bytes.len() + self.dropped
    }

    /// Whether any byte was dropped.
    pub fn overflowed(&self) -> (r: bool)
        ensures
            r == (self@.dropped > 0),
    {
        self.dropped > 0
    }

    /// Appends one byte.
    pub fn push(&mut self, byte: u8)
        requires
            old(self)@.wf(),
            old(self)@.len() < usize::MAX,
        ensures
            final(self)@ == old(self)@.append(seq![byte]),
            final(self)@.wf(),
    {
        let room: bool = match self.capacity {
            None => true,
            Some(c) => self.bytes.len() < c,
        };
        proof {
            assert(seq![byte].take(1) =~= seq![byte]);
            assert(self@.stored + seq![byte].take(0) =~= self@.stored);
            assert(self@.stored.push(byte) =~= self@.stored + seq![byte]);
        }
        if room {
            self.bytes.push(byte);
        } else {
            self.dropped = self.dropped + 1;
        }
    }

    /// Appends bytes, as many of them as fit.
    pub fn extend_from_slice(&mut self, bytes: &[u8])
        requires
            old(self)@.wf(),
            old(self)@.len() + bytes@.len() <= usize::MAX,
        ensures
            final(self)@ == old(self)@.append(bytes@),
            final(self)@.wf(),
    {
        let fits: usize = match self.capacity {
            None => bytes.len(),
            Some(c) => if c - self.bytes.len() < bytes.len() {
                c - self.bytes.len()
            } else {
                bytes.len()
            },
        };
        self.bytes.extend_from_slice(&bytes[0..fits]);
        self.dropped = self.dropped + (bytes.len() - fits);
        proof {
            assert(bytes@.subrange(0, fits as int) =~= bytes@.take(fits as int));
            assert(self@.stored =~= old(self)@.append(bytes@).stored);
        }
    }

    /// Grows the output to `new_len` bytes with copies of `value`.
    pub fn resize(&mut self, new_len: usize, value: u8)
        requires
            old(self)@.wf(),
            old(self)@.len() <= new_len,
        ensures
            final(self)@ == old(self)@.append(
                Seq::new((new_len - old(self)@.len()) as nat, |i: int| value),
            ),
            final(self)@.wf(),
    {
        let ghost start = self@;
        let ghost all = Seq::new((new_len - start.len()) as nat, |i: int| value);
        proof {
            assert(start.append(all.take(0)) == start) by {
                assert(start.stored + all.take(0).take(0) =~= start.stored);
            }
        }
        while self.len() < new_len
            invariant
                self@.wf(),
                start.wf(),
                start.len() <= self@.len() <= new_len,
                all == Seq::new((new_len - start.len()) as nat, |i: int| value),
                self@ == start.append(all.take(self@.len() - start.len())),
            decreases new_len - self@.len(),
        {
            let ghost k = self@.len() - start.len();
            self.push(value);
            proof {
                lemma_append_append(start, all.take(k), seq![value]);
                assert(all.take(k) + seq![value] =~= all.take(k + 1));
            }
        }
        proof {
            assert(all.take(all.len() as int) =~= all);
        }
    }

    /// Discards everything past `new_len`.
    pub fn truncate(&mut self, new_len: usize)
        requires
            old(self)@.wf(),
            old(self)@.len() <= usize::MAX,
        ensures
            final(self)@ == old(self)@.truncate(new_len as nat),
            final(self)@.wf(),
    {
        if new_len >= self.len() {
            return;
        }
        let kept: usize = if new_len < self.bytes.len() {
            new_len
        } else {
            self.bytes.len()
        };
        self.bytes.truncate(kept);
        self.dropped = new_len - kept;
        proof {
            assert(self@.stored =~= old(self)@.stored.take(kept as int));
        }
    }

    /// Writes `bytes` over what stands at `pos`, which must have been written.
    pub fn write_at(&mut self, pos: usize, bytes: &[u8])
        requires
            old(self)@.wf(),
            pos + bytes@.len() <= usize::MAX,
            old(self)@.capacity is None ==> pos + bytes@.len() <= old(self)@.len(),
        ensures
            final(self)@ == old(self)@.write_at(pos as nat, bytes@),
            final(self)@.wf(),
    {
        let ghost start = self@;
        if pos + bytes.len() <= self.bytes.len() {
            let mut i: usize = 0;
            while i < bytes.len()
                invariant
                    i <= bytes@.len(),
                    start.wf(),
                    pos + bytes@.len() <= self.bytes@.len() == start.stored.len(),
                    pos + bytes@.len() <= usize::MAX,
                    self@.dropped == start.dropped,
                    self@.capacity == start.capacity,
                    forall|k: int| 0 <= k < i ==> #[trigger] self.bytes@[pos + k] == bytes@[k],
                    forall|k: int|
                        0 <= k < self.bytes@.len() && !(pos <= k < pos + i)
                            ==> #[trigger] self.bytes@[k] == start.stored[k],
                decreases bytes@.len() - i,
            {
                self.bytes.set(pos + i, bytes[i]);
                i = i + 1;
            }
            proof {
                let goal = start.write_at(pos as nat, bytes@).stored;
                assert forall|k: int| 0 <= k < goal.len() implies self.bytes@[k] == goal[k] by {
                    if pos <= k < pos + bytes@.len() {
                        assert(self.bytes@[pos + (k - pos)] == bytes@[k - pos]);
                    }
                }
                assert(self@.stored =~= goal);
            }
        }
    }

    /// The bytes that are stored.
    pub fn as_slice(&self) -> (r: &[u8])
        ensures
            r@ == self@.stored,
    {
        self.bytes.as_slice()
    }

    /// Hands the stored bytes out.
    pub fn into_bytes(self) -> (r: Vec<u8>)
        ensures
            r@ == self@.stored,
    {
        self.bytes
    }
}

/// Writing in two parts is writing at once.
pub proof fn lemma_append_append(o: Output, a: Seq<u8>, b: Seq<u8>)
    requires
        o.wf(),
    ensures
        o.append(a).wf(),
        o.append(a).append(b) == o.append(a + b),
        o.append(a).len() == o.len() + a.len(),
{
    let one = o.append(a).append(b);
    let two = o.append(a + b);
    assert(one.stored =~= two.stored);
}

/// A fixed sink holds the start of what a growing one holds, and counts as
/// many bytes.
pub open spec fn mirrors(fixed: Output, growing: Output) -> bool {
    &&& fixed.wf()
    &&& growing.wf()
    &&& fixed.capacity is Some
    &&& growing.capacity is None
    &&& fixed.len() == growing.len()
    &&& fixed.stored == growing.stored.take(fixed.stored.len() as int)
}

/// A fixed sink that is written and truncated like a growing one keeps holding
/// the start of it, and all of it wherever nothing was dropped. Truncating
/// back into the stored part undoes an overflow.
pub proof fn law_fixed_mirrors_growing(fixed: Output, growing: Output, bytes: Seq<u8>, n: nat)
    requires
        mirrors(fixed, growing),
    ensures
        mirrors(fixed.append(bytes), growing.append(bytes)),
        mirrors(fixed.truncate(n), growing.truncate(n)),
        fixed.dropped == 0 ==> fixed.stored == growing.stored,
        n <= fixed.stored.len() ==> fixed.truncate(n).dropped == 0,
{
    let f = fixed.append(bytes);
    let g = growing.append(bytes);
    assert(bytes.take(bytes.len() as int) =~= bytes);
    assert(f.stored =~= g.stored.take(f.stored.len() as int));
    let ft = fixed.truncate(n);
    let gt = growing.truncate(n);
    assert(ft.stored =~= gt.stored.take(ft.stored.len() as int));
    assert(fixed.dropped == 0 ==> fixed.stored =~= growing.stored);
}

/// A header that was opened with a placeholder and filled in later reads as if
/// it had been written first.
pub proof fn law_backfill(o: Output, placeholder: Seq<u8>, payload: Seq<u8>, header: Seq<u8>)
    requires
        o.wf(),
        placeholder.len() == header.len(),
        o.append(placeholder + payload).dropped == 0,
    ensures
        o.append(placeholder + payload).write_at(o.len(), header) == o.append(header + payload),
{
    let all = placeholder + payload;
    assert(o.dropped == 0);
    assert(o.fits(all.len()) == all.len());
    assert(all.take(all.len() as int) =~= all);
    assert((header + payload).take(all.len() as int) =~= header + payload);
    let one = o.append(all).write_at(o.len(), header);
    let two = o.append(header + payload);
    assert(one.stored =~= two.stored);
}

/// A growing sink stores all that is written. A fixed one stores what fits and
/// counts the rest; it never stores less than it could.
pub proof fn law_sinks_take_what_fits(sink: Output, bytes: Seq<u8>)
    requires
        sink.wf(),
    ensures
        ({
            let after = sink.append(bytes);
            &&& after.wf()
            &&& after.len() == sink.len() + bytes.len()
            &&& sink.capacity is None ==> after.stored == sink.stored + bytes && after.dropped == 0
            &&& sink.stored.is_prefix_of(after.stored)
            &&& after.stored.is_prefix_of(sink.stored + bytes)
            &&& after.dropped > sink.dropped ==> sink.capacity == Some(after.stored.len())
            &&& after.capacity == sink.capacity
        }),
{
    assert(bytes.take(bytes.len() as int) =~= bytes);
}

/// What is put at a place stands there; every other byte stays.
pub proof fn law_bytes_are_put_in_place(sink: Output, pos: nat, bytes: Seq<u8>, i: int)
    requires
        0 <= i < sink.stored.len(),
    ensures
        ({
            let after = sink.write_at(pos, bytes);
            &&& after.len() == sink.len()
            &&& after.stored.len() == sink.stored.len()
            &&& pos + bytes.len() <= sink.stored.len() && pos <= i < pos + bytes.len()
                ==> after.stored[i] == bytes[i - pos]
            &&& !(pos <= i < pos + bytes.len()) ==> after.stored[i] == sink.stored[i]
            &&& pos + bytes.len() > sink.stored.len() ==> after == sink
        }),
{
}

/// Truncating takes away what was written last.
pub proof fn law_truncating_undoes_writing(sink: Output, bytes: Seq<u8>, n: nat)
    requires
        sink.wf(),
    ensures
        sink.append(bytes).truncate(sink.len()) == sink,
        sink.truncate(n).len() == if n < sink.len() {
            n
        } else {
            sink.len()
        },
        sink.truncate(n).stored.is_prefix_of(sink.stored),
{
    let kept = sink.append(bytes).truncate(sink.len());
    assert(kept.stored =~= sink.stored);
}

} // verus!
