use vstd::prelude::*;

use crate::loc::{
    gloc_after, gloc_after_seq, loc_room, locate, GLoc, Loc, LocByte, LocWrite, StreamError,
    lemma_gloc_after_seq_append, lemma_locate_append, lemma_gloc_after_seq_ok, lemma_room_split,
};
use vstd::slice::slice_subrange;

verus! {

/// The largest number of provisionally skipped bytes that can be carried
/// from one buffer to the next.
pub const MAX_PREFIX: usize = 4;

#[derive(Debug, PartialEq, Eq)]
pub enum SkipToken {
    Byte(u8),
    End,
}

/// The part of a `Skipper`'s state that survives the end of a buffer.
#[derive(Copy, Clone, Debug)]
pub enum SkipState {
    /// No skip is active.
    Writing,
    /// A skip began inside the current buffer, at the given position and
    /// buffer offset.
    SkippingFrom(Loc, usize),
    /// A skip begun in an earlier buffer carries these bytes, which start at
    /// the given position.
    SkippingWithPrefix(Loc, [u8; 4], usize),
}

impl SkipState {
    pub open spec fn wf_state(self) -> bool {
        match self {
            SkipState::SkippingWithPrefix(l0, arr, n) => n <= 4 && loc_room(l0@, n as int),
            _ => true,
        }
    }

    /// The located bytes this state carries over from earlier buffers.
    pub open spec fn carried(self) -> Seq<LocByte> {
        match self {
            SkipState::SkippingWithPrefix(l0, arr, n) => locate(l0@, arr@.take(n as int)),
            _ => Seq::empty(),
        }
    }

    /// Offset just past the carried bytes; a fresh buffer must not start
    /// before it.
    pub open spec fn carried_until(self) -> int {
        match self {
            SkipState::SkippingWithPrefix(l0, arr, n) => l0@.offset + n,
            _ => 0,
        }
    }

    /// May a fresh buffer begin in this state at position `l`?
    pub open spec fn valid_start(self, l: GLoc) -> bool {
        match self {
            SkipState::Writing => true,
            SkipState::SkippingFrom(_, _) => false,
            SkipState::SkippingWithPrefix(l0, arr, n) => n <= 4 && loc_room(l0@, n as int)
                && l0@.offset + n <= l.offset,
        }
    }

    pub fn new() -> (r: SkipState)
        ensures
            r == SkipState::Writing,
    {
        SkipState::Writing
    }

    /// Writes any carried bytes to `dest`: at end of input a skip that never
    /// completed must be cancelled, so its bytes belong to the output.
    pub fn write_remainder<LW: LocWrite>(&self, dest: &mut LW) -> (r: Result<(), StreamError>)
        requires
            self.wf_state(),
            old(dest).wf(),
            match *self {
                SkipState::SkippingWithPrefix(l0, _, _) => old(dest).min_start() <= l0@.offset,
                _ => true,
            },
        ensures
            r is Ok ==> final(dest).wf() && final(dest).taken() == old(dest).taken()
                + self.carried() && final(dest).infallible() == old(dest).infallible(),
            r is Ok && self is SkippingWithPrefix ==> final(dest).min_start()
                <= self.carried_until(),
            r is Ok && !(self is SkippingWithPrefix) ==> *final(dest) == *old(dest),
            old(dest).infallible() ==> r is Ok,
            !(r is Ok) ==> !old(dest).infallible(),
    {
        if let SkipState::SkippingWithPrefix(l0, arr, n) = *self {
            let mut v: Vec<u8> = Vec::new();
            let mut i: usize = 0;
            while i < n
                invariant
                    n <= 4,
                    i <= n,
                    v@ == arr@.take(i as int),
                decreases n - i,
            {
                v.push(arr[i]);
                assert(arr@.take(i as int).push(arr@[i as int]) =~= arr@.take(i as int + 1));
                i = i + 1;
            }
            match dest.loc_write(l0, v.as_slice()) {
                Ok(_) => Ok(()),
                Err(e) => Err(e),
            }
        } else {
            assert(self.carried() =~= Seq::<LocByte>::empty());
            assert(old(dest).taken() + self.carried() =~= old(dest).taken());
            Ok(())
        }
    }
}

/// Scans one buffer, forwarding its bytes to an inner sink while letting the
/// caller provisionally elide short runs. Bytes accumulate into a pending
/// write that is flushed in one piece, so downstream sees few large writes.
pub struct Skipper {
    pub loc: Loc,
    pub pos: usize,
    pub write_from: usize,
    pub write_from_loc: Loc,
    pub state: SkipState,
    pub bufg: Ghost<Seq<u8>>,
    pub startg: Ghost<GLoc>,
}

impl Skipper {
    pub open spec fn buflen(&self) -> int {
        self.bufg@.len() as int
    }

    /// Position of byte `i` of the buffer.
    pub open spec fn gat(&self, i: int) -> GLoc {
        gloc_after_seq(self.startg@, self.bufg@.take(i))
    }

    /// Bytes `i..j` of the buffer, located.
    pub open spec fn locrange(&self, i: int, j: int) -> Seq<LocByte> {
        locate(self.gat(i), self.bufg@.subrange(i, j))
    }

    /// Upper end of the pending-write region.
    pub open spec fn wstop(&self) -> int {
        match self.state {
            SkipState::Writing => self.pos as int,
            SkipState::SkippingFrom(_, k) => k as int,
            SkipState::SkippingWithPrefix(_, _, _) => self.write_from as int,
        }
    }

    /// Bytes accepted but not yet written downstream nor under a skip.
    pub open spec fn pending(&self) -> Seq<LocByte> {
        if self.pos as int == self.buflen() {
            Seq::empty()
        } else {
            self.locrange(self.write_from as int, self.wstop())
        }
    }

    /// Bytes currently under a provisional skip, in input order.
    pub open spec fn skipped(&self) -> Seq<LocByte> {
        match self.state {
            SkipState::Writing => Seq::empty(),
            SkipState::SkippingFrom(_, k) => self.locrange(k as int, self.pos as int),
            SkipState::SkippingWithPrefix(l0, arr, n) => locate(l0@, arr@.take(n as int))
                + self.locrange(0, self.pos as int),
        }
    }

    /// The part of the skip region that lies inside the current buffer.
    pub open spec fn skipped_here(&self) -> Seq<LocByte> {
        match self.state {
            SkipState::Writing => Seq::empty(),
            SkipState::SkippingFrom(_, k) => self.locrange(k as int, self.pos as int),
            SkipState::SkippingWithPrefix(_, _, _) => self.locrange(0, self.pos as int),
        }
    }

    pub open spec fn wf(&self) -> bool {
        &&& self.pos <= self.bufg@.len()
        &&& loc_room(self.startg@, self.buflen())
        &&& self.loc@ == self.gat(self.pos as int)
        &&& self.write_from <= self.pos
        &&& self.write_from_loc@ == self.gat(self.write_from as int)
        &&& match self.state {
            SkipState::Writing => true,
            SkipState::SkippingFrom(l0, k) => self.write_from <= k && k <= self.pos && l0@
                == self.gat(k as int) && self.pos - k <= 4,
            SkipState::SkippingWithPrefix(l0, arr, n) => self.write_from == 0 && n <= 4 && n
                + self.pos <= 4 && loc_room(l0@, n as int) && l0@.offset + n
                <= self.startg@.offset,
        }
    }

    /// Exact offset of the `i`th byte of the buffer.
    pub proof fn lemma_gat_offset(&self, i: int)
        requires
            crate::loc::gloc_ok(self.startg@),
            0 <= i <= self.buflen(),
        ensures
            self.gat(i).offset == self.startg@.offset + i,
    {
        assert(self.bufg@.take(i).len() == i);
        lemma_gloc_after_seq_ok(self.startg@, self.bufg@.take(i));
    }

    /// Would one more `shift` overrun the carryable skip bound?
    pub open spec fn skip_full(&self) -> bool {
        match self.state {
            SkipState::Writing => false,
            SkipState::SkippingFrom(_, k) => self.pos + 1 - k > 4,
            SkipState::SkippingWithPrefix(_, _, n) => n + self.pos + 1 > 4,
        }
    }

    pub fn new(loc: Loc, buf: &[u8]) -> (r: Skipper)
        requires
            loc_room(loc@, buf@.len() as int),
        ensures
            r.wf(),
            r.bufg@ == buf@,
            r.startg@ == loc@,
            r.pos == 0,
            r.state is Writing,
            r.pending() == Seq::<LocByte>::empty(),
            r.skipped() == Seq::<LocByte>::empty(),
    {
        let r = Skipper {
            loc,
            pos: 0,
            write_from: 0,
            write_from_loc: loc,
            state: SkipState::Writing,
            bufg: Ghost(buf@),
            startg: Ghost(loc@),
        };
        proof {
            assert(r.bufg@.take(0) =~= Seq::<u8>::empty());
            assert(r.bufg@.subrange(0, 0) =~= Seq::<u8>::empty());
            assert(r.pending() =~= Seq::<LocByte>::empty());
        }
        r
    }

    pub fn new_with_state(loc: Loc, buf: &[u8], state: SkipState) -> (r: Skipper)
        requires
            loc_room(loc@, buf@.len() as int),
            state.valid_start(loc@),
        ensures
            r.wf(),
            r.bufg@ == buf@,
            r.startg@ == loc@,
            r.pos == 0,
            r.state == state,
            r.pending() == Seq::<LocByte>::empty(),
            r.skipped() == state.carried(),
    {
        let r = Skipper {
            loc,
            pos: 0,
            write_from: 0,
            write_from_loc: loc,
            state,
            bufg: Ghost(buf@),
            startg: Ghost(loc@),
        };
        proof {
            assert(r.bufg@.take(0) =~= Seq::<u8>::empty());
            assert(r.bufg@.subrange(0, 0) =~= Seq::<u8>::empty());
            assert(r.pending() =~= Seq::<LocByte>::empty());
            assert(r.locrange(0, 0) =~= Seq::<LocByte>::empty());
            assert(r.skipped() =~= state.carried());
        }
        r
    }

    /// The byte at the cursor, if the buffer has one left.

    pub proof fn lemma_room_at(&self, i: int)
        requires
            self.wf(),
            0 <= i <= self.buflen(),
        ensures
            loc_room(self.gat(i), self.buflen() - i),
    {
        assert(self.bufg@.take(i).len() == i);
        lemma_room_split(self.startg@, self.bufg@.take(i), self.buflen());
    }

    pub proof fn lemma_gat_succ(&self, i: int)
        requires
            0 <= i < self.buflen(),
        ensures
            self.gat(i + 1) == gloc_after(self.gat(i), self.bufg@[i]),
    {
        assert(self.bufg@.take(i + 1).drop_last() =~= self.bufg@.take(i));
        assert(self.bufg@.take(i + 1).last() == self.bufg@[i]);
    }

    pub proof fn lemma_locrange_concat(&self, i: int, j: int, k: int)
        requires
            0 <= i <= j <= k <= self.buflen(),
        ensures
            self.locrange(i, k) == self.locrange(i, j) + self.locrange(j, k),
    {
        assert(self.bufg@.subrange(i, k) =~= self.bufg@.subrange(i, j) + self.bufg@.subrange(
            j,
            k,
        ));
        lemma_locate_append(self.gat(i), self.bufg@.subrange(i, j), self.bufg@.subrange(j, k));
        assert(self.bufg@.take(i) + self.bufg@.subrange(i, j) =~= self.bufg@.take(j));
        lemma_gloc_after_seq_append(self.startg@, self.bufg@.take(i), self.bufg@.subrange(i, j));
    }

    pub proof fn lemma_locrange_single(&self, i: int)
        requires
            0 <= i < self.buflen(),
        ensures
            self.locrange(i, i + 1) == seq![LocByte { loc: self.gat(i), byte: self.bufg@[i] }],
    {
        let s = self.bufg@.subrange(i, i + 1);
        assert(s.len() == 1);
        assert(s.drop_last() =~= Seq::<u8>::empty());
        assert(locate(self.gat(i), s.drop_last()) =~= Seq::<LocByte>::empty());
        assert(gloc_after_seq(self.gat(i), s.drop_last()) == self.gat(i));
        assert(s.last() == self.bufg@[i]);
        assert(locate(self.gat(i), s) =~= seq![
            LocByte { loc: self.gat(i), byte: self.bufg@[i] },
        ]);
    }

    pub proof fn lemma_locrange_empty(&self, i: int)
        requires
            0 <= i <= self.buflen(),
        ensures
            self.locrange(i, i) == Seq::<LocByte>::empty(),
    {
        assert(self.bufg@.subrange(i, i) =~= Seq::<u8>::empty());
    }

    /// Consumes the byte at the cursor. When that exhausts the buffer, the
    /// pending write region is flushed to `inner` in one piece.
    pub fn shift<LW: LocWrite>(&mut self, inner: &mut LW, buf: &[u8]) -> (r: Result<
        Option<u8>,
        StreamError,
    >)
        requires
            old(self).wf(),
            buf@ == old(self).bufg@,
            old(inner).wf(),
            old(inner).min_start() <= old(self).gat(old(self).write_from as int).offset,
        ensures
            old(self).pos == old(self).buflen() ==> r == Err::<Option<u8>, StreamError>(
                StreamError::ShiftAtEnd,
            ) && *final(self) == *old(self) && *final(inner) == *old(inner),
            (old(self).pos as int) < old(self).buflen() && old(self).skip_full() ==> r == Err::<
                Option<u8>,
                StreamError,
            >(StreamError::SkipTooLong) && *final(self) == *old(self) && *final(inner) == *old(
                inner,
            ),
            r is Ok ==> {
                &&& (old(self).pos as int) < old(self).buflen()
                &&& !old(self).skip_full()
                &&& final(self).wf()
                &&& final(self).bufg == old(self).bufg
                &&& final(self).startg == old(self).startg
                &&& final(self).pos == old(self).pos + 1
                &&& final(self).write_from == old(self).write_from
                &&& final(self).write_from_loc == old(self).write_from_loc
                &&& final(self).state == old(self).state
                &&& r->Ok_0 == (if old(self).pos + 1 < old(self).buflen() {
                    Some(old(self).bufg@[old(self).pos + 1])
                } else {
                    Option::<u8>::None
                })
                &&& final(self).skipped() == (if old(self).state is Writing {
                    Seq::<LocByte>::empty()
                } else {
                    old(self).skipped().push(
                        LocByte {
                            loc: old(self).gat(old(self).pos as int),
                            byte: old(self).bufg@[old(self).pos as int],
                        },
                    )
                })
                &&& final(inner).wf()
                &&& final(inner).infallible() == old(inner).infallible()
                &&& (if old(self).pos + 1 == old(self).buflen() {
                    (match old(self).state {
                        SkipState::Writing => final(inner).min_start() <= old(self).startg@.offset
                            + old(self).pos + 1,
                        SkipState::SkippingFrom(_, k) => final(inner).min_start() <= old(
                            self,
                        ).startg@.offset + k,
                        SkipState::SkippingWithPrefix(_, _, _) => *final(inner) == *old(inner),
                    }) && final(inner).taken() == old(inner).taken() + old(self).pending() + (if old(
                        self,
                    ).state is Writing {
                        seq![
                            LocByte {
                                loc: old(self).gat(old(self).pos as int),
                                byte: old(self).bufg@[old(self).pos as int],
                            },
                        ]
                    } else {
                        Seq::<LocByte>::empty()
                    })
                } else {
                    *final(inner) == *old(inner) && final(self).pending() == old(self).pending()
                        + (if old(self).state is Writing {
                        seq![
                            LocByte {
                                loc: old(self).gat(old(self).pos as int),
                                byte: old(self).bufg@[old(self).pos as int],
                            },
                        ]
                    } else {
                        Seq::<LocByte>::empty()
                    })
                })
            },
            old(inner).infallible() && (old(self).pos as int) < old(self).buflen() && !old(
                self,
            ).skip_full() ==> r is Ok,
    {
        proof {
            self.lemma_room_at(self.pos as int);
        }
        if self.pos >= buf.len() {
            return Err(StreamError::ShiftAtEnd);
        }
        let c = buf[self.pos];
        match self.state {
            SkipState::SkippingFrom(_, offset) => {
                if self.pos + 1 - offset > MAX_PREFIX {
                    return Err(StreamError::SkipTooLong);
                }
            },
            SkipState::SkippingWithPrefix(_, _, n) => {
                if n + self.pos + 1 > MAX_PREFIX {
                    return Err(StreamError::SkipTooLong);
                }
            },
            SkipState::Writing => {},
        }
        let ghost p = old(self).pos as int;
        proof {
            self.lemma_gat_succ(p);
        }
        self.loc = self.loc.after(c);
        self.pos = self.pos + 1;
        proof {
            // skipped() and pending() after the move
            let ghost wfrom = self.write_from as int;
            self.lemma_locrange_concat(wfrom, p, p + 1);
            self.lemma_locrange_single(p);
            self.lemma_locrange_empty(wfrom);
            match old(self).state {
                SkipState::Writing => {},
                SkipState::SkippingFrom(_, k) => {
                    self.lemma_locrange_concat(k as int, p, p + 1);
                },
                SkipState::SkippingWithPrefix(_, _, _) => {
                    self.lemma_locrange_concat(0, p, p + 1);
                },
            }
        }
        if self.pos == buf.len() {
            match self.state {
                SkipState::Writing => {
                    proof {
                        self.lemma_room_at(self.write_from as int);
                        self.lemma_locrange_concat(self.write_from as int, p, p + 1);
                        self.lemma_locrange_single(p);
                        assert(buf@.subrange(self.write_from as int, buf@.len() as int)
                            =~= self.bufg@.subrange(self.write_from as int, self.buflen()));
                    }
                    let s = slice_subrange(buf, self.write_from, buf.len());
                    match inner.loc_write(self.write_from_loc, s) {
                        Ok(_) => {},
                        Err(e) => {
                            return Err(e);
                        },
                    }
                },
                SkipState::SkippingFrom(_, until) => {
                    proof {
                        self.lemma_room_at(self.write_from as int);
                        assert(buf@.subrange(self.write_from as int, until as int)
                            =~= self.bufg@.subrange(self.write_from as int, until as int));
                    }
                    let s = slice_subrange(buf, self.write_from, until);
                    match inner.loc_write(self.write_from_loc, s) {
                        Ok(_) => {},
                        Err(e) => {
                            return Err(e);
                        },
                    }
                },
                SkipState::SkippingWithPrefix(_, _, _) => {},
            }
            proof {
                self.lemma_gat_offset(self.write_from as int);
                match self.state {
                    SkipState::Writing => {
                        self.lemma_gat_offset(self.pos as int);
                    },
                    SkipState::SkippingFrom(_, k) => {
                        self.lemma_gat_offset(k as int);
                    },
                    SkipState::SkippingWithPrefix(_, _, _) => {},
                }
                assert(old(self).pending() + Seq::<LocByte>::empty() =~= old(self).pending());
                assert(old(inner).taken() + old(self).pending() + Seq::<LocByte>::empty()
                    =~= old(inner).taken() + old(self).pending());
                match old(self).state {
                    SkipState::Writing => {
                        assert(old(inner).taken() + old(self).locrange(
                            old(self).write_from as int,
                            p + 1,
                        ) =~= old(inner).taken() + old(self).pending() + seq![
                            LocByte { loc: old(self).gat(p), byte: old(self).bufg@[p] },
                        ]);
                    },
                    _ => {},
                }
            }
        }
        Ok(self.lookahead(buf))
    }


    /// Starts a provisional skip at the cursor. Legal only while no skip is
    /// active.
    pub fn begin_skip(&mut self) -> (r: Result<(), StreamError>)
        requires
            old(self).wf(),
        ensures
            !(old(self).state is Writing) ==> r == Err::<(), StreamError>(
                StreamError::BeginSkipWhileSkipping,
            ) && *final(self) == *old(self),
            old(self).state is Writing ==> r == Ok::<(), StreamError>(()) && final(self).wf()
                && *final(self) == (Skipper {
                state: SkipState::SkippingFrom(old(self).loc, old(self).pos),
                ..*old(self)
            }) && final(self).pending() == old(self).pending() && final(self).skipped()
                == Seq::<LocByte>::empty(),
    {
        match self.state {
            SkipState::Writing => {
                self.state = SkipState::SkippingFrom(self.loc, self.pos);
                proof {
                    self.lemma_locrange_empty(self.pos as int);
                }
                Ok(())
            },
            _ => Err(StreamError::BeginSkipWhileSkipping),
        }
    }

    /// Completes the active skip: the bytes under it are dropped from the
    /// output, and anything pending before them is flushed to `inner`.
    pub fn end_skip<LW: LocWrite>(&mut self, inner: &mut LW, buf: &[u8]) -> (r: Result<
        (),
        StreamError,
    >)
        requires
            old(self).wf(),
            buf@ == old(self).bufg@,
            old(inner).wf(),
            (old(self).pos as int) < old(self).buflen() ==> old(inner).min_start() <= old(
                self,
            ).gat(old(self).write_from as int).offset,
        ensures
            old(self).state is Writing ==> r == Err::<(), StreamError>(
                StreamError::EndSkipWhileWriting,
            ) && *final(self) == *old(self) && *final(inner) == *old(inner),
            r is Ok ==> {
                &&& !(old(self).state is Writing)
                &&& final(self).wf()
                &&& final(self).bufg == old(self).bufg
                &&& final(self).startg == old(self).startg
                &&& final(self).pos == old(self).pos
                &&& final(self).state is Writing
                &&& final(self).write_from == old(self).pos
                &&& final(self).write_from_loc == old(self).loc
                &&& final(self).pending() == Seq::<LocByte>::empty()
                &&& final(self).skipped() == Seq::<LocByte>::empty()
                &&& final(inner).wf()
                &&& final(inner).infallible() == old(inner).infallible()
                &&& final(inner).taken() == old(inner).taken() + old(self).pending()
                &&& (match old(self).state {
                    SkipState::SkippingFrom(_, k) => if (old(self).pos as int) < old(
                        self,
                    ).buflen() {
                        final(inner).min_start() <= old(self).startg@.offset + k
                    } else {
                        *final(inner) == *old(inner)
                    },
                    _ => *final(inner) == *old(inner),
                })
            },
            old(inner).infallible() && !(old(self).state is Writing) ==> r is Ok,
    {
        match self.state {
            SkipState::SkippingFrom(_, write_until) => {
                if self.pos < buf.len() {
                    proof {
                        self.lemma_room_at(self.write_from as int);
                        assert(buf@.subrange(self.write_from as int, write_until as int)
                            =~= self.bufg@.subrange(self.write_from as int, write_until as int));
                    }
                    let s = slice_subrange(buf, self.write_from, write_until);
                    match inner.loc_write(self.write_from_loc, s) {
                        Ok(_) => {},
                        Err(e) => {
                            return Err(e);
                        },
                    }
                } else {
                    proof {
                        assert(old(inner).taken() + old(self).pending() =~= old(inner).taken());
                    }
                }
            },
            SkipState::SkippingWithPrefix(_, _, _) => {
                proof {
                    self.lemma_locrange_empty(self.write_from as int);
                    assert(old(self).pending() =~= Seq::<LocByte>::empty());
                    assert(old(inner).taken() + old(self).pending() =~= old(inner).taken());
                }
            },
            SkipState::Writing => {
                return Err(StreamError::EndSkipWhileWriting);
            },
        }
        proof {
            self.lemma_gat_offset(self.write_from as int);
            match self.state {
                SkipState::SkippingFrom(_, k) => {
                    self.lemma_gat_offset(k as int);
                },
                _ => {},
            }
        }
        self.write_from_loc = self.loc;
        self.write_from = self.pos;
        self.state = SkipState::Writing;
        proof {
            self.lemma_locrange_empty(self.pos as int);
        }
        Ok(())
    }

    /// Abandons the active skip: the bytes under it stay in the output. A
    /// skip carried from an earlier buffer is written out at once; one local
    /// to this buffer simply rejoins the pending write region.
    pub fn cancel_skip<LW: LocWrite>(&mut self, inner: &mut LW, buf: &[u8]) -> (r: Result<
        (),
        StreamError,
    >)
        requires
            old(self).wf(),
            buf@ == old(self).bufg@,
            old(inner).wf(),
            !(old(self).state is Writing) ==> (old(self).pos as int) < old(self).buflen(),
            match old(self).state {
                SkipState::SkippingWithPrefix(l0, _, _) => old(inner).min_start() <= l0@.offset,
                _ => true,
            },
        ensures
            r is Ok ==> {
                &&& final(self).wf()
                &&& final(self).bufg == old(self).bufg
                &&& final(self).startg == old(self).startg
                &&& final(self).pos == old(self).pos
                &&& final(self).loc == old(self).loc
                &&& final(self).write_from == old(self).write_from
                &&& final(self).write_from_loc == old(self).write_from_loc
                &&& final(self).state is Writing
                &&& final(self).pending() == old(self).pending() + old(self).skipped_here()
                &&& final(self).skipped() == Seq::<LocByte>::empty()
                &&& final(inner).wf()
                &&& final(inner).infallible() == old(inner).infallible()
                &&& final(inner).taken() == old(inner).taken() + old(self).state.carried()
                &&& (match old(self).state {
                    SkipState::SkippingWithPrefix(_, _, _) => final(inner).min_start() <= old(
                        self,
                    ).startg@.offset,
                    _ => *final(inner) == *old(inner),
                })
            },
            old(inner).infallible() ==> r is Ok,
    {
        match self.state {
            SkipState::SkippingWithPrefix(l0, prefix_array, prefix_len) => {
                // Bytes carried from earlier buffers can no longer join this
                // buffer's pending region: write them out now.
                let mut v: Vec<u8> = Vec::new();
                let mut i: usize = 0;
                while i < prefix_len
                    invariant
                        prefix_len <= 4,
                        i <= prefix_len,
                        v@ == prefix_array@.take(i as int),
                    decreases prefix_len - i,
                {
                    v.push(prefix_array[i]);
                    assert(prefix_array@.take(i as int).push(prefix_array@[i as int])
                        =~= prefix_array@.take(i as int + 1));
                    i = i + 1;
                }
                match inner.loc_write(l0, v.as_slice()) {
                    Ok(_) => {},
                    Err(e) => {
                        return Err(e);
                    },
                }
            },
            _ => {},
        }
        let ghost pre = *self;
        self.state = SkipState::Writing;
        proof {
            match pre.state {
                SkipState::Writing => {
                    assert(old(self).pending() + old(self).skipped_here() =~= old(
                        self,
                    ).pending());
                    assert(old(inner).taken() + old(self).state.carried() =~= old(
                        inner,
                    ).taken());
                },
                SkipState::SkippingFrom(_, k) => {
                    self.lemma_locrange_concat(
                        self.write_from as int,
                        k as int,
                        self.pos as int,
                    );
                    assert(old(inner).taken() + old(self).state.carried() =~= old(
                        inner,
                    ).taken());
                },
                SkipState::SkippingWithPrefix(_, _, _) => {
                    self.lemma_locrange_empty(0);
                    self.lemma_locrange_concat(0, 0, self.pos as int);
                    assert(old(self).pending() =~= Seq::<LocByte>::empty());
                    assert(old(self).pending() + old(self).skipped_here()
                        =~= old(self).skipped_here());
                },
            }
        }
        Ok(())
    }

    /// Packs the state that must survive this buffer: a skip still open at
    /// the end of the buffer turns into a carried prefix of at most four
    /// bytes.
    pub fn save_state(self, buf: &[u8]) -> (r: SkipState)
        requires
            self.wf(),
            buf@ == self.bufg@,
            self.pos == self.bufg@.len(),
        ensures
            r.wf_state(),
            r.valid_start(gloc_after_seq(self.startg@, self.bufg@)),
            r.carried_until() <= self.startg@.offset + self.buflen(),
            self.state is SkippingFrom ==> r.carried() == self.skipped(),
            self.state is SkippingWithPrefix && self.buflen() == 0 ==> r.carried()
                == self.skipped(),
            r is Writing <==> self.state is Writing,
            self.state is SkippingWithPrefix ==> r is SkippingWithPrefix,
            self.state is SkippingFrom ==> r is SkippingWithPrefix,
    {
        proof {
            assert(self.bufg@.take(self.buflen()) =~= self.bufg@);
            lemma_gloc_after_seq_ok(self.startg@, self.bufg@);
        }
        match self.state {
            SkipState::Writing => SkipState::Writing,
            SkipState::SkippingFrom(l0, offset) => {
                let n = buf.len() - offset;
                let mut prefix_array = [0u8; 4];
                let mut i: usize = 0;
                proof {
                    assert(prefix_array@.take(0) =~= buf@.subrange(offset as int, offset as int));
                }
                while i < n
                    invariant
                        n <= 4,
                        i <= n,
                        offset + n <= buf@.len(),
                        buf@.len() <= usize::MAX,
                        prefix_array@.take(i as int) == buf@.subrange(
                            offset as int,
                            offset + i,
                        ),
                        prefix_array@.len() == 4,
                    decreases n - i,
                {
                    proof {
                        assert(offset + i < buf@.len());
                    }
                    let j = offset + i;
                    prefix_array[i] = buf[j];
                    assert(prefix_array@.take(i as int + 1) =~= buf@.subrange(
                        offset as int,
                        offset as int + i + 1,
                    ));
                    i = i + 1;
                }
                proof {
                    assert(prefix_array@.take(n as int) =~= self.bufg@.subrange(
                        offset as int,
                        self.buflen(),
                    ));
                    self.lemma_room_at(offset as int);
                    self.lemma_gat_offset(offset as int);
                    assert(self.bufg@.take(offset as int) + self.bufg@.subrange(
                        offset as int,
                        self.buflen(),
                    ) =~= self.bufg@);
                    lemma_gloc_after_seq_append(
                        self.startg@,
                        self.bufg@.take(offset as int),
                        self.bufg@.subrange(offset as int, self.buflen()),
                    );
                }
                SkipState::SkippingWithPrefix(l0, prefix_array, n)
            },
            SkipState::SkippingWithPrefix(l0, prefix_array, prefix_len) => {
                proof {
                    assert(prefix_len + buf@.len() <= 4);
                }
                let n = prefix_len + buf.len();
                let mut new_array = prefix_array;
                let mut i: usize = 0;
                proof {
                    assert(new_array@.take(prefix_len as int) =~= prefix_array@.take(
                        prefix_len as int,
                    ));
                    assert(new_array@.subrange(prefix_len as int, prefix_len as int) =~= buf@.take(
                        0,
                    ));
                }
                while i < buf.len()
                    invariant
                        prefix_len + buf@.len() <= 4,
                        buf@.len() <= usize::MAX,
                        i <= buf@.len(),
                        new_array@.take(prefix_len as int) == prefix_array@.take(
                            prefix_len as int,
                        ),
                        new_array@.subrange(prefix_len as int, prefix_len + i) == buf@.take(
                            i as int,
                        ),
                        new_array@.len() == 4,
                    decreases buf@.len() - i,
                {
                    new_array[prefix_len + i] = buf[i];
                    assert(new_array@.take(prefix_len as int) =~= prefix_array@.take(
                        prefix_len as int,
                    ));
                    assert(new_array@.subrange(prefix_len as int, prefix_len + i + 1)
                        =~= buf@.take(i as int + 1));
                    i = i + 1;
                }
                proof {
                    lemma_gloc_after_seq_ok(l0@, prefix_array@.take(prefix_len as int));
                    assert(new_array@.take(n as int) =~= prefix_array@.take(prefix_len as int)
                        + self.bufg@);
                    lemma_locate_append(
                        l0@,
                        prefix_array@.take(prefix_len as int),
                        self.bufg@,
                    );
                    lemma_gloc_after_seq_append(
                        l0@,
                        prefix_array@.take(prefix_len as int),
                        self.bufg@,
                    );
                    assert(self.bufg@.subrange(0, self.buflen()) =~= self.bufg@);
                    assert(self.bufg@.take(0) =~= Seq::<u8>::empty());
                }
                SkipState::SkippingWithPrefix(l0, new_array, n)
            },
        }
    }

    pub fn lookahead(&self, buf: &[u8]) -> (r: Option<u8>)
        requires
            buf@ == self.bufg@,
            self.pos <= self.bufg@.len(),
        ensures
            r == (if (self.pos as int) < self.buflen() {
                Some(self.bufg@[self.pos as int])
            } else {
                Option::<u8>::None
            }),
    {
        if self.pos < buf.len() {
            Some(buf[self.pos])
        } else {
            None
        }
    }
}

} // verus!
