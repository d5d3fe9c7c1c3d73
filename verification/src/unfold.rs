use vstd::prelude::*;

use crate::loc::{bytes_of, loc_room, locate, Loc, LocByte, LocWrite, StreamError};
use crate::skip::{SkipState, Skipper};

verus! {

/// Byte-level state of the unfolder.
#[derive(Copy, Clone, PartialEq, Eq, Structural, Debug)]
pub enum UnfoldState {
    Text,
    Newline,
}

/// Mathematical model of the unfolder. `Pend` holds a line feed that the
/// next byte may fold away; `Stale` is a newline context whose line feed has
/// already been written out, where a continuation space is an error; `Fail`
/// absorbs that error.
pub enum UnfoldMachine {
    Norm,
    Pend(LocByte),
    Stale,
    Fail,
}

pub open spec fn uf_step(st: UnfoldMachine, lb: LocByte) -> (UnfoldMachine, Seq<LocByte>) {
    match st {
        UnfoldMachine::Norm => if lb.byte == 0x0au8 {
            (UnfoldMachine::Pend(lb), Seq::empty())
        } else {
            (UnfoldMachine::Norm, seq![lb])
        },
        UnfoldMachine::Pend(p) => if lb.byte == 0x20u8 {
            (UnfoldMachine::Norm, Seq::empty())
        } else if lb.byte == 0x0au8 {
            (UnfoldMachine::Stale, seq![p, lb])
        } else {
            (UnfoldMachine::Norm, seq![p, lb])
        },
        UnfoldMachine::Stale => if lb.byte == 0x20u8 {
            (UnfoldMachine::Fail, Seq::empty())
        } else if lb.byte == 0x0au8 {
            (UnfoldMachine::Stale, seq![lb])
        } else {
            (UnfoldMachine::Norm, seq![lb])
        },
        UnfoldMachine::Fail => (UnfoldMachine::Fail, Seq::empty()),
    }
}

pub open spec fn uf_state_after(st: UnfoldMachine, s: Seq<LocByte>) -> UnfoldMachine
    decreases s.len(),
{
    if s.len() == 0 {
        st
    } else {
        uf_state_after(uf_step(st, s[0]).0, s.drop_first())
    }
}

pub open spec fn uf_emit(st: UnfoldMachine, s: Seq<LocByte>) -> Seq<LocByte>
    decreases s.len(),
{
    if s.len() == 0 {
        Seq::empty()
    } else {
        uf_step(st, s[0]).1 + uf_emit(uf_step(st, s[0]).0, s.drop_first())
    }
}

pub open spec fn uf_flush_emit(st: UnfoldMachine) -> Seq<LocByte> {
    match st {
        UnfoldMachine::Pend(p) => seq![p],
        _ => Seq::empty(),
    }
}

/// The complete output of the unfolder on located input `s`.
pub open spec fn uf_output(s: Seq<LocByte>) -> Seq<LocByte> {
    uf_emit(UnfoldMachine::Norm, s) + uf_flush_emit(uf_state_after(UnfoldMachine::Norm, s))
}

/// Chunk invariance of the machine: feeding `a` then `b` is the same as
/// feeding `a + b`, both for the state reached and for the bytes emitted.
pub proof fn lemma_uf_append(st: UnfoldMachine, a: Seq<LocByte>, b: Seq<LocByte>)
    ensures
        uf_state_after(st, a + b) == uf_state_after(uf_state_after(st, a), b),
        uf_emit(st, a + b) == uf_emit(st, a) + uf_emit(uf_state_after(st, a), b),
    decreases a.len(),
{
    if a.len() == 0 {
        assert(a + b =~= b);
        assert(uf_emit(st, a) + uf_emit(uf_state_after(st, a), b) =~= uf_emit(st, b));
    } else {
        let n = uf_step(st, a[0]);
        lemma_uf_append(n.0, a.drop_first(), b);
        assert((a + b).drop_first() =~= a.drop_first() + b);
        assert((a + b)[0] == a[0]);
        assert(uf_emit(st, a + b) =~= uf_emit(st, a) + uf_emit(uf_state_after(st, a), b));
    }
}

/// Joins folded lines: a line feed followed by a space disappears together
/// with that space. A line feed followed by anything else is kept.
pub struct Unfolder<LW: LocWrite> {
    pub inner: LW,
    pub state: UnfoldState,
    pub skipstate: SkipState,
    pub log: Ghost<Seq<LocByte>>,
    pub base: Ghost<Seq<LocByte>>,
    pub floor: Ghost<int>,
}

impl<LW: LocWrite> Unfolder<LW> {
    pub fn new(inner: LW) -> (r: Unfolder<LW>)
        requires
            inner.wf(),
        ensures
            r.wf(),
            r.taken() == Seq::<LocByte>::empty(),
            r.infallible() == false,
            r.inner == inner,
            r.base@ == inner.taken(),
            r.min_start() == (if inner.min_start() >= 0 {
                inner.min_start()
            } else {
                0
            }),
            r.inner_ok() == inner.infallible(),
    {
        let ghost f: int = if inner.min_start() >= 0 {
            inner.min_start()
        } else {
            0
        };
        let ghost b = inner.taken();
        let r = Unfolder {
            inner,
            state: UnfoldState::Text,
            skipstate: SkipState::new(),
            log: Ghost(Seq::empty()),
            base: Ghost(b),
            floor: Ghost(f),
        };
        proof {
            assert(r.base@ + uf_emit(UnfoldMachine::Norm, r.log@) =~= r.base@);
        }
        r
    }

    pub fn get_ref(&self) -> (r: &LW)
        ensures
            r == self.inner,
    {
        &self.inner
    }

    pub fn into_inner(self) -> (r: LW)
        ensures
            r == self.inner,
    {
        self.inner
    }

    /// The machine state this stage has reached.
    pub open spec fn machine(&self) -> UnfoldMachine {
        uf_state_after(UnfoldMachine::Norm, self.log@)
    }

    /// The inner sink alone can never fail.
    pub open spec fn inner_ok(&self) -> bool {
        self.inner.infallible()
    }

    /// Machine state after the logged input plus the first `i` bytes of the
    /// buffer being processed.
    pub open spec fn mid_machine(&self, i: int, l: crate::loc::GLoc, buf: Seq<u8>) -> UnfoldMachine {
        uf_state_after(UnfoldMachine::Norm, self.log@ + locate(l, buf).take(i))
    }
}

impl UnfoldMachine {
    /// The pending byte of a `Pend` state.
    pub open spec fn pend(self) -> LocByte
        recommends
            self is Pend,
    {
        self->Pend_0
    }
}

impl<LW: LocWrite> LocWrite for Unfolder<LW> {
    open spec fn wf(&self) -> bool {
        &&& self.inner.wf()
        &&& self.floor@ >= 0
        &&& self.inner.taken() == self.base@ + uf_emit(UnfoldMachine::Norm, self.log@)
        &&& match self.machine() {
            UnfoldMachine::Norm => {
                &&& self.state is Text
                &&& self.skipstate is Writing
                &&& self.inner.min_start() <= self.floor@
            },
            UnfoldMachine::Pend(p) => {
                &&& self.state is Newline
                &&& p.byte == 0x0au8
                &&& p.loc.offset + 1 <= self.floor@
                &&& self.inner.min_start() <= p.loc.offset
                &&& match self.skipstate {
                    SkipState::SkippingWithPrefix(l0, arr, n) => n == 1 && l0@ == p.loc
                        && arr@[0] == 0x0au8 && loc_room(l0@, 1),
                    _ => false,
                }
            },
            UnfoldMachine::Stale => {
                &&& self.state is Newline
                &&& self.skipstate is Writing
                &&& self.inner.min_start() <= self.floor@
            },
            UnfoldMachine::Fail => false,
        }
    }

    open spec fn taken(&self) -> Seq<LocByte> {
        self.log@
    }

    open spec fn infallible(&self) -> bool {
        false
    }

    open spec fn min_start(&self) -> int {
        self.floor@
    }

    open spec fn flush_rel(&self, pre: Self) -> bool {
        &&& self.state is Text
        &&& self.skipstate is Writing
        &&& self.log@ == Seq::<LocByte>::empty()
        &&& self.base@ == self.inner.taken()
        &&& exists|mid: LW|
            mid.wf() && mid.taken() == pre.base@ + uf_output(pre.log@) && #[trigger] self.inner.flush_rel(
                mid,
            )
    }

    /// Fails exactly when a continuation space follows a line that is
    /// already complete, that is, when the fold machine reaches `Fail`;
    /// a fallible inner sink can also pass its own failure up.
    #[verifier::rlimit(100)]
    #[verifier::spinoff_prover]
    fn loc_write(&mut self, loc: Loc, buf: &[u8]) -> (r: Result<usize, StreamError>)
        ensures
            r is Ok ==> final(self).base@ == old(self).base@ && final(self).inner_ok() == old(
                self,
            ).inner_ok(),
            old(self).inner_ok() ==> ((r is Ok) <==> !(uf_state_after(
                UnfoldMachine::Norm,
                old(self).taken() + locate(loc@, buf@),
            ) is Fail)),
    {
        let ghost pre = *self;
        let ghost whole = locate(loc@, buf@);
        let mut sk = Skipper::new_with_state(loc, buf, self.skipstate);
        proof {
            crate::loc::lemma_locate_len(loc@, buf@);
            assert(sk.bufg@.take(0) =~= Seq::<u8>::empty());
            assert(sk.bufg@.subrange(0, sk.buflen()) =~= buf@);
            assert(sk.gat(0) == loc@);
            assert(sk.locrange(0, sk.buflen()) =~= locate(loc@, buf@));
            assert(locate(loc@, buf@).take(0) =~= Seq::<LocByte>::empty());
            assert(pre.log@ + locate(loc@, buf@).take(0) =~= pre.log@);
            lemma_uf_append(UnfoldMachine::Norm, pre.log@, whole);
            assert(sk.pending() =~= Seq::<LocByte>::empty());
            assert(self.inner.taken() + sk.pending() =~= self.inner.taken());
            assert(self.inner.taken() + sk.pending() + uf_emit(pre.machine(), whole)
                =~= pre.base@ + (uf_emit(UnfoldMachine::Norm, pre.log@) + uf_emit(
                pre.machine(),
                whole,
            )));
            assert(pre.base@ + (uf_emit(UnfoldMachine::Norm, pre.log@) + uf_emit(
                pre.machine(),
                whole,
            )) =~= pre.base@ + uf_emit(UnfoldMachine::Norm, pre.log@ + whole));
            match pre.machine() {
                UnfoldMachine::Pend(p) => {
                    match pre.skipstate {
                        SkipState::SkippingWithPrefix(l0, arr, n) => {
                            crate::loc::lemma_locate_singleton(l0@, arr@.take(1));
                            assert(arr@.take(1)[0] == arr@[0]);
                            assert(locate(l0@, arr@.take(1)) =~= seq![p]);
                        },
                        _ => {},
                    }
                },
                _ => {},
            }
        }
        while sk.pos < buf.len()
            invariant
                sk.wf(),
                sk.bufg@ == buf@,
                sk.startg@ == loc@,
                loc_room(loc@, buf@.len() as int),
                self.inner.wf(),
                self.inner.infallible() == pre.inner.infallible(),
                self.log == pre.log,
                self.base == pre.base,
                self.floor == pre.floor,
                pre == *old(self),
                pre.wf(),
                pre.min_start() <= loc@.offset,
                whole == locate(loc@, buf@),
                whole.len() == buf@.len(),
                self.inner.taken() + sk.pending() + uf_emit(
                    self.mid_machine(sk.pos as int, loc@, buf@),
                    sk.locrange(sk.pos as int, sk.buflen()),
                ) == pre.base@ + uf_emit(UnfoldMachine::Norm, pre.log@ + whole),
                match self.mid_machine(sk.pos as int, loc@, buf@) {
                    UnfoldMachine::Norm => {
                        &&& self.state is Text
                        &&& sk.state is Writing
                        &&& ((sk.pos as int) < sk.buflen() ==> self.inner.min_start() <= sk.gat(
                            sk.write_from as int,
                        ).offset)
                        &&& (sk.pos as int == sk.buflen() ==> self.inner.min_start()
                            <= loc@.offset + buf@.len())
                    },
                    UnfoldMachine::Pend(p) => {
                        &&& self.state is Newline
                        &&& p.byte == 0x0au8
                        &&& self.inner.min_start() <= p.loc.offset
                        &&& sk.skipped() == seq![p]
                        &&& match sk.state {
                            SkipState::Writing => false,
                            SkipState::SkippingFrom(l0, k) => l0@ == p.loc && k + 1 == sk.pos
                                && ((sk.pos as int) < sk.buflen()
                                ==> self.inner.min_start() <= sk.gat(sk.write_from as int).offset),
                            SkipState::SkippingWithPrefix(l0, arr, n) => n == 1 && sk.pos == 0
                                && l0@ == p.loc && arr@[0] == 0x0au8 && self.inner.min_start()
                                <= sk.gat(sk.write_from as int).offset,
                        }
                    },
                    UnfoldMachine::Stale => {
                        &&& self.state is Newline
                        &&& sk.state is Writing
                        &&& ((sk.pos as int) < sk.buflen() ==> self.inner.min_start() <= sk.gat(
                            sk.write_from as int,
                        ).offset)
                        &&& (sk.pos as int == sk.buflen() ==> self.inner.min_start()
                            <= loc@.offset + buf@.len())
                    },
                    UnfoldMachine::Fail => false,
                },
            decreases buf.len() - sk.pos,
        {
            let ghost i = sk.pos as int;
            let ghost m = self.mid_machine(i, loc@, buf@);
            let ghost rem = sk.locrange(i, sk.buflen());
            let ghost lb = LocByte { loc: sk.gat(i), byte: buf@[i] };
            let ghost tk = self.inner.taken();
            let ghost pd = sk.pending();
            let ghost q = uf_emit(uf_step(m, lb).0, sk.locrange(i + 1, sk.buflen()));
            proof {
                sk.lemma_locrange_concat(i, i + 1, sk.buflen());
                sk.lemma_locrange_single(i);
                sk.lemma_gat_offset(i);
                sk.lemma_gat_offset(sk.write_from as int);
                assert(rem =~= seq![lb] + sk.locrange(i + 1, sk.buflen()));
                assert(rem[0] == lb);
                assert(rem.drop_first() =~= sk.locrange(i + 1, sk.buflen()));
                assert(uf_emit(m, rem) == uf_step(m, lb).1 + q);
                crate::loc::lemma_locate_index(loc@, buf@, i);
                assert(locate(loc@, buf@)[i] == lb);
                lemma_uf_mid_step(pre.log@, loc@, buf@, i);
                assert(self.mid_machine(i + 1, loc@, buf@) == uf_step(m, lb).0);
            }
            let c = buf[sk.pos];
            match (self.state, c) {
                (UnfoldState::Text, 0x0au8) => {
                    proof {
                        assert(uf_step(m, lb) == (UnfoldMachine::Pend(lb), Seq::<LocByte>::empty()));
                    }
                    match sk.begin_skip() {
                        Ok(_) => {},
                        Err(_) => {
                            proof {
                                assert(false);
                            }
                        },
                    }
                    match sk.shift(&mut self.inner, buf) {
                        Ok(_) => {},
                        Err(e) => {
                            proof {
                                assert(!pre.inner.infallible());
                            }
                            return Err(e);
                        },
                    }
                    self.state = UnfoldState::Newline;
                    proof {
                        assert(Seq::<LocByte>::empty().push(lb) =~= seq![lb]);
                        assert(sk.skipped() =~= seq![lb]);
                        if sk.pos < sk.buflen() {
                            assert(sk.pending() =~= pd + Seq::<LocByte>::empty());
                            assert(sk.pending() =~= pd);
                        } else {
                            assert(self.inner.taken() =~= tk + pd + Seq::<LocByte>::empty());
                            assert(self.inner.taken() =~= tk + pd);
                            assert(sk.pending() =~= Seq::<LocByte>::empty());
                        }
                        assert(uf_emit(m, rem) =~= q);
                        assert(self.inner.taken() + sk.pending() + q =~= tk + pd + (uf_step(
                            m,
                            lb,
                        ).1 + q));
                    }
                },
                (UnfoldState::Text, _) => {
                    proof {
                        assert(uf_step(m, lb) == (UnfoldMachine::Norm, seq![lb]));
                    }
                    match sk.shift(&mut self.inner, buf) {
                        Ok(_) => {},
                        Err(e) => {
                            proof {
                                assert(!pre.inner.infallible());
                            }
                            return Err(e);
                        },
                    }
                    proof {
                        if sk.pos < sk.buflen() {
                            assert(sk.pending() =~= pd + seq![lb]);
                            assert(self.inner.taken() + sk.pending() + q =~= tk + (pd + seq![lb])
                                + q);
                        } else {
                            assert(self.inner.taken() =~= tk + pd + seq![lb]);
                            assert(sk.pending() =~= Seq::<LocByte>::empty());
                            assert(self.inner.taken() + sk.pending() + q =~= (tk + pd + seq![lb])
                                + q);
                        }
                        assert(tk + (pd + seq![lb]) + q =~= tk + pd + (seq![lb] + q));
                        assert((tk + pd + seq![lb]) + q =~= tk + pd + (seq![lb] + q));
                    }
                },
                (UnfoldState::Newline, 0x20u8) => {
                    // the byte after the line feed is a space: shift it into
                    // the skip region, then drop both
                    match sk.shift(&mut self.inner, buf) {
                        Ok(_) => {},
                        Err(e) => {
                            proof {
                                assert(!pre.inner.infallible());
                            }
                            return Err(e);
                        },
                    }
                    match sk.end_skip(&mut self.inner, buf) {
                        Ok(_) => {},
                        Err(e) => {
                            proof {
                                match m {
                                    UnfoldMachine::Stale => {
                                        crate::loc::lemma_locate_len(loc@, buf@);
                                        lemma_uf_fail_sticks(
                                            uf_step(m, lb).0,
                                            sk.locrange(i + 1, sk.buflen()),
                                        );
                                        lemma_uf_fail_sticks(
                                            uf_state_after(
                                                UnfoldMachine::Norm,
                                                pre.log@ + whole.take(i + 1),
                                            ),
                                            whole.skip(i + 1),
                                        );
                                        assert((pre.log@ + whole.take(i + 1)) + whole.skip(i + 1)
                                            =~= pre.log@ + whole);
                                        lemma_uf_append(
                                            UnfoldMachine::Norm,
                                            pre.log@ + whole.take(i + 1),
                                            whole.skip(i + 1),
                                        );
                                    },
                                    UnfoldMachine::Pend(_) => {
                                        assert(!pre.inner.infallible());
                                    },
                                    _ => {
                                        assert(false);
                                    },
                                }
                            }
                            return Err(e);
                        },
                    }
                    proof {
                        sk.lemma_gat_offset(sk.write_from as int);
                    }
                    self.state = UnfoldState::Text;
                    proof {
                        match m {
                            UnfoldMachine::Pend(p) => {
                                assert(uf_step(m, lb) == (
                                    UnfoldMachine::Norm,
                                    Seq::<LocByte>::empty(),
                                ));
                                assert(self.inner.taken() =~= tk + pd);
                                assert(sk.pending() =~= Seq::<LocByte>::empty());
                                assert(self.inner.taken() + sk.pending() + q =~= tk + pd + (uf_step(
                                    m,
                                    lb,
                                ).1 + q));
                            },
                            _ => {
                                assert(false);
                            },
                        }
                    }
                },
                (UnfoldState::Newline, 0x0au8) => {
                    proof {
                        match sk.state {
                            SkipState::SkippingWithPrefix(_, _, _) => {
                                sk.lemma_locrange_empty(0);
                                assert(sk.pending() =~= Seq::<LocByte>::empty());
                            },
                            _ => {},
                        }
                    }
                    match sk.cancel_skip(&mut self.inner, buf) {
                        Ok(_) => {},
                        Err(e) => {
                            proof {
                                assert(!pre.inner.infallible());
                            }
                            return Err(e);
                        },
                    }
                    proof {
                        match m {
                            UnfoldMachine::Pend(p) => {
                                assert(self.inner.taken() + sk.pending() =~= tk + pd + seq![p]);
                            },
                            UnfoldMachine::Stale => {
                                assert(self.inner.taken() + sk.pending() =~= tk + (pd
                                    + Seq::<LocByte>::empty()));
                                assert(self.inner.taken() + sk.pending() =~= tk + pd);
                            },
                            _ => {
                                assert(false);
                            },
                        }
                    }
                    let ghost tk2 = self.inner.taken();
                    let ghost pd2 = sk.pending();
                    match sk.shift(&mut self.inner, buf) {
                        Ok(_) => {},
                        Err(e) => {
                            proof {
                                assert(!pre.inner.infallible());
                            }
                            return Err(e);
                        },
                    }
                    proof {
                        if sk.pos < sk.buflen() {
                            assert(sk.pending() =~= pd2 + seq![lb]);
                            assert(self.inner.taken() + sk.pending() + q =~= (tk2 + pd2)
                                + seq![lb] + q);
                        } else {
                            assert(self.inner.taken() =~= tk2 + pd2 + seq![lb]);
                            assert(sk.pending() =~= Seq::<LocByte>::empty());
                            assert(self.inner.taken() + sk.pending() + q =~= (tk2 + pd2)
                                + seq![lb] + q);
                        }
                        match m {
                            UnfoldMachine::Pend(p) => {
                                assert((tk2 + pd2) + seq![lb] + q =~= (tk + pd + seq![p])
                                    + seq![lb] + q);
                                assert((tk + pd + seq![p]) + seq![lb] + q =~= tk + pd + (seq![
                                    p,
                                    lb,
                                ] + q));
                            },
                            UnfoldMachine::Stale => {
                                assert((tk2 + pd2) + seq![lb] + q =~= tk + pd + (seq![lb] + q));
                            },
                            _ => {
                                assert(false);
                            },
                        }
                    }
                },
                (UnfoldState::Newline, _) => {
                    proof {
                        match sk.state {
                            SkipState::SkippingWithPrefix(_, _, _) => {
                                sk.lemma_locrange_empty(0);
                                assert(sk.pending() =~= Seq::<LocByte>::empty());
                            },
                            _ => {},
                        }
                    }
                    match sk.cancel_skip(&mut self.inner, buf) {
                        Ok(_) => {},
                        Err(e) => {
                            proof {
                                assert(!pre.inner.infallible());
                            }
                            return Err(e);
                        },
                    }
                    proof {
                        match m {
                            UnfoldMachine::Pend(p) => {
                                assert(self.inner.taken() + sk.pending() =~= tk + pd + seq![p]);
                            },
                            UnfoldMachine::Stale => {
                                assert(self.inner.taken() + sk.pending() =~= tk + (pd
                                    + Seq::<LocByte>::empty()));
                                assert(self.inner.taken() + sk.pending() =~= tk + pd);
                            },
                            _ => {
                                assert(false);
                            },
                        }
                    }
                    let ghost tk2 = self.inner.taken();
                    let ghost pd2 = sk.pending();
                    match sk.shift(&mut self.inner, buf) {
                        Ok(_) => {},
                        Err(e) => {
                            proof {
                                assert(!pre.inner.infallible());
                            }
                            return Err(e);
                        },
                    }
                    self.state = UnfoldState::Text;
                    proof {
                        if sk.pos < sk.buflen() {
                            assert(sk.pending() =~= pd2 + seq![lb]);
                            assert(self.inner.taken() + sk.pending() + q =~= (tk2 + pd2)
                                + seq![lb] + q);
                        } else {
                            assert(self.inner.taken() =~= tk2 + pd2 + seq![lb]);
                            assert(sk.pending() =~= Seq::<LocByte>::empty());
                            assert(self.inner.taken() + sk.pending() + q =~= (tk2 + pd2)
                                + seq![lb] + q);
                        }
                        match m {
                            UnfoldMachine::Pend(p) => {
                                assert((tk2 + pd2) + seq![lb] + q =~= (tk + pd + seq![p])
                                    + seq![lb] + q);
                                assert((tk + pd + seq![p]) + seq![lb] + q =~= tk + pd + (seq![
                                    p,
                                    lb,
                                ] + q));
                            },
                            UnfoldMachine::Stale => {
                                assert((tk2 + pd2) + seq![lb] + q =~= tk + pd + (seq![lb] + q));
                            },
                            _ => {
                                assert(false);
                            },
                        }
                    }
                },
            }
        }
        let ghost skfin = sk;
        self.skipstate = sk.save_state(buf);
        proof {
            self.log@ = pre.log@ + whole;
            self.floor@ = loc@.offset + buf@.len();
            crate::loc::lemma_locate_len(loc@, buf@);
            assert(locate(loc@, buf@).take(buf@.len() as int) =~= whole);
            assert(pre.log@ + locate(loc@, buf@).take(buf@.len() as int) =~= self.log@);
            assert(self.machine() == pre.mid_machine(skfin.pos as int, loc@, buf@));
            skfin.lemma_locrange_empty(skfin.buflen());
            assert(uf_emit(self.machine(), Seq::<LocByte>::empty()) =~= Seq::<LocByte>::empty());
            assert(skfin.pending() =~= Seq::<LocByte>::empty());
            assert(self.inner.taken() + Seq::<LocByte>::empty() + Seq::<LocByte>::empty()
                =~= self.inner.taken());
            assert(self.inner.taken() == pre.base@ + uf_emit(UnfoldMachine::Norm, self.log@));
            match self.machine() {
                UnfoldMachine::Pend(p) => {
                    match self.skipstate {
                        SkipState::SkippingWithPrefix(l0, arr, n) => {
                            assert(self.skipstate.carried() == skfin.skipped());
                            crate::loc::lemma_locate_len(l0@, arr@.take(n as int));
                            assert(n == 1);
                            crate::loc::lemma_locate_singleton(l0@, arr@.take(1));
                            assert(locate(l0@, arr@.take(1))[0] == (LocByte {
                                loc: l0@,
                                byte: arr@.take(1)[0],
                            }));
                            assert(seq![p][0] == p);
                            assert(l0@ == p.loc);
                            assert(arr@[0] == p.byte);
                        },
                        _ => {
                            assert(false);
                        },
                    }
                    match skfin.state {
                        SkipState::SkippingFrom(_, k) => {
                            skfin.lemma_gat_offset(k as int);
                        },
                        _ => {},
                    }
                },
                _ => {},
            }
            assert(self.taken() == old(self).taken() + locate(loc@, buf@));
        }
        Ok(buf.len())
    }

    /// End of input: writes out a line feed still held back, then flushes
    /// the inner sink. Never fails over a sink that cannot fail.
    fn loc_flush(&mut self, loc: Loc) -> (r: Result<(), StreamError>)
        ensures
            old(self).inner.infallible() ==> r is Ok,
    {
        match self.skipstate.write_remainder(&mut self.inner) {
            Ok(_) => {},
            Err(e) => {
                return Err(e);
            },
        }
        proof {
            let pre = *old(self);
            match pre.machine() {
                UnfoldMachine::Pend(p) => {
                    match pre.skipstate {
                        SkipState::SkippingWithPrefix(l0, arr, n) => {
                            crate::loc::lemma_locate_singleton(l0@, arr@.take(1));
                            assert(arr@.take(1)[0] == arr@[0]);
                            assert(locate(l0@, arr@.take(1)) =~= seq![p]);
                        },
                        _ => {},
                    }
                    assert(self.inner.taken() =~= pre.base@ + uf_output(pre.log@));
                },
                _ => {
                    assert(self.inner.taken() =~= pre.base@ + uf_output(pre.log@));
                },
            }
        }
        let ghost mid = self.inner;
        match self.inner.loc_flush(loc) {
            Ok(_) => {},
            Err(e) => {
                return Err(e);
            },
        }
        self.state = UnfoldState::Text;
        self.skipstate = SkipState::new();
        proof {
            self.log@ = Seq::empty();
            self.base@ = self.inner.taken();
            self.floor@ = if self.inner.min_start() >= 0 {
                self.inner.min_start()
            } else {
                0
            };
            assert(self.base@ + uf_emit(UnfoldMachine::Norm, self.log@) =~= self.base@);
        }
        Ok(())
    }
}

/// Once the machine has failed it stays failed.
proof fn lemma_uf_fail_sticks(st: UnfoldMachine, s: Seq<LocByte>)
    requires
        st is Fail,
    ensures
        uf_state_after(st, s) is Fail,
    decreases s.len(),
{
    if s.len() > 0 {
        lemma_uf_fail_sticks(uf_step(st, s[0]).0, s.drop_first());
    }
}

/// Advancing the mid-call machine by one input byte.
proof fn lemma_uf_mid_step(log: Seq<LocByte>, l: crate::loc::GLoc, buf: Seq<u8>, i: int)
    requires
        0 <= i < buf.len(),
    ensures
        uf_state_after(UnfoldMachine::Norm, log + locate(l, buf).take(i + 1)) == uf_step(
            uf_state_after(UnfoldMachine::Norm, log + locate(l, buf).take(i)),
            locate(l, buf)[i],
        ).0,
        uf_emit(UnfoldMachine::Norm, log + locate(l, buf).take(i + 1)) == uf_emit(
            UnfoldMachine::Norm,
            log + locate(l, buf).take(i),
        ) + uf_step(uf_state_after(UnfoldMachine::Norm, log + locate(l, buf).take(i)), locate(l, buf)[i]).1,
{
    crate::loc::lemma_locate_len(l, buf);
    let a = log + locate(l, buf).take(i);
    let x = locate(l, buf)[i];
    assert(log + locate(l, buf).take(i + 1) =~= a + seq![x]);
    lemma_uf_append(UnfoldMachine::Norm, a, seq![x]);
    let st = uf_state_after(UnfoldMachine::Norm, a);
    assert(seq![x].drop_first() =~= Seq::<LocByte>::empty());
    assert(uf_state_after(uf_step(st, x).0, seq![x].drop_first()) == uf_step(st, x).0);
    assert(uf_emit(uf_step(st, x).0, seq![x].drop_first()) =~= Seq::<LocByte>::empty());
    assert(seq![x][0] == x);
    assert(uf_state_after(st, seq![x]) == uf_step(st, x).0);
    assert(uf_emit(st, seq![x]) =~= uf_step(st, x).1 + Seq::<LocByte>::empty());
    assert(uf_step(st, x).1 + Seq::<LocByte>::empty() =~= uf_step(st, x).1);
}

/// Pure statement of unfolding: every line feed immediately followed by a
/// space disappears together with that space; everything else is kept.
pub open spec fn unfold_bytes(s: Seq<u8>) -> Seq<u8>
    decreases s.len(),
{
    if s.len() == 0 {
        Seq::empty()
    } else if s[0] == 0x0au8 && s.len() >= 2 && s[1] == 0x20u8 {
        unfold_bytes(s.skip(2))
    } else {
        seq![s[0]] + unfold_bytes(s.skip(1))
    }
}

proof fn lemma_uf_correct_from(st: UnfoldMachine, s: Seq<LocByte>)
    requires
        !(uf_state_after(st, s) is Fail),
        st is Pend ==> st.pend().byte == 0x0au8,
        !(st is Fail),
    ensures
        bytes_of(uf_emit(st, s) + uf_flush_emit(uf_state_after(st, s))) == (match st {
            UnfoldMachine::Pend(p) => unfold_bytes(seq![0x0au8] + bytes_of(s)),
            _ => unfold_bytes(bytes_of(s)),
        }),
    decreases s.len(),
{
    crate::loc::lemma_bytes_of_append(uf_emit(st, s), uf_flush_emit(uf_state_after(st, s)));
    if s.len() == 0 {
        match st {
            UnfoldMachine::Pend(p) => {
                assert(uf_emit(st, s) + uf_flush_emit(st) =~= seq![p]);
                assert(bytes_of(seq![p]) =~= seq![p.byte]);
                let t = seq![0x0au8] + bytes_of(s);
                assert(t =~= seq![0x0au8]);
                assert(unfold_bytes(t) == seq![t[0]] + unfold_bytes(t.skip(1)));
                assert(t.skip(1) =~= Seq::<u8>::empty());
                assert(seq![t[0]] + unfold_bytes(t.skip(1)) =~= seq![0x0au8]);
            },
            _ => {
                assert(bytes_of(Seq::<LocByte>::empty()) =~= Seq::<u8>::empty());
                assert(uf_emit(st, s) + uf_flush_emit(st) =~= Seq::<LocByte>::empty());
            },
        }
    } else {
        let lb = s[0];
        let rest = s.drop_first();
        let stp = uf_step(st, lb);
        if stp.0 is Fail {
            lemma_uf_fail_sticks(stp.0, rest);
            assert(false);
        }
        lemma_uf_correct_from(stp.0, rest);
        crate::loc::lemma_bytes_of_append(
            uf_emit(stp.0, rest),
            uf_flush_emit(uf_state_after(stp.0, rest)),
        );
        assert(uf_state_after(st, s) == uf_state_after(stp.0, rest));
        assert(uf_emit(st, s) == stp.1 + uf_emit(stp.0, rest));
        crate::loc::lemma_bytes_of_append(stp.1, uf_emit(stp.0, rest));
        assert(bytes_of(uf_emit(st, s) + uf_flush_emit(uf_state_after(st, s))) =~= bytes_of(stp.1)
            + bytes_of(uf_emit(stp.0, rest) + uf_flush_emit(uf_state_after(stp.0, rest))));
        assert(bytes_of(s) =~= seq![lb.byte] + bytes_of(rest));
        let bs = bytes_of(s);
        let br = bytes_of(rest);
        // rest cannot begin with a fatal space when the machine went Stale
        if stp.0 is Stale && rest.len() > 0 && rest[0].byte == 0x20u8 {
            assert(uf_step(stp.0, rest[0]).0 is Fail);
            lemma_uf_fail_sticks(uf_step(stp.0, rest[0]).0, rest.drop_first());
            assert(false);
        }
        match st {
            UnfoldMachine::Norm => {
                if lb.byte == 0x0au8 {
                    assert(bytes_of(stp.1) =~= Seq::<u8>::empty());
                    assert(Seq::<u8>::empty() + unfold_bytes(seq![0x0au8] + br) =~= unfold_bytes(
                        seq![0x0au8] + br,
                    ));
                    assert(seq![0x0au8] + br =~= bs);
                } else {
                    assert(bytes_of(stp.1) =~= seq![lb.byte]);
                    assert(!(bs[0] == 0x0au8));
                    assert(bs.skip(1) =~= br);
                }
            },
            UnfoldMachine::Pend(p) => {
                let t = seq![0x0au8] + bs;
                assert(t[0] == 0x0au8);
                assert(t.len() >= 2);
                assert(t[1] == lb.byte);
                if lb.byte == 0x20u8 {
                    assert(bytes_of(stp.1) =~= Seq::<u8>::empty());
                    assert(t.skip(2) =~= br);
                    assert(Seq::<u8>::empty() + unfold_bytes(br) =~= unfold_bytes(br));
                } else if lb.byte == 0x0au8 {
                    // two line feeds in a row: both survive
                    assert(bytes_of(stp.1) =~= seq![p.byte, lb.byte]);
                    assert(t.skip(1) =~= seq![0x0au8] + br);
                    let u = seq![0x0au8] + br;
                    assert(unfold_bytes(t) == seq![0x0au8] + unfold_bytes(u));
                    if br.len() >= 1 && u[1] == 0x20u8 {
                        assert(rest.len() > 0 && rest[0].byte == 0x20u8);
                        assert(false);
                    }
                    assert(unfold_bytes(u) == seq![0x0au8] + unfold_bytes(u.skip(1)));
                    assert(u.skip(1) =~= br);
                    assert(seq![p.byte, lb.byte] + unfold_bytes(br) =~= seq![0x0au8] + (seq![
                        0x0au8,
                    ] + unfold_bytes(br)));
                } else {
                    assert(bytes_of(stp.1) =~= seq![p.byte, lb.byte]);
                    assert(t.skip(1) =~= seq![lb.byte] + br);
                    let u = seq![lb.byte] + br;
                    assert(!(t[1] == 0x20u8));
                    assert(unfold_bytes(t) == seq![0x0au8] + unfold_bytes(u));
                    assert(!(u[0] == 0x0au8));
                    assert(unfold_bytes(u) == seq![lb.byte] + unfold_bytes(u.skip(1)));
                    assert(u.skip(1) =~= br);
                    assert(seq![p.byte, lb.byte] + unfold_bytes(br) =~= seq![0x0au8] + (seq![
                        lb.byte,
                    ] + unfold_bytes(br)));
                }
            },
            UnfoldMachine::Stale => {
                if lb.byte == 0x20u8 {
                    assert(false);
                } else if lb.byte == 0x0au8 {
                    assert(bytes_of(stp.1) =~= seq![lb.byte]);
                    if bs.len() >= 2 && bs[1] == 0x20u8 {
                        assert(rest[0].byte == 0x20u8);
                        assert(false);
                    }
                    assert(unfold_bytes(bs) == seq![bs[0]] + unfold_bytes(bs.skip(1)));
                    assert(bs.skip(1) =~= br);
                } else {
                    assert(bytes_of(stp.1) =~= seq![lb.byte]);
                    assert(!(bs[0] == 0x0au8));
                    assert(bs.skip(1) =~= br);
                }
            },
            UnfoldMachine::Fail => {
                assert(false);
            },
        }
    }
}

/// Unfold correctness: whenever the stage accepts the whole input (no
/// continuation space follows an already-complete line), its output is the
/// input with every LF SPACE pair removed; LF LF is preserved.
pub proof fn lemma_unfold_correct(l: crate::loc::GLoc, s: Seq<u8>)
    requires
        !(uf_state_after(UnfoldMachine::Norm, locate(l, s)) is Fail),
    ensures
        bytes_of(uf_output(locate(l, s))) == unfold_bytes(s),
{
    lemma_uf_correct_from(UnfoldMachine::Norm, locate(l, s));
    crate::loc::lemma_bytes_of_locate(l, s);
}

/// Position accuracy: every located byte the stage emits, including a line
/// feed it may hold back until the stream ends, is one of the input's
/// located bytes, in input order.
pub proof fn lemma_unfold_loc_accurate(st: UnfoldMachine, s: Seq<LocByte>)
    ensures
        crate::loc::subseq_of(
            uf_emit(st, s) + uf_flush_emit(uf_state_after(st, s)),
            uf_flush_emit(st) + s,
        ),
    decreases s.len(),
{
    let out = uf_emit(st, s) + uf_flush_emit(uf_state_after(st, s));
    let inp = uf_flush_emit(st) + s;
    if s.len() == 0 {
        match st {
            UnfoldMachine::Pend(p) => {
                assert(out =~= seq![p]);
                assert(inp =~= seq![p]);
                assert(out.drop_first() =~= Seq::<LocByte>::empty());
                assert(inp.drop_first() =~= Seq::<LocByte>::empty());
                assert(crate::loc::subseq_of(out.drop_first(), inp.drop_first()));
                assert(crate::loc::subseq_of(out, inp));
            },
            _ => {
                assert(out =~= Seq::<LocByte>::empty());
                assert(crate::loc::subseq_of(out, inp));
            },
        }
    } else {
        let lb = s[0];
        let rest = s.drop_first();
        let stp = uf_step(st, lb);
        lemma_unfold_loc_accurate(stp.0, rest);
        let outr = uf_emit(stp.0, rest) + uf_flush_emit(uf_state_after(stp.0, rest));
        assert(out =~= stp.1 + outr);
        assert(s =~= seq![lb] + rest);
        match st {
            UnfoldMachine::Norm => {
                if lb.byte == 0x0au8 {
                    assert(out =~= outr);
                    assert(inp =~= s);
                    assert(uf_flush_emit(stp.0) + rest =~= seq![lb] + rest);
                    assert(crate::loc::subseq_of(out, inp));
                } else {
                    assert(out =~= seq![lb] + outr);
                    assert(inp =~= seq![lb] + rest);
                    assert(uf_flush_emit(stp.0) + rest =~= rest);
                    assert(out.drop_first() =~= outr);
                    assert(inp.drop_first() =~= rest);
                    assert(crate::loc::subseq_of(out, inp));
                }
            },
            UnfoldMachine::Pend(p) => {
                assert(inp =~= seq![p] + s);
                assert(inp.drop_first() =~= s);
                if lb.byte == 0x20u8 {
                    assert(out =~= outr);
                    assert(uf_flush_emit(stp.0) + rest =~= rest);
                    crate::loc::lemma_subseq_cons_right(out, rest, lb);
                    assert(seq![lb] + rest =~= s);
                    crate::loc::lemma_subseq_cons_right(out, s, p);
                    assert(seq![p] + s =~= inp);
                    assert(crate::loc::subseq_of(out, inp));
                } else {
                    assert(out =~= seq![p] + (seq![lb] + outr));
                    assert(uf_flush_emit(stp.0) + rest =~= rest);
                    assert((seq![lb] + outr).drop_first() =~= outr);
                    assert((seq![lb] + rest).drop_first() =~= rest);
                    assert(crate::loc::subseq_of(seq![lb] + outr, seq![lb] + rest));
                    assert(out.drop_first() =~= seq![lb] + outr);
                    assert(crate::loc::subseq_of(out, inp));
                }
            },
            UnfoldMachine::Stale => {
                assert(inp =~= s);
                if lb.byte == 0x20u8 {
                    assert(out =~= outr);
                    assert(uf_flush_emit(stp.0) + rest =~= rest);
                    crate::loc::lemma_subseq_cons_right(out, rest, lb);
                    assert(seq![lb] + rest =~= s);
                    assert(crate::loc::subseq_of(out, inp));
                } else {
                    assert(out =~= seq![lb] + outr);
                    assert(uf_flush_emit(stp.0) + rest =~= rest);
                    assert(out.drop_first() =~= outr);
                    assert(s.drop_first() =~= rest);
                    assert(crate::loc::subseq_of(out, inp));
                }
            },
            UnfoldMachine::Fail => {
                assert(out =~= outr);
                assert(inp =~= s);
                assert(uf_flush_emit(stp.0) + rest =~= rest);
                crate::loc::lemma_subseq_cons_right(out, rest, lb);
                assert(seq![lb] + rest =~= s);
                assert(crate::loc::subseq_of(out, inp));
            },
        }
    }
}

} // verus!
