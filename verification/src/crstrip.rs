use vstd::prelude::*;

use crate::loc::{bytes_of, loc_room, locate, Loc, LocByte, LocWrite, StreamError};
use crate::skip::{SkipState, Skipper};

verus! {

/// Byte-level state of the CR stripper.
#[derive(Copy, Clone, PartialEq, Eq, Structural, Debug)]
pub enum CrState {
    Normal,
    Cr,
}

/// Mathematical model of the CR stripper: either nothing is pending, or one
/// carriage return waits for the byte after it to decide its fate.
pub enum CrMachine {
    Norm,
    Pend(LocByte),
}

pub open spec fn cr_step(st: CrMachine, lb: LocByte) -> (CrMachine, Seq<LocByte>) {
    match st {
        CrMachine::Norm => if lb.byte == 0x0du8 {
            (CrMachine::Pend(lb), Seq::empty())
        } else {
            (CrMachine::Norm, seq![lb])
        },
        CrMachine::Pend(p) => if lb.byte == 0x0du8 {
            (CrMachine::Pend(lb), seq![p])
        } else if lb.byte == 0x0au8 {
            (CrMachine::Norm, seq![lb])
        } else {
            (CrMachine::Norm, seq![p, lb])
        },
    }
}

/// The machine state after consuming `s` from `st`.
pub open spec fn cr_state_after(st: CrMachine, s: Seq<LocByte>) -> CrMachine
    decreases s.len(),
{
    if s.len() == 0 {
        st
    } else {
        cr_state_after(cr_step(st, s[0]).0, s.drop_first())
    }
}

/// Everything the machine forwards downstream while consuming `s` from `st`.
pub open spec fn cr_emit(st: CrMachine, s: Seq<LocByte>) -> Seq<LocByte>
    decreases s.len(),
{
    if s.len() == 0 {
        Seq::empty()
    } else {
        cr_step(st, s[0]).1 + cr_emit(cr_step(st, s[0]).0, s.drop_first())
    }
}

/// What end of input forces out of the machine: a carriage return still
/// pending was not followed by a line feed, so it is kept.
pub open spec fn cr_flush_emit(st: CrMachine) -> Seq<LocByte> {
    match st {
        CrMachine::Norm => Seq::empty(),
        CrMachine::Pend(p) => seq![p],
    }
}

/// The complete output of the CR stripper on located input `s`.
pub open spec fn cr_output(s: Seq<LocByte>) -> Seq<LocByte> {
    cr_emit(CrMachine::Norm, s) + cr_flush_emit(cr_state_after(CrMachine::Norm, s))
}

/// Chunk invariance of the machine: feeding `a` then `b` is the same as
/// feeding `a + b`, both for the state reached and for the bytes emitted.
pub proof fn lemma_cr_append(st: CrMachine, a: Seq<LocByte>, b: Seq<LocByte>)
    ensures
        cr_state_after(st, a + b) == cr_state_after(cr_state_after(st, a), b),
        cr_emit(st, a + b) == cr_emit(st, a) + cr_emit(cr_state_after(st, a), b),
    decreases a.len(),
{
    if a.len() == 0 {
        assert(a + b =~= b);
        assert(cr_emit(st, a) + cr_emit(cr_state_after(st, a), b) =~= cr_emit(st, b));
    } else {
        let n = cr_step(st, a[0]);
        lemma_cr_append(n.0, a.drop_first(), b);
        assert((a + b).drop_first() =~= a.drop_first() + b);
        assert((a + b)[0] == a[0]);
        assert(cr_emit(st, a + b) =~= cr_emit(st, a) + cr_emit(cr_state_after(st, a), b));
    }
}

/// Strips carriage returns that immediately precede a line feed. Lone CRs,
/// CR CR pairs and CR before any other byte pass through unchanged.
pub struct CrStripper<LW: LocWrite> {
    pub inner: LW,
    pub state: CrState,
    pub skipstate: SkipState,
    pub log: Ghost<Seq<LocByte>>,
    pub base: Ghost<Seq<LocByte>>,
    pub floor: Ghost<int>,
}

impl<LW: LocWrite> CrStripper<LW> {
    pub fn new(inner: LW) -> (r: CrStripper<LW>)
        requires
            inner.wf(),
        ensures
            r.wf(),
            r.taken() == Seq::<LocByte>::empty(),
            r.infallible() == inner.infallible(),
            r.inner == inner,
            r.base@ == inner.taken(),
            r.min_start() == (if inner.min_start() >= 0 {
                inner.min_start()
            } else {
                0
            }),
    {
        let ghost f: int = if inner.min_start() >= 0 {
            inner.min_start()
        } else {
            0
        };
        let ghost b = inner.taken();
        let r = CrStripper {
            inner,
            state: CrState::Normal,
            skipstate: SkipState::new(),
            log: Ghost(Seq::empty()),
            base: Ghost(b),
            floor: Ghost(f),
        };
        proof {
            assert(r.base@ + cr_emit(CrMachine::Norm, r.log@) =~= r.base@);
        }
        r
    }

    pub fn get_ref(&self) -> (r: &LW)
        ensures
            r == self.inner,
    {
        &self.inner
    }

    pub fn into_inner(self) -> (r: LW)
        ensures
            r == self.inner,
    {
        self.inner
    }

    /// The machine state this stage has reached.
    pub open spec fn machine(&self) -> CrMachine {
        cr_state_after(CrMachine::Norm, self.log@)
    }
}

impl<LW: LocWrite> LocWrite for CrStripper<LW> {
    open spec fn wf(&self) -> bool {
        &&& self.inner.wf()
        &&& self.floor@ >= 0
        &&& self.inner.taken() == self.base@ + cr_emit(CrMachine::Norm, self.log@)
        &&& match self.machine() {
            CrMachine::Norm => {
                &&& self.state is Normal
                &&& self.skipstate is Writing
                &&& self.inner.min_start() <= self.floor@
            },
            CrMachine::Pend(p) => {
                &&& self.state is Cr
                &&& p.byte == 0x0du8
                &&& p.loc.offset + 1 <= self.floor@
                &&& self.inner.min_start() <= p.loc.offset
                &&& match self.skipstate {
                    SkipState::SkippingWithPrefix(l0, arr, n) => n == 1 && l0@ == p.loc
                        && arr@[0] == 0x0du8 && loc_room(l0@, 1),
                    _ => false,
                }
            },
        }
    }

    open spec fn taken(&self) -> Seq<LocByte> {
        self.log@
    }

    open spec fn infallible(&self) -> bool {
        self.inner.infallible()
    }

    open spec fn min_start(&self) -> int {
        self.floor@
    }

    open spec fn flush_rel(&self, pre: Self) -> bool {
        &&& self.state is Normal
        &&& self.skipstate is Writing
        &&& self.log@ == Seq::<LocByte>::empty()
        &&& self.base@ == self.inner.taken()
        &&& exists|mid: LW|
            mid.wf() && mid.taken() == pre.base@ + cr_output(pre.log@) && #[trigger] self.inner.flush_rel(
                mid,
            )
    }

    /// Never fails over a sink that cannot fail: the stage itself rejects
    /// nothing, and its skips never outgrow the carryable bound.
    #[verifier::rlimit(100)]
    fn loc_write(&mut self, loc: Loc, buf: &[u8]) -> (r: Result<usize, StreamError>)
        ensures
            r is Ok ==> final(self).base@ == old(self).base@,
            old(self).inner.infallible() ==> r is Ok,
    {
        let ghost pre = *self;
        let ghost whole = locate(loc@, buf@);
        let mut sk = Skipper::new_with_state(loc, buf, self.skipstate);
        proof {
            crate::loc::lemma_locate_len(loc@, buf@);
            assert(sk.bufg@.take(0) =~= Seq::<u8>::empty());
            assert(sk.bufg@.subrange(0, sk.buflen()) =~= buf@);
            assert(sk.gat(0) == loc@);
            assert(sk.locrange(0, sk.buflen()) =~= locate(loc@, buf@));
            assert(locate(loc@, buf@).take(0) =~= Seq::<LocByte>::empty());
            assert(pre.log@ + locate(loc@, buf@).take(0) =~= pre.log@);
            lemma_cr_append(CrMachine::Norm, pre.log@, whole);
            lemma_accounting(
                pre.base@,
                cr_emit(CrMachine::Norm, pre.log@),
                Seq::<LocByte>::empty(),
                cr_emit(pre.machine(), whole),
            );
            assert(self.inner.taken() + sk.pending() =~= self.inner.taken());
            assert(self.inner.taken() + sk.pending() + cr_emit(pre.machine(), whole) =~= pre.base@
                + cr_emit(CrMachine::Norm, pre.log@ + whole));
            match pre.machine() {
                CrMachine::Pend(p) => {
                    match pre.skipstate {
                        SkipState::SkippingWithPrefix(l0, arr, n) => {
                            crate::loc::lemma_locate_singleton(l0@, arr@.take(1));
                            assert(arr@.take(1)[0] == arr@[0]);
                            assert(locate(l0@, arr@.take(1)) =~= seq![p]);
                        },
                        _ => {},
                    }
                },
                CrMachine::Norm => {},
            }
        }
        while sk.pos < buf.len()
            invariant
                sk.wf(),
                sk.bufg@ == buf@,
                sk.startg@ == loc@,
                loc_room(loc@, buf@.len() as int),
                self.inner.wf(),
                self.inner.infallible() == pre.inner.infallible(),
                self.log == pre.log,
                self.base == pre.base,
                self.floor == pre.floor,
                pre == *old(self),
                pre.wf(),
                pre.min_start() <= loc@.offset,
                whole == locate(loc@, buf@),
                whole.len() == buf@.len(),
                self.inner.taken() + sk.pending() + cr_emit(
                    self.mid_machine(sk.pos as int, loc@, buf@),
                    sk.locrange(sk.pos as int, sk.buflen()),
                ) == pre.base@ + cr_emit(CrMachine::Norm, pre.log@ + whole),
                match self.mid_machine(sk.pos as int, loc@, buf@) {
                    CrMachine::Norm => {
                        &&& self.state is Normal
                        &&& sk.state is Writing
                        &&& ((sk.pos as int) < sk.buflen() ==> self.inner.min_start() <= sk.gat(
                            sk.write_from as int,
                        ).offset)
                        &&& (sk.pos as int == sk.buflen() ==> self.inner.min_start()
                            <= loc@.offset + buf@.len())
                    },
                    CrMachine::Pend(p) => {
                        &&& self.state is Cr
                        &&& p.byte == 0x0du8
                        &&& self.inner.min_start() <= p.loc.offset
                        &&& sk.skipped() == seq![p]
                        &&& match sk.state {
                            SkipState::Writing => false,
                            SkipState::SkippingFrom(l0, k) => l0@ == p.loc && k + 1 == sk.pos
                                && ((sk.pos as int) < sk.buflen()
                                ==> self.inner.min_start() <= sk.gat(sk.write_from as int).offset),
                            SkipState::SkippingWithPrefix(l0, arr, n) => n == 1 && sk.pos == 0
                                && l0@ == p.loc && arr@[0] == 0x0du8,
                        }
                    },
                },
            decreases buf.len() - sk.pos,
        {
            let ghost i = sk.pos as int;
            let ghost m = self.mid_machine(i, loc@, buf@);
            let ghost rem = sk.locrange(i, sk.buflen());
            let ghost lb = LocByte { loc: sk.gat(i), byte: buf@[i] };
            let ghost tk = self.inner.taken();
            let ghost pd = sk.pending();
            let ghost q = cr_emit(cr_step(m, lb).0, sk.locrange(i + 1, sk.buflen()));
            proof {
                sk.lemma_locrange_concat(i, i + 1, sk.buflen());
                sk.lemma_locrange_single(i);
                sk.lemma_gat_offset(i);
                sk.lemma_gat_offset(sk.write_from as int);
                assert(rem =~= seq![lb] + sk.locrange(i + 1, sk.buflen()));
                assert(rem[0] == lb);
                assert(rem.drop_first() =~= sk.locrange(i + 1, sk.buflen()));
                assert(cr_emit(m, rem) == cr_step(m, lb).1 + q);
                crate::loc::lemma_locate_index(loc@, buf@, i);
                assert(locate(loc@, buf@)[i] == lb);
                lemma_mid_machine_step(pre.log@, loc@, buf@, i);
                assert(self.mid_machine(i + 1, loc@, buf@) == cr_step(m, lb).0);
                lemma_accounting(tk, pd, cr_step(m, lb).1, q);
            }
            let c = buf[sk.pos];
            match (self.state, c) {
                (CrState::Normal, 0x0du8) => {
                    proof {
                        assert(cr_step(m, lb) == (CrMachine::Pend(lb), Seq::<LocByte>::empty()));
                    }
                    match sk.begin_skip() {
                        Ok(_) => {},
                        Err(_) => {
                            proof {
                                assert(false);
                            }
                        },
                    }
                    match sk.shift(&mut self.inner, buf) {
                        Ok(_) => {},
                        Err(e) => {
                            proof {
                                assert(!pre.inner.infallible());
                            }
                            return Err(e);
                        },
                    }
                    self.state = CrState::Cr;
                    proof {
                        assert(Seq::<LocByte>::empty().push(lb) =~= seq![lb]);
                        assert(sk.skipped() =~= seq![lb]);
                        if sk.pos < sk.buflen() {
                            assert(sk.pending() =~= pd + Seq::<LocByte>::empty());
                            assert(sk.pending() =~= pd);
                        } else {
                            assert(self.inner.taken() =~= tk + pd + Seq::<LocByte>::empty());
                            assert(self.inner.taken() =~= tk + pd);
                            assert(sk.pending() =~= Seq::<LocByte>::empty());
                        }
                        assert(cr_emit(m, rem) =~= q);
                        assert(self.inner.taken() + sk.pending() + q =~= tk + pd + (cr_step(
                            m,
                            lb,
                        ).1 + q));
                    }
                },
                (CrState::Normal, _) => {
                    proof {
                        assert(cr_step(m, lb) == (CrMachine::Norm, seq![lb]));
                    }
                    match sk.shift(&mut self.inner, buf) {
                        Ok(_) => {},
                        Err(e) => {
                            proof {
                                assert(!pre.inner.infallible());
                            }
                            return Err(e);
                        },
                    }
                    proof {
                        if sk.pos < sk.buflen() {
                            assert(sk.pending() =~= pd + seq![lb]);
                            assert(self.inner.taken() + sk.pending() + q =~= tk + (pd + seq![lb])
                                + q);
                        } else {
                            assert(self.inner.taken() =~= tk + pd + seq![lb]);
                            assert(sk.pending() =~= Seq::<LocByte>::empty());
                            assert(self.inner.taken() + sk.pending() + q =~= (tk + pd + seq![lb])
                                + q);
                        }
                        assert(tk + (pd + seq![lb]) + q =~= tk + pd + (seq![lb] + q));
                        assert((tk + pd + seq![lb]) + q =~= tk + pd + (seq![lb] + q));
                    }
                },
                (CrState::Cr, 0x0du8) => {
                    let ghost pold = m.pend();
                    proof {
                        assert(m == CrMachine::Pend(pold));
                        assert(cr_step(m, lb) == (CrMachine::Pend(lb), seq![pold]));
                        match sk.state {
                            SkipState::SkippingWithPrefix(_, _, _) => {
                                sk.lemma_locrange_empty(0);
                                assert(sk.pending() =~= Seq::<LocByte>::empty());
                            },
                            _ => {},
                        }
                    }
                    match sk.cancel_skip(&mut self.inner, buf) {
                        Ok(_) => {},
                        Err(e) => {
                            proof {
                                assert(!pre.inner.infallible());
                            }
                            return Err(e);
                        },
                    }
                    proof {
                        // after the cancel the previous CR is banked, either
                        // downstream or in the pending region
                        assert(self.inner.taken() + sk.pending() =~= tk + pd + seq![pold]);
                    }
                    let ghost tk2 = self.inner.taken();
                    let ghost pd2 = sk.pending();
                    match sk.begin_skip() {
                        Ok(_) => {},
                        Err(_) => {
                            proof {
                                assert(false);
                            }
                        },
                    }
                    match sk.shift(&mut self.inner, buf) {
                        Ok(_) => {},
                        Err(e) => {
                            proof {
                                assert(!pre.inner.infallible());
                            }
                            return Err(e);
                        },
                    }
                    proof {
                        assert(Seq::<LocByte>::empty().push(lb) =~= seq![lb]);
                        assert(sk.skipped() =~= seq![lb]);
                        if sk.pos < sk.buflen() {
                            assert(sk.pending() =~= pd2 + Seq::<LocByte>::empty());
                            assert(sk.pending() =~= pd2);
                        } else {
                            assert(self.inner.taken() =~= tk2 + pd2 + Seq::<LocByte>::empty());
                            assert(self.inner.taken() =~= tk2 + pd2);
                            assert(sk.pending() =~= Seq::<LocByte>::empty());
                        }
                        assert(self.inner.taken() + sk.pending() =~= tk2 + pd2);
                        assert(self.inner.taken() + sk.pending() + q =~= tk + pd + (seq![pold]
                            + q));
                    }
                },
                (CrState::Cr, 0x0au8) => {
                    let ghost pold = m.pend();
                    proof {
                        assert(m == CrMachine::Pend(pold));
                        assert(cr_step(m, lb) == (CrMachine::Norm, seq![lb]));
                    }
                    match sk.end_skip(&mut self.inner, buf) {
                        Ok(_) => {},
                        Err(e) => {
                            proof {
                                assert(!pre.inner.infallible());
                            }
                            return Err(e);
                        },
                    }
                    proof {
                        assert(self.inner.taken() =~= tk + pd);
                        sk.lemma_gat_offset(sk.write_from as int);
                    }
                    let ghost tk2 = self.inner.taken();
                    match sk.shift(&mut self.inner, buf) {
                        Ok(_) => {},
                        Err(e) => {
                            proof {
                                assert(!pre.inner.infallible());
                            }
                            return Err(e);
                        },
                    }
                    self.state = CrState::Normal;
                    proof {
                        if sk.pos < sk.buflen() {
                            assert(sk.pending() =~= Seq::<LocByte>::empty() + seq![lb]);
                            assert(sk.pending() =~= seq![lb]);
                            assert(self.inner.taken() + sk.pending() + q =~= (tk + pd) + seq![lb]
                                + q);
                        } else {
                            assert(self.inner.taken() =~= tk2 + Seq::<LocByte>::empty()
                                + seq![lb]);
                            assert(self.inner.taken() =~= (tk + pd) + seq![lb]);
                            assert(sk.pending() =~= Seq::<LocByte>::empty());
                            assert(self.inner.taken() + sk.pending() + q =~= (tk + pd) + seq![lb]
                                + q);
                        }
                        assert((tk + pd) + seq![lb] + q =~= tk + pd + (seq![lb] + q));
                    }
                },
                (CrState::Cr, _) => {
                    let ghost pold = m.pend();
                    proof {
                        assert(m == CrMachine::Pend(pold));
                        assert(cr_step(m, lb) == (CrMachine::Norm, seq![pold, lb]));
                        match sk.state {
                            SkipState::SkippingWithPrefix(_, _, _) => {
                                sk.lemma_locrange_empty(0);
                                assert(sk.pending() =~= Seq::<LocByte>::empty());
                            },
                            _ => {},
                        }
                    }
                    match sk.cancel_skip(&mut self.inner, buf) {
                        Ok(_) => {},
                        Err(e) => {
                            proof {
                                assert(!pre.inner.infallible());
                            }
                            return Err(e);
                        },
                    }
                    proof {
                        assert(self.inner.taken() + sk.pending() =~= tk + pd + seq![pold]);
                    }
                    let ghost tk2 = self.inner.taken();
                    let ghost pd2 = sk.pending();
                    match sk.shift(&mut self.inner, buf) {
                        Ok(_) => {},
                        Err(e) => {
                            proof {
                                assert(!pre.inner.infallible());
                            }
                            return Err(e);
                        },
                    }
                    self.state = CrState::Normal;
                    proof {
                        if sk.pos < sk.buflen() {
                            assert(sk.pending() =~= pd2 + seq![lb]);
                            assert(self.inner.taken() + sk.pending() + q =~= (tk2 + pd2)
                                + seq![lb] + q);
                        } else {
                            assert(self.inner.taken() =~= tk2 + pd2 + seq![lb]);
                            assert(sk.pending() =~= Seq::<LocByte>::empty());
                            assert(self.inner.taken() + sk.pending() + q =~= (tk2 + pd2)
                                + seq![lb] + q);
                        }
                        assert((tk2 + pd2) + seq![lb] + q =~= (tk + pd + seq![pold]) + seq![lb]
                            + q);
                        assert((tk + pd + seq![pold]) + seq![lb] + q =~= tk + pd + (seq![
                            pold,
                            lb,
                        ] + q));
                    }
                },
            }
        }
        let ghost skfin = sk;
        self.skipstate = sk.save_state(buf);
        proof {
            self.log@ = pre.log@ + whole;
            self.floor@ = loc@.offset + buf@.len();
            crate::loc::lemma_locate_len(loc@, buf@);
            assert(locate(loc@, buf@).take(buf@.len() as int) =~= whole);
            assert(pre.log@ + locate(loc@, buf@).take(buf@.len() as int) =~= self.log@);
            assert(self.machine() == pre.mid_machine(skfin.pos as int, loc@, buf@));
            skfin.lemma_locrange_empty(skfin.buflen());
            assert(cr_emit(self.machine(), Seq::<LocByte>::empty()) =~= Seq::<LocByte>::empty());
            assert(skfin.pending() =~= Seq::<LocByte>::empty());
            assert(self.inner.taken() + Seq::<LocByte>::empty() + Seq::<LocByte>::empty()
                =~= self.inner.taken());
            assert(self.inner.taken() == pre.base@ + cr_emit(CrMachine::Norm, self.log@));
            match self.machine() {
                CrMachine::Norm => {},
                CrMachine::Pend(p) => {
                    match self.skipstate {
                        SkipState::SkippingWithPrefix(l0, arr, n) => {
                            assert(self.skipstate.carried() == skfin.skipped());
                            crate::loc::lemma_locate_len(l0@, arr@.take(n as int));
                            assert(n == 1);
                            crate::loc::lemma_locate_singleton(l0@, arr@.take(1));
                            assert(locate(l0@, arr@.take(1))[0] == (LocByte {
                                loc: l0@,
                                byte: arr@.take(1)[0],
                            }));
                            assert(seq![p][0] == p);
                            assert(l0@ == p.loc);
                            assert(arr@[0] == p.byte);
                        },
                        _ => {
                            assert(false);
                        },
                    }
                    match skfin.state {
                        SkipState::SkippingFrom(_, k) => {
                            skfin.lemma_gat_offset(k as int);
                        },
                        _ => {},
                    }
                },
            }
            assert(self.taken() == old(self).taken() + locate(loc@, buf@));
        }
        Ok(buf.len())
    }

    /// End of input: writes out a carriage return still held back, then
    /// flushes the inner sink. Never fails over a sink that cannot fail.
    fn loc_flush(&mut self, loc: Loc) -> (r: Result<(), StreamError>)
        ensures
            old(self).inner.infallible() ==> r is Ok,
    {
        match self.skipstate.write_remainder(&mut self.inner) {
            Ok(_) => {},
            Err(e) => {
                return Err(e);
            },
        }
        proof {
            let pre = *old(self);
            match pre.machine() {
                CrMachine::Norm => {
                    assert(self.inner.taken() =~= pre.base@ + cr_output(pre.log@));
                },
                CrMachine::Pend(p) => {
                    match pre.skipstate {
                        SkipState::SkippingWithPrefix(l0, arr, n) => {
                            crate::loc::lemma_locate_singleton(l0@, arr@.take(1));
                            assert(arr@.take(1)[0] == arr@[0]);
                            assert(locate(l0@, arr@.take(1)) =~= seq![p]);
                        },
                        _ => {},
                    }
                    assert(self.inner.taken() =~= pre.base@ + cr_output(pre.log@));
                },
            }
        }
        let ghost mid = self.inner;
        match self.inner.loc_flush(loc) {
            Ok(_) => {},
            Err(e) => {
                return Err(e);
            },
        }
        self.state = CrState::Normal;
        self.skipstate = SkipState::new();
        proof {
            self.log@ = Seq::empty();
            self.base@ = self.inner.taken();
            self.floor@ = if self.inner.min_start() >= 0 {
                self.inner.min_start()
            } else {
                0
            };
            assert(self.base@ + cr_emit(CrMachine::Norm, self.log@) =~= self.base@);
        }
        Ok(())
    }
}

impl<LW: LocWrite> CrStripper<LW> {
    /// Machine state after the logged input plus the first `i` bytes of the
    /// buffer being processed.
    pub open spec fn mid_machine(&self, i: int, l: crate::loc::GLoc, buf: Seq<u8>) -> CrMachine {
        cr_state_after(CrMachine::Norm, self.log@ + locate(l, buf).take(i))
    }
}

impl CrMachine {
    /// The pending byte of a `Pend` state.
    pub open spec fn pend(self) -> LocByte
        recommends
            self is Pend,
    {
        self->Pend_0
    }
}

/// Advancing the mid-call machine by one input byte.
proof fn lemma_mid_machine_step(log: Seq<LocByte>, l: crate::loc::GLoc, buf: Seq<u8>, i: int)
    requires
        0 <= i < buf.len(),
    ensures
        cr_state_after(CrMachine::Norm, log + locate(l, buf).take(i + 1)) == cr_step(
            cr_state_after(CrMachine::Norm, log + locate(l, buf).take(i)),
            locate(l, buf)[i],
        ).0,
        cr_emit(CrMachine::Norm, log + locate(l, buf).take(i + 1)) == cr_emit(
            CrMachine::Norm,
            log + locate(l, buf).take(i),
        ) + cr_step(cr_state_after(CrMachine::Norm, log + locate(l, buf).take(i)), locate(l, buf)[i]).1,
{
    crate::loc::lemma_locate_len(l, buf);
    let a = log + locate(l, buf).take(i);
    let x = locate(l, buf)[i];
    assert(log + locate(l, buf).take(i + 1) =~= a + seq![x]);
    lemma_cr_append(CrMachine::Norm, a, seq![x]);
    let st = cr_state_after(CrMachine::Norm, a);
    assert(seq![x].drop_first() =~= Seq::<LocByte>::empty());
    assert(cr_state_after(cr_step(st, x).0, seq![x].drop_first()) == cr_step(st, x).0);
    assert(cr_emit(cr_step(st, x).0, seq![x].drop_first()) =~= Seq::<LocByte>::empty());
    assert(seq![x][0] == x);
    assert(cr_state_after(st, seq![x]) == cr_step(st, x).0);
    assert(cr_emit(st, seq![x]) =~= cr_step(st, x).1 + Seq::<LocByte>::empty());
    assert(cr_step(st, x).1 + Seq::<LocByte>::empty() =~= cr_step(st, x).1);
}

/// Sequence concatenation is associative, in the shape the loop accounting
/// needs.
proof fn lemma_accounting(a: Seq<LocByte>, b: Seq<LocByte>, c: Seq<LocByte>, d: Seq<LocByte>)
    ensures
        a + b + (c + d) == (a + b + c) + d,
        a + (b + (c + d)) == (a + b + c) + d,
        a + (b + c) + d == a + b + (c + d),
        (a + b) + Seq::<LocByte>::empty() + (c + d) == a + b + (c + d),
{
    assert(a + b + (c + d) =~= (a + b + c) + d);
    assert(a + (b + (c + d)) =~= (a + b + c) + d);
    assert(a + (b + c) + d =~= a + b + (c + d));
    assert((a + b) + Seq::<LocByte>::empty() + (c + d) =~= a + b + (c + d));
}

/// Pure statement of CR stripping: every CR immediately followed by LF is
/// removed; every other byte, including a lone CR, survives unchanged.
pub open spec fn crstrip_bytes(s: Seq<u8>) -> Seq<u8>
    decreases s.len(),
{
    if s.len() == 0 {
        Seq::empty()
    } else if s[0] == 0x0du8 && s.len() >= 2 && s[1] == 0x0au8 {
        seq![0x0au8] + crstrip_bytes(s.skip(2))
    } else {
        seq![s[0]] + crstrip_bytes(s.skip(1))
    }
}

proof fn lemma_cr_correct_from(st: CrMachine, s: Seq<LocByte>)
    requires
        st is Pend ==> st.pend().byte == 0x0du8,
    ensures
        bytes_of(cr_emit(st, s) + cr_flush_emit(cr_state_after(st, s))) == (match st {
            CrMachine::Norm => crstrip_bytes(bytes_of(s)),
            CrMachine::Pend(p) => crstrip_bytes(seq![p.byte] + bytes_of(s)),
        }),
    decreases s.len(),
{
    crate::loc::lemma_bytes_of_append(cr_emit(st, s), cr_flush_emit(cr_state_after(st, s)));
    if s.len() == 0 {
        match st {
            CrMachine::Norm => {
                assert(bytes_of(Seq::<LocByte>::empty()) =~= Seq::<u8>::empty());
                assert(cr_emit(st, s) + cr_flush_emit(st) =~= Seq::<LocByte>::empty());
            },
            CrMachine::Pend(p) => {
                assert(cr_emit(st, s) + cr_flush_emit(st) =~= seq![p]);
                assert(bytes_of(seq![p]) =~= seq![p.byte]);
                let t = seq![p.byte] + bytes_of(s);
                assert(t =~= seq![p.byte]);
                assert(crstrip_bytes(t) =~= seq![p.byte] + crstrip_bytes(t.skip(1)));
                assert(t.skip(1) =~= Seq::<u8>::empty());
                assert(seq![p.byte] + crstrip_bytes(t.skip(1)) =~= seq![p.byte]);
            },
        }
    } else {
        let lb = s[0];
        let rest = s.drop_first();
        let stp = cr_step(st, lb);
        lemma_cr_correct_from(stp.0, rest);
        crate::loc::lemma_bytes_of_append(cr_emit(stp.0, rest), cr_flush_emit(cr_state_after(stp.0, rest)));
        assert(cr_state_after(st, s) == cr_state_after(stp.0, rest));
        assert(cr_emit(st, s) == stp.1 + cr_emit(stp.0, rest));
        crate::loc::lemma_bytes_of_append(stp.1, cr_emit(stp.0, rest));
        assert(bytes_of(cr_emit(st, s) + cr_flush_emit(cr_state_after(st, s))) =~= bytes_of(stp.1)
            + bytes_of(cr_emit(stp.0, rest) + cr_flush_emit(cr_state_after(stp.0, rest))));
        assert(bytes_of(s) =~= seq![lb.byte] + bytes_of(rest));
        match st {
            CrMachine::Norm => {
                if lb.byte == 0x0du8 {
                    assert(bytes_of(stp.1) =~= Seq::<u8>::empty());
                    assert(Seq::<u8>::empty() + crstrip_bytes(seq![lb.byte] + bytes_of(rest))
                        =~= crstrip_bytes(seq![lb.byte] + bytes_of(rest)));
                } else {
                    assert(bytes_of(stp.1) =~= seq![lb.byte]);
                    let t = bytes_of(s);
                    assert(t[0] == lb.byte);
                    assert(!(t[0] == 0x0du8 && t.len() >= 2 && t[1] == 0x0au8));
                    assert(t.skip(1) =~= bytes_of(rest));
                }
            },
            CrMachine::Pend(p) => {
                let t = seq![p.byte] + bytes_of(s);
                assert(t[0] == 0x0du8);
                assert(t.len() >= 2);
                assert(t[1] == lb.byte);
                if lb.byte == 0x0du8 {
                    assert(bytes_of(stp.1) =~= seq![p.byte]);
                    assert(t.skip(1) =~= seq![lb.byte] + bytes_of(rest));
                } else if lb.byte == 0x0au8 {
                    assert(bytes_of(stp.1) =~= seq![lb.byte]);
                    assert(t.skip(2) =~= bytes_of(rest));
                    assert(crstrip_bytes(t) == seq![0x0au8] + crstrip_bytes(t.skip(2)));
                    assert(seq![lb.byte] =~= seq![0x0au8]);
                } else {
                    assert(bytes_of(stp.1) =~= seq![p.byte, lb.byte]);
                    assert(t.skip(1) =~= seq![lb.byte] + bytes_of(rest));
                    let u = seq![lb.byte] + bytes_of(rest);
                    assert(u[0] == lb.byte);
                    assert(!(u[0] == 0x0du8));
                    assert(u.skip(1) =~= bytes_of(rest));
                    assert(crstrip_bytes(t) == seq![p.byte] + crstrip_bytes(u));
                    assert(crstrip_bytes(u) == seq![lb.byte] + crstrip_bytes(bytes_of(rest)));
                    assert(seq![p.byte, lb.byte] + crstrip_bytes(bytes_of(rest)) =~= seq![p.byte]
                        + (seq![lb.byte] + crstrip_bytes(bytes_of(rest))));
                }
            },
        }
    }
}

/// CR-strip correctness: for every input, the stage's complete output is the
/// input with each CR LF pair replaced by a single LF; a CR not followed by
/// LF is preserved exactly.
pub proof fn lemma_crstrip_correct(l: crate::loc::GLoc, s: Seq<u8>)
    ensures
        bytes_of(cr_output(locate(l, s))) == crstrip_bytes(s),
{
    lemma_cr_correct_from(CrMachine::Norm, locate(l, s));
    crate::loc::lemma_bytes_of_locate(l, s);
}

/// Position accuracy: every located byte the stage emits, including the one
/// it may hold back until the stream ends, is one of the input's located
/// bytes, in input order. The stage only ever deletes bytes; it never
/// invents one nor moves one to a different position.
pub proof fn lemma_crstrip_loc_accurate(st: CrMachine, s: Seq<LocByte>)
    ensures
        crate::loc::subseq_of(
            cr_emit(st, s) + cr_flush_emit(cr_state_after(st, s)),
            cr_flush_emit(st) + s,
        ),
    decreases s.len(),
{
    let out = cr_emit(st, s) + cr_flush_emit(cr_state_after(st, s));
    let inp = cr_flush_emit(st) + s;
    if s.len() == 0 {
        match st {
            CrMachine::Norm => {
                assert(out =~= Seq::<LocByte>::empty());
                assert(crate::loc::subseq_of(out, inp));
            },
            CrMachine::Pend(p) => {
                assert(out =~= seq![p]);
                assert(inp =~= seq![p]);
                assert(out.drop_first() =~= Seq::<LocByte>::empty());
                assert(inp.drop_first() =~= Seq::<LocByte>::empty());
                assert(crate::loc::subseq_of(out.drop_first(), inp.drop_first()));
                assert(crate::loc::subseq_of(out, inp));
            },
        }
    } else {
        let lb = s[0];
        let rest = s.drop_first();
        let stp = cr_step(st, lb);
        lemma_crstrip_loc_accurate(stp.0, rest);
        let outr = cr_emit(stp.0, rest) + cr_flush_emit(cr_state_after(stp.0, rest));
        assert(out =~= stp.1 + outr);
        match st {
            CrMachine::Norm => {
                if lb.byte == 0x0du8 {
                    // nothing emitted yet; the CR is carried as the flush byte
                    assert(out =~= outr);
                    assert(inp =~= s);
                    assert(cr_flush_emit(stp.0) + rest =~= seq![lb] + rest);
                    assert(s =~= seq![lb] + rest);
                    assert(crate::loc::subseq_of(out, inp));
                } else {
                    assert(out =~= seq![lb] + outr);
                    assert(inp =~= seq![lb] + rest);
                    assert(cr_flush_emit(stp.0) + rest =~= rest);
                    assert(out.drop_first() =~= outr);
                    assert(inp.drop_first() =~= rest);
                    assert(crate::loc::subseq_of(out, inp));
                }
            },
            CrMachine::Pend(p) => {
                assert(inp =~= seq![p] + s);
                if lb.byte == 0x0du8 {
                    assert(out =~= seq![p] + outr);
                    assert(out.drop_first() =~= outr);
                    assert(inp.drop_first() =~= s);
                    assert(cr_flush_emit(stp.0) + rest =~= seq![lb] + rest);
                    assert(seq![lb] + rest =~= s);
                    assert(crate::loc::subseq_of(out, inp));
                } else if lb.byte == 0x0au8 {
                    assert(out =~= seq![lb] + outr);
                    assert(cr_flush_emit(stp.0) + rest =~= rest);
                    assert(out.drop_first() =~= outr);
                    assert(s =~= seq![lb] + rest);
                    assert(s.drop_first() =~= rest);
                    assert(crate::loc::subseq_of(out, s));
                    crate::loc::lemma_subseq_cons_right(out, s, p);
                    assert(seq![p] + s =~= inp);
                    assert(crate::loc::subseq_of(out, inp));
                } else {
                    assert(out =~= seq![p] + (seq![lb] + outr));
                    assert(cr_flush_emit(stp.0) + rest =~= rest);
                    assert((seq![lb] + outr).drop_first() =~= outr);
                    assert((seq![lb] + rest).drop_first() =~= rest);
                    assert(crate::loc::subseq_of(seq![lb] + outr, seq![lb] + rest));
                    assert(out.drop_first() =~= seq![lb] + outr);
                    assert(inp.drop_first() =~= s);
                    assert(s =~= seq![lb] + rest);
                    assert(crate::loc::subseq_of(out, inp));
                }
            },
        }
    }
}

} // verus!
