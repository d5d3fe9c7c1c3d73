use vstd::prelude::*;

use crate::loc::StreamError;

verus! {

/// How many bits of the current group the decoder has absorbed, or how much
/// padding it still expects.
#[derive(Clone, Copy, PartialEq, Eq, Structural, Debug)]
pub enum DecodePhase {
    B0,
    B6,
    B4,
    B2,
    P0,
    P1,
}

/// Resumable state of the streaming base64 decoder, so decoding may span
/// arbitrary buffer splits.
#[derive(Clone, Copy, PartialEq, Eq, Structural, Debug)]
pub struct DecodeState {
    pub state: DecodePhase,
    pub octet: u8,
}

impl Default for DecodeState {
    fn default() -> (r: DecodeState)
        ensures
            r == (DecodeState { state: DecodePhase::B0, octet: 0u8 }),
    {
        DecodeState { state: DecodePhase::B0, octet: 0u8 }
    }
}

/// The six bits a base64 digit stands for, or nothing for a byte outside
/// the alphabet.
pub open spec fn b64_value(c: u8) -> Option<u8> {
    if 0x41u8 <= c <= 0x5au8 {
        Some((c - 0x41u8) as u8)
    } else if 0x61u8 <= c <= 0x7au8 {
        Some((c - 0x61u8 + 26) as u8)
    } else if 0x30u8 <= c <= 0x39u8 {
        Some((c - 0x30u8 + 52) as u8)
    } else if c == 0x2bu8 {
        Some(62u8)
    } else if c == 0x2fu8 {
        Some(63u8)
    } else {
        None
    }
}

/// One decoder step: the next state and the bytes it emits, or nothing when
/// the byte cannot continue the stream here.
pub open spec fn dec_step(st: DecodeState, c: u8) -> Option<(DecodeState, Seq<u8>)> {
    match (st.state, b64_value(c)) {
        (DecodePhase::B0, Some(v)) => Some(
            (DecodeState { state: DecodePhase::B6, octet: (v << 2) as u8 }, Seq::empty()),
        ),
        (DecodePhase::B6, Some(v)) => Some(
            (
                DecodeState { state: DecodePhase::B4, octet: (v << 4) as u8 },
                seq![(st.octet | (v >> 4)) as u8],
            ),
        ),
        (DecodePhase::B4, Some(v)) => Some(
            (
                DecodeState { state: DecodePhase::B2, octet: (v << 6) as u8 },
                seq![(st.octet | (v >> 2)) as u8],
            ),
        ),
        (DecodePhase::B4, None) => if c == 0x3du8 {
            Some((DecodeState { state: DecodePhase::P1, octet: st.octet }, Seq::empty()))
        } else {
            None
        },
        (DecodePhase::B2, Some(v)) => Some(
            (
                DecodeState { state: DecodePhase::B0, octet: (st.octet | v) as u8 },
                seq![(st.octet | v) as u8],
            ),
        ),
        (DecodePhase::B2, None) => if c == 0x3du8 {
            Some((DecodeState { state: DecodePhase::P0, octet: st.octet }, Seq::empty()))
        } else {
            None
        },
        (DecodePhase::P1, None) => if c == 0x3du8 {
            Some((DecodeState { state: DecodePhase::P0, octet: st.octet }, Seq::empty()))
        } else {
            None
        },
        (_, _) => None,
    }
}

/// The decoder run over a whole byte sequence.
pub enum DecRun {
    /// Final state and everything emitted.
    Good(DecodeState, Seq<u8>),
    /// First offending byte, and everything emitted before it.
    Bad(u8, Seq<u8>),
}

pub open spec fn dec_run(st: DecodeState, s: Seq<u8>) -> DecRun
    decreases s.len(),
{
    if s.len() == 0 {
        DecRun::Good(st, Seq::empty())
    } else {
        match dec_step(st, s[0]) {
            Option::None => DecRun::Bad(s[0], Seq::empty()),
            Option::Some((st2, em)) => match dec_run(st2, s.drop_first()) {
                DecRun::Good(st3, em2) => DecRun::Good(st3, em + em2),
                DecRun::Bad(b, em2) => DecRun::Bad(b, em + em2),
            },
        }
    }
}

/// A phase in which the stream may legally end.
pub open spec fn dec_final_ok(st: DecodeState) -> bool {
    st.state is B0 || st.state is P0
}

/// Chunk invariance of the decoder: feeding `a` then `b` equals feeding
/// `a + b`.
pub proof fn lemma_dec_append(st: DecodeState, a: Seq<u8>, b: Seq<u8>)
    ensures
        dec_run(st, a + b) == (match dec_run(st, a) {
            DecRun::Good(st2, em) => match dec_run(st2, b) {
                DecRun::Good(st3, em2) => DecRun::Good(st3, em + em2),
                DecRun::Bad(c, em2) => DecRun::Bad(c, em + em2),
            },
            DecRun::Bad(c, em) => DecRun::Bad(c, em),
        }),
    decreases a.len(),
{
    if a.len() == 0 {
        assert(a + b =~= b);
        match dec_run(st, b) {
            DecRun::Good(st3, em2) => {
                assert(Seq::<u8>::empty() + em2 =~= em2);
            },
            DecRun::Bad(c, em2) => {
                assert(Seq::<u8>::empty() + em2 =~= em2);
            },
        }
    } else {
        match dec_step(st, a[0]) {
            Option::None => {
                assert((a + b)[0] == a[0]);
            },
            Option::Some((st2, em)) => {
                lemma_dec_append(st2, a.drop_first(), b);
                assert((a + b).drop_first() =~= a.drop_first() + b);
                assert((a + b)[0] == a[0]);
                match dec_run(st2, a.drop_first()) {
                    DecRun::Good(st3, em2) => {
                        match dec_run(st3, b) {
                            DecRun::Good(st4, em3) => {
                                assert(em + (em2 + em3) =~= (em + em2) + em3);
                            },
                            DecRun::Bad(c, em3) => {
                                assert(em + (em2 + em3) =~= (em + em2) + em3);
                            },
                        }
                    },
                    DecRun::Bad(c, em2) => {},
                }
            },
        }
    }
}

/// Maps a base64 digit to its six bits.
pub fn decode_value_of(digit: u8) -> (r: Option<u8>)
    ensures
        r == b64_value(digit),
{
    match digit {
        0x41u8..=0x5au8 => Some(digit - 0x41u8),
        0x61u8..=0x7au8 => Some(digit - 0x61u8 + 26),
        0x30u8..=0x39u8 => Some(digit - 0x30u8 + 52),
        0x2bu8 => Some(62),
        0x2fu8 => Some(63),
        _ => None,
    }
}

/// Streaming base64 decoder: consumes base64 digits and appends the decoded
/// bytes to an owned buffer. Its state can be extracted and re-injected so
/// one logical stream may span many writer lifetimes.
pub struct DecodeWriter {
    pub inner: Vec<u8>,
    pub state: DecodePhase,
    pub octet: u8,
}

impl DecodeWriter {
    /// The resumable state this writer has reached.
    pub open spec fn snap(&self) -> DecodeState {
        DecodeState { state: self.state, octet: self.octet }
    }

    pub fn new(inner: Vec<u8>) -> (r: DecodeWriter)
        ensures
            r.inner@ == inner@,
            r.snap() == (DecodeState { state: DecodePhase::B0, octet: 0u8 }),
    {
        DecodeWriter { inner, state: DecodePhase::B0, octet: 0u8 }
    }

    pub fn new_with_state(inner: Vec<u8>, state: DecodeState) -> (r: DecodeWriter)
        ensures
            r.inner@ == inner@,
            r.snap() == state,
    {
        DecodeWriter { inner, state: state.state, octet: state.octet }
    }

    pub fn get_ptr(&self) -> (r: &Vec<u8>)
        ensures
            r@ == self.inner@,
    {
        &self.inner
    }

    pub fn get_mut(&mut self) -> (r: &mut Vec<u8>)
        ensures
            *r == old(self).inner,
            *final(self) == (DecodeWriter { inner: *final(r), ..*old(self) }),
    {
        &mut self.inner
    }

    pub fn get_state(&self) -> (r: DecodeState)
        ensures
            r == self.snap(),
    {
        DecodeState { state: self.state, octet: self.octet }
    }

    pub fn into_inner(self) -> (r: Vec<u8>)
        ensures
            r@ == self.inner@,
    {
        self.inner
    }

    /// Decodes `buf`. On the first byte that is neither a base64 digit nor
    /// an allowed padding sign, stops and reports that byte; everything
    /// decoded before it has already been appended.
    pub fn write(&mut self, buf: &[u8]) -> (r: Result<usize, StreamError>)
        ensures
            match dec_run(old(self).snap(), buf@) {
                DecRun::Good(st2, em) => r == Ok::<usize, StreamError>(buf@.len() as usize)
                    && final(self).snap() == st2 && final(self).inner@ == old(self).inner@ + em,
                DecRun::Bad(c, em) => r == Err::<usize, StreamError>(StreamError::Base64Char(c))
                    && final(self).inner@ == old(self).inner@ + em,
            },
    {
        let ghost pre = *self;
        proof {
            assert(buf@.take(0) =~= Seq::<u8>::empty());
            assert(self.inner@.skip(pre.inner@.len() as int) =~= Seq::<u8>::empty());
            assert(self.inner@.take(pre.inner@.len() as int) =~= pre.inner@);
        }
        let mut i: usize = 0;
        while i < buf.len()
            invariant
                i <= buf.len(),
                dec_run(pre.snap(), buf@.take(i as int)) == DecRun::Good(
                    self.snap(),
                    self.inner@.skip(pre.inner@.len() as int),
                ),
                self.inner@.len() >= pre.inner@.len(),
                self.inner@.take(pre.inner@.len() as int) == pre.inner@,
                pre == *old(self),
            decreases buf.len() - i,
        {
            let ghost mid = self.snap();
            let ghost emso = self.inner@.skip(pre.inner@.len() as int);
            proof {
                lemma_dec_append(pre.snap(), buf@.take(i as int), seq![buf@[i as int]]);
                assert(buf@.take(i as int) + seq![buf@[i as int]] =~= buf@.take(i as int + 1));
                assert(seq![buf@[i as int]].drop_first() =~= Seq::<u8>::empty());
                assert(seq![buf@[i as int]][0] == buf@[i as int]);
                match dec_step(self.snap(), buf@[i as int]) {
                    Option::Some((st2, em)) => {
                        assert(dec_run(st2, seq![buf@[i as int]].drop_first()) == DecRun::Good(
                            st2,
                            Seq::<u8>::empty(),
                        ));
                        assert(em + Seq::<u8>::empty() =~= em);
                        assert(dec_run(self.snap(), seq![buf@[i as int]]) == DecRun::Good(
                            st2,
                            em,
                        ));
                    },
                    Option::None => {},
                }
            }
            let c = buf[i];
            let v = decode_value_of(c);
            match (self.state, c, v) {
                (DecodePhase::B0, _, Some(value)) => {
                    self.octet = value << 2;
                    self.state = DecodePhase::B6;
                },
                (DecodePhase::B6, _, Some(value)) => {
                    let out = self.octet | (value >> 4);
                    self.inner.push(out);
                    self.octet = value << 4;
                    self.state = DecodePhase::B4;
                },
                (DecodePhase::B4, 0x3du8, None) => {
                    self.state = DecodePhase::P1;
                },
                (DecodePhase::B4, _, Some(value)) => {
                    let out = self.octet | (value >> 2);
                    self.inner.push(out);
                    self.octet = value << 6;
                    self.state = DecodePhase::B2;
                },
                (DecodePhase::B2, _, Some(value)) => {
                    let out = self.octet | value;
                    self.inner.push(out);
                    self.octet = out;
                    self.state = DecodePhase::B0;
                },
                (DecodePhase::B2, 0x3du8, None) => {
                    self.state = DecodePhase::P0;
                },
                (DecodePhase::P1, 0x3du8, None) => {
                    self.state = DecodePhase::P0;
                },
                (_, _, _) => {
                    proof {
                        assert(dec_step(mid, buf@[i as int]) is None);
                        lemma_dec_run_bad(pre.snap(), buf@, i as int, emso);
                    }
                    return Err(StreamError::Base64Char(c));
                },
            }
            proof {
                match dec_step(mid, buf@[i as int]) {
                    Option::Some((st2, em)) => {
                        assert(self.snap() == st2);
                        assert(self.inner@.skip(pre.inner@.len() as int) =~= emso + em);
                        assert(self.inner@.take(pre.inner@.len() as int) =~= pre.inner@);
                    },
                    Option::None => {
                        assert(false);
                    },
                }
            }
            i = i + 1;
        }
        proof {
            assert(buf@.take(buf@.len() as int) =~= buf@);
            assert(old(self).inner@ + self.inner@.skip(pre.inner@.len() as int) =~= self.inner@);
        }
        Ok(buf.len())
    }

    /// Succeeds exactly when the stream ended on a group boundary or after
    /// complete padding.
    pub fn flush(&mut self) -> (r: Result<(), StreamError>)
        ensures
            *final(self) == *old(self),
            r == (if dec_final_ok(old(self).snap()) {
                Ok::<(), StreamError>(())
            } else {
                Err::<(), StreamError>(StreamError::Base64Eof)
            }),
    {
        match self.state {
            DecodePhase::P0 | DecodePhase::B0 => Ok(()),
            _ => Err(StreamError::Base64Eof),
        }
    }
}

/// The run over `s` fails on position `i` with everything before emitted.
proof fn lemma_dec_run_bad(st: DecodeState, s: Seq<u8>, i: int, em: Seq<u8>)
    requires
        0 <= i < s.len(),
        dec_run(st, s.take(i)) == DecRun::Good(dec_mid(st, s, i), em),
        dec_step(dec_mid(st, s, i), s[i]) is None,
    ensures
        dec_run(st, s) == DecRun::Bad(s[i], em),
{
    lemma_dec_append(st, s.take(i), s.skip(i));
    assert(s.take(i) + s.skip(i) =~= s);
    let rest = s.skip(i);
    assert(rest[0] == s[i]);
    assert(dec_run(dec_mid(st, s, i), rest) == DecRun::Bad(s[i], Seq::<u8>::empty()));
    assert(em + Seq::<u8>::empty() =~= em);
}

/// The state the decoder reaches after the first `i` bytes of `s`.
pub open spec fn dec_mid(st: DecodeState, s: Seq<u8>, i: int) -> DecodeState {
    match dec_run(st, s.take(i)) {
        DecRun::Good(st2, em) => st2,
        DecRun::Bad(c, em) => st,
    }
}

/// How many bits of the current input group the encoder has absorbed.
#[derive(Clone, Copy, PartialEq, Eq, Structural, Debug)]
pub enum EncodePhase {
    B0,
    B2,
    B4,
}

/// The base64 digit for six bits.
pub open spec fn b64_char(v: u8) -> u8 {
    if v <= 25 {
        (0x41u8 + v) as u8
    } else if v <= 51 {
        (v - 26 + 0x61u8) as u8
    } else if v <= 61 {
        (v - 52 + 0x30u8) as u8
    } else if v == 62 {
        0x2bu8
    } else {
        0x2fu8
    }
}

/// One encoder step on an input byte: next phase, next partial sextet, and
/// the digits written.
pub open spec fn enc_step(ph: EncodePhase, u6: u8, c: u8) -> (EncodePhase, u8, Seq<u8>) {
    match ph {
        EncodePhase::B0 => (
            EncodePhase::B2,
            ((c << 4) & 0x3fu8) as u8,
            seq![b64_char((c >> 2) as u8)],
        ),
        EncodePhase::B2 => (
            EncodePhase::B4,
            ((c << 2) & 0x3fu8) as u8,
            seq![b64_char((u6 | (c >> 4)) as u8)],
        ),
        EncodePhase::B4 => (
            EncodePhase::B0,
            0u8,
            seq![b64_char((u6 | (c >> 6)) as u8), b64_char((c & 0x3fu8) as u8)],
        ),
    }
}

pub open spec fn enc_run(ph: EncodePhase, u6: u8, s: Seq<u8>) -> (EncodePhase, u8, Seq<u8>)
    decreases s.len(),
{
    if s.len() == 0 {
        (ph, u6, Seq::empty())
    } else {
        let st = enc_step(ph, u6, s[0]);
        let r = enc_run(st.0, st.1, s.drop_first());
        (r.0, r.1, st.2 + r.2)
    }
}

/// The digits `flush` writes: the last partial sextet padded with `=` up to
/// a multiple of four digits.
pub open spec fn enc_flush_emit(ph: EncodePhase, u6: u8) -> Seq<u8> {
    match ph {
        EncodePhase::B0 => Seq::empty(),
        EncodePhase::B2 => seq![b64_char(u6), 0x3du8, 0x3du8],
        EncodePhase::B4 => seq![b64_char(u6), 0x3du8],
    }
}

/// The complete base64 encoding of `s`.
pub open spec fn enc_output(s: Seq<u8>) -> Seq<u8> {
    enc_run(EncodePhase::B0, 0u8, s).2 + enc_flush_emit(
        enc_run(EncodePhase::B0, 0u8, s).0,
        enc_run(EncodePhase::B0, 0u8, s).1,
    )
}

/// Chunk invariance of the encoder: feeding `a` then `b` equals feeding
/// `a + b`.
pub proof fn lemma_enc_append(ph: EncodePhase, u6: u8, a: Seq<u8>, b: Seq<u8>)
    ensures
        ({
            let ra = enc_run(ph, u6, a);
            let rb = enc_run(ra.0, ra.1, b);
            enc_run(ph, u6, a + b) == (rb.0, rb.1, ra.2 + rb.2)
        }),
    decreases a.len(),
{
    if a.len() == 0 {
        assert(a + b =~= b);
        assert(Seq::<u8>::empty() + enc_run(ph, u6, b).2 =~= enc_run(ph, u6, b).2);
    } else {
        let st = enc_step(ph, u6, a[0]);
        lemma_enc_append(st.0, st.1, a.drop_first(), b);
        assert((a + b).drop_first() =~= a.drop_first() + b);
        assert((a + b)[0] == a[0]);
        let ra = enc_run(ph, u6, a);
        let rb = enc_run(ra.0, ra.1, b);
        assert(st.2 + (enc_run(st.0, st.1, a.drop_first()).2 + rb.2) =~= ra.2 + rb.2);
    }
}

/// The digit for six bits.
pub fn encode_value_of(u6: u8) -> (r: u8)
    requires
        u6 < 64,
    ensures
        r == b64_char(u6),
{
    match u6 {
        0..=25 => 0x41u8 + u6,
        26..=51 => u6 - 26 + 0x61u8,
        52..=61 => u6 - 52 + 0x30u8,
        62 => 0x2bu8,
        _ => 0x2fu8,
    }
}

/// Streaming base64 encoder: consumes raw bytes and appends base64 digits
/// to an owned buffer; `flush` pads the last group.
pub struct EncodeWriter {
    pub inner: Vec<u8>,
    pub state: EncodePhase,
    pub u6: u8,
}

impl EncodeWriter {
    pub open spec fn wf(&self) -> bool {
        self.u6 < 64
    }

    pub fn new(inner: Vec<u8>) -> (r: EncodeWriter)
        ensures
            r.wf(),
            r.inner@ == inner@,
            r.state is B0,
            r.u6 == 0u8,
    {
        EncodeWriter { inner, state: EncodePhase::B0, u6: 0 }
    }

    pub fn get_ref(&self) -> (r: &Vec<u8>)
        ensures
            r@ == self.inner@,
    {
        &self.inner
    }

    pub fn into_inner(self) -> (r: Vec<u8>)
        ensures
            r@ == self.inner@,
    {
        self.inner
    }

    fn emit(&mut self) -> (r: Result<(), StreamError>)
        requires
            old(self).wf(),
        ensures
            r is Ok,
            final(self).wf(),
            final(self).state == old(self).state,
            final(self).u6 == old(self).u6,
            final(self).inner@ == old(self).inner@.push(b64_char(old(self).u6)),
    {
        let c = encode_value_of(self.u6);
        self.inner.push(c);
        Ok(())
    }

    pub fn write(&mut self, buf: &[u8]) -> (r: Result<usize, StreamError>)
        requires
            old(self).wf(),
        ensures
            r == Ok::<usize, StreamError>(buf@.len() as usize),
            final(self).wf(),
            ({
                let run = enc_run(old(self).state, old(self).u6, buf@);
                final(self).state == run.0 && final(self).u6 == run.1 && final(self).inner@
                    == old(self).inner@ + run.2
            }),
    {
        let ghost pre = *self;
        proof {
            assert(buf@.take(0) =~= Seq::<u8>::empty());
            assert(self.inner@.skip(pre.inner@.len() as int) =~= Seq::<u8>::empty());
            assert(self.inner@.take(pre.inner@.len() as int) =~= pre.inner@);
        }
        let mut i: usize = 0;
        while i < buf.len()
            invariant
                i <= buf.len(),
                self.wf(),
                ({
                    let run = enc_run(pre.state, pre.u6, buf@.take(i as int));
                    self.state == run.0 && self.u6 == run.1 && self.inner@.skip(
                        pre.inner@.len() as int,
                    ) == run.2
                }),
                self.inner@.len() >= pre.inner@.len(),
                self.inner@.take(pre.inner@.len() as int) == pre.inner@,
                pre == *old(self),
            decreases buf.len() - i,
        {
            let ghost emso = self.inner@.skip(pre.inner@.len() as int);
            proof {
                lemma_enc_append(pre.state, pre.u6, buf@.take(i as int), seq![buf@[i as int]]);
                assert(buf@.take(i as int) + seq![buf@[i as int]] =~= buf@.take(i as int + 1));
                assert(seq![buf@[i as int]].drop_first() =~= Seq::<u8>::empty());
                assert(seq![buf@[i as int]][0] == buf@[i as int]);
                let st = enc_step(self.state, self.u6, buf@[i as int]);
                assert(st.2 + Seq::<u8>::empty() =~= st.2);
                assert(enc_run(st.0, st.1, seq![buf@[i as int]].drop_first()) == (
                    st.0,
                    st.1,
                    Seq::<u8>::empty(),
                ));
                assert(enc_run(self.state, self.u6, seq![buf@[i as int]]) == st);
            }
            let ghost st = enc_step(self.state, self.u6, buf@[i as int]);
            let c = buf[i];
            match self.state {
                EncodePhase::B0 => {
                    self.u6 = c >> 2;
                    proof {
                        assert((c >> 2) < 64) by (bit_vector);
                    }
                    match self.emit() {
                        Ok(_) => {},
                        Err(e) => {
                            return Err(e);
                        },
                    }
                    self.u6 = (c << 4) & 0x3f;
                    self.state = EncodePhase::B2;
                    proof {
                        assert(((c << 4) & 0x3f) < 64) by (bit_vector);
                        assert(self.inner@.skip(pre.inner@.len() as int) =~= emso + st.2);
                        assert(self.inner@.take(pre.inner@.len() as int) =~= pre.inner@);
                    }
                },
                EncodePhase::B2 => {
                    let ghost u0 = self.u6;
                    self.u6 = self.u6 | (c >> 4);
                    proof {
                        assert(u0 < 64 ==> (u0 | (c >> 4)) < 64) by (bit_vector);
                    }
                    match self.emit() {
                        Ok(_) => {},
                        Err(e) => {
                            return Err(e);
                        },
                    }
                    self.u6 = (c << 2) & 0x3f;
                    self.state = EncodePhase::B4;
                    proof {
                        assert(((c << 2) & 0x3f) < 64) by (bit_vector);
                        assert(self.inner@.skip(pre.inner@.len() as int) =~= emso + st.2);
                        assert(self.inner@.take(pre.inner@.len() as int) =~= pre.inner@);
                    }
                },
                EncodePhase::B4 => {
                    let ghost u0 = self.u6;
                    self.u6 = self.u6 | (c >> 6);
                    proof {
                        assert(u0 < 64 ==> (u0 | (c >> 6)) < 64) by (bit_vector);
                    }
                    match self.emit() {
                        Ok(_) => {},
                        Err(e) => {
                            return Err(e);
                        },
                    }
                    self.u6 = c & 0x3f;
                    proof {
                        assert((c & 0x3f) < 64) by (bit_vector);
                    }
                    match self.emit() {
                        Ok(_) => {},
                        Err(e) => {
                            return Err(e);
                        },
                    }
                    self.u6 = 0;
                    self.state = EncodePhase::B0;
                    proof {
                        assert(seq![
                            b64_char((u0 | (c >> 6)) as u8),
                            b64_char((c & 0x3fu8) as u8),
                        ] =~= seq![b64_char((u0 | (c >> 6)) as u8)].push(
                            b64_char((c & 0x3fu8) as u8),
                        ));
                        assert(self.inner@.skip(pre.inner@.len() as int) =~= emso + st.2);
                        assert(self.inner@.take(pre.inner@.len() as int) =~= pre.inner@);
                    }
                },
            }
            i = i + 1;
        }
        proof {
            assert(buf@.take(buf@.len() as int) =~= buf@);
            assert(old(self).inner@ + self.inner@.skip(pre.inner@.len() as int) =~= self.inner@);
        }
        Ok(buf.len())
    }

    /// Writes the final sextet, padded with `=` to the next multiple of
    /// four digits.
    pub fn flush(&mut self) -> (r: Result<(), StreamError>)
        requires
            old(self).wf(),
        ensures
            r is Ok,
            final(self).wf(),
            final(self).state == old(self).state,
            final(self).u6 == old(self).u6,
            final(self).inner@ == old(self).inner@ + enc_flush_emit(old(self).state, old(self).u6),
    {
        match self.state {
            EncodePhase::B0 => {
                proof {
                    assert(old(self).inner@ + enc_flush_emit(old(self).state, old(self).u6)
                        =~= old(self).inner@);
                }
            },
            EncodePhase::B2 => {
                match self.emit() {
                    Ok(_) => {},
                    Err(e) => {
                        return Err(e);
                    },
                }
                self.inner.push(0x3d);
                self.inner.push(0x3d);
                proof {
                    assert(final(self).inner@ =~= old(self).inner@ + enc_flush_emit(
                        old(self).state,
                        old(self).u6,
                    ));
                }
            },
            EncodePhase::B4 => {
                match self.emit() {
                    Ok(_) => {},
                    Err(e) => {
                        return Err(e);
                    },
                }
                self.inner.push(0x3d);
                proof {
                    assert(final(self).inner@ =~= old(self).inner@ + enc_flush_emit(
                        old(self).state,
                        old(self).u6,
                    ));
                }
            },
        }
        Ok(())
    }
}

/// Encoding then decoding a digit gives the digit back.
proof fn lemma_b64_inverse(v: u8)
    requires
        v < 64,
    ensures
        b64_value(b64_char(v)) == Some(v),
{
}

/// Base64 round trip: decoding the encoder's complete output of any byte
/// string, padding included, gives that byte string back and leaves the
/// decoder in a phase where the stream may legally end.
pub proof fn lemma_base64_roundtrip(b: Seq<u8>)
    ensures
        (match dec_run(
            DecodeState { state: DecodePhase::B0, octet: 0u8 },
            enc_output(b),
        ) {
            DecRun::Good(st, em) => em == b && dec_final_ok(st),
            DecRun::Bad(c, em) => false,
        }),
{
    lemma_base64_roundtrip_from(b, 0u8);
}

/// Decoding four digits that encode three bytes.
proof fn lemma_rt_group(oct: u8, c: u8, d: u8, e: u8)
    ensures
        ({
            let e1 = b64_char((c >> 2) as u8);
            let e2 = b64_char((((c << 4) & 0x3fu8) | (d >> 4)) as u8);
            let e3 = b64_char((((d << 2) & 0x3fu8) | (e >> 6)) as u8);
            let e4 = b64_char((e & 0x3fu8) as u8);
            dec_run(DecodeState { state: DecodePhase::B0, octet: oct }, seq![e1, e2, e3, e4])
                == DecRun::Good(
                DecodeState {
                    state: DecodePhase::B0,
                    octet: ((((((d << 2) & 0x3fu8) | (e >> 6)) << 6) | (e & 0x3fu8)) as u8),
                },
                seq![c, d, e],
            )
        }),
{
    reveal_with_fuel(dec_run, 6);
    let v1 = (c >> 2) as u8;
    let v2 = (((c << 4) & 0x3fu8) | (d >> 4)) as u8;
    let v3 = (((d << 2) & 0x3fu8) | (e >> 6)) as u8;
    let v4 = (e & 0x3fu8) as u8;
    assert((c >> 2) < 64) by (bit_vector);
    assert((((c << 4) & 0x3f) | (d >> 4)) < 64) by (bit_vector);
    assert((((d << 2) & 0x3f) | (e >> 6)) < 64) by (bit_vector);
    assert((e & 0x3f) < 64) by (bit_vector);
    lemma_b64_inverse(v1);
    lemma_b64_inverse(v2);
    lemma_b64_inverse(v3);
    lemma_b64_inverse(v4);
    assert((((c >> 2) << 2) | ((((c << 4) & 0x3f) | (d >> 4)) >> 4)) == c) by (bit_vector);
    assert((((((c << 4) & 0x3f) | (d >> 4)) << 4) | ((((d << 2) & 0x3f) | (e >> 6)) >> 2)) == d)
        by (bit_vector);
    assert((((((d << 2) & 0x3f) | (e >> 6)) << 6) | (e & 0x3f)) == e) by (bit_vector);
    let e1 = b64_char(v1);
    let e2 = b64_char(v2);
    let e3 = b64_char(v3);
    let e4 = b64_char(v4);
    let t = seq![e1, e2, e3, e4];
    assert(t.drop_first() =~= seq![e2, e3, e4]);
    assert(seq![e2, e3, e4].drop_first() =~= seq![e3, e4]);
    assert(seq![e3, e4].drop_first() =~= seq![e4]);
    assert(seq![e4].drop_first() =~= Seq::<u8>::empty());
    assert(match dec_run(DecodeState { state: DecodePhase::B0, octet: oct }, t) {
        DecRun::Good(st, em) => st == (DecodeState {
            state: DecodePhase::B0,
            octet: ((((v3 << 6) as u8) | v4) as u8),
        }) && em =~= seq![c, d, e],
        DecRun::Bad(_, _) => false,
    });
    assert(((v3 << 6) as u8) | v4 == ((((((d << 2) & 0x3fu8) | (e >> 6)) << 6) | (e
        & 0x3fu8)) as u8));
}

/// Decoding the padded tail that encodes one final byte.
proof fn lemma_rt_tail1(oct: u8, c: u8)
    ensures
        ({
            let e1 = b64_char((c >> 2) as u8);
            let e2 = b64_char(((c << 4) & 0x3fu8) as u8);
            match dec_run(
                DecodeState { state: DecodePhase::B0, octet: oct },
                seq![e1, e2, 0x3du8, 0x3du8],
            ) {
                DecRun::Good(st, em) => em == seq![c] && dec_final_ok(st),
                DecRun::Bad(_, _) => false,
            }
        }),
{
    reveal_with_fuel(dec_run, 6);
    let v1 = (c >> 2) as u8;
    let v2 = ((c << 4) & 0x3fu8) as u8;
    assert((c >> 2) < 64) by (bit_vector);
    assert(((c << 4) & 0x3f) < 64) by (bit_vector);
    lemma_b64_inverse(v1);
    lemma_b64_inverse(v2);
    assert((((c >> 2) << 2) | (((c << 4) & 0x3f) >> 4)) == c) by (bit_vector);
    let e1 = b64_char(v1);
    let e2 = b64_char(v2);
    let t = seq![e1, e2, 0x3du8, 0x3du8];
    assert(t.drop_first() =~= seq![e2, 0x3du8, 0x3du8]);
    assert(seq![e2, 0x3du8, 0x3du8].drop_first() =~= seq![0x3du8, 0x3du8]);
    assert(seq![0x3du8, 0x3du8].drop_first() =~= seq![0x3du8]);
    assert(seq![0x3du8].drop_first() =~= Seq::<u8>::empty());
    assert(b64_value(0x3du8) is None);
    assert(match dec_run(DecodeState { state: DecodePhase::B0, octet: oct }, t) {
        DecRun::Good(st, em) => em =~= seq![c] && dec_final_ok(st),
        DecRun::Bad(_, _) => false,
    });
}

/// Decoding the padded tail that encodes two final bytes.
proof fn lemma_rt_tail2(oct: u8, c: u8, d: u8)
    ensures
        ({
            let e1 = b64_char((c >> 2) as u8);
            let e2 = b64_char((((c << 4) & 0x3fu8) | (d >> 4)) as u8);
            let e3 = b64_char(((d << 2) & 0x3fu8) as u8);
            match dec_run(
                DecodeState { state: DecodePhase::B0, octet: oct },
                seq![e1, e2, e3, 0x3du8],
            ) {
                DecRun::Good(st, em) => em == seq![c, d] && dec_final_ok(st),
                DecRun::Bad(_, _) => false,
            }
        }),
{
    reveal_with_fuel(dec_run, 6);
    let v1 = (c >> 2) as u8;
    let v2 = ((((c << 4) & 0x3fu8) | (d >> 4))) as u8;
    let v3 = ((d << 2) & 0x3fu8) as u8;
    assert((c >> 2) < 64) by (bit_vector);
    assert((((c << 4) & 0x3f) | (d >> 4)) < 64) by (bit_vector);
    assert(((d << 2) & 0x3f) < 64) by (bit_vector);
    lemma_b64_inverse(v1);
    lemma_b64_inverse(v2);
    lemma_b64_inverse(v3);
    assert((((c >> 2) << 2) | ((((c << 4) & 0x3f) | (d >> 4)) >> 4)) == c) by (bit_vector);
    assert((((((c << 4) & 0x3f) | (d >> 4)) << 4) | (((d << 2) & 0x3f) >> 2)) == d)
        by (bit_vector);
    let e1 = b64_char(v1);
    let e2 = b64_char(v2);
    let e3 = b64_char(v3);
    let t = seq![e1, e2, e3, 0x3du8];
    assert(t.drop_first() =~= seq![e2, e3, 0x3du8]);
    assert(seq![e2, e3, 0x3du8].drop_first() =~= seq![e3, 0x3du8]);
    assert(seq![e3, 0x3du8].drop_first() =~= seq![0x3du8]);
    assert(seq![0x3du8].drop_first() =~= Seq::<u8>::empty());
    assert(b64_value(0x3du8) is None);
    assert(match dec_run(DecodeState { state: DecodePhase::B0, octet: oct }, t) {
        DecRun::Good(st, em) => em =~= seq![c, d] && dec_final_ok(st),
        DecRun::Bad(_, _) => false,
    });
}

#[verifier::rlimit(100)]
#[verifier::spinoff_prover]
proof fn lemma_base64_roundtrip_from(b: Seq<u8>, oct: u8)
    ensures
        (match dec_run(DecodeState { state: DecodePhase::B0, octet: oct }, enc_output(b)) {
            DecRun::Good(st, em) => em == b && dec_final_ok(st),
            DecRun::Bad(c, em) => false,
        }),
    decreases b.len(),
{
    reveal_with_fuel(enc_run, 5);
    let ds0 = DecodeState { state: DecodePhase::B0, octet: oct };
    if b.len() == 0 {
        assert(enc_run(EncodePhase::B0, 0u8, b).2 =~= Seq::<u8>::empty());
        assert(enc_output(b) =~= Seq::<u8>::empty());
    } else if b.len() == 1 {
        let c = b[0];
        assert(b.drop_first() =~= Seq::<u8>::empty());
        assert(enc_run(EncodePhase::B0, 0u8, b).2 =~= seq![b64_char((c >> 2) as u8)]);
        assert(enc_output(b) =~= seq![
            b64_char((c >> 2) as u8),
            b64_char(((c << 4) & 0x3fu8) as u8),
            0x3du8,
            0x3du8,
        ]);
        lemma_rt_tail1(oct, c);
        assert(seq![c] =~= b);
    } else if b.len() == 2 {
        let c = b[0];
        let d = b[1];
        assert(b.drop_first() =~= seq![d]);
        assert(seq![d].drop_first() =~= Seq::<u8>::empty());
        assert(enc_run(EncodePhase::B0, 0u8, b).2 =~= seq![
            b64_char((c >> 2) as u8),
            b64_char((((c << 4) & 0x3fu8) | (d >> 4)) as u8),
        ]);
        assert(enc_output(b) =~= seq![
            b64_char((c >> 2) as u8),
            b64_char((((c << 4) & 0x3fu8) | (d >> 4)) as u8),
            b64_char(((d << 2) & 0x3fu8) as u8),
            0x3du8,
        ]);
        lemma_rt_tail2(oct, c, d);
        assert(seq![c, d] =~= b);
    } else {
        let c = b[0];
        let d = b[1];
        let e = b[2];
        let head = b.take(3);
        let rest = b.skip(3);
        lemma_enc_append(EncodePhase::B0, 0u8, head, rest);
        assert(head + rest =~= b);
        let e1 = b64_char((c >> 2) as u8);
        let e2 = b64_char((((c << 4) & 0x3fu8) | (d >> 4)) as u8);
        let e3 = b64_char((((d << 2) & 0x3fu8) | (e >> 6)) as u8);
        let e4 = b64_char((e & 0x3fu8) as u8);
        assert(head[0] == c && head[1] == d && head[2] == e);
        assert(head.drop_first() =~= seq![d, e]);
        assert(seq![d, e].drop_first() =~= seq![e]);
        assert(seq![e].drop_first() =~= Seq::<u8>::empty());
        assert(enc_run(EncodePhase::B0, 0u8, head).2 =~= seq![e1, e2, e3, e4]);
        assert(enc_run(EncodePhase::B0, 0u8, head).0 is B0);
        assert(enc_run(EncodePhase::B0, 0u8, head).1 == 0u8);
        assert(enc_output(b) =~= seq![e1, e2, e3, e4] + enc_output(rest));
        let oct2 = ((((((d << 2) & 0x3fu8) | (e >> 6)) << 6) | (e & 0x3fu8)) as u8);
        lemma_rt_group(oct, c, d, e);
        lemma_dec_append(ds0, seq![e1, e2, e3, e4], enc_output(rest));
        lemma_base64_roundtrip_from(rest, oct2);
        match dec_run(DecodeState { state: DecodePhase::B0, octet: oct2 }, enc_output(rest)) {
            DecRun::Good(st, em) => {
                assert(seq![c, d, e] + em =~= b);
            },
            DecRun::Bad(_, _) => {
                assert(false);
            },
        }
    }
}

/// Every digit the encoder writes, padding included, is a base64 byte.
pub proof fn lemma_enc_output_chars(s: Seq<u8>)
    ensures
        forall|i: int|
            0 <= i < enc_output(s).len() ==> crate::lexer::is_base64_char(
                #[trigger] enc_output(s)[i],
            ),
{
    lemma_enc_run_chars(EncodePhase::B0, 0u8, s);
    let r = enc_run(EncodePhase::B0, 0u8, s);
    assert(forall|i: int|
        0 <= i < enc_flush_emit(r.0, r.1).len() ==> crate::lexer::is_base64_char(
            #[trigger] enc_flush_emit(r.0, r.1)[i],
        )) by {
        lemma_b64_char_is_b64(r.1);
    }
}

/// The base64 alphabet maps into itself for any sextet value.
proof fn lemma_b64_char_is_b64(v: u8)
    ensures
        crate::lexer::is_base64_char(b64_char(v)),
{
}

proof fn lemma_enc_run_chars(ph: EncodePhase, u6: u8, s: Seq<u8>)
    ensures
        forall|i: int|
            0 <= i < enc_run(ph, u6, s).2.len() ==> crate::lexer::is_base64_char(
                #[trigger] enc_run(ph, u6, s).2[i],
            ),
    decreases s.len(),
{
    if s.len() > 0 {
        let st = enc_step(ph, u6, s[0]);
        lemma_enc_run_chars(st.0, st.1, s.drop_first());
        assert(forall|i: int|
            0 <= i < st.2.len() ==> crate::lexer::is_base64_char(#[trigger] st.2[i])) by {
            match ph {
                EncodePhase::B0 => {
                    lemma_b64_char_is_b64((s[0] >> 2) as u8);
                },
                EncodePhase::B2 => {
                    lemma_b64_char_is_b64((u6 | (s[0] >> 4)) as u8);
                },
                EncodePhase::B4 => {
                    lemma_b64_char_is_b64((u6 | (s[0] >> 6)) as u8);
                    lemma_b64_char_is_b64((s[0] & 0x3fu8) as u8);
                },
            }
        }
        assert(forall|i: int|
            0 <= i < enc_run(ph, u6, s).2.len() ==> crate::lexer::is_base64_char(
                #[trigger] enc_run(ph, u6, s).2[i],
            )) by {
            assert(enc_run(ph, u6, s).2 == st.2 + enc_run(st.0, st.1, s.drop_first()).2);
        }
    }
}

} // verus!
