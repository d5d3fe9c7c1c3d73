use vstd::prelude::*;

use crate::loc::{gloc_after, gloc_after_seq, loc_room, locate, GLoc, Loc, LocByte, LocWrite, StreamError};

verus! {

/// The maximum accepted length of an attribute type name.
pub const MAX_TYPE_LENGTH: usize = 1024;

#[derive(Debug, Eq, PartialEq, Structural, Clone, Copy)]
pub enum TokenKind {
    AttributeType,
    ValueText,
    ValueBase64,
    ValueFinish,
    EmptyLine,
}

/// A token as the contracts speak of it.
pub struct TokenV {
    pub kind: TokenKind,
    pub loc: GLoc,
    pub seg: Seq<u8>,
}

/// A typed token: its kind, the position of the first byte of its segment in
/// the original input, and the segment bytes.
#[derive(Debug)]
pub struct Token {
    pub kind: TokenKind,
    pub loc: Loc,
    pub segment: Vec<u8>,
}

impl View for Token {
    type V = TokenV;

    open spec fn view(&self) -> TokenV {
        TokenV { kind: self.kind, loc: self.loc@, seg: self.segment@ }
    }
}

/// A sink for tokens. `tokens()` is the log of every token accepted so far.
pub trait WriteToken: Sized {
    spec fn wf(&self) -> bool;

    spec fn tokens(&self) -> Seq<TokenV>;

    spec fn infallible(&self) -> bool;

    fn write_token(&mut self, token: &Token) -> (r: Result<(), StreamError>)
        requires
            old(self).wf(),
        ensures
            r is Ok ==> final(self).wf() && final(self).tokens() == old(self).tokens().push(
                token@,
            ) && final(self).infallible() == old(self).infallible(),
            old(self).infallible() ==> r is Ok,
    ;
}

/// Terminal token sink: keeps every token it is handed. It never fails.
pub struct TokenVec {
    pub vec: Vec<Token>,
    pub base: Ghost<Seq<TokenV>>,
}

impl TokenVec {
    pub fn new() -> (r: TokenVec)
        ensures
            r.wf(),
            r.tokens() == Seq::<TokenV>::empty(),
            r.infallible(),
            r.vec@.len() == 0,
    {
        let r = TokenVec { vec: Vec::new(), base: Ghost(Seq::empty()) };
        proof {
            assert(r.vec@.map_values(|t: Token| t@) =~= Seq::<TokenV>::empty());
        }
        r
    }

    pub fn get_ref(&self) -> (r: &Vec<Token>)
        ensures
            r == self.vec,
    {
        &self.vec
    }

    pub fn into_inner(self) -> (r: Vec<Token>)
        ensures
            r == self.vec,
    {
        self.vec
    }
}

impl WriteToken for TokenVec {
    open spec fn wf(&self) -> bool {
        self.vec@.map_values(|t: Token| t@) == self.base@
    }

    open spec fn tokens(&self) -> Seq<TokenV> {
        self.base@
    }

    open spec fn infallible(&self) -> bool {
        true
    }

    fn write_token(&mut self, token: &Token) -> (r: Result<(), StreamError>)
        ensures
            r is Ok,
            final(self).vec@.len() == old(self).vec@.len() + 1,
            final(self).vec@.last()@ == token@,
            final(self).vec@.take(old(self).vec@.len() as int) == old(self).vec@,
    {
        let t = Token { kind: token.kind, loc: token.loc, segment: clone_bytes(&token.segment) };
        self.vec.push(t);
        proof {
            self.base@ = self.base@.push(token@);
            assert(self.vec@.map_values(|t: Token| t@) =~= old(self).vec@.map_values(
                |t: Token| t@,
            ).push(token@));
        }
        Ok(())
    }
}

/// A copy of a byte vector.
pub fn clone_bytes(v: &Vec<u8>) -> (r: Vec<u8>)
    ensures
        r@ == v@,
{
    let mut out: Vec<u8> = Vec::new();
    let mut i: usize = 0;
    while i < v.len()
        invariant
            i <= v@.len(),
            out@ == v@.take(i as int),
        decreases v@.len() - i,
    {
        out.push(v[i]);
        assert(v@.take(i as int).push(v@[i as int]) =~= v@.take(i as int + 1));
        i = i + 1;
    }
    assert(v@.take(v@.len() as int) =~= v@);
    out
}

/// Lexer state, one variant per position in an LDIF line.
#[derive(Clone, Copy, PartialEq, Eq, Structural, Debug)]
pub enum LexState {
    LineStart,
    CommentLine,
    AttributeType,
    ValueColon,
    SafeStringValue,
    Base64Value,
    WhitespaceBeforeSafe,
    WhitespaceBeforeBase64,
}

/// The lexer's resumable lc: its state, the start position of the token
/// being accumulated, and the bytes gathered so far.
pub struct LexCore {
    pub st: LexState,
    pub tstart: GLoc,
    pub seg: Seq<u8>,
}

pub open spec fn is_alpha(c: u8) -> bool {
    (0x41u8 <= c <= 0x5au8) || (0x61u8 <= c <= 0x7au8)
}

pub open spec fn is_digit(c: u8) -> bool {
    0x30u8 <= c <= 0x39u8
}

pub open spec fn is_attr_char(c: u8) -> bool {
    is_alpha(c) || is_digit(c) || c == 0x2du8 || c == 0x5fu8
}

pub open spec fn is_safe_init_char(c: u8) -> bool {
    (0x01u8 <= c <= 0x09u8) || (0x0bu8 <= c <= 0x0cu8) || (0x0eu8 <= c <= 0x1fu8) || (0x21u8 <= c
        <= 0x39u8) || c == 0x3bu8 || (0x3du8 <= c <= 0x7du8)
}

pub open spec fn is_safe_char(c: u8) -> bool {
    (0x01u8 <= c <= 0x09u8) || (0x0bu8 <= c <= 0x0cu8) || (0x0eu8 <= c <= 0x7fu8)
}

pub open spec fn is_base64_char(c: u8) -> bool {
    is_alpha(c) || is_digit(c) || c == 0x2bu8 || c == 0x2fu8 || c == 0x3du8
}

pub open spec fn tok(kind: TokenKind, loc: GLoc, seg: Seq<u8>) -> TokenV {
    TokenV { kind, loc, seg }
}

/// One lexer step on a located byte: the next lc and the tokens emitted,
/// or the error this byte provokes.
pub open spec fn lex_step(lc: LexCore, lb: LocByte) -> Result<(LexCore, Seq<TokenV>), StreamError> {
    let c = lb.byte;
    let l = Loc {
        line: lb.loc.line as usize,
        column: lb.loc.column as usize,
        offset: lb.loc.offset as usize,
    };
    if c >= 0x80u8 {
        Err(StreamError::NonAscii(l))
    } else {
        match lc.st {
            LexState::LineStart => if c == 0x0au8 {
                Ok(
                    (
                        LexCore { st: LexState::LineStart, seg: Seq::empty(), ..lc },
                        seq![tok(TokenKind::EmptyLine, lc.tstart, lc.seg)],
                    ),
                )
            } else if c == 0x23u8 {
                Ok((LexCore { st: LexState::CommentLine, ..lc }, Seq::empty()))
            } else if is_alpha(c) {
                Ok(
                    (
                        LexCore { st: LexState::AttributeType, tstart: lb.loc, seg: seq![c] },
                        Seq::empty(),
                    ),
                )
            } else if is_digit(c) {
                Err(StreamError::UnexpectedDigit(l))
            } else {
                Err(StreamError::UnexpectedChar(l))
            },
            LexState::CommentLine => if c == 0x0au8 {
                Ok((LexCore { st: LexState::LineStart, ..lc }, Seq::empty()))
            } else {
                Ok((lc, Seq::empty()))
            },
            LexState::AttributeType => if c == 0x3bu8 {
                Err(StreamError::UnexpectedSemicolon(l))
            } else if is_attr_char(c) {
                if lc.seg.len() >= MAX_TYPE_LENGTH {
                    Err(StreamError::TypeTooLong(l))
                } else {
                    Ok(
                        (
                            LexCore { seg: lc.seg.push(c), ..lc },
                            Seq::empty(),
                        ),
                    )
                }
            } else if c == 0x3au8 {
                Ok(
                    (
                        LexCore { st: LexState::ValueColon, seg: Seq::empty(), ..lc },
                        seq![tok(TokenKind::AttributeType, lc.tstart, lc.seg)],
                    ),
                )
            } else {
                Err(StreamError::UnexpectedChar(l))
            },
            LexState::ValueColon => if is_safe_init_char(c) {
                Ok(
                    (
                        LexCore { st: LexState::SafeStringValue, tstart: lb.loc, seg: seq![c] },
                        Seq::empty(),
                    ),
                )
            } else if c == 0x20u8 {
                Ok((LexCore { st: LexState::WhitespaceBeforeSafe, ..lc }, Seq::empty()))
            } else if c == 0x3au8 {
                Ok((LexCore { st: LexState::WhitespaceBeforeBase64, ..lc }, Seq::empty()))
            } else if c == 0x0au8 {
                Ok(
                    (
                        LexCore { st: LexState::LineStart, seg: Seq::empty(), ..lc },
                        seq![
                            tok(TokenKind::ValueText, lc.tstart, lc.seg),
                            tok(TokenKind::ValueFinish, lc.tstart, Seq::empty()),
                        ],
                    ),
                )
            } else if c == 0x3cu8 {
                Err(StreamError::UrlValue(l))
            } else {
                Err(StreamError::UnexpectedChar(l))
            },
            LexState::SafeStringValue => if c == 0x0au8 {
                Ok(
                    (
                        LexCore { st: LexState::LineStart, seg: Seq::empty(), ..lc },
                        seq![
                            tok(TokenKind::ValueText, lc.tstart, lc.seg),
                            tok(TokenKind::ValueFinish, lc.tstart, Seq::empty()),
                        ],
                    ),
                )
            } else if is_safe_char(c) {
                Ok(
                    (
                        LexCore {
                            tstart: if lc.seg.len() == 0 {
                                lb.loc
                            } else {
                                lc.tstart
                            },
                            seg: lc.seg.push(c),
                            ..lc
                        },
                        Seq::empty(),
                    ),
                )
            } else {
                Err(StreamError::UnexpectedChar(l))
            },
            LexState::Base64Value => if c == 0x0au8 {
                Ok(
                    (
                        LexCore { st: LexState::LineStart, seg: Seq::empty(), ..lc },
                        seq![
                            tok(TokenKind::ValueBase64, lc.tstart, lc.seg),
                            tok(TokenKind::ValueFinish, lc.tstart, Seq::empty()),
                        ],
                    ),
                )
            } else if is_base64_char(c) {
                Ok(
                    (
                        LexCore {
                            tstart: if lc.seg.len() == 0 {
                                lb.loc
                            } else {
                                lc.tstart
                            },
                            seg: lc.seg.push(c),
                            ..lc
                        },
                        Seq::empty(),
                    ),
                )
            } else {
                Err(StreamError::UnexpectedChar(l))
            },
            LexState::WhitespaceBeforeSafe => if c == 0x20u8 {
                Ok((lc, Seq::empty()))
            } else if is_safe_init_char(c) {
                Ok(
                    (
                        LexCore { st: LexState::SafeStringValue, tstart: lb.loc, seg: seq![c] },
                        Seq::empty(),
                    ),
                )
            } else {
                Err(StreamError::UnexpectedChar(l))
            },
            LexState::WhitespaceBeforeBase64 => if c == 0x20u8 {
                Ok((lc, Seq::empty()))
            } else if is_base64_char(c) {
                Ok(
                    (
                        LexCore { st: LexState::Base64Value, tstart: lb.loc, seg: seq![c] },
                        Seq::empty(),
                    ),
                )
            } else {
                Err(StreamError::UnexpectedChar(l))
            },
        }
    }
}

/// The lexer run over a located byte sequence.
pub open spec fn lex_run(lc: LexCore, s: Seq<LocByte>) -> Result<
    (LexCore, Seq<TokenV>),
    StreamError,
>
    decreases s.len(),
{
    if s.len() == 0 {
        Ok((lc, Seq::empty()))
    } else {
        match lex_step(lc, s[0]) {
            Err(e) => Err(e),
            Ok((c2, em)) => match lex_run(c2, s.drop_first()) {
                Err(e) => Err(e),
                Ok((c3, em2)) => Ok((c3, em + em2)),
            },
        }
    }
}

/// The partial value token flushed at the end of one `loc_write` call, so
/// that a sink can stream long values without the lexer buffering them whole.
pub open spec fn lex_call_end(lc: LexCore) -> (LexCore, Seq<TokenV>) {
    match lc.st {
        LexState::SafeStringValue => if lc.seg.len() > 0 {
            (
                LexCore { seg: Seq::empty(), ..lc },
                seq![tok(TokenKind::ValueText, lc.tstart, lc.seg)],
            )
        } else {
            (lc, Seq::empty())
        },
        LexState::Base64Value => if lc.seg.len() > 0 {
            (
                LexCore { seg: Seq::empty(), ..lc },
                seq![tok(TokenKind::ValueBase64, lc.tstart, lc.seg)],
            )
        } else {
            (lc, Seq::empty())
        },
        _ => (lc, Seq::empty()),
    }
}

/// What end of input forces out of the lexer, or the error it reports there.
pub open spec fn lex_eof(lc: LexCore, l: GLoc) -> Result<Seq<TokenV>, StreamError> {
    match lc.st {
        LexState::LineStart | LexState::CommentLine => Ok(
            seq![tok(TokenKind::EmptyLine, lc.tstart, lc.seg)],
        ),
        LexState::AttributeType => Err(
            StreamError::EofInAttributeType(
                Loc { line: l.line as usize, column: l.column as usize, offset: l.offset as usize },
            ),
        ),
        LexState::Base64Value => Ok(
            seq![
                tok(TokenKind::ValueBase64, lc.tstart, lc.seg),
                tok(TokenKind::ValueFinish, lc.tstart, Seq::empty()),
                tok(TokenKind::EmptyLine, lc.tstart, Seq::empty()),
            ],
        ),
        _ => Ok(
            seq![
                tok(TokenKind::ValueText, lc.tstart, lc.seg),
                tok(TokenKind::ValueFinish, lc.tstart, Seq::empty()),
                tok(TokenKind::EmptyLine, lc.tstart, Seq::empty()),
            ],
        ),
    }
}

/// Chunk composition of the lexer machine.
pub proof fn lemma_lex_append(lc: LexCore, a: Seq<LocByte>, b: Seq<LocByte>)
    ensures
        lex_run(lc, a + b) == (match lex_run(lc, a) {
            Ok((c2, em)) => match lex_run(c2, b) {
                Ok((c3, em2)) => Ok::<(LexCore, Seq<TokenV>), StreamError>((c3, em + em2)),
                Err(e) => Err(e),
            },
            Err(e) => Err(e),
        }),
    decreases a.len(),
{
    if a.len() == 0 {
        assert(a + b =~= b);
        match lex_run(lc, b) {
            Ok((c3, em2)) => {
                assert(Seq::<TokenV>::empty() + em2 =~= em2);
            },
            Err(_) => {},
        }
    } else {
        match lex_step(lc, a[0]) {
            Err(e) => {
                assert((a + b)[0] == a[0]);
            },
            Ok((c2, em)) => {
                lemma_lex_append(c2, a.drop_first(), b);
                assert((a + b).drop_first() =~= a.drop_first() + b);
                assert((a + b)[0] == a[0]);
                match lex_run(c2, a.drop_first()) {
                    Ok((c3, em2)) => {
                        match lex_run(c3, b) {
                            Ok((c4, em3)) => {
                                assert(em + (em2 + em3) =~= (em + em2) + em3);
                            },
                            Err(_) => {},
                        }
                    },
                    Err(_) => {},
                }
            },
        }
    }
}

fn is_safe_init_exec(c: u8) -> (r: bool)
    ensures
        r == is_safe_init_char(c),
{
    (0x01u8 <= c && c <= 0x09u8) || (0x0bu8 <= c && c <= 0x0cu8) || (0x0eu8 <= c && c <= 0x1fu8)
        || (0x21u8 <= c && c <= 0x39u8) || c == 0x3bu8 || (0x3du8 <= c && c <= 0x7du8)
}

fn is_safe_exec(c: u8) -> (r: bool)
    ensures
        r == is_safe_char(c),
{
    (0x01u8 <= c && c <= 0x09u8) || (0x0bu8 <= c && c <= 0x0cu8) || (0x0eu8 <= c && c <= 0x7fu8)
}

fn is_base64_exec(c: u8) -> (r: bool)
    ensures
        r == is_base64_char(c),
{
    (0x41u8 <= c && c <= 0x5au8) || (0x61u8 <= c && c <= 0x7au8) || (0x30u8 <= c && c <= 0x39u8)
        || c == 0x2bu8 || c == 0x2fu8 || c == 0x3du8
}

/// Push-driven LDIF lexer: turns an unfolded byte stream into typed tokens.
pub struct Lexer<R: WriteToken> {
    pub state: LexState,
    pub token_receiver: R,
    pub buf: Vec<u8>,
    pub token_start: Loc,
    pub emitted: Ghost<Seq<TokenV>>,
    pub base: Ghost<Seq<TokenV>>,
    pub log: Ghost<Seq<LocByte>>,
    pub floor: Ghost<int>,
}

impl<R: WriteToken> Lexer<R> {
    /// The resumable machine lc this lexer has reached.
    pub open spec fn machine(&self) -> LexCore {
        LexCore { st: self.state, tstart: self.token_start@, seg: self.buf@ }
    }

    pub fn new(token_receiver: R) -> (r: Lexer<R>)
        requires
            token_receiver.wf(),
        ensures
            r.wf(),
            r.taken() == Seq::<LocByte>::empty(),
            r.token_receiver == token_receiver,
            r.base@ == token_receiver.tokens(),
            r.emitted@ == Seq::<TokenV>::empty(),
            r.machine().st is LineStart,
            r.machine().seg == Seq::<u8>::empty(),
            r.min_start() == 0,
            r.rec_ok() == token_receiver.infallible(),
    {
        let ghost b = token_receiver.tokens();
        let r = Lexer {
            state: LexState::LineStart,
            token_receiver,
            buf: Vec::new(),
            token_start: Loc::default(),
            emitted: Ghost(Seq::empty()),
            base: Ghost(b),
            log: Ghost(Seq::empty()),
            floor: Ghost(0),
        };
        proof {
            assert(r.base@ + r.emitted@ =~= r.base@);
        }
        r
    }

    pub fn get_ref(&self) -> (r: &R)
        ensures
            r == self.token_receiver,
    {
        &self.token_receiver
    }

    pub fn get_mut(&mut self) -> (r: &mut R)
        ensures
            *r == old(self).token_receiver,
            *final(self) == (Lexer { token_receiver: *final(r), ..*old(self) }),
    {
        &mut self.token_receiver
    }

    pub fn into_inner(self) -> (r: R)
        ensures
            r == self.token_receiver,
    {
        self.token_receiver
    }

    /// The token receiver alone can never fail.
    pub open spec fn rec_ok(&self) -> bool {
        self.token_receiver.infallible()
    }

    /// Builds the current token, hands it to the receiver and clears the
    /// scratch buffer.
    fn emit(&mut self, token_kind: TokenKind) -> (r: Result<(), StreamError>)
        requires
            old(self).token_receiver.wf(),
        ensures
            r is Ok ==> final(self).token_receiver.wf() && final(self).token_receiver.tokens()
                == old(self).token_receiver.tokens().push(
                tok(token_kind, old(self).token_start@, old(self).buf@),
            ) && final(self).buf@ == Seq::<u8>::empty() && final(self).state == old(self).state
                && final(self).token_start == old(self).token_start
                && final(self).emitted == old(self).emitted
                && final(self).base == old(self).base
                && final(self).log == old(self).log
                && final(self).floor == old(self).floor
                && final(self).token_receiver.infallible()
                    == old(self).token_receiver.infallible(),
            old(self).token_receiver.infallible() ==> r is Ok,
    {
        let mut segment: Vec<u8> = Vec::new();
        std::mem::swap(&mut segment, &mut self.buf);
        let token = Token { kind: token_kind, loc: self.token_start, segment };
        match self.token_receiver.write_token(&token) {
            Ok(_) => Ok(()),
            Err(e) => Err(e),
        }
    }
}

/// The run over `s` fails once step `i` fails.
proof fn lemma_lex_run_err(lc: LexCore, s: Seq<LocByte>, i: int, mid: LexCore, em: Seq<TokenV>, e: StreamError)
    requires
        0 <= i < s.len(),
        lex_run(lc, s.take(i)) == Ok::<(LexCore, Seq<TokenV>), StreamError>((mid, em)),
        lex_step(mid, s[i]) == Err::<(LexCore, Seq<TokenV>), StreamError>(e),
    ensures
        lex_run(lc, s) == Err::<(LexCore, Seq<TokenV>), StreamError>(e),
{
    lemma_lex_append(lc, s.take(i), s.skip(i));
    assert(s.take(i) + s.skip(i) =~= s);
    let rest = s.skip(i);
    assert(rest[0] == s[i]);
}

/// Advancing the run by one byte.
proof fn lemma_lex_mid_step(lc: LexCore, s: Seq<LocByte>, i: int, mid: LexCore, em: Seq<TokenV>)
    requires
        0 <= i < s.len(),
        lex_run(lc, s.take(i)) == Ok::<(LexCore, Seq<TokenV>), StreamError>((mid, em)),
        lex_step(mid, s[i]) is Ok,
    ensures
        lex_run(lc, s.take(i + 1)) == (match lex_step(mid, s[i]) {
            Ok((c2, em2)) => Ok::<(LexCore, Seq<TokenV>), StreamError>((c2, em + em2)),
            Err(e) => Err(e),
        }),
{
    lemma_lex_append(lc, s.take(i), seq![s[i]]);
    assert(s.take(i) + seq![s[i]] =~= s.take(i + 1));
    assert(seq![s[i]].drop_first() =~= Seq::<LocByte>::empty());
    assert(seq![s[i]][0] == s[i]);
    match lex_step(mid, s[i]) {
        Ok((c2, em2)) => {
            assert(lex_run(c2, seq![s[i]].drop_first()) == Ok::<
                (LexCore, Seq<TokenV>),
                StreamError,
            >((c2, Seq::empty())));
            assert(em2 + Seq::<TokenV>::empty() =~= em2);
        },
        Err(_) => {},
    }
}

impl<R: WriteToken> LocWrite for Lexer<R> {
    open spec fn wf(&self) -> bool {
        &&& self.token_receiver.wf()
        &&& self.token_receiver.tokens() == self.base@ + self.emitted@
    }

    open spec fn taken(&self) -> Seq<LocByte> {
        self.log@
    }

    open spec fn infallible(&self) -> bool {
        false
    }

    open spec fn min_start(&self) -> int {
        0
    }

    open spec fn flush_rel(&self, pre: Self) -> bool {
        &&& self.machine().st is LineStart
        &&& self.base == pre.base
        &&& match lex_eof(pre.machine(), pre.machine().tstart) {
            Ok(toks) => self.emitted@ == pre.emitted@ + toks && self.token_receiver.tokens()
                == pre.token_receiver.tokens() + toks,
            Err(_) => false,
        }
    }

    /// Emits the tokens of `buf`; a value cut off by the end of the buffer
    /// is emitted as a partial segment token whose position is that of its
    /// own first byte. Fails exactly on the first byte the LDIF grammar
    /// rejects; a fallible receiver can also pass its own failure up.
    #[verifier::rlimit(100)]
    #[verifier::spinoff_prover]
    fn loc_write(&mut self, loc: Loc, buf: &[u8]) -> (r: Result<usize, StreamError>)
        ensures
            r is Ok ==> (match lex_run(old(self).machine(), locate(loc@, buf@)) {
                Ok((c2, em)) => final(self).machine() == lex_call_end(c2).0
                    && final(self).token_receiver.tokens()
                        == old(self).token_receiver.tokens() + em + lex_call_end(c2).1
                    && final(self).emitted@ == old(self).emitted@ + em + lex_call_end(c2).1
                    && final(self).base == old(self).base
                    && final(self).rec_ok() == old(self).rec_ok(),
                Err(_) => false,
            }),
            old(self).rec_ok() ==> ((r is Ok) <==> lex_run(
                old(self).machine(),
                locate(loc@, buf@),
            ) is Ok),
    {
        let ghost pre = *self;
        let ghost whole = locate(loc@, buf@);
        proof {
            crate::loc::lemma_locate_len(loc@, buf@);
            assert(whole.take(0) =~= Seq::<LocByte>::empty());
            assert(old(self).token_receiver.tokens() + Seq::<TokenV>::empty() =~= old(
                self,
            ).token_receiver.tokens());
            assert(pre.emitted@ + Seq::<TokenV>::empty() =~= pre.emitted@);
        }
        let mut cur = loc;
        let mut i: usize = 0;
        while i < buf.len()
            invariant
                i <= buf@.len(),
                buf@.len() <= usize::MAX,
                whole == locate(loc@, buf@),
                whole.len() == buf@.len(),
                loc_room(loc@, buf@.len() as int),
                cur@ == gloc_after_seq(loc@, buf@.take(i as int)),
                pre == *old(self),
                self.token_receiver.wf(),
                self.token_receiver.infallible() == pre.token_receiver.infallible(),
                self.base == pre.base,
                self.log == pre.log,
                (match lex_run(pre.machine(), whole.take(i as int)) {
                    Ok((c2, em)) => self.machine() == c2 && self.token_receiver.tokens()
                        == pre.token_receiver.tokens() + em && self.emitted@ == pre.emitted@ + em,
                    Err(_) => false,
                }),
            decreases buf@.len() - i,
        {
            let ghost ii = i as int;
            let ghost mid = self.machine();
            let ghost emso = self.emitted@.skip(pre.emitted@.len() as int);
            let ghost lb = whole[ii];
            proof {
                crate::loc::lemma_locate_index(loc@, buf@, ii);
                crate::loc::lemma_room_split(loc@, buf@.take(ii), buf@.len() as int);
                assert(lb == (LocByte { loc: cur@, byte: buf@[ii] }));
            }
            let c = buf[i];
            if c >= 0x80u8 {
                proof {
                    let ghost em0 = (match lex_run(pre.machine(), whole.take(ii)) {
                        Ok((c2, em)) => em,
                        Err(_) => Seq::<TokenV>::empty(),
                    });
                    lemma_lex_run_err(
                        pre.machine(),
                        whole,
                        ii,
                        mid,
                        em0,
                        StreamError::NonAscii(cur),
                    );
                }
                return Err(StreamError::NonAscii(cur));
            }
            let ghost stp = lex_step(mid, lb);
            proof {
                match stp {
                    Ok((c2, em2)) => {
                        lemma_lex_mid_step(
                            pre.machine(),
                            whole,
                            ii,
                            mid,
                            (match lex_run(pre.machine(), whole.take(ii)) {
                                Ok((c3, em)) => em,
                                Err(_) => Seq::<TokenV>::empty(),
                            }),
                        );
                    },
                    Err(e) => {
                        lemma_lex_run_err(
                            pre.machine(),
                            whole,
                            ii,
                            mid,
                            (match lex_run(pre.machine(), whole.take(ii)) {
                                Ok((c3, em)) => em,
                                Err(_) => Seq::<TokenV>::empty(),
                            }),
                            e,
                        );
                    },
                }
            }
            match self.state {
                LexState::LineStart => {
                    if c == 0x0au8 {
                        match self.emit(TokenKind::EmptyLine) {
                            Ok(_) => {},
                            Err(e) => {
                                proof {
                                    assert(!pre.token_receiver.infallible());
                                }
                                return Err(e);
                            },
                        }
                    } else if c == 0x23u8 {
                        self.state = LexState::CommentLine;
                    } else if (0x41u8 <= c && c <= 0x5au8) || (0x61u8 <= c && c <= 0x7au8) {
                        self.token_start = cur;
                        self.buf.clear();
                        self.buf.push(c);
                        self.state = LexState::AttributeType;
                        proof {
                            assert(Seq::<u8>::empty().push(c) =~= seq![c]);
                        }
                    } else if 0x30u8 <= c && c <= 0x39u8 {
                        return Err(StreamError::UnexpectedDigit(cur));
                    } else {
                        return Err(StreamError::UnexpectedChar(cur));
                    }
                },
                LexState::CommentLine => {
                    if c == 0x0au8 {
                        self.state = LexState::LineStart;
                    }
                },
                LexState::AttributeType => {
                    if c == 0x3bu8 {
                        return Err(StreamError::UnexpectedSemicolon(cur));
                    } else if (0x41u8 <= c && c <= 0x5au8) || (0x61u8 <= c && c <= 0x7au8) || (
                    0x30u8 <= c && c <= 0x39u8) || c == 0x2du8 || c == 0x5fu8 {
                        if self.buf.len() >= MAX_TYPE_LENGTH {
                            return Err(StreamError::TypeTooLong(cur));
                        }
                        self.buf.push(c);
                    } else if c == 0x3au8 {
                        match self.emit(TokenKind::AttributeType) {
                            Ok(_) => {},
                            Err(e) => {
                                proof {
                                    assert(!pre.token_receiver.infallible());
                                }
                                return Err(e);
                            },
                        }
                        self.state = LexState::ValueColon;
                    } else {
                        return Err(StreamError::UnexpectedChar(cur));
                    }
                },
                LexState::ValueColon => {
                    if is_safe_init_exec(c) {
                        self.token_start = cur;
                        self.buf.clear();
                        self.buf.push(c);
                        self.state = LexState::SafeStringValue;
                        proof {
                            assert(Seq::<u8>::empty().push(c) =~= seq![c]);
                        }
                    } else if c == 0x20u8 {
                        self.state = LexState::WhitespaceBeforeSafe;
                    } else if c == 0x3au8 {
                        self.state = LexState::WhitespaceBeforeBase64;
                    } else if c == 0x0au8 {
                        match self.emit(TokenKind::ValueText) {
                            Ok(_) => {},
                            Err(e) => {
                                proof {
                                    assert(!pre.token_receiver.infallible());
                                }
                                return Err(e);
                            },
                        }
                        match self.emit(TokenKind::ValueFinish) {
                            Ok(_) => {},
                            Err(e) => {
                                proof {
                                    assert(!pre.token_receiver.infallible());
                                }
                                return Err(e);
                            },
                        }
                        self.state = LexState::LineStart;
                    } else if c == 0x3cu8 {
                        return Err(StreamError::UrlValue(cur));
                    } else {
                        return Err(StreamError::UnexpectedChar(cur));
                    }
                },
                LexState::SafeStringValue => {
                    if c == 0x0au8 {
                        match self.emit(TokenKind::ValueText) {
                            Ok(_) => {},
                            Err(e) => {
                                proof {
                                    assert(!pre.token_receiver.infallible());
                                }
                                return Err(e);
                            },
                        }
                        match self.emit(TokenKind::ValueFinish) {
                            Ok(_) => {},
                            Err(e) => {
                                proof {
                                    assert(!pre.token_receiver.infallible());
                                }
                                return Err(e);
                            },
                        }
                        self.state = LexState::LineStart;
                    } else if is_safe_exec(c) {
                        if self.buf.len() == 0 {
                            self.token_start = cur;
                        }
                        self.buf.push(c);
                    } else {
                        return Err(StreamError::UnexpectedChar(cur));
                    }
                },
                LexState::Base64Value => {
                    if c == 0x0au8 {
                        match self.emit(TokenKind::ValueBase64) {
                            Ok(_) => {},
                            Err(e) => {
                                proof {
                                    assert(!pre.token_receiver.infallible());
                                }
                                return Err(e);
                            },
                        }
                        match self.emit(TokenKind::ValueFinish) {
                            Ok(_) => {},
                            Err(e) => {
                                proof {
                                    assert(!pre.token_receiver.infallible());
                                }
                                return Err(e);
                            },
                        }
                        self.state = LexState::LineStart;
                    } else if is_base64_exec(c) {
                        if self.buf.len() == 0 {
                            self.token_start = cur;
                        }
                        self.buf.push(c);
                    } else {
                        return Err(StreamError::UnexpectedChar(cur));
                    }
                },
                LexState::WhitespaceBeforeSafe => {
                    if c == 0x20u8 {
                    } else if is_safe_init_exec(c) {
                        self.token_start = cur;
                        self.buf.clear();
                        self.buf.push(c);
                        self.state = LexState::SafeStringValue;
                        proof {
                            assert(Seq::<u8>::empty().push(c) =~= seq![c]);
                        }
                    } else {
                        return Err(StreamError::UnexpectedChar(cur));
                    }
                },
                LexState::WhitespaceBeforeBase64 => {
                    if c == 0x20u8 {
                    } else if is_base64_exec(c) {
                        self.token_start = cur;
                        self.buf.clear();
                        self.buf.push(c);
                        self.state = LexState::Base64Value;
                        proof {
                            assert(Seq::<u8>::empty().push(c) =~= seq![c]);
                        }
                    } else {
                        return Err(StreamError::UnexpectedChar(cur));
                    }
                },
            }
            proof {
                let em0 = (match lex_run(pre.machine(), whole.take(ii)) {
                    Ok((c3, em)) => em,
                    Err(_) => Seq::<TokenV>::empty(),
                });
                match stp {
                    Ok((c2m, em2)) => {
                        lemma_align(pre.token_receiver.tokens(), em0, em2);
                        lemma_align(pre.emitted@, em0, em2);
                        lemma_align(pre.base@, pre.emitted@ + em0, em2);
                        assert(pre.base@ + (pre.emitted@ + em0) =~= (pre.base@ + pre.emitted@) + (
                        em0));
                        self.emitted@ = pre.emitted@ + (em0 + em2);
                        assert(pre.emitted@ + (em0 + em2) =~= (pre.emitted@ + em0) + em2);
                        assert(pre.token_receiver.tokens() + (em0 + em2)
                            =~= (pre.token_receiver.tokens() + em0) + em2);
                        assert(self.machine() == c2m);
                        assert(self.token_receiver.tokens() == pre.token_receiver.tokens() + (em0
                            + em2));
                        assert(self.emitted@ == pre.emitted@ + (em0 + em2));
                    },
                    Err(_) => {
                        assert(false);
                    },
                }
                crate::loc::lemma_gloc_after_seq_ok(loc@, buf@.take(ii));
                assert(buf@.take(ii + 1).drop_last() =~= buf@.take(ii));
                assert(buf@.take(ii + 1).last() == buf@[ii]);
            }
            cur = cur.after(c);
            i = i + 1;
        }
        proof {
            assert(whole.take(buf@.len() as int) =~= whole);
        }
        match self.state {
            LexState::SafeStringValue => {
                if self.buf.len() > 0 {
                    let ghost mid = self.machine();
                    match self.emit(TokenKind::ValueText) {
                        Ok(_) => {},
                        Err(e) => {
                            proof {
                                assert(!pre.token_receiver.infallible());
                            }
                            return Err(e);
                        },
                    }
                    proof {
                        let em_all = (match lex_run(pre.machine(), whole) {
                            Ok((c3, em)) => em,
                            Err(_) => Seq::<TokenV>::empty(),
                        });
                        let t = tok(TokenKind::ValueText, mid.tstart, mid.seg);
                        assert((pre.token_receiver.tokens() + em_all).push(t)
                            =~= pre.token_receiver.tokens() + em_all + seq![t]);
                        assert((pre.emitted@ + em_all).push(t) =~= pre.emitted@ + em_all
                            + seq![t]);
                        assert(pre.base@ + (pre.emitted@ + em_all + seq![t]) =~= (pre.base@
                            + pre.emitted@ + em_all).push(t));
                        self.emitted@ = pre.emitted@ + em_all + seq![t];
                        assert(pre.base@ + pre.emitted@ + em_all =~= pre.base@ + (pre.emitted@
                            + em_all));
                    }
                } else {
                    proof {
                        let em_all = (match lex_run(pre.machine(), whole) {
                            Ok((c3, em)) => em,
                            Err(_) => Seq::<TokenV>::empty(),
                        });
                        assert(pre.token_receiver.tokens() + em_all + Seq::<TokenV>::empty()
                            =~= pre.token_receiver.tokens() + em_all);
                        assert(pre.emitted@ + em_all + Seq::<TokenV>::empty() =~= pre.emitted@
                            + em_all);
                        assert(pre.base@ + (pre.emitted@ + em_all) =~= (pre.base@ + pre.emitted@)
                            + em_all);
                    }
                }
            },
            LexState::Base64Value => {
                if self.buf.len() > 0 {
                    let ghost mid = self.machine();
                    match self.emit(TokenKind::ValueBase64) {
                        Ok(_) => {},
                        Err(e) => {
                            proof {
                                assert(!pre.token_receiver.infallible());
                            }
                            return Err(e);
                        },
                    }
                    proof {
                        let em_all = (match lex_run(pre.machine(), whole) {
                            Ok((c3, em)) => em,
                            Err(_) => Seq::<TokenV>::empty(),
                        });
                        let t = tok(TokenKind::ValueBase64, mid.tstart, mid.seg);
                        assert((pre.token_receiver.tokens() + em_all).push(t)
                            =~= pre.token_receiver.tokens() + em_all + seq![t]);
                        assert((pre.emitted@ + em_all).push(t) =~= pre.emitted@ + em_all
                            + seq![t]);
                        assert(pre.base@ + (pre.emitted@ + em_all + seq![t]) =~= (pre.base@
                            + pre.emitted@ + em_all).push(t));
                        self.emitted@ = pre.emitted@ + em_all + seq![t];
                        assert(pre.base@ + pre.emitted@ + em_all =~= pre.base@ + (pre.emitted@
                            + em_all));
                    }
                } else {
                    proof {
                        let em_all = (match lex_run(pre.machine(), whole) {
                            Ok((c3, em)) => em,
                            Err(_) => Seq::<TokenV>::empty(),
                        });
                        assert(pre.token_receiver.tokens() + em_all + Seq::<TokenV>::empty()
                            =~= pre.token_receiver.tokens() + em_all);
                        assert(pre.emitted@ + em_all + Seq::<TokenV>::empty() =~= pre.emitted@
                            + em_all);
                        assert(pre.base@ + (pre.emitted@ + em_all) =~= (pre.base@ + pre.emitted@)
                            + em_all);
                    }
                }
            },
            _ => {
                proof {
                    let em_all = (match lex_run(pre.machine(), whole) {
                        Ok((c3, em)) => em,
                        Err(_) => Seq::<TokenV>::empty(),
                    });
                    assert(pre.token_receiver.tokens() + em_all + Seq::<TokenV>::empty()
                        =~= pre.token_receiver.tokens() + em_all);
                    assert(pre.emitted@ + em_all + Seq::<TokenV>::empty() =~= pre.emitted@
                        + em_all);
                    assert(pre.base@ + (pre.emitted@ + em_all) =~= (pre.base@ + pre.emitted@)
                        + em_all);
                }
            },
        }
        proof {
            self.log@ = pre.log@ + whole;
        }
        Ok(buf.len())
    }

    /// End of input: emits the final tokens `lex_eof` prescribes. Succeeds
    /// exactly when the stream does not end inside an attribute type name,
    /// given a receiver that cannot fail.
    fn loc_flush(&mut self, loc: Loc) -> (r: Result<(), StreamError>)
        ensures
            old(self).rec_ok() ==> ((r is Ok) <==> lex_eof(old(self).machine(), loc@) is Ok),
            old(self).machine().st is AttributeType ==> r is Err,
            r is Ok ==> (match lex_eof(old(self).machine(), loc@) {
                Ok(toks) => final(self).token_receiver.tokens()
                    == old(self).token_receiver.tokens() + toks
                    && final(self).emitted@ == old(self).emitted@ + toks
                    && final(self).machine().st is LineStart
                    && final(self).machine().seg == Seq::<u8>::empty()
                    && final(self).base == old(self).base
                    && final(self).rec_ok() == old(self).rec_ok(),
                Err(_) => false,
            }),
    {
        match self.state {
            LexState::LineStart | LexState::CommentLine => {
                match self.emit(TokenKind::EmptyLine) {
                    Ok(_) => {},
                    Err(e) => {
                        return Err(e);
                    },
                }
                proof {
                    let t = tok(
                        TokenKind::EmptyLine,
                        old(self).machine().tstart,
                        old(self).machine().seg,
                    );
                    assert(old(self).token_receiver.tokens().push(t)
                        =~= old(self).token_receiver.tokens() + seq![t]);
                    assert(old(self).base@ + (old(self).emitted@ + seq![t]) =~= (old(self).base@
                        + old(self).emitted@).push(t));
                    self.emitted@ = old(self).emitted@ + seq![t];
                }
            },
            LexState::AttributeType => {
                return Err(StreamError::EofInAttributeType(loc));
            },
            LexState::Base64Value => {
                let ghost mid = self.machine();
                match self.emit(TokenKind::ValueBase64) {
                    Ok(_) => {},
                    Err(e) => {
                        return Err(e);
                    },
                }
                match self.emit(TokenKind::ValueFinish) {
                    Ok(_) => {},
                    Err(e) => {
                        return Err(e);
                    },
                }
                match self.emit(TokenKind::EmptyLine) {
                    Ok(_) => {},
                    Err(e) => {
                        return Err(e);
                    },
                }
                proof {
                    let t1 = tok(TokenKind::ValueBase64, mid.tstart, mid.seg);
                    let t2 = tok(TokenKind::ValueFinish, mid.tstart, Seq::empty());
                    let t3 = tok(TokenKind::EmptyLine, mid.tstart, Seq::empty());
                    assert(old(self).token_receiver.tokens().push(t1).push(t2).push(t3)
                        =~= old(self).token_receiver.tokens() + seq![t1, t2, t3]);
                    assert(old(self).base@ + (old(self).emitted@ + seq![t1, t2, t3]) =~= ((old(
                        self,
                    ).base@ + old(self).emitted@).push(t1).push(t2)).push(t3));
                    self.emitted@ = old(self).emitted@ + seq![t1, t2, t3];
                }
            },
            _ => {
                let ghost mid = self.machine();
                match self.emit(TokenKind::ValueText) {
                    Ok(_) => {},
                    Err(e) => {
                        return Err(e);
                    },
                }
                match self.emit(TokenKind::ValueFinish) {
                    Ok(_) => {},
                    Err(e) => {
                        return Err(e);
                    },
                }
                match self.emit(TokenKind::EmptyLine) {
                    Ok(_) => {},
                    Err(e) => {
                        return Err(e);
                    },
                }
                proof {
                    let t1 = tok(TokenKind::ValueText, mid.tstart, mid.seg);
                    let t2 = tok(TokenKind::ValueFinish, mid.tstart, Seq::empty());
                    let t3 = tok(TokenKind::EmptyLine, mid.tstart, Seq::empty());
                    assert(old(self).token_receiver.tokens().push(t1).push(t2).push(t3)
                        =~= old(self).token_receiver.tokens() + seq![t1, t2, t3]);
                    assert(old(self).base@ + (old(self).emitted@ + seq![t1, t2, t3]) =~= ((old(
                        self,
                    ).base@ + old(self).emitted@).push(t1).push(t2)).push(t3));
                    self.emitted@ = old(self).emitted@ + seq![t1, t2, t3];
                }
            },
        }
        self.state = LexState::LineStart;
        Ok(())
    }
}

/// Pushing up to two tokens onto a concatenation, seen both ways.
proof fn lemma_align(b: Seq<TokenV>, d: Seq<TokenV>, em2: Seq<TokenV>)
    requires
        em2.len() <= 2,
    ensures
        em2.len() == 0 ==> b + (d + em2) == b + d,
        em2.len() == 1 ==> b + (d + em2) == (b + d).push(em2[0]),
        em2.len() == 2 ==> b + (d + em2) == (b + d).push(em2[0]).push(em2[1]),
{
    if em2.len() == 0 {
        assert(b + (d + em2) =~= b + d);
    } else if em2.len() == 1 {
        assert(b + (d + em2) =~= (b + d).push(em2[0]));
    } else {
        assert(b + (d + em2) =~= (b + d).push(em2[0]).push(em2[1]));
    }
}

/// Consuming attribute-name bytes accumulates them and emits nothing.
pub proof fn lemma_lex_attr_chars(lc: LexCore, l: GLoc, s: Seq<u8>)
    requires
        lc.st is AttributeType,
        lc.seg.len() + s.len() <= MAX_TYPE_LENGTH,
        forall|i: int| 0 <= i < s.len() ==> is_attr_char(#[trigger] s[i]),
    ensures
        lex_run(lc, locate(l, s)) == Ok::<(LexCore, Seq<TokenV>), StreamError>(
            (LexCore { seg: lc.seg + s, ..lc }, Seq::empty()),
        ),
    decreases s.len(),
{
    if s.len() == 0 {
        assert(locate(l, s).len() == 0) by {
            crate::loc::lemma_locate_len(l, s);
        }
        assert(lc.seg + s =~= lc.seg);
    } else {
        crate::loc::lemma_locate_len(l, s);
        let lb = locate(l, s)[0];
        assert(lb == (LocByte { loc: l, byte: s[0] })) by {
            crate::loc::lemma_locate_index(l, s, 0);
            assert(s.take(0) =~= Seq::<u8>::empty());
        }
        assert(is_attr_char(s[0]));
        assert(s[0] < 0x80u8);
        let c2 = LexCore { seg: lc.seg.push(s[0]), ..lc };
        lemma_lex_attr_chars(c2, gloc_after(l, s[0]), s.drop_first());
        assert(locate(l, s).drop_first() =~= locate(gloc_after(l, s[0]), s.drop_first())) by {
            crate::loc::lemma_locate_drop_first(l, s);
        }
        assert(c2.seg + s.drop_first() =~= lc.seg + s);
        assert(Seq::<TokenV>::empty() + Seq::<TokenV>::empty() =~= Seq::<TokenV>::empty());
    }
}

/// Consuming safe value bytes accumulates them and emits nothing.
pub proof fn lemma_lex_safe_chars(lc: LexCore, l: GLoc, s: Seq<u8>)
    requires
        lc.st is SafeStringValue,
        lc.seg.len() > 0,
        forall|i: int| 0 <= i < s.len() ==> is_safe_char(#[trigger] s[i]),
    ensures
        lex_run(lc, locate(l, s)) == Ok::<(LexCore, Seq<TokenV>), StreamError>(
            (LexCore { seg: lc.seg + s, ..lc }, Seq::empty()),
        ),
    decreases s.len(),
{
    if s.len() == 0 {
        assert(locate(l, s).len() == 0) by {
            crate::loc::lemma_locate_len(l, s);
        }
        assert(lc.seg + s =~= lc.seg);
    } else {
        crate::loc::lemma_locate_len(l, s);
        assert(locate(l, s)[0] == (LocByte { loc: l, byte: s[0] })) by {
            crate::loc::lemma_locate_index(l, s, 0);
            assert(s.take(0) =~= Seq::<u8>::empty());
        }
        assert(is_safe_char(s[0]));
        assert(s[0] != 0x0au8);
        assert(s[0] < 0x80u8);
        let c2 = LexCore { seg: lc.seg.push(s[0]), ..lc };
        lemma_lex_safe_chars(c2, gloc_after(l, s[0]), s.drop_first());
        assert(locate(l, s).drop_first() =~= locate(gloc_after(l, s[0]), s.drop_first())) by {
            crate::loc::lemma_locate_drop_first(l, s);
        }
        assert(c2.seg + s.drop_first() =~= lc.seg + s);
        assert(Seq::<TokenV>::empty() + Seq::<TokenV>::empty() =~= Seq::<TokenV>::empty());
    }
}

/// Consuming base64 digits accumulates them and emits nothing.
pub proof fn lemma_lex_b64_chars(lc: LexCore, l: GLoc, s: Seq<u8>)
    requires
        lc.st is Base64Value,
        lc.seg.len() > 0,
        forall|i: int| 0 <= i < s.len() ==> is_base64_char(#[trigger] s[i]),
    ensures
        lex_run(lc, locate(l, s)) == Ok::<(LexCore, Seq<TokenV>), StreamError>(
            (LexCore { seg: lc.seg + s, ..lc }, Seq::empty()),
        ),
    decreases s.len(),
{
    if s.len() == 0 {
        assert(locate(l, s).len() == 0) by {
            crate::loc::lemma_locate_len(l, s);
        }
        assert(lc.seg + s =~= lc.seg);
    } else {
        crate::loc::lemma_locate_len(l, s);
        assert(locate(l, s)[0] == (LocByte { loc: l, byte: s[0] })) by {
            crate::loc::lemma_locate_index(l, s, 0);
            assert(s.take(0) =~= Seq::<u8>::empty());
        }
        assert(is_base64_char(s[0]));
        assert(s[0] != 0x0au8);
        assert(s[0] < 0x80u8);
        let c2 = LexCore { seg: lc.seg.push(s[0]), ..lc };
        lemma_lex_b64_chars(c2, gloc_after(l, s[0]), s.drop_first());
        assert(locate(l, s).drop_first() =~= locate(gloc_after(l, s[0]), s.drop_first())) by {
            crate::loc::lemma_locate_drop_first(l, s);
        }
        assert(c2.seg + s.drop_first() =~= lc.seg + s);
        assert(Seq::<TokenV>::empty() + Seq::<TokenV>::empty() =~= Seq::<TokenV>::empty());
    }
}

/// One byte through the lexer.
pub proof fn lemma_lex_one(lc: LexCore, l: GLoc, c: u8)
    requires
        lex_step(lc, LocByte { loc: l, byte: c }) is Ok,
    ensures
        lex_run(lc, locate(l, seq![c])) == (match lex_step(lc, LocByte { loc: l, byte: c }) {
            Ok((c2, em)) => Ok::<(LexCore, Seq<TokenV>), StreamError>((c2, em)),
            Err(e) => Err(e),
        }),
{
    crate::loc::lemma_locate_singleton(l, seq![c]);
    assert(locate(l, seq![c]) =~= seq![LocByte { loc: l, byte: c }]);
    assert(seq![LocByte { loc: l, byte: c }].drop_first() =~= Seq::<LocByte>::empty());
    match lex_step(lc, LocByte { loc: l, byte: c }) {
        Ok((c2, em)) => {
            assert(lex_run(c2, Seq::<LocByte>::empty()) == Ok::<
                (LexCore, Seq<TokenV>),
                StreamError,
            >((c2, Seq::empty())));
            assert(em + Seq::<TokenV>::empty() =~= em);
        },
        Err(_) => {},
    }
}

} // verus!
