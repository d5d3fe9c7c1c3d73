use vstd::prelude::*;

verus! {

/// Mathematical view of a `Loc`: unbounded line, column and offset.
pub struct GLoc {
    pub line: int,
    pub column: int,
    pub offset: int,
}

/// A position in a byte stream. `line` and `column` are 1-based, `offset` is
/// the 0-based byte offset from the start of the stream.
#[derive(PartialEq, Eq, Structural, Debug, Clone, Copy)]
pub struct Loc {
    pub line: usize,
    pub column: usize,
    pub offset: usize,
}

impl View for Loc {
    type V = GLoc;

    open spec fn view(&self) -> GLoc {
        GLoc { line: self.line as int, column: self.column as int, offset: self.offset as int }
    }
}

/// The position immediately after reading byte `b` at position `l`: a newline
/// starts the next line at column 1, any other byte advances the column; the
/// offset always advances by one.
pub open spec fn gloc_after(l: GLoc, b: u8) -> GLoc {
    if b == 0x0au8 {
        GLoc { line: l.line + 1, column: 1, offset: l.offset + 1 }
    } else {
        GLoc { line: l.line, column: l.column + 1, offset: l.offset + 1 }
    }
}

/// The position after reading all of `s` starting from `l`.
pub open spec fn gloc_after_seq(l: GLoc, s: Seq<u8>) -> GLoc
    decreases s.len(),
{
    if s.len() == 0 {
        l
    } else {
        gloc_after(gloc_after_seq(l, s.drop_last()), s.last())
    }
}

/// A byte annotated with the position it occupied in the original input.
pub struct LocByte {
    pub loc: GLoc,
    pub byte: u8,
}

/// `s` annotated with consecutive positions starting at `l`.
pub open spec fn locate(l: GLoc, s: Seq<u8>) -> Seq<LocByte>
    decreases s.len(),
{
    if s.len() == 0 {
        Seq::empty()
    } else {
        locate(l, s.drop_last()).push(
            LocByte { loc: gloc_after_seq(l, s.drop_last()), byte: s.last() },
        )
    }
}

/// The bytes of a located sequence, without their positions.
pub open spec fn bytes_of(s: Seq<LocByte>) -> Seq<u8> {
    s.map_values(|lb: LocByte| lb.byte)
}

/// A position that can arise from reading a stream: line and column are
/// 1-based and can never run ahead of the offset.
pub open spec fn gloc_ok(l: GLoc) -> bool {
    &&& 1 <= l.line
    &&& l.line <= l.offset + 1
    &&& 1 <= l.column
    &&& l.column <= l.offset + 1
    &&& 0 <= l.offset
}

/// There is room to advance a well-formed position by `n` bytes without
/// overflowing any of the three `usize` fields.
pub open spec fn loc_room(l: GLoc, n: int) -> bool {
    &&& gloc_ok(l)
    &&& l.offset + n < usize::MAX
}

pub proof fn lemma_gloc_after_seq_ok(l: GLoc, s: Seq<u8>)
    requires
        gloc_ok(l),
    ensures
        gloc_ok(gloc_after_seq(l, s)),
        gloc_after_seq(l, s).offset == l.offset + s.len(),
    decreases s.len(),
{
    if s.len() > 0 {
        lemma_gloc_after_seq_ok(l, s.drop_last());
    }
}

pub proof fn lemma_room_split(l: GLoc, s: Seq<u8>, n: int)
    requires
        loc_room(l, n),
        s.len() <= n,
    ensures
        loc_room(gloc_after_seq(l, s), n - s.len()),
    decreases s.len(),
{
    lemma_gloc_after_seq_ok(l, s);
}

pub proof fn lemma_gloc_after_seq_append(l: GLoc, a: Seq<u8>, b: Seq<u8>)
    ensures
        gloc_after_seq(l, a + b) == gloc_after_seq(gloc_after_seq(l, a), b),
    decreases b.len(),
{
    if b.len() == 0 {
        assert(a + b =~= a);
    } else {
        lemma_gloc_after_seq_append(l, a, b.drop_last());
        assert((a + b).drop_last() =~= a + b.drop_last());
        assert((a + b).last() == b.last());
    }
}

pub proof fn lemma_locate_append(l: GLoc, a: Seq<u8>, b: Seq<u8>)
    ensures
        locate(l, a + b) == locate(l, a) + locate(gloc_after_seq(l, a), b),
    decreases b.len(),
{
    if b.len() == 0 {
        assert(a + b =~= a);
        assert(locate(l, a + b) =~= locate(l, a) + locate(gloc_after_seq(l, a), b));
    } else {
        lemma_locate_append(l, a, b.drop_last());
        assert((a + b).drop_last() =~= a + b.drop_last());
        lemma_gloc_after_seq_append(l, a, b.drop_last());
        assert(locate(l, a + b) =~= locate(l, a) + locate(gloc_after_seq(l, a), b));
    }
}

pub proof fn lemma_locate_singleton(l: GLoc, s: Seq<u8>)
    requires
        s.len() == 1,
    ensures
        locate(l, s) == seq![LocByte { loc: l, byte: s[0] }],
{
    assert(s.drop_last() =~= Seq::<u8>::empty());
    assert(locate(l, s.drop_last()) =~= Seq::<LocByte>::empty());
    assert(gloc_after_seq(l, s.drop_last()) == l);
    assert(s.last() == s[0]);
    assert(locate(l, s) =~= seq![LocByte { loc: l, byte: s[0] }]);
}

pub proof fn lemma_locate_len(l: GLoc, s: Seq<u8>)
    ensures
        locate(l, s).len() == s.len(),
    decreases s.len(),
{
    if s.len() > 0 {
        lemma_locate_len(l, s.drop_last());
    }
}

pub proof fn lemma_locate_index(l: GLoc, s: Seq<u8>, i: int)
    requires
        0 <= i < s.len(),
    ensures
        locate(l, s).len() == s.len(),
        locate(l, s)[i] == (LocByte { loc: gloc_after_seq(l, s.take(i)), byte: s[i] }),
    decreases s.len(),
{
    lemma_locate_len(l, s);
    if i == s.len() - 1 {
        assert(s.take(i) =~= s.drop_last());
    } else {
        lemma_locate_index(l, s.drop_last(), i);
        assert(s.drop_last().take(i) =~= s.take(i));
    }
}

pub proof fn lemma_bytes_of_append(a: Seq<LocByte>, b: Seq<LocByte>)
    ensures
        bytes_of(a + b) == bytes_of(a) + bytes_of(b),
{
    assert(bytes_of(a + b) =~= bytes_of(a) + bytes_of(b));
}

/// `a` appears inside `b` in order: every element of `a` is an element of
/// `b`, and they come in the same order.
pub open spec fn subseq_of(a: Seq<LocByte>, b: Seq<LocByte>) -> bool
    decreases a.len() + b.len(),
{
    if a.len() == 0 {
        true
    } else if b.len() == 0 {
        false
    } else if a[0] == b[0] {
        subseq_of(a.drop_first(), b.drop_first())
    } else {
        subseq_of(a, b.drop_first())
    }
}

pub proof fn lemma_subseq_drop_first(a: Seq<LocByte>, b: Seq<LocByte>)
    requires
        subseq_of(a, b),
        a.len() > 0,
    ensures
        subseq_of(a.drop_first(), b),
    decreases b.len(), 0int,
{
    if b.len() > 0 {
        if a[0] == b[0] {
            lemma_subseq_cons_right(a.drop_first(), b.drop_first(), b[0]);
            assert(seq![b[0]] + b.drop_first() =~= b);
        } else {
            lemma_subseq_drop_first(a, b.drop_first());
            if a.len() - 1 > 0 && a.drop_first()[0] == b[0] {
                lemma_subseq_cons_right(a.drop_first(), b.drop_first(), b[0]);
                assert(seq![b[0]] + b.drop_first() =~= b);
            }
        }
    }
}

pub proof fn lemma_subseq_cons_right(a: Seq<LocByte>, b: Seq<LocByte>, x: LocByte)
    requires
        subseq_of(a, b),
    ensures
        subseq_of(a, seq![x] + b),
    decreases b.len(), 1int,
{
    let c = seq![x] + b;
    assert(c.drop_first() =~= b);
    if a.len() == 0 {
    } else if a[0] == x {
        lemma_subseq_drop_first(a, b);
    } else {
    }
}

/// Peeling the first located byte.
pub proof fn lemma_locate_drop_first(l: GLoc, s: Seq<u8>)
    requires
        s.len() > 0,
    ensures
        locate(l, s).drop_first() == locate(gloc_after(l, s[0]), s.drop_first()),
        locate(l, s)[0] == (LocByte { loc: l, byte: s[0] }),
{
    lemma_locate_len(l, s);
    lemma_locate_index(l, s, 0);
    assert(s.take(0) =~= Seq::<u8>::empty());
    assert forall|i: int| 0 <= i < s.len() - 1 implies locate(l, s).drop_first()[i] == locate(
        gloc_after(l, s[0]),
        s.drop_first(),
    )[i] by {
        lemma_locate_index(l, s, i + 1);
        lemma_locate_index(gloc_after(l, s[0]), s.drop_first(), i);
        assert(s.take(i + 1) =~= seq![s[0]] + s.drop_first().take(i));
        lemma_gloc_after_seq_append(l, seq![s[0]], s.drop_first().take(i));
        assert(seq![s[0]].drop_last() =~= Seq::<u8>::empty());
        assert(gloc_after_seq(l, seq![s[0]]) == gloc_after(l, s[0]));
        assert(s.drop_first()[i] == s[i + 1]);
    }
    lemma_locate_len(gloc_after(l, s[0]), s.drop_first());
    assert(locate(l, s).drop_first() =~= locate(gloc_after(l, s[0]), s.drop_first()));
}

pub proof fn lemma_bytes_of_locate(l: GLoc, s: Seq<u8>)
    ensures
        bytes_of(locate(l, s)) == s,
    decreases s.len(),
{
    lemma_locate_len(l, s);
    assert forall|i: int| 0 <= i < s.len() implies bytes_of(locate(l, s))[i] == s[i] by {
        lemma_locate_index(l, s, i);
    }
    assert(bytes_of(locate(l, s)) =~= s);
}

impl Loc {
    /// The starting position: line 1, column 1, offset 0.
    pub fn new() -> (r: Loc)
        ensures
            r@ == (GLoc { line: 1, column: 1, offset: 0 }),
    {
        Loc { line: 1, column: 1, offset: 0 }
    }

    /// The position of the byte following a byte `c` read at `self`.
    pub fn after(self, c: u8) -> (r: Loc)
        requires
            loc_room(self@, 1),
        ensures
            r@ == gloc_after(self@, c),
            loc_room(self@, 1),
    {
        match c {
            0x0au8 => Loc { line: self.line + 1, column: 1, offset: self.offset + 1 },
            _ => Loc { line: self.line, column: self.column + 1, offset: self.offset + 1 },
        }
    }
}

impl Default for Loc {
    fn default() -> (r: Loc)
        ensures
            r@ == (GLoc { line: 1, column: 1, offset: 0 }),
    {
        Loc::new()
    }
}

/// A sink for located bytes. `taken()` is the log of every located byte the
/// sink has accepted so far; a stage that transforms bytes relates its own
/// `taken()` to the `taken()` of its inner sink through its well-formedness
/// predicate.
pub trait LocWrite: Sized {
    spec fn wf(&self) -> bool;

    spec fn taken(&self) -> Seq<LocByte>;

    /// Least offset at which the next write may begin. Writes carry
    /// monotonically non-decreasing positions, so a sink may rely on a new
    /// buffer starting at or after everything it has absorbed.
    spec fn min_start(&self) -> int;

    /// True when `loc_write` and `loc_flush` can never fail on this value.
    spec fn infallible(&self) -> bool;

    /// Whether the values before and after a successful `loc_flush` stand in
    /// this implementation's end-of-stream relation.
    spec fn flush_rel(&self, pre: Self) -> bool;

    fn loc_write(&mut self, loc: Loc, buf: &[u8]) -> (r: Result<usize, StreamError>)
        requires
            old(self).wf(),
            loc_room(loc@, buf@.len() as int),
            old(self).min_start() <= loc@.offset,
        ensures
            r is Ok ==> r->Ok_0 == buf@.len() && final(self).wf() && final(self).taken()
                == old(self).taken() + locate(loc@, buf@) && final(self).infallible() == old(
                self,
            ).infallible() && final(self).min_start() <= loc@.offset + buf@.len(),
            old(self).infallible() ==> r is Ok,
    ;

    fn loc_flush(&mut self, loc: Loc) -> (r: Result<(), StreamError>)
        requires
            old(self).wf(),
        ensures
            r is Ok ==> final(self).wf() && final(self).infallible() == old(self).infallible()
                && final(self).flush_rel(*old(self)),
            old(self).infallible() ==> r is Ok,
    ;
}

/// An error raised by some stage of a byte pipeline, or reported by the sink
/// it feeds.
#[derive(PartialEq, Eq, Structural, Debug, Clone, Copy)]
pub enum StreamError {
    /// `Skipper::shift` was called after the end of the buffer.
    ShiftAtEnd,
    /// A pending skip region grew beyond the largest carryable prefix.
    SkipTooLong,
    /// `Skipper::begin_skip` was called while a skip was already active.
    BeginSkipWhileSkipping,
    /// `Skipper::end_skip` was called with no skip active.
    EndSkipWhileWriting,
    /// The lexer met a byte outside the 7-bit ASCII range.
    NonAscii(Loc),
    /// The lexer met a byte that no rule of the LDIF grammar accepts here.
    UnexpectedChar(Loc),
    /// A digit opened an attribute type name (OID forms are not supported).
    UnexpectedDigit(Loc),
    /// A semicolon followed an attribute type name (options are not supported).
    UnexpectedSemicolon(Loc),
    /// A `<` opened a value (URL values are not supported).
    UrlValue(Loc),
    /// An attribute type name ran past the maximum accepted length.
    TypeTooLong(Loc),
    /// The input ended in the middle of an attribute type name.
    EofInAttributeType(Loc),
    /// The streaming base64 decoder met a byte that cannot continue a group.
    Base64Char(u8),
    /// The streaming base64 decoder was flushed in the middle of a group.
    Base64Eof,
}

/// Terminal sink: collects the bytes of every write into an owned buffer,
/// ignoring the positions. It never fails.
pub struct LocWriteWrapper {
    pub data: Vec<u8>,
    pub pre: Ghost<Seq<u8>>,
    pub log: Ghost<Seq<LocByte>>,
}

impl LocWriteWrapper {
    pub fn new(inner: Vec<u8>) -> (r: LocWriteWrapper)
        ensures
            r.wf(),
            r.taken() == Seq::<LocByte>::empty(),
            r.infallible(),
            r@ == inner@,
            r.pre@ == inner@,
    {
        let ghost pv = inner@;
        LocWriteWrapper { data: inner, pre: Ghost(pv), log: Ghost(Seq::empty()) }
    }

    pub fn get_ref(&self) -> (r: &Vec<u8>)
        ensures
            r@ == self@,
    {
        &self.data
    }

    pub fn into_inner(self) -> (r: Vec<u8>)
        ensures
            r@ == self@,
    {
        self.data
    }
}

impl View for LocWriteWrapper {
    type V = Seq<u8>;

    open spec fn view(&self) -> Seq<u8> {
        self.data@
    }
}

impl LocWrite for LocWriteWrapper {
    open spec fn wf(&self) -> bool {
        self.data@ == self.pre@ + bytes_of(self.log@)
    }

    open spec fn taken(&self) -> Seq<LocByte> {
        self.log@
    }

    open spec fn infallible(&self) -> bool {
        true
    }

    open spec fn min_start(&self) -> int {
        0
    }

    open spec fn flush_rel(&self, pre: Self) -> bool {
        self == pre
    }

    fn loc_write(&mut self, loc: Loc, buf: &[u8]) -> (r: Result<usize, StreamError>)
        ensures
            r is Ok,
            final(self)@ == old(self)@ + buf@,
    {
        let ghost pre = self.data@;
        let mut i: usize = 0;
        while i < buf.len()
            invariant
                i <= buf.len(),
                self.data@ == pre + buf@.take(i as int),
                self.log@ == old(self).log@,
                self.pre@ == old(self).pre@,
            decreases buf.len() - i,
        {
            self.data.push(buf[i]);
            assert(pre + buf@.take(i as int) + seq![buf@[i as int]] =~= pre + buf@.take(
                i + 1 as int,
            ));
            i = i + 1;
        }
        assert(buf@.take(buf@.len() as int) =~= buf@);
        proof {
            self.log@ = self.log@ + locate(loc@, buf@);
            lemma_bytes_of_locate(loc@, buf@);
            assert(bytes_of(self.log@) =~= bytes_of(old(self).log@) + buf@);
            assert(self.pre@ + bytes_of(self.log@) =~= (self.pre@ + bytes_of(old(self).log@))
                + buf@);
        }
        Ok(buf.len())
    }

    fn loc_flush(&mut self, loc: Loc) -> (r: Result<(), StreamError>)
        ensures
            r is Ok,
            *final(self) == *old(self),
    {
        Ok(())
    }
}

/// Test and diagnostic sink: records each write as one `(position, bytes)`
/// event. It never fails.
pub struct LocEvents {
    pub events: Vec<(Loc, Vec<u8>)>,
    pub log: Ghost<Seq<LocByte>>,
}

impl LocEvents {
    pub fn new() -> (r: LocEvents)
        ensures
            r.wf(),
            r.taken() == Seq::<LocByte>::empty(),
            r.infallible(),
            r.events@.len() == 0,
    {
        LocEvents { events: Vec::new(), log: Ghost(Seq::empty()) }
    }

    pub fn get_ref(&self) -> (r: &Vec<(Loc, Vec<u8>)>)
        ensures
            r == self.events,
    {
        &self.events
    }

    pub fn into_inner(self) -> (r: Vec<(Loc, Vec<u8>)>)
        ensures
            r == self.events,
    {
        self.events
    }
}

impl LocWrite for LocEvents {
    open spec fn wf(&self) -> bool {
        true
    }

    open spec fn taken(&self) -> Seq<LocByte> {
        self.log@
    }

    open spec fn infallible(&self) -> bool {
        true
    }

    open spec fn min_start(&self) -> int {
        0
    }

    open spec fn flush_rel(&self, pre: Self) -> bool {
        self == pre
    }

    fn loc_write(&mut self, loc: Loc, buf: &[u8]) -> (r: Result<usize, StreamError>)
        ensures
            r is Ok,
            final(self).events@.len() == old(self).events@.len() + 1,
            final(self).events@.last().0 == loc,
            final(self).events@.last().1@ == buf@,
    {
        let mut copy: Vec<u8> = Vec::new();
        let mut i: usize = 0;
        while i < buf.len()
            invariant
                i <= buf@.len(),
                copy@ == buf@.take(i as int),
            decreases buf@.len() - i,
        {
            copy.push(buf[i]);
            assert(buf@.take(i as int).push(buf@[i as int]) =~= buf@.take(i as int + 1));
            i = i + 1;
        }
        assert(buf@.take(buf@.len() as int) =~= buf@);
        self.events.push((loc, copy));
        proof {
            self.log@ = self.log@ + locate(loc@, buf@);
        }
        Ok(buf.len())
    }

    fn loc_flush(&mut self, loc: Loc) -> (r: Result<(), StreamError>)
        ensures
            r is Ok,
            *final(self) == *old(self),
    {
        Ok(())
    }
}

/// Adapts a located sink to a plain byte-stream producer by keeping the
/// running position itself.
pub struct WriteLocWrapper<LW: LocWrite> {
    pub inner: LW,
    pub loc: Loc,
}

impl<LW: LocWrite> WriteLocWrapper<LW> {
    pub fn new(inner: LW) -> (r: WriteLocWrapper<LW>)
        ensures
            r.inner == inner,
            r.loc@ == (GLoc { line: 1, column: 1, offset: 0 }),
    {
        WriteLocWrapper { inner, loc: Loc::new() }
    }

    pub fn get_ref(&self) -> (r: &LW)
        ensures
            r == self.inner,
    {
        &self.inner
    }

    pub fn into_inner(self) -> (r: LW)
        ensures
            r == self.inner,
    {
        self.inner
    }

    /// Pushes a buffer at the running position and advances it.
    pub fn write(&mut self, buf: &[u8]) -> (r: Result<usize, StreamError>)
        requires
            old(self).inner.wf(),
            loc_room(old(self).loc@, buf@.len() as int),
            old(self).inner.min_start() <= old(self).loc@.offset,
        ensures
            r is Ok ==> final(self).inner.wf() && final(self).inner.taken() == old(
                self,
            ).inner.taken() + locate(old(self).loc@, buf@) && final(self).loc@ == gloc_after_seq(
                old(self).loc@,
                buf@,
            ),
            old(self).inner.infallible() ==> r is Ok,
    {
        let ghost l0 = self.loc@;
        match self.inner.loc_write(self.loc, buf) {
            Ok(_) => {},
            Err(e) => {
                return Err(e);
            },
        }
        let ghost ia = self.inner;
        let mut i: usize = 0;
        proof {
            assert(buf@.take(0) =~= Seq::<u8>::empty());
        }
        while i < buf.len()
            invariant
                i <= buf@.len(),
                loc_room(l0, buf@.len() as int),
                self.loc@ == gloc_after_seq(l0, buf@.take(i as int)),
                self.inner == ia,
                ia.wf(),
                ia.taken() == old(self).inner.taken() + locate(l0, buf@),
            decreases buf@.len() - i,
        {
            proof {
                lemma_room_split(l0, buf@.take(i as int), buf@.len() as int);
                assert(buf@.take(i as int + 1).drop_last() =~= buf@.take(i as int));
                assert(buf@.take(i as int + 1).last() == buf@[i as int]);
            }
            self.loc = self.loc.after(buf[i]);
            i = i + 1;
        }
        proof {
            assert(buf@.take(buf@.len() as int) =~= buf@);
        }
        Ok(buf.len())
    }

    /// Signals end of input to the inner sink.
    pub fn flush(&mut self) -> (r: Result<(), StreamError>)
        requires
            old(self).inner.wf(),
        ensures
            r is Ok ==> final(self).inner.wf() && final(self).inner.flush_rel(old(self).inner),
            old(self).inner.infallible() ==> r is Ok,
    {
        match self.inner.loc_flush(self.loc) {
            Ok(_) => Ok(()),
            Err(e) => Err(e),
        }
    }
}

} // verus!
