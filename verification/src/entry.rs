use vstd::prelude::*;

use crate::base64::{dec_run, enc_output, enc_run, DecRun, DecodePhase, DecodeState,
    DecodeWriter, EncodeWriter};
use crate::lexer::{
    is_alpha, is_attr_char, is_base64_char, is_safe_char, is_safe_init_char, lemma_lex_append,
    lemma_lex_attr_chars, lemma_lex_b64_chars, lemma_lex_one, lemma_lex_safe_chars, lex_run,
    lex_step, tok, LexCore, LexState, Token, TokenKind, TokenV, WriteToken, MAX_TYPE_LENGTH,
};
use crate::loc::{gloc_after_seq, locate, GLoc, LocByte};
use crate::loc::StreamError;
use vstd::string::StringSliceAdditionalSpecFns;

verus! {

/// ASCII lowercase of one byte.
pub open spec fn lower_byte(c: u8) -> u8 {
    if 0x41u8 <= c <= 0x5au8 {
        (c + 32) as u8
    } else {
        c
    }
}

/// ASCII lowercase of a byte string.
pub open spec fn lower_bytes(s: Seq<u8>) -> Seq<u8> {
    s.map_values(|c: u8| lower_byte(c))
}

/// Lowercases a byte string.
pub fn to_lower(v: &[u8]) -> (r: Vec<u8>)
    ensures
        r@ == lower_bytes(v@),
{
    let mut out: Vec<u8> = Vec::new();
    let mut i: usize = 0;
    proof {
        assert(out@ =~= lower_bytes(v@.take(0)));
    }
    while i < v.len()
        invariant
            i <= v@.len(),
            out@ == lower_bytes(v@.take(i as int)),
        decreases v@.len() - i,
    {
        let c = v[i];
        if 0x41u8 <= c && c <= 0x5au8 {
            out.push(c + 32);
        } else {
            out.push(c);
        }
        assert(out@ =~= lower_bytes(v@.take(i as int + 1)));
        i = i + 1;
    }
    assert(v@.take(v@.len() as int) =~= v@);
    out
}

/// Equality of two byte slices.
pub fn bytes_eq(a: &[u8], b: &[u8]) -> (r: bool)
    ensures
        r == (a@ == b@),
{
    if a.len() != b.len() {
        proof {
            assert(a@.len() != b@.len());
        }
        return false;
    }
    let mut i: usize = 0;
    while i < a.len()
        invariant
            i <= a@.len(),
            a@.len() == b@.len(),
            a@.take(i as int) == b@.take(i as int),
        decreases a@.len() - i,
    {
        if a[i] != b[i] {
            proof {
                assert(a@[i as int] != b@[i as int]);
            }
            return false;
        }
        assert(a@.take(i as int + 1) =~= a@.take(i as int).push(a@[i as int]));
        assert(b@.take(i as int + 1) =~= b@.take(i as int).push(b@[i as int]));
        i = i + 1;
    }
    proof {
        assert(a@.take(a@.len() as int) =~= a@);
        assert(b@.take(b@.len() as int) =~= b@);
    }
    true
}

/// One attribute of an entry, in the contracts' view.
pub struct AttrV {
    pub name: Seq<u8>,
    pub lower: Seq<u8>,
    pub values: Seq<Seq<u8>>,
}

/// An attribute type name in its original case together with its lowercase
/// form.
pub struct AttributeType {
    pub name: Vec<u8>,
    pub lowercase: Vec<u8>,
}

/// One attribute of an entry: its display name, its lowercase lookup key and
/// its values in input order.
pub struct EntryAttr {
    pub name: Vec<u8>,
    pub lowercase: Vec<u8>,
    pub values: Vec<Vec<u8>>,
}

impl View for EntryAttr {
    type V = AttrV;

    open spec fn view(&self) -> AttrV {
        AttrV {
            name: self.name@,
            lower: self.lowercase@,
            values: self.values@.map_values(|v: Vec<u8>| v@),
        }
    }
}

/// One LDAP record: attribute names mapped, case-insensitively, to ordered
/// value lists. Insertion order of first appearance is kept.
pub struct Entry {
    pub attrs: Vec<EntryAttr>,
}

impl View for Entry {
    type V = Seq<AttrV>;

    open spec fn view(&self) -> Seq<AttrV> {
        self.attrs@.map_values(|a: EntryAttr| a@)
    }
}

/// The index of the attribute with this lowercase key, if any.
pub open spec fn spec_find(e: Seq<AttrV>, key: Seq<u8>) -> Option<int>
    decreases e.len(),
{
    if e.len() == 0 {
        None
    } else if e[0].lower == key {
        Some(0)
    } else {
        match spec_find(e.drop_first(), key) {
            Some(i) => Some(i + 1),
            None => None,
        }
    }
}

/// The values stored under this lowercase key, or the empty list.
pub open spec fn spec_values(e: Seq<AttrV>, key: Seq<u8>) -> Seq<Seq<u8>> {
    match spec_find(e, key) {
        Some(i) => e[i].values,
        None => Seq::empty(),
    }
}

impl Entry {
    pub fn new() -> (r: Entry)
        ensures
            r@ == Seq::<AttrV>::empty(),
    {
        let r = Entry { attrs: Vec::new() };
        proof {
            assert(r@ =~= Seq::<AttrV>::empty());
        }
        r
    }

    /// Appends a value under the attribute name, creating the attribute at
    /// the end of the order on first sight. Lookup is by lowercase.
    pub fn add_value(&mut self, name: &[u8], value: Vec<u8>)
        ensures
            (match spec_find(old(self)@, lower_bytes(name@)) {
                Some(i) => final(self)@ == old(self)@.update(
                    i,
                    AttrV {
                        values: old(self)@[i].values.push(value@),
                        ..old(self)@[i]
                    },
                ),
                None => final(self)@ == old(self)@.push(
                    AttrV {
                        name: name@,
                        lower: lower_bytes(name@),
                        values: seq![value@],
                    },
                ),
            }),
    {
        let key = to_lower(name);
        let n = self.attrs.len();
        let mut i: usize = 0;
        while i < n
            invariant
                i <= n,
                n == self.attrs@.len(),
                *self == *old(self),
                key@ == lower_bytes(name@),
                forall|j: int| 0 <= j < i ==> self@[j].lower != key@,
            decreases n - i,
        {
            if bytes_eq(self.attrs[i].lowercase.as_slice(), key.as_slice()) {
                proof {
                    assert(self@[i as int].lower == key@);
                    lemma_find_char(self@, key@);
                }
                let ghost pre = *self;
                let mut a = self.attrs.remove(i);
                let ghost va = value@;
                a.values.push(value);
                self.attrs.insert(i, a);
                proof {
                    assert(a@.values =~= pre@[i as int].values.push(va));
                    assert(self@ =~= pre@.update(i as int, a@));
                }
                return ;
            }
            proof {
                assert(self@[i as int].lower != key@);
            }
            i = i + 1;
        }
        proof {
            lemma_find_char(self@, key@);
        }
        let ea = EntryAttr { name: slice_to_vec_u8(name), lowercase: key, values: vec_single(value) };
        let ghost eav = ea@;
        let ghost pre = *self;
        self.attrs.push(ea);
        proof {
            assert(self@ =~= pre@.push(eav));
        }
    }

    /// The values of the attribute, case-insensitively; empty when absent.
    pub fn get(&self, attr: &[u8]) -> (r: Vec<Vec<u8>>)
        ensures
            r@.map_values(|v: Vec<u8>| v@) == spec_values(self@, lower_bytes(attr@)),
    {
        let key = to_lower(attr);
        let n = self.attrs.len();
        let mut i: usize = 0;
        while i < n
            invariant
                i <= n,
                n == self.attrs@.len(),
                key@ == lower_bytes(attr@),
                forall|j: int| 0 <= j < i ==> self@[j].lower != key@,
            decreases n - i,
        {
            if bytes_eq(self.attrs[i].lowercase.as_slice(), key.as_slice()) {
                proof {
                    assert(self@[i as int].lower == key@);
                    lemma_find_char(self@, key@);
                }
                let mut out: Vec<Vec<u8>> = Vec::new();
                let m = self.attrs[i].values.len();
                let mut j: usize = 0;
                while j < m
                    invariant
                        j <= m,
                        i < self.attrs@.len(),
                        m == self.attrs@[i as int].values@.len(),
                        out@.map_values(|v: Vec<u8>| v@) == self@[i as int].values.take(j as int),
                    decreases m - j,
                {
                    let ghost prev = out@;
                    let cv = clone_vec_u8(&self.attrs[i].values[j]);
                    let ghost cvv = cv@;
                    out.push(cv);
                    proof {
                        assert(out@.map_values(|v: Vec<u8>| v@) =~= prev.map_values(
                            |v: Vec<u8>| v@,
                        ).push(cvv));
                        assert(self@[i as int].values[j as int]
                            == self.attrs@[i as int].values@[j as int]@);
                        assert(self@[i as int].values.take(j as int + 1) =~= self@[
                            i as int
                        ].values.take(j as int).push(self@[i as int].values[j as int]));
                    }
                    j = j + 1;
                }
                proof {
                    assert(self@[i as int].values.take(m as int) =~= self@[i as int].values);
                }
                return out;
            }
            proof {
                assert(self@[i as int].lower != key@);
            }
            i = i + 1;
        }
        proof {
            lemma_find_char(self@, key@);
        }
        let out: Vec<Vec<u8>> = Vec::new();
        proof {
            assert(out@.map_values(|v: Vec<u8>| v@) =~= Seq::<Seq<u8>>::empty());
        }
        out
    }

    /// The first value of the attribute, if it has one.
    pub fn get_one(&self, attr: &[u8]) -> (r: Option<Vec<u8>>)
        ensures
            (match r {
                Some(v) => spec_values(self@, lower_bytes(attr@)).len() > 0 && v@ == spec_values(
                    self@,
                    lower_bytes(attr@),
                )[0],
                None => spec_values(self@, lower_bytes(attr@)).len() == 0,
            }),
    {
        let vs = self.get(attr);
        if vs.len() == 0 {
            None
        } else {
            proof {
                assert(vs@.map_values(|v: Vec<u8>| v@)[0] == vs@[0]@);
            }
            Some(clone_vec_u8(&vs[0]))
        }
    }

    /// All attributes that hold at least one value, in insertion order,
    /// each as its first-seen original-case name with its lowercase key.
    pub fn attributes(&self) -> (r: Vec<AttributeType>)
        ensures
            r@.map_values(|a: AttributeType| (a.name@, a.lowercase@)) == spec_attributes(
                self@,
                0,
            ),
    {
        let mut out: Vec<AttributeType> = Vec::new();
        let mut i: usize = 0;
        let n = self.attrs.len();
        proof {
            assert(out@.map_values(|a: AttributeType| (a.name@, a.lowercase@)) + spec_attributes(
                self@,
                0,
            ) =~= spec_attributes(self@, 0));
        }
        while i < n
            invariant
                i <= n,
                n == self.attrs@.len(),
                out@.map_values(|a: AttributeType| (a.name@, a.lowercase@)) + spec_attributes(
                    self@,
                    i as int,
                ) == spec_attributes(self@, 0),
            decreases n - i,
        {
            let ghost prev = out@;
            if self.attrs[i].values.len() > 0 {
                let a = AttributeType {
                    name: clone_vec_u8(&self.attrs[i].name),
                    lowercase: clone_vec_u8(&self.attrs[i].lowercase),
                };
                let ghost av = (a.name@, a.lowercase@);
                out.push(a);
                proof {
                    assert(self@[i as int].values.len() > 0);
                    assert(out@.map_values(|x: AttributeType| (x.name@, x.lowercase@))
                        =~= prev.map_values(|x: AttributeType| (x.name@, x.lowercase@)).push(av));
                    assert(spec_attributes(self@, i as int) == seq![
                        (self@[i as int].name, self@[i as int].lower),
                    ] + spec_attributes(self@, i as int + 1));
                    assert(out@.map_values(|x: AttributeType| (x.name@, x.lowercase@))
                        + spec_attributes(self@, i as int + 1) =~= prev.map_values(
                        |x: AttributeType| (x.name@, x.lowercase@),
                    ) + spec_attributes(self@, i as int));
                }
            } else {
                proof {
                    assert(self@[i as int].values.len() == 0);
                    assert(spec_attributes(self@, i as int) == spec_attributes(
                        self@,
                        i as int + 1,
                    ));
                }
            }
            i = i + 1;
        }
        proof {
            assert(spec_attributes(self@, n as int) =~= Seq::<(Seq<u8>, Seq<u8>)>::empty());
            assert(out@.map_values(|a: AttributeType| (a.name@, a.lowercase@))
                + Seq::<(Seq<u8>, Seq<u8>)>::empty() =~= out@.map_values(
                |a: AttributeType| (a.name@, a.lowercase@),
            ));
        }
        out
    }
}

/// The `(name, lowercase)` pairs of the attributes that hold at least one
/// value, from position `k` on, in order.
pub open spec fn spec_attributes(e: Seq<AttrV>, k: int) -> Seq<(Seq<u8>, Seq<u8>)>
    decreases e.len() - k,
{
    if k < 0 || k >= e.len() {
        Seq::empty()
    } else if e[k].values.len() > 0 {
        seq![(e[k].name, e[k].lower)] + spec_attributes(e, k + 1)
    } else {
        spec_attributes(e, k + 1)
    }
}

/// A copy of an index vector.
pub fn clone_vec_usize(v: &Vec<usize>) -> (r: Vec<usize>)
    ensures
        r@ == v@,
{
    let mut out: Vec<usize> = Vec::new();
    let mut i: usize = 0;
    while i < v.len()
        invariant
            i <= v@.len(),
            out@ == v@.take(i as int),
        decreases v@.len() - i,
    {
        out.push(v[i]);
        assert(v@.take(i as int).push(v@[i as int]) =~= v@.take(i as int + 1));
        i = i + 1;
    }
    assert(v@.take(v@.len() as int) =~= v@);
    out
}

/// A copy of a byte vector.
pub fn clone_vec_u8(v: &Vec<u8>) -> (r: Vec<u8>)
    ensures
        r@ == v@,
{
    crate::lexer::clone_bytes(v)
}

/// The bytes of `s` between `from` and `to`.
pub fn slice_to_vec_pub(s: &[u8], from: usize, to: usize) -> (r: Vec<u8>)
    requires
        from <= to <= s@.len(),
    ensures
        r@ == s@.subrange(from as int, to as int),
{
    let mut out: Vec<u8> = Vec::new();
    let mut i: usize = from;
    proof {
        assert(out@ =~= s@.subrange(from as int, from as int));
    }
    while i < to
        invariant
            from <= i <= to,
            to <= s@.len(),
            out@ == s@.subrange(from as int, i as int),
        decreases to - i,
    {
        out.push(s[i]);
        assert(s@.subrange(from as int, i as int + 1) =~= s@.subrange(from as int, i as int).push(
            s@[i as int],
        ));
        i = i + 1;
    }
    out
}

fn slice_to_vec_u8(v: &[u8]) -> (r: Vec<u8>)
    ensures
        r@ == v@,
{
    let mut out: Vec<u8> = Vec::new();
    let mut i: usize = 0;
    while i < v.len()
        invariant
            i <= v@.len(),
            out@ == v@.take(i as int),
        decreases v@.len() - i,
    {
        out.push(v[i]);
        assert(v@.take(i as int).push(v@[i as int]) =~= v@.take(i as int + 1));
        i = i + 1;
    }
    assert(v@.take(v@.len() as int) =~= v@);
    out
}

fn vec_single(v: Vec<u8>) -> (r: Vec<Vec<u8>>)
    ensures
        r@.map_values(|x: Vec<u8>| x@) == seq![v@],
{
    let mut out: Vec<Vec<u8>> = Vec::new();
    out.push(v);
    proof {
        assert(out@.map_values(|x: Vec<u8>| x@) =~= seq![v@]);
    }
    out
}

/// `spec_find` returns the first index whose lowercase name is `key`.
pub proof fn lemma_find_char(e: Seq<AttrV>, key: Seq<u8>)
    ensures
        (match spec_find(e, key) {
            Some(i) => 0 <= i < e.len() && e[i].lower == key && (forall|j: int|
                0 <= j < i ==> e[j].lower != key),
            None => forall|j: int| 0 <= j < e.len() ==> e[j].lower != key,
        }),
    decreases e.len(),
{
    if e.len() > 0 {
        lemma_find_char(e.drop_first(), key);
        assert(forall|j: int|
            1 <= j < e.len() ==> e[j] == e.drop_first()[j - 1]);
    }
}

/// A sink for assembled entries. `entries()` is the log of every entry
/// accepted so far.
pub trait WriteEntry: Sized {
    spec fn wf(&self) -> bool;

    spec fn entries(&self) -> Seq<Seq<AttrV>>;

    spec fn infallible(&self) -> bool;

    fn write_entry(&mut self, e: &Entry) -> (r: Result<(), StreamError>)
        requires
            old(self).wf(),
        ensures
            r is Ok ==> final(self).wf() && final(self).entries() == old(self).entries().push(e@)
                && final(self).infallible() == old(self).infallible(),
            old(self).infallible() ==> r is Ok,
    ;
}

/// Terminal entry sink: keeps every entry it is handed. It never fails.
pub struct EntryVec {
    pub vec: Vec<Entry>,
    pub base: Ghost<Seq<Seq<AttrV>>>,
}

impl EntryVec {
    pub fn new() -> (r: EntryVec)
        ensures
            r.wf(),
            r.entries() == Seq::<Seq<AttrV>>::empty(),
            r.infallible(),
            r.vec@.len() == 0,
    {
        let r = EntryVec { vec: Vec::new(), base: Ghost(Seq::empty()) };
        proof {
            assert(r.vec@.map_values(|e: Entry| e@) =~= Seq::<Seq<AttrV>>::empty());
        }
        r
    }

    pub fn get_ref(&self) -> (r: &Vec<Entry>)
        ensures
            r == self.vec,
    {
        &self.vec
    }

    pub fn into_inner(self) -> (r: Vec<Entry>)
        ensures
            r == self.vec,
    {
        self.vec
    }
}

impl WriteEntry for EntryVec {
    open spec fn wf(&self) -> bool {
        self.vec@.map_values(|e: Entry| e@) == self.base@
    }

    open spec fn entries(&self) -> Seq<Seq<AttrV>> {
        self.base@
    }

    open spec fn infallible(&self) -> bool {
        true
    }

    fn write_entry(&mut self, e: &Entry) -> (r: Result<(), StreamError>)
        ensures
            r is Ok,
            final(self).vec@.len() == old(self).vec@.len() + 1,
            final(self).vec@.last()@ == e@,
    {
        let copy = clone_entry(e);
        self.vec.push(copy);
        proof {
            self.base@ = self.base@.push(e@);
            assert(self.vec@.map_values(|x: Entry| x@) =~= old(self).vec@.map_values(
                |x: Entry| x@,
            ).push(e@));
        }
        Ok(())
    }
}

/// A deep copy of an entry.
pub fn clone_entry(e: &Entry) -> (r: Entry)
    ensures
        r@ == e@,
{
    let mut attrs: Vec<EntryAttr> = Vec::new();
    let mut i: usize = 0;
    let n = e.attrs.len();
    while i < n
        invariant
            i <= n,
            n == e.attrs@.len(),
            attrs@.map_values(|a: EntryAttr| a@) == e@.take(i as int),
        decreases n - i,
    {
        let ghost prev = attrs@;
        let a = clone_attr(&e.attrs[i]);
        let ghost av = a@;
        attrs.push(a);
        proof {
            assert(attrs@.map_values(|x: EntryAttr| x@) =~= prev.map_values(
                |x: EntryAttr| x@,
            ).push(av));
            assert(e@.take(i as int + 1) =~= e@.take(i as int).push(e@[i as int]));
            assert(e@[i as int] == e.attrs@[i as int]@);
        }
        i = i + 1;
    }
    proof {
        assert(e@.take(n as int) =~= e@);
    }
    let r = Entry { attrs };
    r
}

fn clone_attr(a: &EntryAttr) -> (r: EntryAttr)
    ensures
        r@ == a@,
{
    let mut values: Vec<Vec<u8>> = Vec::new();
    let mut i: usize = 0;
    let n = a.values.len();
    while i < n
        invariant
            i <= n,
            n == a.values@.len(),
            values@.map_values(|v: Vec<u8>| v@) == a@.values.take(i as int),
        decreases n - i,
    {
        let ghost prev = values@;
        let v = clone_vec_u8(&a.values[i]);
        let ghost vv = v@;
        values.push(v);
        proof {
            assert(values@.map_values(|x: Vec<u8>| x@) =~= prev.map_values(
                |x: Vec<u8>| x@,
            ).push(vv));
            assert(a@.values.take(i as int + 1) =~= a@.values.take(i as int).push(a@.values[
                i as int
            ]));
            assert(a@.values[i as int] == a.values@[i as int]@);
        }
        i = i + 1;
    }
    proof {
        assert(a@.values.take(n as int) =~= a@.values);
    }
    let r = EntryAttr {
        name: clone_vec_u8(&a.name),
        lowercase: clone_vec_u8(&a.lowercase),
        values,
    };
    proof {
        assert(r@ =~= a@);
    }
    r
}

/// A value may stand after `attr:` as plain text only if it has no leading
/// `<` or `:`, no NUL, LF, CR or SPACE anywhere, and no byte above 0x7f.
pub open spec fn ldif_safe(v: Seq<u8>) -> bool {
    &&& (v.len() > 0 ==> v[0] != 0x3cu8 && v[0] != 0x3au8)
    &&& (forall|i: int|
        0 <= i < v.len() ==> v[i] != 0x00u8 && v[i] != 0x0au8 && v[i] != 0x0du8 && v[i] != 0x20u8
            && v[i] <= 0x7fu8)
}

pub fn is_ldif_safe_string(value: &[u8]) -> (r: bool)
    ensures
        r == ldif_safe(value@),
{
    if value.len() > 0 {
        let c = value[0];
        if c == 0x3cu8 || c == 0x3au8 {
            return false;
        }
    }
    let mut i: usize = 0;
    while i < value.len()
        invariant
            i <= value@.len(),
            value@.len() > 0 ==> value@[0] != 0x3cu8 && value@[0] != 0x3au8,
            forall|j: int|
                0 <= j < i ==> value@[j] != 0x00u8 && value@[j] != 0x0au8 && value@[j] != 0x0du8
                    && value@[j] != 0x20u8 && value@[j] <= 0x7fu8,
        decreases value@.len() - i,
    {
        let c = value[i];
        if c == 0x00u8 || c == 0x0au8 || c == 0x0du8 || c == 0x20u8 || c > 0x7fu8 {
            return false;
        }
        i = i + 1;
    }
    true
}

/// Appends a byte slice to a buffer.
pub fn append_bytes(out: &mut Vec<u8>, s: &[u8])
    ensures
        final(out)@ == old(out)@ + s@,
{
    let mut i: usize = 0;
    proof {
        assert(old(out)@ + s@.take(0) =~= old(out)@);
    }
    while i < s.len()
        invariant
            i <= s@.len(),
            out@ == old(out)@ + s@.take(i as int),
        decreases s@.len() - i,
    {
        out.push(s[i]);
        assert(old(out)@ + s@.take(i as int + 1) =~= (old(out)@ + s@.take(i as int)).push(s@[
            i as int
        ]));
        i = i + 1;
    }
    assert(s@.take(s@.len() as int) =~= s@);
}

/// The LDIF line for one attribute value: `attr: value` when the value is
/// safe, `attr:: base64` otherwise.
pub open spec fn attrval_bytes(attr: Seq<u8>, value: Seq<u8>) -> Seq<u8> {
    attr + seq![0x3au8] + (if ldif_safe(value) {
        seq![0x20u8] + value + seq![0x0au8]
    } else {
        seq![0x3au8] + enc_output(value) + seq![0x0au8]
    })
}

/// Writes one `attr: value` line, base64-encoding the value when it is not
/// an LDIF-safe string.
pub fn write_attrval(w: &mut Vec<u8>, attr: &[u8], value: &[u8]) -> (r: Result<(), StreamError>)
    ensures
        r is Ok,
        final(w)@ == old(w)@ + attrval_bytes(attr@, value@),
{
    append_bytes(w, attr);
    w.push(0x3au8);
    if is_ldif_safe_string(value) {
        w.push(0x20u8);
        append_bytes(w, value);
        w.push(0x0au8);
        proof {
            assert(final(w)@ =~= old(w)@ + attrval_bytes(attr@, value@));
        }
    } else {
        w.push(0x3au8);
        let mut enc = EncodeWriter::new(Vec::new());
        match enc.write(value) {
            Ok(_) => {},
            Err(_) => {
                proof {
                    assert(false);
                }
            },
        }
        match enc.flush() {
            Ok(_) => {},
            Err(_) => {
                proof {
                    assert(false);
                }
            },
        }
        let encoded = enc.into_inner();
        proof {
            assert(encoded@ =~= enc_output(value@));
        }
        append_bytes(w, encoded.as_slice());
        w.push(0x0au8);
        proof {
            assert(final(w)@ =~= old(w)@ + attrval_bytes(attr@, value@));
        }
    }
    Ok(())
}

/// The lines of all values of one attribute, from index `k` on.
pub open spec fn attr_lines_from(name: Seq<u8>, values: Seq<Seq<u8>>, k: int) -> Seq<u8>
    decreases values.len() - k,
{
    if k < 0 || k >= values.len() {
        Seq::empty()
    } else {
        attrval_bytes(name, values[k]) + attr_lines_from(name, values, k + 1)
    }
}

/// The lines of every attribute other than `dn`, from attribute `k` on.
pub open spec fn entry_rest_bytes(e: Seq<AttrV>, k: int) -> Seq<u8>
    decreases e.len() - k,
{
    if k < 0 || k >= e.len() {
        Seq::empty()
    } else if e[k].lower == seq![0x64u8, 0x6eu8] || e[k].values.len() == 0 {
        entry_rest_bytes(e, k + 1)
    } else {
        attr_lines_from(e[k].name, e[k].values, 0) + entry_rest_bytes(e, k + 1)
    }
}

/// The canonical LDIF text of an entry: its `dn` line first, then every
/// other attribute's values in entry order, then a blank line.
pub open spec fn entry_normal_bytes(e: Seq<AttrV>) -> Seq<u8> {
    (if spec_values(e, seq![0x64u8, 0x6eu8]).len() > 0 {
        attrval_bytes(seq![0x64u8, 0x6eu8], spec_values(e, seq![0x64u8, 0x6eu8])[0])
    } else {
        Seq::empty()
    }) + entry_rest_bytes(e, 0) + seq![0x0au8]
}

/// Writes an entry as LDIF: the `dn` first, then the other attributes.
pub fn write_entry_normally(w: &mut Vec<u8>, entry: &Entry) -> (r: Result<(), StreamError>)
    ensures
        r is Ok,
        final(w)@ == old(w)@ + entry_normal_bytes(entry@),
{
    let ghost dnkey = seq![0x64u8, 0x6eu8];
    let dn_name: [u8; 2] = [0x64u8, 0x6eu8];
    proof {
        assert(dn_name@ =~= dnkey);
        assert(lower_bytes(dn_name@) =~= dnkey);
    }
    match entry.get_one(dn_name.as_slice()) {
        Some(dn) => {
            match write_attrval(w, dn_name.as_slice(), dn.as_slice()) {
                Ok(_) => {},
                Err(_) => {
                    proof {
                        assert(false);
                    }
                },
            }
        },
        None => {
            proof {
                assert(old(w)@ + Seq::<u8>::empty() =~= old(w)@);
            }
        },
    }
    let ghost afterdn = w@;
    let n = entry.attrs.len();
    let mut i: usize = 0;
    proof {
        assert(afterdn + Seq::<u8>::empty() =~= afterdn);
    }
    while i < n
        invariant
            i <= n,
            n == entry.attrs@.len(),
            dn_name@ == seq![0x64u8, 0x6eu8],
            w@ == afterdn + (entry_rest_bytes(entry@, 0).take(
                entry_rest_bytes(entry@, 0).len() - entry_rest_bytes(entry@, i as int).len(),
            )),
            entry_rest_bytes(entry@, i as int).len() <= entry_rest_bytes(entry@, 0).len(),
            entry_rest_bytes(entry@, 0).skip(
                entry_rest_bytes(entry@, 0).len() - entry_rest_bytes(entry@, i as int).len(),
            ) == entry_rest_bytes(entry@, i as int),
        decreases n - i,
    {
        let is_dn = bytes_eq(entry.attrs[i].lowercase.as_slice(), dn_name.as_slice());
        proof {
            assert(entry@[i as int].lower == entry.attrs@[i as int].lowercase@);
            assert(entry@[i as int].values.len() == entry.attrs@[i as int].values@.len());
        }
        if !is_dn && entry.attrs[i].values.len() > 0 {
            let m = entry.attrs[i].values.len();
            let mut j: usize = 0;
            let ghost wb = w@;
            proof {
                assert(wb + Seq::<u8>::empty() =~= wb);
                assert(attr_lines_from(entry@[i as int].name, entry@[i as int].values, 0).skip(0)
                    =~= attr_lines_from(entry@[i as int].name, entry@[i as int].values, 0));
            }
            while j < m
                invariant
                    j <= m,
                    i < entry.attrs@.len(),
                    m == entry.attrs@[i as int].values@.len(),
                    w@ == wb + attr_lines_from(entry@[i as int].name, entry@[i as int].values, 0).take(
                        attr_lines_from(entry@[i as int].name, entry@[i as int].values, 0).len()
                            - attr_lines_from(
                            entry@[i as int].name,
                            entry@[i as int].values,
                            j as int,
                        ).len(),
                    ),
                    attr_lines_from(entry@[i as int].name, entry@[i as int].values, j as int).len()
                        <= attr_lines_from(entry@[i as int].name, entry@[i as int].values, 0).len(),
                    attr_lines_from(entry@[i as int].name, entry@[i as int].values, 0).skip(
                        attr_lines_from(entry@[i as int].name, entry@[i as int].values, 0).len()
                            - attr_lines_from(
                            entry@[i as int].name,
                            entry@[i as int].values,
                            j as int,
                        ).len(),
                    ) == attr_lines_from(entry@[i as int].name, entry@[i as int].values, j as int),
                decreases m - j,
            {
                let ghost lines0 = attr_lines_from(entry@[i as int].name, entry@[i as int].values, 0);
                let ghost linesj = attr_lines_from(
                    entry@[i as int].name,
                    entry@[i as int].values,
                    j as int,
                );
                proof {
                    assert(entry@[i as int].values[j as int] == entry.attrs@[i as int].values@[
                        j as int
                    ]@);
                    assert(entry@[i as int].name == entry.attrs@[i as int].name@);
                }
                match write_attrval(
                    w,
                    entry.attrs[i].name.as_slice(),
                    entry.attrs[i].values[j].as_slice(),
                ) {
                    Ok(_) => {},
                    Err(_) => {
                        proof {
                            assert(false);
                        }
                    },
                }
                proof {
                    lemma_lines_step(entry@[i as int].name, entry@[i as int].values, j as int);
                    let linesj1 = attr_lines_from(
                        entry@[i as int].name,
                        entry@[i as int].values,
                        j as int + 1,
                    );
                    assert(linesj == attrval_bytes(
                        entry@[i as int].name,
                        entry@[i as int].values[j as int],
                    ) + linesj1);
                    lemma_take_skip_chain(
                        wb,
                        lines0,
                        linesj,
                        attrval_bytes(entry@[i as int].name, entry@[i as int].values[j as int]),
                        linesj1,
                    );
                }
                j = j + 1;
            }
            proof {
                assert(attr_lines_from(
                    entry@[i as int].name,
                    entry@[i as int].values,
                    m as int,
                ) =~= Seq::<u8>::empty());
                lemma_rest_step_attr(entry@, i as int);
                let rest0 = entry_rest_bytes(entry@, 0);
                let resti = entry_rest_bytes(entry@, i as int);
                let resti1 = entry_rest_bytes(entry@, i as int + 1);
                let lines0 = attr_lines_from(entry@[i as int].name, entry@[i as int].values, 0);
                assert(resti == lines0 + resti1);
                lemma_take_skip_chain(afterdn, rest0, resti, lines0, resti1);
            }
        } else {
            proof {
                lemma_rest_step_skip(entry@, i as int);
            }
        }
        i = i + 1;
    }
    proof {
        assert(entry_rest_bytes(entry@, n as int) =~= Seq::<u8>::empty());
        let rest0 = entry_rest_bytes(entry@, 0);
        assert(rest0.take(rest0.len() - 0) =~= rest0);
    }
    w.push(0x0au8);
    proof {
        assert(final(w)@ =~= old(w)@ + entry_normal_bytes(entry@));
    }
    Ok(())
}

/// One value line peels off the front of `attr_lines_from`.
pub proof fn lemma_lines_step(name: Seq<u8>, values: Seq<Seq<u8>>, k: int)
    requires
        0 <= k < values.len(),
    ensures
        attr_lines_from(name, values, k) == attrval_bytes(name, values[k]) + attr_lines_from(
            name,
            values,
            k + 1,
        ),
{
}

/// One attribute's lines peel off the front of `entry_rest_bytes`.
proof fn lemma_rest_step_attr(e: Seq<AttrV>, k: int)
    requires
        0 <= k < e.len(),
        e[k].lower != seq![0x64u8, 0x6eu8],
        e[k].values.len() > 0,
    ensures
        entry_rest_bytes(e, k) == attr_lines_from(e[k].name, e[k].values, 0) + entry_rest_bytes(
            e,
            k + 1,
        ),
{
}

/// A `dn` or empty attribute adds nothing.
proof fn lemma_rest_step_skip(e: Seq<AttrV>, k: int)
    requires
        0 <= k < e.len(),
        e[k].lower == seq![0x64u8, 0x6eu8] || e[k].values.len() == 0,
    ensures
        entry_rest_bytes(e, k) == entry_rest_bytes(e, k + 1),
{
}

/// Bookkeeping for writing a known suffix decomposition: when the part
/// still to write is `mid + rest`, writing `mid` advances the take/skip
/// split accordingly.
pub proof fn lemma_take_skip_chain(
    base: Seq<u8>,
    total: Seq<u8>,
    suffix: Seq<u8>,
    mid: Seq<u8>,
    rest: Seq<u8>,
)
    requires
        suffix.len() <= total.len(),
        total.skip(total.len() - suffix.len()) == suffix,
        suffix == mid + rest,
    ensures
        rest.len() <= total.len(),
        total.skip(total.len() - rest.len()) == rest,
        base + total.take(total.len() - suffix.len()) + mid == base + total.take(
            total.len() - rest.len(),
        ),
{
    let ls = total.len() - suffix.len();
    let lr = total.len() - rest.len();
    assert(suffix.len() == mid.len() + rest.len());
    assert(forall|k: int| 0 <= k < suffix.len() ==> total[ls + k] == #[trigger] suffix[k]) by {
        assert(forall|k: int|
            0 <= k < suffix.len() ==> #[trigger] suffix[k] == total.skip(ls)[k]);
    }
    assert forall|k: int| 0 <= k < rest.len() implies total.skip(lr)[k] == rest[k] by {
        assert(suffix[mid.len() + k] == rest[k]);
        assert(total[ls + (mid.len() + k)] == suffix[mid.len() + k]);
        assert(total.skip(lr)[k] == total[lr + k]);
    }
    assert(total.skip(lr) =~= rest);
    assert forall|k: int| 0 <= k < lr implies (total.take(ls) + mid)[k] == total.take(lr)[k] by {
        if k < ls {
        } else {
            assert(mid[k - ls] == suffix[k - ls]);
            assert(total[ls + (k - ls)] == suffix[k - ls]);
        }
    }
    assert(total.take(ls) + mid =~= total.take(lr));
    assert(base + total.take(ls) + mid =~= base + (total.take(ls) + mid));
    assert(base + (total.take(ls) + mid) =~= base + total.take(lr));
}

/// The index of `key` in a list of lowercase keys.
pub open spec fn spec_find_key(keys: Seq<Seq<u8>>, key: Seq<u8>) -> Option<int>
    decreases keys.len(),
{
    if keys.len() == 0 {
        None
    } else if keys[0] == key {
        Some(0)
    } else {
        match spec_find_key(keys.drop_first(), key) {
            Some(i) => Some(i + 1),
            None => None,
        }
    }
}

/// `spec_find_key` returns the first index holding `key`.
pub proof fn lemma_find_key_char(keys: Seq<Seq<u8>>, key: Seq<u8>)
    ensures
        (match spec_find_key(keys, key) {
            Some(i) => 0 <= i < keys.len() && keys[i] == key && (forall|j: int|
                0 <= j < i ==> keys[j] != key),
            None => forall|j: int| 0 <= j < keys.len() ==> keys[j] != key,
        }),
    decreases keys.len(),
{
    if keys.len() > 0 {
        lemma_find_key_char(keys.drop_first(), key);
        assert(forall|j: int| 1 <= j < keys.len() ==> keys[j] == keys.drop_first()[j - 1]);
    }
}

/// `version`, as bytes.
pub open spec fn version_key() -> Seq<u8> {
    seq![0x76u8, 0x65u8, 0x72u8, 0x73u8, 0x69u8, 0x6fu8, 0x6eu8]
}

/// `dn`, as bytes.
pub open spec fn dn_key() -> Seq<u8> {
    seq![0x64u8, 0x6eu8]
}

/// Where the assembler stands between records.
#[derive(PartialEq, Eq, Structural, Clone, Copy, Debug)]
pub enum WriterState {
    Start,
    Version,
    BeforeEntry,
    Ignoring,
    Processing,
}

#[derive(PartialEq, Eq, Structural, Clone, Copy, Debug)]
pub enum ValueType {
    Text,
    Base64,
}

/// The entry an assembler's three parallel tables stand for.
pub open spec fn spec_assemble(ns: Seq<Seq<u8>>, ls: Seq<Seq<u8>>, vs: Seq<Seq<Seq<u8>>>) -> Seq<
    AttrV,
> {
    Seq::new(ns.len(), |i: int| AttrV { name: ns[i], lower: ls[i], values: vs[i] })
}

/// Buffers tokens into attribute tables and hands a finished `Entry` to its
/// sink at each record boundary. A leading `version:` line is skipped, and
/// optionally any record that does not begin with `dn`.
pub struct EntryTokenWriter<W: WriteEntry> {
    pub all_attributes: bool,
    pub state: WriterState,
    pub attrnames: Vec<Vec<u8>>,
    pub attrlower: Vec<Vec<u8>>,
    pub attrvalues: Vec<Vec<Vec<u8>>>,
    pub attrmatch: Option<usize>,
    pub valuebuf: Vec<u8>,
    pub dest: W,
    pub valuetype: ValueType,
    pub b64state: DecodeState,
    pub ignore_entries_without_dn: bool,
    pub toks: Ghost<Seq<TokenV>>,
}

impl<W: WriteEntry> EntryTokenWriter<W> {
    /// The lowercase key table, in the contracts' view.
    pub open spec fn lowers(&self) -> Seq<Seq<u8>> {
        self.attrlower@.map_values(|v: Vec<u8>| v@)
    }

    /// The display-name table, in the contracts' view.
    pub open spec fn names(&self) -> Seq<Seq<u8>> {
        self.attrnames@.map_values(|v: Vec<u8>| v@)
    }

    /// The value table, in the contracts' view.
    pub open spec fn values(&self) -> Seq<Seq<Seq<u8>>> {
        self.attrvalues@.map_values(|vs: Vec<Vec<u8>>| vs@.map_values(|v: Vec<u8>| v@))
    }

    /// Records every attribute it meets; first-seen original case is kept
    /// for display.
    pub fn new(dest: W) -> (r: EntryTokenWriter<W>)
        requires
            dest.wf(),
        ensures
            r.wf(),
            r.dest == dest,
            r.all_attributes == true,
            r.state is Start,
            r.ignore_entries_without_dn == false,
            r.names() == Seq::<Seq<u8>>::empty(),
    {
        let r = EntryTokenWriter {
            all_attributes: true,
            state: WriterState::Start,
            attrnames: Vec::new(),
            attrlower: Vec::new(),
            attrvalues: Vec::new(),
            attrmatch: None,
            valuebuf: Vec::new(),
            dest,
            valuetype: ValueType::Text,
            b64state: DecodeState { state: DecodePhase::B0, octet: 0 },
            ignore_entries_without_dn: false,
            toks: Ghost(Seq::empty()),
        };
        proof {
            assert(r.names() =~= Seq::<Seq<u8>>::empty());
            assert(r.lowers() =~= Seq::<Seq<u8>>::empty());
        }
        r
    }

    /// Records only the given attributes; every other attribute is ignored.
    pub fn new_for_attributes(attributes: Vec<Vec<u8>>, dest: W) -> (r: EntryTokenWriter<W>)
        requires
            dest.wf(),
        ensures
            r.wf(),
            r.dest == dest,
            r.all_attributes == false,
            r.state is Start,
            r.ignore_entries_without_dn == false,
            r.names() == attributes@.map_values(|v: Vec<u8>| v@),
            r.lowers().len() == attributes@.len(),
            forall|j: int|
                0 <= j < attributes@.len() ==> r.lowers()[j] == lower_bytes(
                    (#[trigger] attributes@[j])@,
                ),
            r.values().len() == attributes@.len(),
            forall|j: int| 0 <= j < attributes@.len() ==> (#[trigger] r.values()[j]).len() == 0,
            r.attrmatch is None,
    {
        let mut attrlower: Vec<Vec<u8>> = Vec::new();
        let mut attrvalues: Vec<Vec<Vec<u8>>> = Vec::new();
        let mut i: usize = 0;
        let n = attributes.len();
        while i < n
            invariant
                i <= n,
                n == attributes@.len(),
                attrlower@.len() == i,
                attrvalues@.len() == i,
                forall|j: int|
                    0 <= j < i ==> attrlower@[j]@ == lower_bytes(#[trigger] attributes@[j]@),
                forall|j: int| 0 <= j < i ==> (#[trigger] attrvalues@[j])@.len() == 0,
            decreases n - i,
        {
            attrlower.push(to_lower(attributes[i].as_slice()));
            attrvalues.push(Vec::new());
            i = i + 1;
        }
        let r = EntryTokenWriter {
            all_attributes: false,
            state: WriterState::Start,
            attrnames: attributes,
            attrlower,
            attrvalues,
            attrmatch: None,
            valuebuf: Vec::new(),
            dest,
            valuetype: ValueType::Text,
            b64state: DecodeState { state: DecodePhase::B0, octet: 0 },
            ignore_entries_without_dn: false,
            toks: Ghost(Seq::empty()),
        };
        r
    }

    /// Skip records that do not begin with a `dn` attribute, such as search
    /// metadata.
    pub fn set_ignore_entries_without_dn(&mut self, value: bool)
        ensures
            *final(self) == (EntryTokenWriter { ignore_entries_without_dn: value, ..*old(self) }),
    {
        self.ignore_entries_without_dn = value;
    }

    pub fn get_ref(&self) -> (r: &W)
        ensures
            r == self.dest,
    {
        &self.dest
    }

    pub fn into_inner(self) -> (r: W)
        ensures
            r == self.dest,
    {
        self.dest
    }
}

impl<W: WriteEntry> WriteToken for EntryTokenWriter<W> {
    open spec fn wf(&self) -> bool {
        &&& self.dest.wf()
        &&& self.attrnames@.len() == self.attrlower@.len()
        &&& self.attrnames@.len() == self.attrvalues@.len()
        &&& (match self.attrmatch {
            Some(i) => i < self.attrnames@.len(),
            None => true,
        })
    }

    open spec fn tokens(&self) -> Seq<TokenV> {
        self.toks@
    }

    open spec fn infallible(&self) -> bool {
        false
    }

    /// One assembler step per token, exactly as the record grammar says:
    /// attribute types select or create a column, value tokens extend the
    /// value being gathered (base64 segments through the streaming decoder),
    /// a value finish files it, and a record boundary hands the entry on.
    fn write_token(&mut self, token: &Token) -> (r: Result<(), StreamError>)
        ensures
            r is Ok ==> final(self).all_attributes == old(self).all_attributes
                && final(self).ignore_entries_without_dn == old(self).ignore_entries_without_dn
                && final(self).dest.infallible() == old(self).dest.infallible(),
            r is Ok ==> (match token.kind {
                TokenKind::AttributeType => {
                    let lower = lower_bytes(token.segment@);
                    let st1 = if old(self).state is Start {
                        if lower == version_key() {
                            WriterState::Version
                        } else {
                            WriterState::BeforeEntry
                        }
                    } else {
                        old(self).state
                    };
                    let st2 = if st1 is BeforeEntry {
                        if !old(self).ignore_entries_without_dn || lower == dn_key() {
                            WriterState::Processing
                        } else {
                            WriterState::Ignoring
                        }
                    } else {
                        st1
                    };
                    &&& final(self).state == st2
                    &&& final(self).dest == old(self).dest
                    &&& final(self).valuebuf == old(self).valuebuf
                    &&& final(self).valuetype == old(self).valuetype
                    &&& final(self).b64state == old(self).b64state
                    &&& (if st2 is Processing {
                        match spec_find_key(old(self).lowers(), lower) {
                            Some(i) => final(self).attrmatch == Some(i as usize)
                                && final(self).names() == old(self).names()
                                && final(self).lowers() == old(self).lowers()
                                && final(self).values() == old(self).values(),
                            None => if old(self).all_attributes {
                                &&& final(self).attrmatch == Some(old(self).attrnames@.len() as usize)
                                &&& final(self).names() == old(self).names().push(token.segment@)
                                &&& final(self).lowers() == old(self).lowers().push(lower)
                                &&& final(self).values() == old(self).values().push(
                                    Seq::<Seq<u8>>::empty(),
                                )
                            } else {
                                final(self).attrmatch is None
                                    && final(self).names() == old(self).names()
                                    && final(self).lowers() == old(self).lowers()
                                    && final(self).values() == old(self).values()
                            },
                        }
                    } else {
                        final(self).attrmatch is None && final(self).names() == old(self).names()
                            && final(self).lowers() == old(self).lowers() && final(self).values()
                            == old(self).values()
                    })
                },
                TokenKind::ValueText => {
                    &&& final(self).state == (if old(self).state is Version {
                        WriterState::BeforeEntry
                    } else {
                        old(self).state
                    })
                    &&& final(self).dest == old(self).dest
                    &&& final(self).names() == old(self).names()
                    &&& final(self).lowers() == old(self).lowers()
                    &&& final(self).values() == old(self).values()
                    &&& final(self).attrmatch == old(self).attrmatch
                    &&& final(self).b64state == old(self).b64state
                    &&& (if old(self).attrmatch is Some {
                        final(self).valuebuf@ == old(self).valuebuf@ + token.segment@
                            && final(self).valuetype is Text
                    } else {
                        final(self).valuebuf == old(self).valuebuf && final(self).valuetype
                            == old(self).valuetype
                    })
                },
                TokenKind::ValueBase64 => {
                    &&& final(self).state == old(self).state
                    &&& final(self).dest == old(self).dest
                    &&& final(self).names() == old(self).names()
                    &&& final(self).lowers() == old(self).lowers()
                    &&& final(self).values() == old(self).values()
                    &&& final(self).attrmatch == old(self).attrmatch
                    &&& (if old(self).attrmatch is Some {
                        match dec_run(old(self).b64state, token.segment@) {
                            DecRun::Good(st2, em) => final(self).valuebuf@ == old(self).valuebuf@
                                + em && final(self).b64state == st2
                                && final(self).valuetype is Base64,
                            DecRun::Bad(_, _) => false,
                        }
                    } else {
                        final(self).valuebuf == old(self).valuebuf && final(self).b64state == old(
                            self,
                        ).b64state && final(self).valuetype == old(self).valuetype
                    })
                },
                TokenKind::ValueFinish => {
                    &&& final(self).state == old(self).state
                    &&& final(self).dest == old(self).dest
                    &&& final(self).names() == old(self).names()
                    &&& final(self).lowers() == old(self).lowers()
                    &&& final(self).attrmatch == old(self).attrmatch
                    &&& final(self).valuetype == old(self).valuetype
                    &&& (match old(self).attrmatch {
                        Some(i) => {
                            &&& final(self).values() == old(self).values().update(
                                i as int,
                                old(self).values()[i as int].push(old(self).valuebuf@),
                            )
                            &&& final(self).valuebuf@ == Seq::<u8>::empty()
                            &&& final(self).b64state == (if old(self).valuetype is Base64 {
                                DecodeState { state: DecodePhase::B0, octet: 0u8 }
                            } else {
                                old(self).b64state
                            })
                        },
                        None => final(self).values() == old(self).values() && final(self).valuebuf
                            == old(self).valuebuf && final(self).b64state == old(self).b64state,
                    })
                },
                TokenKind::EmptyLine => {
                    &&& final(self).state == (if old(self).state is Start {
                        WriterState::Start
                    } else {
                        WriterState::BeforeEntry
                    })
                    &&& final(self).names() == old(self).names()
                    &&& final(self).lowers() == old(self).lowers()
                    &&& final(self).attrmatch == old(self).attrmatch
                    &&& final(self).valuebuf == old(self).valuebuf
                    &&& final(self).valuetype == old(self).valuetype
                    &&& final(self).b64state == old(self).b64state
                    &&& (if old(self).state is Processing {
                        &&& final(self).dest.entries() == old(self).dest.entries().push(
                            spec_assemble(old(self).names(), old(self).lowers(), old(self).values()),
                        )
                        &&& final(self).values().len() == old(self).values().len()
                        &&& (forall|i: int|
                            0 <= i < final(self).values().len() ==> (#[trigger] final(self).values()[i]).len()
                                == 0)
                    } else {
                        final(self).dest == old(self).dest && final(self).values() == old(
                            self,
                        ).values()
                    })
                },
            }),
            old(self).dest.infallible() && !(token.kind is ValueBase64) ==> r is Ok,
    {
        let ghost pre = *self;
        proof {
            self.toks@ = self.toks@.push(token@);
        }
        match token.kind {
            TokenKind::AttributeType => {
                let lower = to_lower(token.segment.as_slice());
                if let WriterState::Start = self.state {
                    let vk: [u8; 7] = [0x76, 0x65, 0x72, 0x73, 0x69, 0x6f, 0x6e];
                    proof {
                        assert(vk@ =~= version_key());
                    }
                    if bytes_eq(lower.as_slice(), vk.as_slice()) {
                        self.state = WriterState::Version;
                    } else {
                        self.state = WriterState::BeforeEntry;
                    }
                }
                if let WriterState::BeforeEntry = self.state {
                    let dk: [u8; 2] = [0x64, 0x6e];
                    proof {
                        assert(dk@ =~= dn_key());
                    }
                    if !self.ignore_entries_without_dn || bytes_eq(
                        lower.as_slice(),
                        dk.as_slice(),
                    ) {
                        self.state = WriterState::Processing;
                    } else {
                        self.state = WriterState::Ignoring;
                    }
                }
                if let WriterState::Processing = self.state {
                    let n = self.attrlower.len();
                    let mut i: usize = 0;
                    let mut found: Option<usize> = None;
                    while i < n
                        invariant
                            i <= n,
                            n == self.attrlower@.len(),
                            lower@ == lower_bytes(token.segment@),
                            (match found {
                                Some(k) => k < n && self.lowers()[k as int] == lower@ && (forall|
                                    j: int,
                                |
                                    0 <= j < k ==> self.lowers()[j] != lower@),
                                None => forall|j: int| 0 <= j < i ==> self.lowers()[j] != lower@,
                            }),
                        decreases n - i,
                    {
                        if found.is_none() {
                            if bytes_eq(self.attrlower[i].as_slice(), lower.as_slice()) {
                                proof {
                                    assert(self.lowers()[i as int] == lower@);
                                }
                                found = Some(i);
                            } else {
                                proof {
                                    assert(self.lowers()[i as int] != lower@);
                                }
                            }
                        }
                        i = i + 1;
                    }
                    proof {
                        lemma_find_key_char(self.lowers(), lower@);
                    }
                    if found.is_none() {
                        if self.all_attributes {
                            let idx = self.attrvalues.len();
                            let nv: Vec<Vec<u8>> = Vec::new();
                            let ghost nvv = nv@;
                            self.attrvalues.push(nv);
                            self.attrnames.push(slice_to_vec_u8(token.segment.as_slice()));
                            self.attrlower.push(lower);
                            self.attrmatch = Some(idx);
                            proof {
                                assert(nvv.map_values(|v: Vec<u8>| v@) =~= Seq::<Seq<u8>>::empty());
                                assert(self.names() =~= pre.names().push(token.segment@));
                                assert(self.lowers() =~= pre.lowers().push(
                                    lower_bytes(token.segment@),
                                ));
                                assert(self.values() =~= pre.values().push(
                                    Seq::<Seq<u8>>::empty(),
                                ));
                            }
                        } else {
                            self.attrmatch = None;
                        }
                    } else {
                        self.attrmatch = found;
                    }
                } else {
                    self.attrmatch = None;
                }
                Ok(())
            },
            TokenKind::ValueText => {
                if let WriterState::Version = self.state {
                    self.state = WriterState::BeforeEntry;
                }
                if self.attrmatch.is_some() {
                    append_bytes(&mut self.valuebuf, token.segment.as_slice());
                    self.valuetype = ValueType::Text;
                }
                Ok(())
            },
            TokenKind::ValueBase64 => {
                if self.attrmatch.is_some() {
                    let mut buf: Vec<u8> = Vec::new();
                    std::mem::swap(&mut buf, &mut self.valuebuf);
                    let mut decoder = DecodeWriter::new_with_state(buf, self.b64state);
                    match decoder.write(token.segment.as_slice()) {
                        Ok(_) => {
                            self.b64state = decoder.get_state();
                            self.valuebuf = decoder.into_inner();
                            self.valuetype = ValueType::Base64;
                            Ok(())
                        },
                        Err(e) => {
                            self.valuebuf = decoder.into_inner();
                            Err(e)
                        },
                    }
                } else {
                    Ok(())
                }
            },
            TokenKind::ValueFinish => {
                if let Some(attridx) = self.attrmatch {
                    if let ValueType::Base64 = self.valuetype {
                        self.b64state = DecodeState { state: DecodePhase::B0, octet: 0 };
                    }
                    let mut buf: Vec<u8> = Vec::new();
                    std::mem::swap(&mut buf, &mut self.valuebuf);
                    let ghost bufv = buf@;
                    let mut vs = self.attrvalues.remove(attridx);
                    vs.push(buf);
                    self.attrvalues.insert(attridx, vs);
                    proof {
                        assert(vs@.map_values(|v: Vec<u8>| v@) =~= pre.values()[
                            attridx as int
                        ].push(bufv));
                        assert(self.values() =~= pre.values().update(
                            attridx as int,
                            pre.values()[attridx as int].push(bufv),
                        ));
                    }
                }
                Ok(())
            },
            TokenKind::EmptyLine => {
                if let WriterState::Processing = self.state {
                    let mut attrs: Vec<EntryAttr> = Vec::new();
                    let mut fresh: Vec<Vec<Vec<u8>>> = Vec::new();
                    let n = self.attrnames.len();
                    let mut i: usize = 0;
                    while i < n
                        invariant
                            i <= n,
                            n == self.attrnames@.len(),
                            self.attrnames == old(self).attrnames,
                            self.attrlower == old(self).attrlower,
                            self.attrvalues == old(self).attrvalues,
                            self.dest == old(self).dest,
                            self.attrmatch == old(self).attrmatch,
                            self.valuebuf == old(self).valuebuf,
                            self.valuetype == old(self).valuetype,
                            self.b64state == old(self).b64state,
                            self.state == old(self).state,
                            self.wf(),
                            fresh@.len() == i,
                            forall|j: int| 0 <= j < i ==> (#[trigger] fresh@[j])@.len() == 0,
                            attrs@.map_values(|a: EntryAttr| a@) == spec_assemble(
                                self.names(),
                                self.lowers(),
                                self.values(),
                            ).take(i as int),
                        decreases n - i,
                    {
                        let ghost prev = attrs@;
                        let mut vals: Vec<Vec<u8>> = Vec::new();
                        let m = self.attrvalues[i].len();
                        let mut j: usize = 0;
                        while j < m
                            invariant
                                j <= m,
                                i < self.attrvalues@.len(),
                                m == self.attrvalues@[i as int]@.len(),
                                vals@.map_values(|v: Vec<u8>| v@) == self.values()[i as int].take(
                                    j as int,
                                ),
                            decreases m - j,
                        {
                            let ghost pv = vals@;
                            let cv = clone_vec_u8(&self.attrvalues[i][j]);
                            let ghost cvv = cv@;
                            vals.push(cv);
                            proof {
                                assert(vals@.map_values(|v: Vec<u8>| v@) =~= pv.map_values(
                                    |v: Vec<u8>| v@,
                                ).push(cvv));
                                assert(self.values()[i as int][j as int] == self.attrvalues@[
                                    i as int
                                ]@[j as int]@);
                                assert(self.values()[i as int].take(j as int + 1) =~= self.values()[
                                    i as int
                                ].take(j as int).push(self.values()[i as int][j as int]));
                            }
                            j = j + 1;
                        }
                        proof {
                            assert(self.values()[i as int].take(m as int) =~= self.values()[
                                i as int
                            ]);
                        }
                        let a = EntryAttr {
                            name: clone_vec_u8(&self.attrnames[i]),
                            lowercase: clone_vec_u8(&self.attrlower[i]),
                            values: vals,
                        };
                        let ghost av = a@;
                        attrs.push(a);
                        fresh.push(Vec::new());
                        proof {
                            assert(attrs@.map_values(|x: EntryAttr| x@) =~= prev.map_values(
                                |x: EntryAttr| x@,
                            ).push(av));
                            assert(spec_assemble(
                                self.names(),
                                self.lowers(),
                                self.values(),
                            ).take(i as int + 1) =~= spec_assemble(
                                self.names(),
                                self.lowers(),
                                self.values(),
                            ).take(i as int).push(
                                spec_assemble(self.names(), self.lowers(), self.values())[
                                    i as int
                                ],
                            ));
                        }
                        i = i + 1;
                    }
                    let e = Entry { attrs };
                    proof {
                        assert(spec_assemble(self.names(), self.lowers(), self.values()).take(
                            n as int,
                        ) =~= spec_assemble(self.names(), self.lowers(), self.values()));
                    }
                    match self.dest.write_entry(&e) {
                        Ok(_) => {},
                        Err(e2) => {
                            return Err(e2);
                        },
                    }
                    self.attrvalues = fresh;
                    proof {
                        assert(self.names() =~= pre.names());
                        assert(self.lowers() =~= pre.lowers());
                    }
                }
                if !matches!(self.state, WriterState::Start) {
                    self.state = WriterState::BeforeEntry;
                }
                Ok(())
            },
        }
    }
}

/// What `String::from_utf8_lossy` makes of a byte string; the result is a
/// function of the bytes alone.
pub uninterp spec fn lossy_of(s: Seq<u8>) -> Seq<char>;

/// Renders a value for display.
///
/// Relies on `String::from_utf8_lossy`: valid UTF-8 is kept, invalid
/// sequences become replacement characters; the result depends on the
/// bytes alone.
#[verifier::external_body]
fn bytes_to_string(v: &[u8]) -> (r: String)
    ensures
        r@ == lossy_of(v@),
{
    String::from_utf8_lossy(v).to_string()
}

impl Entry {
    /// The values of the attribute rendered as strings.
    pub fn get_str(&self, attr: &str) -> (r: Vec<String>)
        ensures
            r@.map_values(|s: String| s@) == spec_values(
                self@,
                lower_bytes(attr.spec_bytes()),
            ).map_values(|v: Seq<u8>| lossy_of(v)),
    {
        let vs = self.get(attr.as_bytes());
        let ghost svs = spec_values(self@, lower_bytes(attr.spec_bytes()));
        let mut out: Vec<String> = Vec::new();
        let mut i: usize = 0;
        proof {
            assert(vs@.map_values(|v: Vec<u8>| v@) == svs);
            assert(out@.map_values(|s: String| s@) =~= svs.map_values(
                |v: Seq<u8>| lossy_of(v),
            ).take(0));
        }
        while i < vs.len()
            invariant
                i <= vs@.len(),
                vs@.map_values(|v: Vec<u8>| v@) == svs,
                out@.map_values(|s: String| s@) == svs.map_values(|v: Seq<u8>| lossy_of(v)).take(
                    i as int,
                ),
            decreases vs@.len() - i,
        {
            let ghost prev = out@;
            let st = bytes_to_string(vs[i].as_slice());
            let ghost stv = st@;
            out.push(st);
            proof {
                assert(vs@[i as int]@ == svs[i as int]);
                assert(out@.map_values(|s: String| s@) =~= prev.map_values(|s: String| s@).push(
                    stv,
                ));
                let m = svs.map_values(|v: Seq<u8>| lossy_of(v));
                assert(m.take(i as int + 1) =~= m.take(i as int).push(m[i as int]));
            }
            i = i + 1;
        }
        proof {
            let m = svs.map_values(|v: Seq<u8>| lossy_of(v));
            assert(m.take(svs.len() as int) =~= m);
        }
        out
    }

    /// The first value of the attribute rendered as a string, if any.
    pub fn get_one_str(&self, attr: &str) -> (r: Option<String>)
        ensures
            (match r {
                Some(s) => spec_values(self@, lower_bytes(attr.spec_bytes())).len() > 0 && s@
                    == lossy_of(spec_values(self@, lower_bytes(attr.spec_bytes()))[0]),
                None => spec_values(self@, lower_bytes(attr.spec_bytes())).len() == 0,
            }),
    {
        match self.get_one(attr.as_bytes()) {
            Some(v) => Some(bytes_to_string(v.as_slice())),
            None => None,
        }
    }
}

/// Entry idempotence, one attribute line at a time: the LDIF line that
/// `write_attrval` emits for an attribute value lexes back to exactly that
/// attribute name and one value token, and where the value was base64-coded
/// the token decodes back to the value. A value that is written in plain
/// form must begin with a byte the value grammar can open on, and must not
/// be empty; the base64 form carries any value.
#[verifier::rlimit(100)]
#[verifier::spinoff_prover]
pub proof fn lemma_attrval_round_trip(lc: LexCore, l: GLoc, attr: Seq<u8>, value: Seq<u8>)
    requires
        lc.st is LineStart,
        1 <= attr.len() <= MAX_TYPE_LENGTH,
        is_alpha(attr[0]),
        forall|i: int| 1 <= i < attr.len() ==> is_attr_char(#[trigger] attr[i]),
        ldif_safe(value) ==> value.len() > 0 && is_safe_init_char(value[0]),
    ensures
        (match lex_run(lc, locate(l, attrval_bytes(attr, value))) {
            Ok((c2, toks)) => {
                &&& c2.st is LineStart
                &&& c2.seg == Seq::<u8>::empty()
                &&& toks.len() == 3
                &&& toks[0].kind is AttributeType
                &&& toks[0].seg == attr
                &&& toks[2].kind is ValueFinish
                &&& (if ldif_safe(value) {
                    toks[1].kind is ValueText && toks[1].seg == value
                } else {
                    &&& toks[1].kind is ValueBase64
                    &&& toks[1].seg == enc_output(value)
                    &&& (match dec_run(
                        DecodeState { state: DecodePhase::B0, octet: 0u8 },
                        enc_output(value),
                    ) {
                        DecRun::Good(st, em) => em == value && crate::base64::dec_final_ok(st),
                        DecRun::Bad(_, _) => false,
                    })
                })
            },
            Err(_) => false,
        }),
{
    let line = attrval_bytes(attr, value);
    let a0 = seq![attr[0]];
    let a1 = attr.drop_first();
    let colon = seq![0x3au8];
    let tail = if ldif_safe(value) {
        seq![0x20u8] + value + seq![0x0au8]
    } else {
        seq![0x3au8] + enc_output(value) + seq![0x0au8]
    };
    assert(line =~= a0 + (a1 + (colon + tail)));
    // byte one opens the attribute type
    let lb0 = LocByte { loc: l, byte: attr[0] };
    assert(lex_step(lc, lb0) == Ok::<(LexCore, Seq<TokenV>), StreamError>(
        (LexCore { st: LexState::AttributeType, tstart: l, seg: seq![attr[0]] }, Seq::empty()),
    ));
    lemma_lex_one(lc, l, attr[0]);
    let c1 = LexCore { st: LexState::AttributeType, tstart: l, seg: seq![attr[0]] };
    let l1 = gloc_after_seq(l, a0);
    crate::loc::lemma_locate_append(l, a0, a1 + (colon + tail));
    lemma_lex_append(lc, locate(l, a0), locate(l1, a1 + (colon + tail)));
    // the rest of the name accumulates
    assert(forall|i: int| 0 <= i < a1.len() ==> is_attr_char(#[trigger] a1[i])) by {
        assert(forall|i: int| 0 <= i < a1.len() ==> a1[i] == attr[i + 1]);
    }
    lemma_lex_attr_chars(c1, l1, a1);
    let c2 = LexCore { seg: seq![attr[0]] + a1, ..c1 };
    assert(c2.seg =~= attr);
    let l2 = gloc_after_seq(l1, a1);
    crate::loc::lemma_locate_append(l1, a1, colon + tail);
    lemma_lex_append(c1, locate(l1, a1), locate(l2, colon + tail));
    // the colon closes the name and emits it
    assert(!is_attr_char(0x3au8));
    let lbc = LocByte { loc: l2, byte: 0x3au8 };
    let c3 = LexCore { st: LexState::ValueColon, seg: Seq::empty(), ..c2 };
    assert(lex_step(c2, lbc) == Ok::<(LexCore, Seq<TokenV>), StreamError>(
        (c3, seq![tok(TokenKind::AttributeType, l, attr)]),
    ));
    lemma_lex_one(c2, l2, 0x3au8);
    let l3 = gloc_after_seq(l2, colon);
    crate::loc::lemma_locate_append(l2, colon, tail);
    lemma_lex_append(c2, locate(l2, colon), locate(l3, tail));
    if ldif_safe(value) {
        // a space, the value bytes, and the line feed
        let sp = seq![0x20u8];
        let v0 = seq![value[0]];
        let v1 = value.drop_first();
        let nl = seq![0x0au8];
        assert(tail =~= sp + (v0 + (v1 + nl)));
        let lbs = LocByte { loc: l3, byte: 0x20u8 };
        let c4 = LexCore { st: LexState::WhitespaceBeforeSafe, ..c3 };
        assert(lex_step(c3, lbs) == Ok::<(LexCore, Seq<TokenV>), StreamError>(
            (c4, Seq::empty()),
        ));
        lemma_lex_one(c3, l3, 0x20u8);
        let l4 = gloc_after_seq(l3, sp);
        crate::loc::lemma_locate_append(l3, sp, v0 + (v1 + nl));
        lemma_lex_append(c3, locate(l3, sp), locate(l4, v0 + (v1 + nl)));
        let lbv = LocByte { loc: l4, byte: value[0] };
        assert(value[0] != 0x20u8);
        let c5 = LexCore { st: LexState::SafeStringValue, tstart: l4, seg: seq![value[0]] };
        assert(lex_step(c4, lbv) == Ok::<(LexCore, Seq<TokenV>), StreamError>(
            (c5, Seq::empty()),
        ));
        lemma_lex_one(c4, l4, value[0]);
        let l5 = gloc_after_seq(l4, v0);
        crate::loc::lemma_locate_append(l4, v0, v1 + nl);
        lemma_lex_append(c4, locate(l4, v0), locate(l5, v1 + nl));
        assert(forall|i: int| 0 <= i < v1.len() ==> is_safe_char(#[trigger] v1[i])) by {
            assert(forall|i: int| 0 <= i < v1.len() ==> v1[i] == value[i + 1]);
        }
        lemma_lex_safe_chars(c5, l5, v1);
        let c6 = LexCore { seg: seq![value[0]] + v1, ..c5 };
        assert(c6.seg =~= value);
        let l6 = gloc_after_seq(l5, v1);
        crate::loc::lemma_locate_append(l5, v1, nl);
        lemma_lex_append(c5, locate(l5, v1), locate(l6, nl));
        let lbn = LocByte { loc: l6, byte: 0x0au8 };
        let c7 = LexCore { st: LexState::LineStart, seg: Seq::empty(), ..c6 };
        assert(lex_step(c6, lbn) == Ok::<(LexCore, Seq<TokenV>), StreamError>(
            (
                c7,
                seq![
                    tok(TokenKind::ValueText, l4, value),
                    tok(TokenKind::ValueFinish, l4, Seq::empty()),
                ],
            ),
        ));
        lemma_lex_one(c6, l6, 0x0au8);
        match lex_run(lc, locate(l, line)) {
            Ok((cf, toks)) => {
                assert(toks =~= seq![
                    tok(TokenKind::AttributeType, l, attr),
                    tok(TokenKind::ValueText, l4, value),
                    tok(TokenKind::ValueFinish, l4, Seq::empty()),
                ]);
            },
            Err(_) => {
                assert(false);
            },
        }
    } else {
        let t = enc_output(value);
        assert(value.len() > 0);
        assert(enc_run(crate::base64::EncodePhase::B0, 0u8, value).2.len() >= 1) by {
            assert(value[0] == value[0]);
        }
        assert(t.len() >= 1);
        crate::base64::lemma_enc_output_chars(value);
        let colon2 = seq![0x3au8];
        let t0 = seq![t[0]];
        let t1 = t.drop_first();
        let nl = seq![0x0au8];
        assert(tail =~= colon2 + (t0 + (t1 + nl)));
        let lbc2 = LocByte { loc: l3, byte: 0x3au8 };
        let c4 = LexCore { st: LexState::WhitespaceBeforeBase64, ..c3 };
        assert(lex_step(c3, lbc2) == Ok::<(LexCore, Seq<TokenV>), StreamError>(
            (c4, Seq::empty()),
        ));
        lemma_lex_one(c3, l3, 0x3au8);
        let l4 = gloc_after_seq(l3, colon2);
        crate::loc::lemma_locate_append(l3, colon2, t0 + (t1 + nl));
        lemma_lex_append(c3, locate(l3, colon2), locate(l4, t0 + (t1 + nl)));
        assert(is_base64_char(t[0]));
        assert(t[0] != 0x20u8);
        let lbt = LocByte { loc: l4, byte: t[0] };
        let c5 = LexCore { st: LexState::Base64Value, tstart: l4, seg: seq![t[0]] };
        assert(lex_step(c4, lbt) == Ok::<(LexCore, Seq<TokenV>), StreamError>(
            (c5, Seq::empty()),
        ));
        lemma_lex_one(c4, l4, t[0]);
        let l5 = gloc_after_seq(l4, t0);
        crate::loc::lemma_locate_append(l4, t0, t1 + nl);
        lemma_lex_append(c4, locate(l4, t0), locate(l5, t1 + nl));
        assert(forall|i: int| 0 <= i < t1.len() ==> is_base64_char(#[trigger] t1[i])) by {
            assert(forall|i: int| 0 <= i < t1.len() ==> t1[i] == t[i + 1]);
        }
        lemma_lex_b64_chars(c5, l5, t1);
        let c6 = LexCore { seg: seq![t[0]] + t1, ..c5 };
        assert(c6.seg =~= t);
        let l6 = gloc_after_seq(l5, t1);
        crate::loc::lemma_locate_append(l5, t1, nl);
        lemma_lex_append(c5, locate(l5, t1), locate(l6, nl));
        let lbn = LocByte { loc: l6, byte: 0x0au8 };
        let c7 = LexCore { st: LexState::LineStart, seg: Seq::empty(), ..c6 };
        assert(lex_step(c6, lbn) == Ok::<(LexCore, Seq<TokenV>), StreamError>(
            (
                c7,
                seq![
                    tok(TokenKind::ValueBase64, l4, t),
                    tok(TokenKind::ValueFinish, l4, Seq::empty()),
                ],
            ),
        ));
        lemma_lex_one(c6, l6, 0x0au8);
        crate::base64::lemma_base64_roundtrip(value);
        match lex_run(lc, locate(l, line)) {
            Ok((cf, toks)) => {
                assert(toks =~= seq![
                    tok(TokenKind::AttributeType, l, attr),
                    tok(TokenKind::ValueBase64, l4, t),
                    tok(TokenKind::ValueFinish, l4, Seq::empty()),
                ]);
            },
            Err(_) => {
                assert(false);
            },
        }
    }
}

} // verus!
