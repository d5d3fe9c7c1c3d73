use vstd::prelude::*;

use crate::entry::{lower_byte, lower_bytes, spec_values, AttrV, Entry};

verus! {

/// One element of a substring pattern: a literal byte or `*`.
#[derive(Debug, PartialEq, Eq, Structural, Clone, Copy)]
pub enum GlobPart {
    Wildcard,
    Literal(u8),
}

/// The comparison of a simple filter.
#[derive(Debug, PartialEq, Eq, Structural, Clone, Copy)]
pub enum FilterType {
    Equal,
    Approx,
    GreaterOrEqual,
    LessOrEqual,
}

/// An attribute name as it stood in the filter, lowercased.
#[derive(Debug)]
pub struct AttributeDescription {
    pub attribute_type: Vec<u8>,
}

/// An LDAP search filter.
#[derive(Debug)]
pub enum Filter {
    And(Vec<Filter>),
    Or(Vec<Filter>),
    Not(Box<Filter>),
    Simple(AttributeDescription, FilterType, Vec<u8>),
    Present(AttributeDescription),
    Substring(AttributeDescription, Vec<GlobPart>),
}

/// Does the literal glob byte accept the value byte? The comparison is
/// case-insensitive on the value side.
pub open spec fn lit_accepts(gb: u8, vb: u8) -> bool {
    vb == gb || lower_byte(vb) == gb
}

/// Declarative glob matching: a literal consumes exactly its byte, a
/// wildcard consumes any run of bytes, including none.
pub open spec fn glob_matches(g: Seq<GlobPart>, v: Seq<u8>) -> bool
    decreases g.len() + v.len(),
{
    if g.len() == 0 {
        v.len() == 0
    } else {
        match g.last() {
            GlobPart::Literal(x) => v.len() > 0 && lit_accepts(x, v.last()) && glob_matches(
                g.drop_last(),
                v.drop_last(),
            ),
            GlobPart::Wildcard => glob_matches(g.drop_last(), v) || (v.len() > 0 && glob_matches(
                g,
                v.drop_last(),
            )),
        }
    }
}

/// Glob monotonicity: a glob that matches a value still matches it after a
/// wildcard is inserted anywhere in the pattern.
pub proof fn lemma_glob_wildcard_insert(g1: Seq<GlobPart>, g2: Seq<GlobPart>, v: Seq<u8>)
    requires
        glob_matches(g1 + g2, v),
    ensures
        glob_matches(g1 + seq![GlobPart::Wildcard] + g2, v),
    decreases g2.len() + v.len(),
{
    let g = g1 + g2;
    let gw = g1 + seq![GlobPart::Wildcard] + g2;
    if g2.len() == 0 {
        assert(g =~= g1);
        assert(gw.last() == GlobPart::Wildcard);
        assert(gw.drop_last() =~= g1);
    } else {
        assert(g.last() == g2.last());
        assert(gw.last() == g2.last());
        assert(g.drop_last() =~= g1 + g2.drop_last());
        assert(gw.drop_last() =~= g1 + seq![GlobPart::Wildcard] + g2.drop_last());
        match g2.last() {
            GlobPart::Literal(x) => {
                lemma_glob_wildcard_insert(g1, g2.drop_last(), v.drop_last());
            },
            GlobPart::Wildcard => {
                if glob_matches(g.drop_last(), v) {
                    lemma_glob_wildcard_insert(g1, g2.drop_last(), v);
                } else {
                    lemma_glob_wildcard_insert(g1, g2, v.drop_last());
                }
            },
        }
    }
}

/// Extending a matching prefix across a wildcard without consuming input.
proof fn lemma_gm_closure(g: Seq<GlobPart>, i: int, p: Seq<u8>)
    requires
        0 <= i < g.len(),
        g[i] is Wildcard,
    ensures
        glob_matches(g.take(i), p) ==> glob_matches(g.take(i + 1), p),
{
    if glob_matches(g.take(i), p) {
        assert(g.take(i + 1).last() == g[i]);
        assert(g.take(i + 1).drop_last() =~= g.take(i));
    }
}

/// How a matching prefix set advances over one input byte.
proof fn lemma_gm_step(g: Seq<GlobPart>, i: int, p: Seq<u8>, b: u8)
    requires
        0 <= i < g.len(),
    ensures
        glob_matches(g.take(i + 1), p.push(b)) == (match g[i] {
            GlobPart::Literal(x) => lit_accepts(x, b) && glob_matches(g.take(i), p),
            GlobPart::Wildcard => glob_matches(g.take(i), p.push(b)) || glob_matches(
                g.take(i + 1),
                p,
            ),
        }),
{
    assert(g.take(i + 1).last() == g[i]);
    assert(g.take(i + 1).drop_last() =~= g.take(i));
    assert(p.push(b).last() == b);
    assert(p.push(b).drop_last() =~= p);
    assert(p.push(b).len() > 0);
}

/// Tests a value against a glob, case-insensitively, by simulating the
/// pattern's nondeterministic automaton: a set of live positions in the
/// pattern is advanced over each input byte.
pub fn is_match(glob: &[GlobPart], value: &[u8]) -> (r: bool)
    ensures
        r == glob_matches(glob@, value@),
{
    let n = glob.len();
    let mut states: Vec<bool> = Vec::new();
    states.push(true);
    let mut k: usize = 0;
    while k < n
        invariant
            k <= n,
            n == glob@.len(),
            states@.len() == k + 1,
            states@[0],
            forall|i: int| 1 <= i <= k ==> !states@[i],
        decreases n - k,
    {
        states.push(false);
        k = k + 1;
    }
    proof {
        assert(glob@.take(0) =~= Seq::<GlobPart>::empty());
        assert(glob_matches(glob@.take(0), Seq::<u8>::empty()));
    }
    // epsilon closure of the start set
    let mut i: usize = 0;
    while i < n
        invariant
            i <= n,
            n == glob@.len(),
            states@.len() == n + 1,
            forall|j: int|
                0 <= j <= i ==> states@[j] == glob_matches(
                    glob@.take(j),
                    Seq::<u8>::empty(),
                ),
            forall|j: int|
                i < j <= n ==> states@[j] ==> glob_matches(glob@.take(j), Seq::<u8>::empty()),
        decreases n - i,
    {
        if states[i] {
            match glob[i] {
                GlobPart::Wildcard => {
                    proof {
                        lemma_gm_closure(glob@, i as int, Seq::<u8>::empty());
                    }
                    states.set(i + 1, true);
                },
                GlobPart::Literal(_) => {
                    proof {
                        lemma_gm_lit_step(glob@, i as int, Seq::<u8>::empty());
                    }
                },
            }
        } else {
            proof {
                lemma_gm_unfold(glob@, i as int, Seq::<u8>::empty());
            }
        }
        i = i + 1;
    }
    proof {
        assert(value@.take(0) =~= Seq::<u8>::empty());
    }
    let mut pos: usize = 0;
    while pos < value.len()
        invariant
            pos <= value@.len(),
            n == glob@.len(),
            states@.len() == n + 1,
            forall|j: int|
                0 <= j <= n ==> states@[j] == glob_matches(
                    glob@.take(j),
                    value@.take(pos as int),
                ),
        decreases value@.len() - pos,
    {
        let b = value[pos];
        let ghost p = value@.take(pos as int);
        proof {
            assert(value@.take(pos as int + 1) =~= p.push(value@[pos as int]));
        }
        let mut next: Vec<bool> = Vec::new();
        next.push(false);
        let mut k2: usize = 0;
        while k2 < n
            invariant
                k2 <= n,
                next@.len() == k2 + 1,
                forall|i2: int| 0 <= i2 <= k2 ==> !next@[i2],
            decreases n - k2,
        {
            next.push(false);
            k2 = k2 + 1;
        }
        // move over the byte, then take the epsilon closure
        let mut i2: usize = 0;
        while i2 < n
            invariant
                i2 <= n,
                n == glob@.len(),
                states@.len() == n + 1,
                next@.len() == n + 1,
                forall|j: int|
                    0 <= j <= n ==> states@[j] == glob_matches(glob@.take(j), p),
                !next@[0],
                forall|j: int|
                    1 <= j <= i2 ==> next@[j] == (match glob@[j - 1] {
                        GlobPart::Literal(x) => lit_accepts(x, b) && glob_matches(
                            glob@.take(j - 1),
                            p,
                        ),
                        GlobPart::Wildcard => glob_matches(glob@.take(j), p),
                    }),
                forall|j: int| i2 < j <= n ==> !next@[j],
            decreases n - i2,
        {
            match glob[i2] {
                GlobPart::Literal(x) => {
                    if states[i2] && (b == x || lower_exec(b) == x) {
                        next.set(i2 + 1, true);
                    }
                },
                GlobPart::Wildcard => {
                    if states[i2 + 1] {
                        next.set(i2 + 1, true);
                    }
                },
            }
            i2 = i2 + 1;
        }
        proof {
            assert(!glob_matches(glob@.take(0), p.push(b)));
        }
        let mut i3: usize = 0;
        while i3 < n
            invariant
                i3 <= n,
                n == glob@.len(),
                next@.len() == n + 1,
                pos < value@.len(),
                value@.take(pos as int) == p,
                b == value@[pos as int],
                forall|j: int|
                    0 <= j <= i3 ==> next@[j] == glob_matches(glob@.take(j), p.push(b)),
                forall|j: int|
                    i3 < j <= n ==> next@[j] == (match glob@[j - 1] {
                        GlobPart::Literal(x) => lit_accepts(x, b) && glob_matches(
                            glob@.take(j - 1),
                            p,
                        ),
                        GlobPart::Wildcard => glob_matches(glob@.take(j), p),
                    }),
            decreases n - i3,
        {
            proof {
                lemma_gm_step(glob@, i3 as int, p, b);
            }
            match glob[i3] {
                GlobPart::Wildcard => {
                    if next[i3] {
                        next.set(i3 + 1, true);
                    }
                },
                GlobPart::Literal(_) => {},
            }
            i3 = i3 + 1;
        }
        states = next;
        pos = pos + 1;
    }
    proof {
        assert(value@.take(value@.len() as int) =~= value@);
        assert(glob@.take(n as int) =~= glob@);
    }
    states[n]
}

/// A literal prefix cannot match without input.
proof fn lemma_gm_lit_step(g: Seq<GlobPart>, i: int, p: Seq<u8>)
    requires
        0 <= i < g.len(),
        g[i] is Literal,
        p.len() == 0,
    ensures
        !glob_matches(g.take(i + 1), p),
{
    assert(g.take(i + 1).last() == g[i]);
}

/// Unfolding one prefix step.
proof fn lemma_gm_unfold(g: Seq<GlobPart>, i: int, p: Seq<u8>)
    requires
        0 <= i < g.len(),
        p.len() == 0,
        !glob_matches(g.take(i), p),
    ensures
        !glob_matches(g.take(i + 1), p),
{
    assert(g.take(i + 1).last() == g[i]);
    assert(g.take(i + 1).drop_last() =~= g.take(i));
}

/// ASCII lowercase of one byte.
pub fn lower_exec(c: u8) -> (r: u8)
    ensures
        r == lower_byte(c),
{
    if 0x41u8 <= c && c <= 0x5au8 {
        c + 32
    } else {
        c
    }
}

/// Does the filter accept the entry?
pub open spec fn filter_matches(f: Filter, e: Seq<AttrV>) -> bool
    decreases f,
{
    match f {
        Filter::And(fs) => forall|i: int|
            0 <= i < fs@.len() ==> filter_matches(#[trigger] fs@[i], e),
        Filter::Or(fs) => exists|i: int|
            0 <= i < fs@.len() && filter_matches(#[trigger] fs@[i], e),
        Filter::Not(inner) => !filter_matches(*inner, e),
        Filter::Present(a) => spec_values(e, lower_bytes(a.attribute_type@)).len() > 0,
        Filter::Simple(a, t, fv) => (t is Equal || t is Approx) && exists|i: int|
            0 <= i < spec_values(e, lower_bytes(a.attribute_type@)).len() && lower_bytes(
                #[trigger] spec_values(e, lower_bytes(a.attribute_type@))[i],
            ) == fv@,
        Filter::Substring(a, g) => exists|i: int|
            0 <= i < spec_values(e, lower_bytes(a.attribute_type@)).len() && glob_matches(
                g@,
                #[trigger] spec_values(e, lower_bytes(a.attribute_type@))[i],
            ),
    }
}

impl Filter {
    /// Decides whether the entry matches. The `>=` and `<=` comparators
    /// have no semantics in this toolkit and accept nothing.
    pub fn is_match(&self, entry: &Entry) -> (r: bool)
        ensures
            r == filter_matches(*self, entry@),
        decreases *self,
    {
        match self {
            Filter::And(filters) => {
                let mut i: usize = 0;
                while i < filters.len()
                    invariant
                        i <= filters@.len(),
                        (*self) is And,
                        (*self)->And_0 == *filters,
                        forall|j: int|
                            0 <= j < i ==> filter_matches(#[trigger] filters@[j], entry@),
                    decreases filters@.len() - i,
                {
                    proof {
                        let ghost fv = *self;
                        let ghost fsv = *filters;
                        vstd::std_specs::vec::axiom_vec_index_decreases(fsv, i as int);
                        assert(decreases_to!(fv => fv->And_0));
                        assert(decreases_to!(*self => filters@[i as int]));
                    }
                    if !filters[i].is_match(entry) {
                        return false;
                    }
                    i = i + 1;
                }
                true
            },
            Filter::Or(filters) => {
                let mut i: usize = 0;
                while i < filters.len()
                    invariant
                        i <= filters@.len(),
                        (*self) is Or,
                        (*self)->Or_0 == *filters,
                        forall|j: int|
                            0 <= j < i ==> !filter_matches(#[trigger] filters@[j], entry@),
                    decreases filters@.len() - i,
                {
                    proof {
                        let ghost fv = *self;
                        let ghost fsv = *filters;
                        vstd::std_specs::vec::axiom_vec_index_decreases(fsv, i as int);
                        assert(decreases_to!(fv => fv->Or_0));
                        assert(decreases_to!(*self => filters@[i as int]));
                    }
                    if filters[i].is_match(entry) {
                        return true;
                    }
                    i = i + 1;
                }
                false
            },
            Filter::Not(inner) => !inner.is_match(entry),
            Filter::Present(attrdesc) => {
                let vs = entry.get(attrdesc.attribute_type.as_slice());
                proof {
                    assert(vs@.map_values(|v: Vec<u8>| v@).len() == vs@.len());
                }
                vs.len() != 0
            },
            Filter::Simple(attrdesc, filtertype, filtervalue) => {
                let applicable = match filtertype {
                    FilterType::Equal | FilterType::Approx => true,
                    FilterType::GreaterOrEqual | FilterType::LessOrEqual => false,
                };
                if !applicable {
                    return false;
                }
                let vs = entry.get(attrdesc.attribute_type.as_slice());
                let ghost svs = spec_values(entry@, lower_bytes(attrdesc.attribute_type@));
                let mut i: usize = 0;
                while i < vs.len()
                    invariant
                        i <= vs@.len(),
                        vs@.map_values(|v: Vec<u8>| v@) == svs,
                        filter_matches(*self, entry@) == (exists|j: int|
                            0 <= j < svs.len() && lower_bytes(#[trigger] svs[j])
                                == filtervalue@),
                        forall|j: int| 0 <= j < i ==> lower_bytes(#[trigger] svs[j]) != filtervalue@,
                    decreases vs@.len() - i,
                {
                    let lowered = crate::entry::to_lower(vs[i].as_slice());
                    if crate::entry::bytes_eq(lowered.as_slice(), filtervalue.as_slice()) {
                        proof {
                            assert(svs[i as int] == vs@[i as int]@);
                            assert(lower_bytes(svs[i as int]) == filtervalue@);
                        }
                        return true;
                    }
                    proof {
                        assert(svs[i as int] == vs@[i as int]@);
                    }
                    i = i + 1;
                }
                false
            },
            Filter::Substring(attrdesc, glob) => {
                let vs = entry.get(attrdesc.attribute_type.as_slice());
                let ghost svs = spec_values(entry@, lower_bytes(attrdesc.attribute_type@));
                let mut i: usize = 0;
                while i < vs.len()
                    invariant
                        i <= vs@.len(),
                        vs@.map_values(|v: Vec<u8>| v@) == svs,
                        filter_matches(*self, entry@) == (exists|j: int|
                            0 <= j < svs.len() && glob_matches(glob@, #[trigger] svs[j])),
                        forall|j: int| 0 <= j < i ==> !glob_matches(glob@, #[trigger] svs[j]),
                    decreases vs@.len() - i,
                {
                    if is_match(glob.as_slice(), vs[i].as_slice()) {
                        proof {
                            assert(svs[i as int] == vs@[i as int]@);
                        }
                        return true;
                    }
                    proof {
                        assert(svs[i as int] == vs@[i as int]@);
                    }
                    i = i + 1;
                }
                false
            },
        }
    }
}

/// Where filter parsing stalled.
#[derive(Debug, PartialEq, Eq, Structural, Clone, Copy)]
pub struct FilterParseError {
    pub at: usize,
}

/// Hex digit value, if any.
fn hex_val(c: u8) -> (r: Option<u8>)
    ensures
        r is Some ==> r->0 < 16,
{
    if 0x30u8 <= c && c <= 0x39u8 {
        Some(c - 0x30u8)
    } else if 0x61u8 <= c && c <= 0x66u8 {
        Some(c - 0x61u8 + 10)
    } else if 0x41u8 <= c && c <= 0x46u8 {
        Some(c - 0x41u8 + 10)
    } else {
        None
    }
}

fn is_alpha_byte(c: u8) -> (r: bool)
    ensures
        r == ((0x41u8 <= c && c <= 0x5au8) || (0x61u8 <= c && c <= 0x7au8)),
{
    (0x41u8 <= c && c <= 0x5au8) || (0x61u8 <= c && c <= 0x7au8)
}

fn is_alnum_dash(c: u8) -> bool {
    (0x41u8 <= c && c <= 0x5au8) || (0x61u8 <= c && c <= 0x7au8) || (0x30u8 <= c && c <= 0x39u8)
        || c == 0x2du8
}

/// One parenthesised filter starting at `pos`. On success the returned
/// position stands just past the closing parenthesis.
fn parse_filter_at(s: &[u8], pos: usize) -> (r: Result<(Filter, usize), usize>)
    ensures
        r is Ok ==> pos < r->Ok_0.1 <= s@.len(),
    decreases s@.len() - pos,
{
    let n = s.len();
    if pos >= n || s[pos] != 0x28u8 {
        return Err(pos);
    }
    let mut i = pos + 1;
    if i >= n {
        return Err(i);
    }
    let c = s[i];
    if c == 0x26u8 || c == 0x7cu8 {
        // a conjunction or disjunction of at least one sub-filter
        let is_and = c == 0x26u8;
        let mut subs: Vec<Filter> = Vec::new();
        i = i + 1;
        match parse_filter_at(s, i) {
            Ok((f, p2)) => {
                subs.push(f);
                i = p2;
            },
            Err(e) => {
                return Err(e);
            },
        }
        while i < n && s[i] == 0x28u8
            invariant
                n == s@.len(),
                i <= n,
                pos < i,
            decreases n - i,
        {
            match parse_filter_at(s, i) {
                Ok((f, p2)) => {
                    subs.push(f);
                    i = p2;
                },
                Err(e) => {
                    return Err(e);
                },
            }
        }
        if i < n && s[i] == 0x29u8 {
            if is_and {
                Ok((Filter::And(subs), i + 1))
            } else {
                Ok((Filter::Or(subs), i + 1))
            }
        } else {
            Err(i)
        }
    } else if c == 0x21u8 {
        match parse_filter_at(s, i + 1) {
            Ok((f, p2)) => {
                if p2 < n && s[p2] == 0x29u8 {
                    Ok((Filter::Not(Box::new(f)), p2 + 1))
                } else {
                    Err(p2)
                }
            },
            Err(e) => Err(e),
        }
    } else if is_alpha_byte(c) {
        // attribute type, lowercased
        let mut name: Vec<u8> = Vec::new();
        name.push(lower_exec(c));
        i = i + 1;
        while i < n && is_alnum_dash(s[i])
            invariant
                n == s@.len(),
                i <= n,
                i > pos,
            decreases n - i,
        {
            name.push(lower_exec(s[i]));
            i = i + 1;
        }
        if i >= n {
            return Err(i);
        }
        // comparator
        let ftype: FilterType;
        if s[i] == 0x3du8 {
            ftype = FilterType::Equal;
            i = i + 1;
        } else if s[i] == 0x7eu8 && i + 1 < n && s[i + 1] == 0x3du8 {
            ftype = FilterType::Approx;
            i = i + 2;
        } else if s[i] == 0x3eu8 && i + 1 < n && s[i + 1] == 0x3du8 {
            ftype = FilterType::GreaterOrEqual;
            i = i + 2;
        } else if s[i] == 0x3cu8 && i + 1 < n && s[i + 1] == 0x3du8 {
            ftype = FilterType::LessOrEqual;
            i = i + 2;
        } else {
            return Err(i);
        }
        // assertion value: literals, hex escapes and wildcards, lowercased
        let mut parts: Vec<GlobPart> = Vec::new();
        let mut sawstar = false;
        while i < n && s[i] != 0x29u8
            invariant
                n == s@.len(),
                i <= n,
                i > pos,
            decreases n - i,
        {
            let b = s[i];
            if b == 0x2au8 {
                parts.push(GlobPart::Wildcard);
                sawstar = true;
                i = i + 1;
            } else if b == 0x5cu8 {
                if n - i > 2 {
                    let h1 = hex_val(s[i + 1]);
                    let h2 = hex_val(s[i + 2]);
                    match (h1, h2) {
                        (Some(v1), Some(v2)) => {
                            parts.push(GlobPart::Literal(lower_exec(v1 * 16 + v2)));
                            i = i + 3;
                        },
                        _ => {
                            return Err(i);
                        },
                    }
                } else {
                    return Err(i);
                }
            } else if b == 0x00u8 || b == 0x28u8 || b == 0x1bu8 {
                return Err(i);
            } else {
                parts.push(GlobPart::Literal(lower_exec(b)));
                i = i + 1;
            }
        }
        if i >= n {
            return Err(i);
        }
        // s[i] == ')'
        if sawstar {
            match ftype {
                FilterType::Equal => {},
                _ => {
                    return Err(i);
                },
            }
            if parts.len() == 1 {
                return Ok(
                    (Filter::Present(AttributeDescription { attribute_type: name }), i + 1),
                );
            }
            Ok((Filter::Substring(AttributeDescription { attribute_type: name }, parts), i + 1))
        } else {
            let mut value: Vec<u8> = Vec::new();
            let mut k: usize = 0;
            while k < parts.len()
                invariant
                    k <= parts@.len(),
                decreases parts@.len() - k,
            {
                match parts[k] {
                    GlobPart::Literal(x) => {
                        value.push(x);
                    },
                    GlobPart::Wildcard => {},
                }
                k = k + 1;
            }
            Ok(
                (
                    Filter::Simple(AttributeDescription { attribute_type: name }, ftype, value),
                    i + 1,
                ),
            )
        }
    } else {
        Err(i)
    }
}

impl Filter {
    /// Parses an LDAP search filter. The whole input, up to trailing
    /// whitespace, must be consumed.
    pub fn parse(s: &str) -> (r: Result<Filter, FilterParseError>) {
        let bytes = s.as_bytes();
        match parse_filter_at(bytes, 0) {
            Ok((f, p)) => {
                let mut i = p;
                while i < bytes.len() && (bytes[i] == 0x20u8 || bytes[i] == 0x09u8 || bytes[i]
                    == 0x0au8 || bytes[i] == 0x0du8)
                    invariant
                        i <= bytes@.len(),
                    decreases bytes@.len() - i,
                {
                    i = i + 1;
                }
                if i == bytes.len() {
                    Ok(f)
                } else {
                    Err(FilterParseError { at: i })
                }
            },
            Err(e) => Err(FilterParseError { at: e }),
        }
    }
}

} // verus!
