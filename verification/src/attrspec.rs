use vstd::prelude::*;

use crate::base64::enc_output;
use crate::entry::{lower_bytes, to_lower};
use vstd::string::StringSliceAdditionalSpecFns;

verus! {

/// The lowercase hex digit for four bits.
pub open spec fn hex_digit(v: u8) -> u8 {
    if v < 10 {
        (0x30u8 + v) as u8
    } else {
        (0x61u8 + (v - 10)) as u8
    }
}

/// A byte string rendered as two lowercase hex digits per byte.
pub open spec fn hex_bytes(s: Seq<u8>) -> Seq<u8>
    decreases s.len(),
{
    if s.len() == 0 {
        Seq::empty()
    } else {
        seq![hex_digit(s[0] / 16), hex_digit((s[0] % 16) as u8)] + hex_bytes(s.drop_first())
    }
}

/// One step of a value filter chain.
pub enum ValueFilter {
    /// Replaces an empty value list with these defaults.
    NullCoalesce(Vec<Vec<u8>>),
    /// Base64-encodes each value.
    Base64,
    /// Renders each value byte as two lowercase hex digits.
    Hex,
}

/// What one filter makes of a value list.
pub open spec fn vf_apply(f: ValueFilter, vs: Seq<Seq<u8>>) -> Seq<Seq<u8>> {
    match f {
        ValueFilter::NullCoalesce(ds) => if vs.len() == 0 {
            ds@.map_values(|d: Vec<u8>| d@)
        } else {
            vs
        },
        ValueFilter::Base64 => vs.map_values(|v: Seq<u8>| enc_output(v)),
        ValueFilter::Hex => vs.map_values(|v: Seq<u8>| hex_bytes(v)),
    }
}

/// What a filter chain makes of a value list, applied in order.
pub open spec fn spec_filter_values(fs: Seq<ValueFilter>, vs: Seq<Seq<u8>>) -> Seq<Seq<u8>>
    decreases fs.len(),
{
    if fs.len() == 0 {
        vs
    } else {
        spec_filter_values(fs.drop_first(), vf_apply(fs[0], vs))
    }
}

impl ValueFilter {
    /// Applies this one filter.
    pub fn filter_values(&self, values: Vec<Vec<u8>>) -> (r: Vec<Vec<u8>>)
        ensures
            r@.map_values(|v: Vec<u8>| v@) == vf_apply(*self, values@.map_values(|v: Vec<u8>| v@)),
    {
        match self {
            ValueFilter::NullCoalesce(defaults) => {
                if values.len() == 0 {
                    let mut out: Vec<Vec<u8>> = Vec::new();
                    let mut i: usize = 0;
                    while i < defaults.len()
                        invariant
                            i <= defaults@.len(),
                            out@.map_values(|v: Vec<u8>| v@) == defaults@.map_values(
                                |d: Vec<u8>| d@,
                            ).take(i as int),
                        decreases defaults@.len() - i,
                    {
                        let ghost prev = out@;
                        let c = crate::entry::clone_vec_u8(&defaults[i]);
                        let ghost cv = c@;
                        out.push(c);
                        proof {
                            assert(out@.map_values(|v: Vec<u8>| v@) =~= prev.map_values(
                                |v: Vec<u8>| v@,
                            ).push(cv));
                            assert(defaults@.map_values(|d: Vec<u8>| d@).take(i as int + 1)
                                =~= defaults@.map_values(|d: Vec<u8>| d@).take(i as int).push(
                                defaults@[i as int]@,
                            ));
                        }
                        i = i + 1;
                    }
                    proof {
                        assert(defaults@.map_values(|d: Vec<u8>| d@).take(defaults@.len() as int)
                            =~= defaults@.map_values(|d: Vec<u8>| d@));
                        assert(values@.map_values(|v: Vec<u8>| v@).len() == 0);
                    }
                    out
                } else {
                    proof {
                        assert(values@.map_values(|v: Vec<u8>| v@).len() > 0);
                    }
                    values
                }
            },
            ValueFilter::Base64 => {
                let mut out: Vec<Vec<u8>> = Vec::new();
                let mut i: usize = 0;
                while i < values.len()
                    invariant
                        i <= values@.len(),
                        out@.map_values(|v: Vec<u8>| v@) == values@.map_values(
                            |v: Vec<u8>| v@,
                        ).map_values(|v: Seq<u8>| enc_output(v)).take(i as int),
                    decreases values@.len() - i,
                {
                    let ghost prev = out@;
                    let mut enc = crate::base64::EncodeWriter::new(Vec::new());
                    match enc.write(values[i].as_slice()) {
                        Ok(_) => {},
                        Err(_) => {
                            proof {
                                assert(false);
                            }
                        },
                    }
                    match enc.flush() {
                        Ok(_) => {},
                        Err(_) => {
                            proof {
                                assert(false);
                            }
                        },
                    }
                    let e = enc.into_inner();
                    let ghost ev = e@;
                    out.push(e);
                    proof {
                        assert(ev =~= enc_output(values@[i as int]@));
                        assert(out@.map_values(|v: Vec<u8>| v@) =~= prev.map_values(
                            |v: Vec<u8>| v@,
                        ).push(ev));
                        let m = values@.map_values(|v: Vec<u8>| v@).map_values(
                            |v: Seq<u8>| enc_output(v),
                        );
                        assert(m.take(i as int + 1) =~= m.take(i as int).push(m[i as int]));
                    }
                    i = i + 1;
                }
                proof {
                    let m = values@.map_values(|v: Vec<u8>| v@).map_values(
                        |v: Seq<u8>| enc_output(v),
                    );
                    assert(m.take(values@.len() as int) =~= m);
                }
                out
            },
            ValueFilter::Hex => {
                let mut out: Vec<Vec<u8>> = Vec::new();
                let mut i: usize = 0;
                while i < values.len()
                    invariant
                        i <= values@.len(),
                        out@.map_values(|v: Vec<u8>| v@) == values@.map_values(
                            |v: Vec<u8>| v@,
                        ).map_values(|v: Seq<u8>| hex_bytes(v)).take(i as int),
                    decreases values@.len() - i,
                {
                    let ghost prev = out@;
                    let h = hex_render(values[i].as_slice());
                    let ghost hv = h@;
                    out.push(h);
                    proof {
                        assert(out@.map_values(|v: Vec<u8>| v@) =~= prev.map_values(
                            |v: Vec<u8>| v@,
                        ).push(hv));
                        let m = values@.map_values(|v: Vec<u8>| v@).map_values(
                            |v: Seq<u8>| hex_bytes(v),
                        );
                        assert(m.take(i as int + 1) =~= m.take(i as int).push(m[i as int]));
                    }
                    i = i + 1;
                }
                proof {
                    let m = values@.map_values(|v: Vec<u8>| v@).map_values(
                        |v: Seq<u8>| hex_bytes(v),
                    );
                    assert(m.take(values@.len() as int) =~= m);
                }
                out
            },
        }
    }
}

/// Renders a byte string as lowercase hex.
pub fn hex_render(v: &[u8]) -> (r: Vec<u8>)
    ensures
        r@ == hex_bytes(v@),
{
    let mut out: Vec<u8> = Vec::new();
    let mut i: usize = 0;
    proof {
        assert(v@.skip(0) =~= v@);
        assert(out@ + hex_bytes(v@.skip(0)) =~= hex_bytes(v@));
    }
    while i < v.len()
        invariant
            i <= v@.len(),
            out@ + hex_bytes(v@.skip(i as int)) == hex_bytes(v@),
        decreases v@.len() - i,
    {
        let c = v[i];
        let hi = c / 16;
        let lo = c % 16;
        let d1: u8 = if hi < 10 {
            0x30u8 + hi
        } else {
            0x61u8 + (hi - 10)
        };
        let d2: u8 = if lo < 10 {
            0x30u8 + lo
        } else {
            0x61u8 + (lo - 10)
        };
        let ghost pre = out@;
        out.push(d1);
        out.push(d2);
        proof {
            let sfx = v@.skip(i as int);
            assert(sfx[0] == v@[i as int]);
            assert(sfx.drop_first() =~= v@.skip(i as int + 1));
            assert(hex_bytes(sfx) == seq![
                hex_digit(sfx[0] / 16),
                hex_digit((sfx[0] % 16) as u8),
            ] + hex_bytes(sfx.drop_first()));
            assert(out@ =~= pre.push(d1).push(d2));
            assert(out@ + hex_bytes(v@.skip(i as int + 1)) =~= pre + hex_bytes(sfx));
        }
        i = i + 1;
    }
    proof {
        assert(v@.skip(v@.len() as int) =~= Seq::<u8>::empty());
        assert(hex_bytes(v@.skip(v@.len() as int)) =~= Seq::<u8>::empty());
        assert(out@ + Seq::<u8>::empty() =~= out@);
    }
    out
}

/// A value filter, in the contracts' view.
pub enum FilterV {
    Coalesce(Seq<Seq<u8>>),
    Base64,
    Hex,
}

/// The view of one value filter.
pub open spec fn vf_view(f: ValueFilter) -> FilterV {
    match f {
        ValueFilter::NullCoalesce(ds) => FilterV::Coalesce(ds@.map_values(|d: Vec<u8>| d@)),
        ValueFilter::Base64 => FilterV::Base64,
        ValueFilter::Hex => FilterV::Hex,
    }
}

/// Where the attribute name token ends: the first position from `k` on
/// holding neither a letter, digit, `-` nor `_`.
pub open spec fn name_token_end(s: Seq<u8>, k: int) -> int
    decreases s.len() - k,
{
    if k < 0 || k >= s.len() {
        s.len() as int
    } else if (0x41u8 <= s[k] && s[k] <= 0x5au8) || (0x61u8 <= s[k] && s[k] <= 0x7au8) || (0x30u8
        <= s[k] && s[k] <= 0x39u8) || s[k] == 0x2du8 || s[k] == 0x5fu8 {
        name_token_end(s, k + 1)
    } else {
        k
    }
}

/// Where the OID token ends: digits, and dots directly followed by a
/// digit.
pub open spec fn oid_token_end(s: Seq<u8>, k: int) -> int
    decreases s.len() - k,
{
    if k < 0 || k >= s.len() {
        s.len() as int
    } else if 0x30u8 <= s[k] && s[k] <= 0x39u8 {
        oid_token_end(s, k + 1)
    } else if s[k] == 0x2eu8 && k + 1 < s.len() && 0x30u8 <= s[k + 1] && s[k + 1] <= 0x39u8 {
        oid_token_end(s, k + 1)
    } else {
        k
    }
}

/// Where the attribute token of the whole specification ends, or nothing
/// when the input does not open with a name or an OID.
pub open spec fn attr_token_end(s: Seq<u8>) -> Option<int> {
    if s.len() == 0 {
        None
    } else if (0x41u8 <= s[0] && s[0] <= 0x5au8) || (0x61u8 <= s[0] && s[0] <= 0x7au8) {
        Some(name_token_end(s, 1))
    } else if 0x30u8 <= s[0] && s[0] <= 0x39u8 {
        Some(oid_token_end(s, 1))
    } else {
        None
    }
}

/// The filter chain a suffix stands for: a run of `.base64` and `.hex`,
/// optionally closed by `:-` with one default value, or nothing when the
/// suffix follows no such grammar.
pub open spec fn spec_filter_chain(s: Seq<u8>) -> Option<Seq<FilterV>>
    decreases s.len(),
{
    if s.len() == 0 {
        Some(Seq::empty())
    } else if s.len() >= 2 && s[0] == 0x3au8 && s[1] == 0x2du8 {
        Some(seq![FilterV::Coalesce(seq![s.skip(2)])])
    } else if s.len() >= 7 && s.subrange(0, 7) == seq![
        0x2eu8,
        0x62u8,
        0x61u8,
        0x73u8,
        0x65u8,
        0x36u8,
        0x34u8,
    ] {
        match spec_filter_chain(s.skip(7)) {
            Some(c) => Some(seq![FilterV::Base64] + c),
            None => None,
        }
    } else if s.len() >= 4 && s.subrange(0, 4) == seq![0x2eu8, 0x68u8, 0x65u8, 0x78u8] {
        match spec_filter_chain(s.skip(4)) {
            Some(c) => Some(seq![FilterV::Hex] + c),
            None => None,
        }
    } else {
        None
    }
}

/// Does the whole input follow the attribute-specification grammar?
pub open spec fn spec_grammar_ok(s: Seq<u8>) -> bool {
    match attr_token_end(s) {
        Some(e) => spec_filter_chain(s.skip(e)) is Some,
        None => false,
    }
}

/// Where attribute-spec parsing stalled.
#[derive(Debug, PartialEq, Eq, Structural, Clone, Copy)]
pub struct SpecParseError {
    pub at: usize,
}

/// A selected attribute with an ordered chain of value filters:
/// `attribute(.base64|.hex)*(:-default)?`.
pub struct AttrSpec {
    pub attribute: Vec<u8>,
    pub attribute_lowercase: Vec<u8>,
    pub value_filters: Vec<ValueFilter>,
}

impl AttrSpec {
    /// Parses an attribute specification. The attribute may be a name or an
    /// OID; `.base64` and `.hex` encode values, and `:-` supplies one
    /// default value used when the value list is empty. Succeeds exactly on
    /// the grammar `attribute(.base64|.hex)*(:-default)?`.
    pub fn parse(input: &str) -> (r: Result<AttrSpec, SpecParseError>)
        ensures
            (r is Ok) <==> spec_grammar_ok(input.spec_bytes()),
            r is Ok ==> (match attr_token_end(input.spec_bytes()) {
                Some(e) => r->Ok_0.attribute@ == input.spec_bytes().take(e)
                    && r->Ok_0.attribute_lowercase@ == lower_bytes(r->Ok_0.attribute@) && Some(
                    r->Ok_0.value_filters@.map_values(|f: ValueFilter| vf_view(f)),
                ) == spec_filter_chain(input.spec_bytes().skip(e)),
                None => false,
            }),
    {
        let s = input.as_bytes();
        let n = s.len();
        if n == 0 {
            return Err(SpecParseError { at: 0 });
        }
        let mut i: usize = 0;
        let c0 = s[0];
        let isalpha = (0x41u8 <= c0 && c0 <= 0x5au8) || (0x61u8 <= c0 && c0 <= 0x7au8);
        let isdigit = 0x30u8 <= c0 && c0 <= 0x39u8;
        if isalpha {
            i = 1;
            while i < n && ((0x41u8 <= s[i] && s[i] <= 0x5au8) || (0x61u8 <= s[i] && s[i]
                <= 0x7au8) || (0x30u8 <= s[i] && s[i] <= 0x39u8) || s[i] == 0x2du8 || s[i]
                == 0x5fu8)
                invariant
                    1 <= i <= n,
                    n == s@.len(),
                    name_token_end(s@, i as int) == name_token_end(s@, 1),
                decreases n - i,
            {
                i = i + 1;
            }
            proof {
                assert(name_token_end(s@, i as int) == i as int);
            }
        } else if isdigit {
            i = 1;
            while i < n && ((0x30u8 <= s[i] && s[i] <= 0x39u8) || (s[i] == 0x2eu8 && i + 1 < n
                && 0x30u8 <= s[i + 1] && s[i + 1] <= 0x39u8))
                invariant
                    1 <= i <= n,
                    n == s@.len(),
                    oid_token_end(s@, i as int) == oid_token_end(s@, 1),
                decreases n - i,
            {
                i = i + 1;
            }
            proof {
                assert(oid_token_end(s@, i as int) == i as int);
            }
        } else {
            proof {
                assert(attr_token_end(s@) is None);
            }
            return Err(SpecParseError { at: 0 });
        }
        let ghost e = i as int;
        proof {
            assert(attr_token_end(s@) == Some(e));
        }
        let attribute = crate::entry::slice_to_vec_pub(s, 0, i);
        proof {
            assert(attribute@ =~= s@.take(e));
        }
        let attribute_lowercase = to_lower(attribute.as_slice());
        let mut value_filters: Vec<ValueFilter> = Vec::new();
        proof {
            assert(value_filters@.map_values(|f: ValueFilter| vf_view(f))
                =~= Seq::<FilterV>::empty());
            match spec_filter_chain(s@.skip(e)) {
                Some(c) => {
                    assert(Seq::<FilterV>::empty() + c =~= c);
                },
                None => {},
            }
        }
        while i < n
            invariant
                e <= i <= n,
                n == s@.len(),
                s@ == input.spec_bytes(),
                attr_token_end(s@) == Some(e),
                attribute@ == s@.take(e),
                attribute_lowercase@ == lower_bytes(attribute@),
                (match spec_filter_chain(s@.skip(i as int)) {
                    Some(c) => spec_filter_chain(s@.skip(e)) == Some(
                        value_filters@.map_values(|f: ValueFilter| vf_view(f)) + c,
                    ),
                    None => spec_filter_chain(s@.skip(e)) is None,
                }),
            decreases n - i,
        {
            let ghost sfx = s@.skip(i as int);
            let ghost prefil = value_filters@.map_values(|f: ValueFilter| vf_view(f));
            proof {
                assert(sfx.len() == n - i);
                assert(forall|q: int| 0 <= q < sfx.len() ==> sfx[q] == s@[i + q]);
            }
            if s[i] == 0x3au8 {
                // ":-" followed by one default value, which ends the spec
                if i + 1 < n && s[i + 1] == 0x2du8 {
                    let d = crate::entry::slice_to_vec_pub(s, i + 2, n);
                    let ghost dv = d@;
                    let mut ds: Vec<Vec<u8>> = Vec::new();
                    ds.push(d);
                    let f = ValueFilter::NullCoalesce(ds);
                    let ghost fv = vf_view(f);
                    value_filters.push(f);
                    proof {
                        assert(sfx.skip(2) =~= s@.skip(i + 2));
                        assert(dv =~= sfx.skip(2));
                        assert(fv == FilterV::Coalesce(seq![sfx.skip(2)])) by {
                            assert(ds@.map_values(|x: Vec<u8>| x@) =~= seq![dv]);
                        }
                        assert(spec_filter_chain(sfx) == Some(seq![fv]));
                        assert(value_filters@.map_values(|x: ValueFilter| vf_view(x))
                            =~= prefil.push(fv));
                        assert(prefil.push(fv) =~= prefil + seq![fv]);
                        assert(spec_grammar_ok(s@));
                    }
                    return Ok(AttrSpec { attribute, attribute_lowercase, value_filters });
                }
                proof {
                    assert(spec_filter_chain(sfx) is None);
                }
                return Err(SpecParseError { at: i });
            } else if s[i] == 0x2eu8 {
                // ".base64" or ".hex"
                let b64: [u8; 7] = [0x2e, 0x62, 0x61, 0x73, 0x65, 0x36, 0x34];
                let hx: [u8; 4] = [0x2e, 0x68, 0x65, 0x78];
                proof {
                    assert(s@.len() == n);
                }
                if n - i >= 7 && slice_eq_at(s, i, &b64) {
                    let ghost fv = FilterV::Base64;
                    value_filters.push(ValueFilter::Base64);
                    proof {
                        assert(sfx.subrange(0, 7) =~= s@.subrange(i as int, i + 7));
                        assert(sfx.subrange(0, 7) =~= b64@);
                        assert(b64@ =~= seq![
                            0x2eu8, 0x62u8, 0x61u8, 0x73u8, 0x65u8, 0x36u8, 0x34u8,
                        ]);
                        assert(sfx.skip(7) =~= s@.skip(i + 7));
                        assert(value_filters@.map_values(|x: ValueFilter| vf_view(x))
                            =~= prefil.push(fv));
                        match spec_filter_chain(s@.skip(i + 7)) {
                            Some(c) => {
                                assert(spec_filter_chain(sfx) == Some(seq![fv] + c));
                                assert(prefil.push(fv) + c =~= prefil + (seq![fv] + c));
                            },
                            None => {
                                assert(spec_filter_chain(sfx) is None);
                            },
                        }
                    }
                    i = i + 7;
                } else if n - i >= 4 && slice_eq_at(s, i, &hx) {
                    let ghost fv = FilterV::Hex;
                    value_filters.push(ValueFilter::Hex);
                    proof {
                        assert(sfx.subrange(0, 4) =~= s@.subrange(i as int, i + 4));
                        assert(sfx.subrange(0, 4) =~= hx@);
                        assert(hx@ =~= seq![0x2eu8, 0x68u8, 0x65u8, 0x78u8]);
                        if sfx.len() >= 7 && sfx.subrange(0, 7) =~= seq![
                            0x2eu8, 0x62u8, 0x61u8, 0x73u8, 0x65u8, 0x36u8, 0x34u8,
                        ] {
                            assert(sfx.subrange(0, 7)[1] == sfx[1]);
                            assert(sfx[1] == 0x68u8);
                            assert(false);
                        }
                        assert(sfx.skip(4) =~= s@.skip(i + 4));
                        assert(value_filters@.map_values(|x: ValueFilter| vf_view(x))
                            =~= prefil.push(fv));
                        match spec_filter_chain(s@.skip(i + 4)) {
                            Some(c) => {
                                assert(spec_filter_chain(sfx) == Some(seq![fv] + c));
                                assert(prefil.push(fv) + c =~= prefil + (seq![fv] + c));
                            },
                            None => {
                                assert(spec_filter_chain(sfx) is None);
                            },
                        }
                    }
                    i = i + 4;
                } else {
                    proof {
                        if n - i >= 7 {
                            assert(s@.subrange(i as int, i + 7) != b64@);
                            assert(sfx.subrange(0, 7) =~= s@.subrange(i as int, i + 7));
                            if sfx.subrange(0, 7) == seq![
                                0x2eu8, 0x62u8, 0x61u8, 0x73u8, 0x65u8, 0x36u8, 0x34u8,
                            ] {
                                assert(sfx.subrange(0, 7) =~= b64@);
                            }
                        }
                        if n - i >= 4 {
                            assert(s@.subrange(i as int, i + 4) != hx@);
                            assert(sfx.subrange(0, 4) =~= s@.subrange(i as int, i + 4));
                            if sfx.subrange(0, 4) == seq![0x2eu8, 0x68u8, 0x65u8, 0x78u8] {
                                assert(sfx.subrange(0, 4) =~= hx@);
                            }
                        }
                        assert(spec_filter_chain(sfx) is None);
                    }
                    return Err(SpecParseError { at: i });
                }
            } else {
                proof {
                    assert(spec_filter_chain(sfx) is None);
                }
                return Err(SpecParseError { at: i });
            }
        }
        proof {
            assert(s@.skip(n as int) =~= Seq::<u8>::empty());
            assert(spec_filter_chain(s@.skip(n as int)) == Some(Seq::<FilterV>::empty()));
            assert(value_filters@.map_values(|f: ValueFilter| vf_view(f))
                + Seq::<FilterV>::empty() =~= value_filters@.map_values(
                |f: ValueFilter| vf_view(f),
            ));
            assert(spec_grammar_ok(s@));
        }
        Ok(AttrSpec { attribute, attribute_lowercase, value_filters })
    }

    /// Runs the whole filter chain over the values, in order.
    pub fn filter_values(&self, values: Vec<Vec<u8>>) -> (r: Vec<Vec<u8>>)
        ensures
            r@.map_values(|v: Vec<u8>| v@) == spec_filter_values(
                self.value_filters@,
                values@.map_values(|v: Vec<u8>| v@),
            ),
    {
        let mut vs = values;
        let mut i: usize = 0;
        let n = self.value_filters.len();
        proof {
            assert(self.value_filters@.skip(0) =~= self.value_filters@);
        }
        while i < n
            invariant
                i <= n,
                n == self.value_filters@.len(),
                spec_filter_values(
                    self.value_filters@.skip(i as int),
                    vs@.map_values(|v: Vec<u8>| v@),
                ) == spec_filter_values(
                    self.value_filters@,
                    values@.map_values(|v: Vec<u8>| v@),
                ),
            decreases n - i,
        {
            let ghost sfx = self.value_filters@.skip(i as int);
            proof {
                assert(sfx[0] == self.value_filters@[i as int]);
                assert(sfx.drop_first() =~= self.value_filters@.skip(i as int + 1));
            }
            vs = self.value_filters[i].filter_values(vs);
            i = i + 1;
        }
        proof {
            assert(self.value_filters@.skip(n as int) =~= Seq::<ValueFilter>::empty());
            assert(self.value_filters@.skip(0) =~= self.value_filters@);
        }
        vs
    }
}

/// Do the `pat.len()` bytes of `s` at `at` equal `pat`?
fn slice_eq_at(s: &[u8], at: usize, pat: &[u8]) -> (r: bool)
    requires
        at + pat@.len() <= s@.len(),
        s@.len() <= usize::MAX,
    ensures
        r == (s@.subrange(at as int, at + pat@.len()) == pat@),
{
    let mut i: usize = 0;
    while i < pat.len()
        invariant
            i <= pat@.len(),
            at + pat@.len() <= s@.len(),
            s@.len() <= usize::MAX,
            s@.subrange(at as int, at + i) == pat@.take(i as int),
        decreases pat@.len() - i,
    {
        if s[at + i] != pat[i] {
            proof {
                assert(s@.subrange(at as int, at + pat@.len())[i as int] != pat@[i as int]);
            }
            return false;
        }
        proof {
            assert(s@.subrange(at as int, at + i + 1) =~= s@.subrange(at as int, at + i).push(
                s@[at + i],
            ));
            assert(pat@.take(i as int + 1) =~= pat@.take(i as int).push(pat@[i as int]));
        }
        i = i + 1;
    }
    proof {
        assert(pat@.take(pat@.len() as int) =~= pat@);
        assert(s@.subrange(at as int, at + pat@.len()) =~= pat@);
    }
    true
}

} // verus!
