use vstd::prelude::*;

use crate::attrspec::{hex_digit, spec_filter_values, AttrSpec};
use crate::entry::{lower_bytes, spec_values, AttrV, Entry, WriteEntry};
use crate::loc::StreamError;

verus! {

/// The escape for one byte of a JSON string: quotes and backslashes get a
/// backslash, the named controls get their short forms, and every other
/// control byte and every byte outside seven-bit ASCII a four-digit
/// escape, so the output is always plain-ASCII, valid JSON.
pub open spec fn json_byte(c: u8) -> Seq<u8> {
    if c == 0x22u8 || c == 0x5cu8 {
        seq![0x5cu8, c]
    } else if c == 0x0du8 {
        seq![0x5cu8, 0x72u8]
    } else if c == 0x0au8 {
        seq![0x5cu8, 0x6eu8]
    } else if c == 0x09u8 {
        seq![0x5cu8, 0x74u8]
    } else if c < 0x20u8 || c > 0x7fu8 {
        seq![0x5cu8, 0x75u8, 0x30u8, 0x30u8, hex_digit(c / 16), hex_digit((c % 16) as u8)]
    } else {
        seq![c]
    }
}

/// The bytes of a JSON string body.
pub open spec fn json_body(s: Seq<u8>) -> Seq<u8>
    decreases s.len(),
{
    if s.len() == 0 {
        Seq::empty()
    } else {
        json_byte(s[0]) + json_body(s.drop_first())
    }
}

/// The complete JSON string for a byte string, quotes included.
pub open spec fn json_string(s: Seq<u8>) -> Seq<u8> {
    seq![0x22u8] + json_body(s) + seq![0x22u8]
}

/// Appends the value as a JSON string, escaping control bytes, quote and
/// backslash.
pub fn write_json_string(w: &mut Vec<u8>, s: &[u8])
    ensures
        final(w)@ == old(w)@ + json_string(s@),
{
    w.push(0x22);
    let ghost start = w@;
    let mut i: usize = 0;
    proof {
        assert(s@.skip(0) =~= s@);
        assert(w@ + json_body(s@.skip(0)) =~= start + json_body(s@));
    }
    while i < s.len()
        invariant
            i <= s@.len(),
            w@ + json_body(s@.skip(i as int)) == start + json_body(s@),
        decreases s@.len() - i,
    {
        let c = s[i];
        let ghost pre = w@;
        let ghost sfx = s@.skip(i as int);
        proof {
            assert(sfx[0] == s@[i as int]);
            assert(sfx.drop_first() =~= s@.skip(i as int + 1));
        }
        if c == 0x22u8 || c == 0x5cu8 {
            w.push(0x5c);
            w.push(c);
        } else if c == 0x0du8 {
            w.push(0x5c);
            w.push(0x72);
        } else if c == 0x0au8 {
            w.push(0x5c);
            w.push(0x6e);
        } else if c == 0x09u8 {
            w.push(0x5c);
            w.push(0x74);
        } else if c < 0x20u8 || c > 0x7fu8 {
            w.push(0x5c);
            w.push(0x75);
            w.push(0x30);
            w.push(0x30);
            let hi = c / 16;
            let lo = c % 16;
            w.push(
                if hi < 10 {
                    0x30u8 + hi
                } else {
                    0x61u8 + (hi - 10)
                },
            );
            w.push(
                if lo < 10 {
                    0x30u8 + lo
                } else {
                    0x61u8 + (lo - 10)
                },
            );
        } else {
            w.push(c);
        }
        proof {
            assert(w@ + json_body(s@.skip(i as int + 1)) =~= pre + json_body(sfx));
        }
        i = i + 1;
    }
    w.push(0x22);
    proof {
        assert(s@.skip(s@.len() as int) =~= Seq::<u8>::empty());
        assert(json_body(s@.skip(s@.len() as int)) =~= Seq::<u8>::empty());
        assert(w@ =~= old(w)@ + json_string(s@));
    }
}

/// The elements of a JSON string array, comma-separated, from `k` on.
pub open spec fn json_values_from(vs: Seq<Seq<u8>>, k: int) -> Seq<u8>
    decreases vs.len() - k,
{
    if k < 0 || k >= vs.len() {
        Seq::empty()
    } else {
        (if k > 0 {
            seq![0x2cu8]
        } else {
            Seq::empty()
        }) + json_string(vs[k]) + json_values_from(vs, k + 1)
    }
}

/// The object members from specification `k` on: each attribute name as a
/// JSON string, a colon, and its filtered values as a string array.
pub open spec fn json_attrs_from(specs: Seq<AttrSpec>, e: Seq<AttrV>, k: int) -> Seq<u8>
    decreases specs.len() - k,
{
    if k < 0 || k >= specs.len() {
        Seq::empty()
    } else {
        (if k > 0 {
            seq![0x2cu8]
        } else {
            Seq::empty()
        }) + json_string(specs[k].attribute@) + seq![0x3au8, 0x5bu8] + json_values_from(
            spec_filter_values(
                specs[k].value_filters@,
                spec_values(e, lower_bytes(specs[k].attribute_lowercase@)),
            ),
            0,
        ) + seq![0x5du8] + json_attrs_from(specs, e, k + 1)
    }
}

/// The complete JSON line of one entry: one object, then the record
/// separator.
pub open spec fn json_entry_bytes(specs: Seq<AttrSpec>, e: Seq<AttrV>, rs: u8) -> Seq<u8> {
    seq![0x7bu8] + json_attrs_from(specs, e, 0) + seq![0x7du8, rs]
}

/// Writes each entry as one JSON object per line: the selected attributes
/// as keys, their filtered value lists as string arrays.
pub struct JsonEntryWriter {
    pub attrspecs: Vec<AttrSpec>,
    pub dest: Vec<u8>,
    pub record_separator: u8,
    pub log: Ghost<Seq<Seq<AttrV>>>,
}

impl JsonEntryWriter {
    pub fn new(attrspecs: Vec<AttrSpec>, dest: Vec<u8>) -> (r: JsonEntryWriter)
        ensures
            r.wf(),
            r.dest@ == dest@,
            r.record_separator == 0x0au8,
            r.attrspecs == attrspecs,
    {
        JsonEntryWriter { attrspecs, dest, record_separator: 0x0a, log: Ghost(Seq::empty()) }
    }

    pub fn set_record_separator(&mut self, c: u8)
        ensures
            *final(self) == (JsonEntryWriter { record_separator: c, ..*old(self) }),
    {
        self.record_separator = c;
    }

    pub fn get_ref(&self) -> (r: &Vec<u8>)
        ensures
            r@ == self.dest@,
    {
        &self.dest
    }

    pub fn into_inner(self) -> (r: Vec<u8>)
        ensures
            r@ == self.dest@,
    {
        self.dest
    }

    /// Takes the bytes written so far, leaving the buffer empty.
    pub fn take_output(&mut self) -> (r: Vec<u8>)
        ensures
            r@ == old(self).dest@,
            final(self).dest@ == Seq::<u8>::empty(),
            final(self).attrspecs == old(self).attrspecs,
            final(self).record_separator == old(self).record_separator,
    {
        let mut out: Vec<u8> = Vec::new();
        std::mem::swap(&mut out, &mut self.dest);
        out
    }
}

impl WriteEntry for JsonEntryWriter {
    open spec fn wf(&self) -> bool {
        true
    }

    open spec fn entries(&self) -> Seq<Seq<AttrV>> {
        self.log@
    }

    open spec fn infallible(&self) -> bool {
        true
    }

    /// Appends one object for the entry: the selected attribute names as
    /// keys, each with its filtered values as a JSON string array, then the
    /// record separator.
    #[verifier::rlimit(100)]
    fn write_entry(&mut self, e: &Entry) -> (r: Result<(), StreamError>)
        ensures
            r is Ok,
            final(self).attrspecs == old(self).attrspecs,
            final(self).record_separator == old(self).record_separator,
            final(self).dest@ == old(self).dest@ + json_entry_bytes(
                old(self).attrspecs@,
                e@,
                old(self).record_separator,
            ),
    {
        proof {
            self.log@ = self.log@.push(e@);
        }
        self.dest.push(0x7b);
        let ghost abase = self.dest@;
        let ghost attrs0 = json_attrs_from(self.attrspecs@, e@, 0);
        let mut i: usize = 0;
        proof {
            assert(abase + attrs0.take(attrs0.len() - json_attrs_from(
                self.attrspecs@,
                e@,
                0,
            ).len()) =~= abase);
            assert(attrs0.skip(0) =~= attrs0);
        }
        while i < self.attrspecs.len()
            invariant
                i <= self.attrspecs@.len(),
                self.attrspecs == old(self).attrspecs,
                self.record_separator == old(self).record_separator,
                self.log@ == old(self).log@.push(e@),
                attrs0 == json_attrs_from(self.attrspecs@, e@, 0),
                self.dest@ == abase + attrs0.take(
                    attrs0.len() - json_attrs_from(self.attrspecs@, e@, i as int).len(),
                ),
                json_attrs_from(self.attrspecs@, e@, i as int).len() <= attrs0.len(),
                attrs0.skip(attrs0.len() - json_attrs_from(self.attrspecs@, e@, i as int).len())
                    == json_attrs_from(self.attrspecs@, e@, i as int),
            decreases self.attrspecs@.len() - i,
        {
            let ghost sfx = json_attrs_from(self.attrspecs@, e@, i as int);
            let ghost rest = json_attrs_from(self.attrspecs@, e@, i as int + 1);
            let ghost svals = spec_filter_values(
                self.attrspecs@[i as int].value_filters@,
                spec_values(e@, lower_bytes(self.attrspecs@[i as int].attribute_lowercase@)),
            );
            let ghost mid = (if i > 0 {
                seq![0x2cu8]
            } else {
                Seq::<u8>::empty()
            }) + json_string(self.attrspecs@[i as int].attribute@) + seq![0x3au8, 0x5bu8]
                + json_values_from(svals, 0) + seq![0x5du8];
            proof {
                assert(sfx == mid + rest);
            }
            let ghost membase = self.dest@;
            if i != 0 {
                self.dest.push(0x2c);
            }
            let mut w: Vec<u8> = Vec::new();
            std::mem::swap(&mut w, &mut self.dest);
            write_json_string(&mut w, self.attrspecs[i].attribute.as_slice());
            std::mem::swap(&mut w, &mut self.dest);
            self.dest.push(0x3a);
            self.dest.push(0x5b);
            let vs = e.get(self.attrspecs[i].attribute_lowercase.as_slice());
            let values = self.attrspecs[i].filter_values(vs);
            proof {
                assert(values@.map_values(|v: Vec<u8>| v@) == svals);
            }
            let ghost vbase = self.dest@;
            let ghost vals0 = json_values_from(svals, 0);
            let mut k: usize = 0;
            proof {
                assert(vbase + vals0.take(vals0.len() - json_values_from(svals, 0).len())
                    =~= vbase);
                assert(vals0.skip(0) =~= vals0);
            }
            while k < values.len()
                invariant
                    k <= values@.len(),
                    self.attrspecs == old(self).attrspecs,
                    self.record_separator == old(self).record_separator,
                    self.log@ == old(self).log@.push(e@),
                    values@.map_values(|v: Vec<u8>| v@) == svals,
                    vals0 == json_values_from(svals, 0),
                    self.dest@ == vbase + vals0.take(
                        vals0.len() - json_values_from(svals, k as int).len(),
                    ),
                    json_values_from(svals, k as int).len() <= vals0.len(),
                    vals0.skip(vals0.len() - json_values_from(svals, k as int).len())
                        == json_values_from(svals, k as int),
                decreases values@.len() - k,
            {
                let ghost vsfx = json_values_from(svals, k as int);
                let ghost vrest = json_values_from(svals, k as int + 1);
                let ghost vmid = (if k > 0 {
                    seq![0x2cu8]
                } else {
                    Seq::<u8>::empty()
                }) + json_string(svals[k as int]);
                proof {
                    assert(vsfx == vmid + vrest);
                    assert(values@[k as int]@ == svals[k as int]);
                }
                if k != 0 {
                    self.dest.push(0x2c);
                }
                let mut w2: Vec<u8> = Vec::new();
                std::mem::swap(&mut w2, &mut self.dest);
                write_json_string(&mut w2, values[k].as_slice());
                std::mem::swap(&mut w2, &mut self.dest);
                proof {
                    crate::entry::lemma_take_skip_chain(vbase, vals0, vsfx, vmid, vrest);
                }
                k = k + 1;
            }
            self.dest.push(0x5d);
            proof {
                assert(json_values_from(svals, values@.len() as int) =~= Seq::<u8>::empty());
                assert(vals0.take(vals0.len() - 0) =~= vals0);
                assert(self.dest@ =~= membase + mid);
                crate::entry::lemma_take_skip_chain(abase, attrs0, sfx, mid, rest);
            }
            i = i + 1;
        }
        proof {
            assert(json_attrs_from(self.attrspecs@, e@, self.attrspecs@.len() as int)
                =~= Seq::<u8>::empty());
            assert(attrs0.take(attrs0.len() - 0) =~= attrs0);
        }
        self.dest.push(0x7d);
        self.dest.push(self.record_separator);
        proof {
            assert(final(self).dest@ =~= old(self).dest@ + json_entry_bytes(
                old(self).attrspecs@,
                e@,
                old(self).record_separator,
            ));
        }
        Ok(())
    }
}

} // verus!
