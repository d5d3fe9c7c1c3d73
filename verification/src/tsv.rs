use vstd::prelude::*;

use crate::attrspec::{spec_filter_values, AttrSpec};
use crate::cartesian::{
    cartesian_product, lemma_odo_rank_bounds, lemma_odo_step_rank, odo_rank, odo_step, odo_total,
};
use crate::entry::{lower_bytes, spec_values, AttrV, Entry, WriteEntry};
use crate::loc::StreamError;

verus! {

/// The filtered value lists an entry yields for a list of attribute
/// specifications, one list per specification, in order.
pub open spec fn selected_values(specs: Seq<AttrSpec>, e: Seq<AttrV>) -> Seq<Seq<Seq<u8>>> {
    Seq::new(
        specs.len(),
        |i: int|
            spec_filter_values(
                specs[i].value_filters@,
                spec_values(e, lower_bytes(specs[i].attribute_lowercase@)),
            ),
    )
}

/// The per-list lengths, as the odometer's limits.
pub open spec fn value_lens(vals: Seq<Seq<Seq<u8>>>) -> Seq<usize> {
    Seq::new(vals.len(), |i: int| vals[i].len() as usize)
}

/// The all-zero index tuple.
pub open spec fn zero_tuple(n: int) -> Seq<usize> {
    Seq::new(n as nat, |i: int| 0usize)
}

/// Is the product empty: no lists at all, or some list without values?
pub open spec fn product_empty(vals: Seq<Seq<Seq<u8>>>) -> bool {
    vals.len() == 0 || exists|i: int| 0 <= i < vals.len() && (#[trigger] vals[i]).len() == 0
}

/// One TSV row for an index tuple: the selected values joined by tabs.
pub open spec fn tsv_fields_from(vals: Seq<Seq<Seq<u8>>>, ixs: Seq<usize>, k: int) -> Seq<u8>
    decreases ixs.len() - k,
{
    if k < 0 || k >= ixs.len() {
        Seq::empty()
    } else {
        (if k > 0 {
            seq![0x09u8]
        } else {
            Seq::empty()
        }) + vals[k][ixs[k] as int] + tsv_fields_from(vals, ixs, k + 1)
    }
}

/// Every remaining TSV row of the cartesian product, from the given
/// odometer position on, each terminated by the record separator.
pub open spec fn tsv_rows_odo(
    vals: Seq<Seq<Seq<u8>>>,
    lens: Seq<usize>,
    cs: Seq<usize>,
    wrapped: bool,
    rs: u8,
) -> Seq<u8>
    decreases (if wrapped {
        0int
    } else {
        odo_total(lens) - odo_rank(cs, lens) + 1
    })
        when (wrapped || (cs.len() == lens.len() && forall|i: int|
            0 <= i < cs.len() ==> cs[i] < lens[i]))
        via tsv_rows_odo_dec
{
    if wrapped {
        Seq::empty()
    } else {
        tsv_fields_from(vals, cs, 0) + seq![rs] + tsv_rows_odo(
            vals,
            lens,
            odo_step(cs, lens).0,
            odo_step(cs, lens).1,
            rs,
        )
    }
}

#[via_fn]
proof fn tsv_rows_odo_dec(
    vals: Seq<Seq<Seq<u8>>>,
    lens: Seq<usize>,
    cs: Seq<usize>,
    wrapped: bool,
    rs: u8,
) {
    if !wrapped {
        lemma_odo_rank_bounds(cs, lens);
        lemma_odo_step_rank(cs, lens);
    }
}

/// The complete TSV text of one entry: the cartesian product of the
/// selected value lists, row by row.
pub open spec fn tsv_entry_bytes(specs: Seq<AttrSpec>, e: Seq<AttrV>, rs: u8) -> Seq<u8> {
    let vals = selected_values(specs, e);
    if product_empty(vals) {
        Seq::empty()
    } else {
        tsv_rows_odo(vals, value_lens(vals), zero_tuple(vals.len() as int), false, rs)
    }
}

/// Writes, per entry, the cartesian product of the selected attributes'
/// value lists as tab-separated rows into an owned buffer.
pub struct TsvEntryWriter {
    pub attrspecs: Vec<AttrSpec>,
    pub dest: Vec<u8>,
    pub record_separator: u8,
    pub log: Ghost<Seq<Seq<AttrV>>>,
}

impl TsvEntryWriter {
    pub fn new(attrspecs: Vec<AttrSpec>, dest: Vec<u8>) -> (r: TsvEntryWriter)
        ensures
            r.wf(),
            r.dest@ == dest@,
            r.record_separator == 0x0au8,
            r.attrspecs == attrspecs,
    {
        TsvEntryWriter { attrspecs, dest, record_separator: 0x0a, log: Ghost(Seq::empty()) }
    }

    pub fn set_record_separator(&mut self, record_separator: u8)
        ensures
            *final(self) == (TsvEntryWriter { record_separator, ..*old(self) }),
    {
        self.record_separator = record_separator;
    }

    pub fn get_ref(&self) -> (r: &Vec<u8>)
        ensures
            r@ == self.dest@,
    {
        &self.dest
    }

    pub fn into_inner(self) -> (r: Vec<u8>)
        ensures
            r@ == self.dest@,
    {
        self.dest
    }

    /// Takes the bytes written so far, leaving the buffer empty.
    pub fn take_output(&mut self) -> (r: Vec<u8>)
        ensures
            r@ == old(self).dest@,
            final(self).dest@ == Seq::<u8>::empty(),
            final(self).wf() == old(self).wf(),
            final(self).attrspecs == old(self).attrspecs,
            final(self).record_separator == old(self).record_separator,
    {
        let mut out: Vec<u8> = Vec::new();
        std::mem::swap(&mut out, &mut self.dest);
        out
    }
}

impl WriteEntry for TsvEntryWriter {
    open spec fn wf(&self) -> bool {
        true
    }

    open spec fn entries(&self) -> Seq<Seq<AttrV>> {
        self.log@
    }

    open spec fn infallible(&self) -> bool {
        true
    }

    /// Appends the entry's rows: one per combination of the selected value
    /// lists, tab-separated and terminated by the record separator.
    #[verifier::rlimit(100)]
    fn write_entry(&mut self, e: &Entry) -> (r: Result<(), StreamError>)
        ensures
            r is Ok,
            final(self).attrspecs == old(self).attrspecs,
            final(self).record_separator == old(self).record_separator,
            final(self).dest@ == old(self).dest@ + tsv_entry_bytes(
                old(self).attrspecs@,
                e@,
                old(self).record_separator,
            ),
    {
        proof {
            self.log@ = self.log@.push(e@);
        }
        let ghost vals = selected_values(self.attrspecs@, e@);
        let mut attrvalues: Vec<Vec<Vec<u8>>> = Vec::new();
        let mut i: usize = 0;
        while i < self.attrspecs.len()
            invariant
                i <= self.attrspecs@.len(),
                self.attrspecs == old(self).attrspecs,
                self.record_separator == old(self).record_separator,
                self.dest == old(self).dest,
                self.log@ == old(self).log@.push(e@),
                vals == selected_values(self.attrspecs@, e@),
                attrvalues@.len() == i,
                forall|k: int|
                    0 <= k < i ==> (#[trigger] attrvalues@[k])@.map_values(|v: Vec<u8>| v@)
                        == vals[k],
            decreases self.attrspecs@.len() - i,
        {
            let vs = e.get(self.attrspecs[i].attribute_lowercase.as_slice());
            attrvalues.push(self.attrspecs[i].filter_values(vs));
            i = i + 1;
        }
        let mut prod = cartesian_product(&attrvalues);
        proof {
            assert(vals.len() == attrvalues@.len());
            assert(forall|k: int|
                0 <= k < vals.len() ==> (#[trigger] vals[k]).len() == (attrvalues@[k])@.len());
            assert(value_lens(vals) =~= prod.lens@);
            assert(product_empty(vals) == prod.emptied) by {
                if prod.emptied && vals.len() > 0 {
                    let w = choose|k: int|
                        0 <= k < attrvalues@.len() && (#[trigger] attrvalues@[k])@.len() == 0;
                    assert(vals[w].len() == 0);
                }
                if product_empty(vals) && vals.len() > 0 {
                    let w = choose|k: int| 0 <= k < vals.len() && (#[trigger] vals[k]).len() == 0;
                    assert((attrvalues@[w])@.len() == 0);
                }
            }
            if !prod.emptied {
                assert(prod.counters@ =~= zero_tuple(vals.len() as int));
            }
        }
        let ghost base = self.dest@;
        let ghost total = tsv_entry_bytes(old(self).attrspecs@, e@, old(self).record_separator);
        proof {
            if prod.emptied {
                assert(total =~= Seq::<u8>::empty());
                assert(base + total =~= base);
            } else {
                assert(base + tsv_rows_odo(
                    vals,
                    prod.lens@,
                    prod.counters@,
                    prod.emptied,
                    self.record_separator,
                ) =~= base + total);
            }
        }
        loop
            invariant
                prod.wf(),
                self.attrspecs == old(self).attrspecs,
                self.record_separator == old(self).record_separator,
                self.log@ == old(self).log@.push(e@),
                vals == selected_values(self.attrspecs@, e@),
                attrvalues@.map_values(|vv: Vec<Vec<u8>>| vv@.map_values(|v: Vec<u8>| v@))
                    == vals,
                prod.lens@ == value_lens(vals),
                total == tsv_entry_bytes(
                    old(self).attrspecs@,
                    e@,
                    old(self).record_separator,
                ),
                base + total == self.dest@ + tsv_rows_odo(
                    vals,
                    prod.lens@,
                    prod.counters@,
                    prod.emptied,
                    self.record_separator,
                ),
            ensures
                self.attrspecs == old(self).attrspecs,
                self.record_separator == old(self).record_separator,
                self.log@ == old(self).log@.push(e@),
                self.dest@ == base + total,
            decreases (if prod.emptied {
                0int
            } else {
                odo_total(prod.lens@) - odo_rank(prod.counters@, prod.lens@) + 1
            }),
        {
            proof {
                if !prod.emptied {
                    lemma_odo_rank_bounds(prod.counters@, prod.lens@);
                    lemma_odo_step_rank(prod.counters@, prod.lens@);
                }
            }
            let row = prod.next();
            match row {
                None => {
                    proof {
                        assert(tsv_rows_odo(
                            vals,
                            prod.lens@,
                            prod.counters@,
                            true,
                            self.record_separator,
                        ) =~= Seq::<u8>::empty());
                        assert(self.dest@ + Seq::<u8>::empty() =~= self.dest@);
                    }
                    break ;
                },
                Some(ixs) => {
                    let ghost cs = ixs@;
                    let ghost rowbase = self.dest@;
                    let ghost fields0 = tsv_fields_from(vals, cs, 0);
                    let mut k: usize = 0;
                    proof {
                        assert(rowbase + tsv_fields_from(vals, cs, 0).take(
                            tsv_fields_from(vals, cs, 0).len() - tsv_fields_from(
                                vals,
                                cs,
                                0,
                            ).len(),
                        ) =~= rowbase);
                        assert(fields0.skip(0) =~= fields0);
                    }
                    while k < ixs.len()
                        invariant
                            k <= ixs@.len(),
                            cs == ixs@,
                            self.attrspecs == old(self).attrspecs,
                            self.record_separator == old(self).record_separator,
                            self.log@ == old(self).log@.push(e@),
                            vals == selected_values(self.attrspecs@, e@),
                            attrvalues@.map_values(
                                |vv: Vec<Vec<u8>>| vv@.map_values(|v: Vec<u8>| v@),
                            ) == vals,
                            ixs@.len() == attrvalues@.len(),
                            forall|q: int|
                                0 <= q < ixs@.len() ==> ixs@[q] < (#[trigger] attrvalues@[
                                    q
                                ])@.len(),
                            fields0 == tsv_fields_from(vals, cs, 0),
                            self.dest@ == rowbase + fields0.take(
                                fields0.len() - tsv_fields_from(vals, cs, k as int).len(),
                            ),
                            tsv_fields_from(vals, cs, k as int).len() <= fields0.len(),
                            fields0.skip(
                                fields0.len() - tsv_fields_from(vals, cs, k as int).len(),
                            ) == tsv_fields_from(vals, cs, k as int),
                        decreases ixs@.len() - k,
                    {
                        let ghost sfx = tsv_fields_from(vals, cs, k as int);
                        let ghost rest = tsv_fields_from(vals, cs, k as int + 1);
                        let ghost mid = (if k > 0 {
                            seq![0x09u8]
                        } else {
                            Seq::<u8>::empty()
                        }) + vals[k as int][cs[k as int] as int];
                        proof {
                            assert(sfx == mid + rest);
                            assert(vals[k as int][cs[k as int] as int] == (attrvalues@[
                                k as int
                            ])@[cs[k as int] as int]@);
                        }
                        if k != 0 {
                            self.dest.push(0x09);
                        }
                        crate::entry::append_bytes(
                            &mut self.dest,
                            attrvalues[k][ixs[k]].as_slice(),
                        );
                        proof {
                            crate::entry::lemma_take_skip_chain(
                                rowbase,
                                fields0,
                                sfx,
                                mid,
                                rest,
                            );
                        }
                        k = k + 1;
                    }
                    self.dest.push(self.record_separator);
                    proof {
                        assert(tsv_fields_from(vals, cs, ixs@.len() as int)
                            =~= Seq::<u8>::empty());
                        assert(fields0.take(fields0.len() - 0) =~= fields0);
                        assert(self.dest@ =~= rowbase + fields0 + seq![self.record_separator]);
                        // peel this row off the remaining rows
                        assert(tsv_rows_odo(
                            vals,
                            prod.lens@,
                            cs,
                            false,
                            self.record_separator,
                        ) == fields0 + seq![self.record_separator] + tsv_rows_odo(
                            vals,
                            prod.lens@,
                            odo_step(cs, prod.lens@).0,
                            odo_step(cs, prod.lens@).1,
                            self.record_separator,
                        ));
                        assert(self.dest@ + tsv_rows_odo(
                            vals,
                            prod.lens@,
                            odo_step(cs, prod.lens@).0,
                            odo_step(cs, prod.lens@).1,
                            self.record_separator,
                        ) =~= rowbase + tsv_rows_odo(
                            vals,
                            prod.lens@,
                            cs,
                            false,
                            self.record_separator,
                        ));
                    }
                },
            }
        }
        Ok(())
    }
}

} // verus!
