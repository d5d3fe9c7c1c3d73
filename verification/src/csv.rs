use vstd::prelude::*;

use crate::attrspec::AttrSpec;
use crate::cartesian::{
    cartesian_product, lemma_odo_rank_bounds, lemma_odo_step_rank, odo_rank, odo_step, odo_total,
};
use crate::entry::{AttrV, Entry, WriteEntry};
use crate::loc::StreamError;
use crate::tsv::{product_empty, selected_values, value_lens, zero_tuple};

verus! {

/// Does a CSV field need to be quoted?
pub open spec fn csv_needs_quote(f: Seq<u8>) -> bool {
    exists|i: int|
        0 <= i < f.len() && (f[i] == 0x2cu8 || f[i] == 0x0au8 || f[i] == 0x0du8 || f[i] == 0x22u8)
}

/// The field with every double quote doubled.
pub open spec fn csv_doubled(f: Seq<u8>) -> Seq<u8>
    decreases f.len(),
{
    if f.len() == 0 {
        Seq::empty()
    } else if f[0] == 0x22u8 {
        seq![0x22u8, 0x22u8] + csv_doubled(f.drop_first())
    } else {
        seq![f[0]] + csv_doubled(f.drop_first())
    }
}

/// The CSV rendering of one field: quoted with doubled quotes when the
/// field holds a comma, quote, LF or CR, otherwise as it is.
pub open spec fn csv_field(f: Seq<u8>) -> Seq<u8> {
    if csv_needs_quote(f) {
        seq![0x22u8] + csv_doubled(f) + seq![0x22u8]
    } else {
        f
    }
}

/// Appends one CSV-escaped field.
pub fn csv_escape(dest: &mut Vec<u8>, field: &[u8])
    ensures
        final(dest)@ == old(dest)@ + csv_field(field@),
{
    let mut needs = false;
    let mut i: usize = 0;
    while i < field.len()
        invariant
            i <= field@.len(),
            *dest == *old(dest),
            needs == exists|j: int|
                0 <= j < i && (field@[j] == 0x2cu8 || field@[j] == 0x0au8 || field@[j] == 0x0du8
                    || field@[j] == 0x22u8),
        decreases field@.len() - i,
    {
        let c = field[i];
        if c == 0x2cu8 || c == 0x0au8 || c == 0x0du8 || c == 0x22u8 {
            needs = true;
        }
        i = i + 1;
    }
    if !needs {
        crate::entry::append_bytes(dest, field);
        return ;
    }
    dest.push(0x22);
    let ghost start = dest@;
    let mut k: usize = 0;
    proof {
        assert(field@.skip(0) =~= field@);
        assert(dest@ + csv_doubled(field@.skip(0)) =~= start + csv_doubled(field@));
    }
    while k < field.len()
        invariant
            k <= field@.len(),
            dest@ + csv_doubled(field@.skip(k as int)) == start + csv_doubled(field@),
        decreases field@.len() - k,
    {
        let c = field[k];
        let ghost pre = dest@;
        let ghost sfx = field@.skip(k as int);
        proof {
            assert(sfx[0] == field@[k as int]);
            assert(sfx.drop_first() =~= field@.skip(k as int + 1));
        }
        if c == 0x22u8 {
            dest.push(0x22);
            dest.push(0x22);
            proof {
                assert(dest@ + csv_doubled(field@.skip(k as int + 1)) =~= pre + csv_doubled(sfx));
            }
        } else {
            dest.push(c);
            proof {
                assert(dest@ + csv_doubled(field@.skip(k as int + 1)) =~= pre + csv_doubled(sfx));
            }
        }
        k = k + 1;
    }
    dest.push(0x22);
    proof {
        assert(field@.skip(field@.len() as int) =~= Seq::<u8>::empty());
        assert(csv_doubled(field@.skip(field@.len() as int)) =~= Seq::<u8>::empty());
        assert(dest@ =~= old(dest)@ + csv_field(field@));
    }
}

/// The header row: the original-case attribute names, escaped and joined
/// by commas.
pub open spec fn csv_header_from(specs: Seq<AttrSpec>, k: int) -> Seq<u8>
    decreases specs.len() - k,
{
    if k < 0 || k >= specs.len() {
        Seq::empty()
    } else {
        (if k > 0 {
            seq![0x2cu8]
        } else {
            Seq::empty()
        }) + csv_field(specs[k].attribute@) + csv_header_from(specs, k + 1)
    }
}

/// One CSV row for an index tuple: the selected values, escaped, joined by
/// commas.
pub open spec fn csv_fields_from(vals: Seq<Seq<Seq<u8>>>, ixs: Seq<usize>, k: int) -> Seq<u8>
    decreases ixs.len() - k,
{
    if k < 0 || k >= ixs.len() {
        Seq::empty()
    } else {
        (if k > 0 {
            seq![0x2cu8]
        } else {
            Seq::empty()
        }) + csv_field(vals[k][ixs[k] as int]) + csv_fields_from(vals, ixs, k + 1)
    }
}

/// Every remaining CSV row of the cartesian product, from the given
/// odometer position on, each terminated by CR LF.
pub open spec fn csv_rows_odo(
    vals: Seq<Seq<Seq<u8>>>,
    lens: Seq<usize>,
    cs: Seq<usize>,
    wrapped: bool,
) -> Seq<u8>
    decreases (if wrapped {
        0int
    } else {
        odo_total(lens) - odo_rank(cs, lens) + 1
    })
        when (wrapped || (cs.len() == lens.len() && forall|i: int|
            0 <= i < cs.len() ==> cs[i] < lens[i]))
        via csv_rows_odo_dec
{
    if wrapped {
        Seq::empty()
    } else {
        csv_fields_from(vals, cs, 0) + seq![0x0du8, 0x0au8] + csv_rows_odo(
            vals,
            lens,
            odo_step(cs, lens).0,
            odo_step(cs, lens).1,
        )
    }
}

#[via_fn]
proof fn csv_rows_odo_dec(vals: Seq<Seq<Seq<u8>>>, lens: Seq<usize>, cs: Seq<usize>, wrapped: bool) {
    if !wrapped {
        lemma_odo_rank_bounds(cs, lens);
        lemma_odo_step_rank(cs, lens);
    }
}

/// The complete CSV text of one entry, without the header.
pub open spec fn csv_entry_bytes(specs: Seq<AttrSpec>, e: Seq<AttrV>) -> Seq<u8> {
    let vals = selected_values(specs, e);
    if product_empty(vals) {
        Seq::empty()
    } else {
        csv_rows_odo(vals, value_lens(vals), zero_tuple(vals.len() as int), false)
    }
}

/// Writes, per entry, the cartesian product of the selected attributes'
/// value lists as CSV rows, with one header row of original-case names
/// before the first entry.
pub struct CsvEntryWriter {
    pub attrspecs: Vec<AttrSpec>,
    pub dest: Vec<u8>,
    pub write_header: bool,
    pub log: Ghost<Seq<Seq<AttrV>>>,
}

impl CsvEntryWriter {
    pub fn new(attrspecs: Vec<AttrSpec>, dest: Vec<u8>) -> (r: CsvEntryWriter)
        ensures
            r.wf(),
            r.dest@ == dest@,
            r.write_header == true,
            r.attrspecs == attrspecs,
    {
        CsvEntryWriter { attrspecs, dest, write_header: true, log: Ghost(Seq::empty()) }
    }

    pub fn get_ref(&self) -> (r: &Vec<u8>)
        ensures
            r@ == self.dest@,
    {
        &self.dest
    }

    pub fn into_inner(self) -> (r: Vec<u8>)
        ensures
            r@ == self.dest@,
    {
        self.dest
    }

    /// Takes the bytes written so far, leaving the buffer empty.
    pub fn take_output(&mut self) -> (r: Vec<u8>)
        ensures
            r@ == old(self).dest@,
            final(self).dest@ == Seq::<u8>::empty(),
            final(self).attrspecs == old(self).attrspecs,
            final(self).write_header == old(self).write_header,
    {
        let mut out: Vec<u8> = Vec::new();
        std::mem::swap(&mut out, &mut self.dest);
        out
    }
}

impl WriteEntry for CsvEntryWriter {
    open spec fn wf(&self) -> bool {
        true
    }

    open spec fn entries(&self) -> Seq<Seq<AttrV>> {
        self.log@
    }

    open spec fn infallible(&self) -> bool {
        true
    }

    /// Appends the header row first if it is still owed, then the entry's
    /// rows: one per combination of the selected value lists, escaped,
    /// comma-separated and terminated by CR LF.
    #[verifier::rlimit(100)]
    fn write_entry(&mut self, e: &Entry) -> (r: Result<(), StreamError>)
        ensures
            r is Ok,
            final(self).attrspecs == old(self).attrspecs,
            final(self).write_header == false,
            final(self).dest@ == old(self).dest@ + (if old(self).write_header {
                csv_header_from(old(self).attrspecs@, 0) + seq![0x0du8, 0x0au8]
            } else {
                Seq::<u8>::empty()
            }) + csv_entry_bytes(old(self).attrspecs@, e@),
    {
        proof {
            self.log@ = self.log@.push(e@);
        }
        if self.write_header {
            let ghost hdr0 = csv_header_from(self.attrspecs@, 0);
            let ghost hbase = self.dest@;
            let mut i: usize = 0;
            proof {
                assert(hbase + hdr0.take(hdr0.len() - csv_header_from(
                    self.attrspecs@,
                    0,
                ).len()) =~= hbase);
                assert(hdr0.skip(0) =~= hdr0);
            }
            while i < self.attrspecs.len()
                invariant
                    i <= self.attrspecs@.len(),
                    self.attrspecs == old(self).attrspecs,
                    self.write_header == true,
                    self.log@ == old(self).log@.push(e@),
                    hdr0 == csv_header_from(self.attrspecs@, 0),
                    self.dest@ == hbase + hdr0.take(
                        hdr0.len() - csv_header_from(self.attrspecs@, i as int).len(),
                    ),
                    csv_header_from(self.attrspecs@, i as int).len() <= hdr0.len(),
                    hdr0.skip(hdr0.len() - csv_header_from(self.attrspecs@, i as int).len())
                        == csv_header_from(self.attrspecs@, i as int),
                decreases self.attrspecs@.len() - i,
            {
                let ghost sfx = csv_header_from(self.attrspecs@, i as int);
                let ghost rest = csv_header_from(self.attrspecs@, i as int + 1);
                let ghost mid = (if i > 0 {
                    seq![0x2cu8]
                } else {
                    Seq::<u8>::empty()
                }) + csv_field(self.attrspecs@[i as int].attribute@);
                proof {
                    assert(sfx == mid + rest);
                }
                if i != 0 {
                    self.dest.push(0x2c);
                }
                let mut field: Vec<u8> = Vec::new();
                std::mem::swap(&mut field, &mut self.dest);
                csv_escape(&mut field, self.attrspecs[i].attribute.as_slice());
                std::mem::swap(&mut field, &mut self.dest);
                proof {
                    crate::entry::lemma_take_skip_chain(hbase, hdr0, sfx, mid, rest);
                }
                i = i + 1;
            }
            self.dest.push(0x0d);
            self.dest.push(0x0a);
            self.write_header = false;
            proof {
                assert(csv_header_from(self.attrspecs@, self.attrspecs@.len() as int)
                    =~= Seq::<u8>::empty());
                assert(hdr0.take(hdr0.len() - 0) =~= hdr0);
                assert(self.dest@ =~= hbase + hdr0 + seq![0x0du8, 0x0au8]);
            }
        } else {
            proof {
                assert(old(self).dest@ + Seq::<u8>::empty() =~= old(self).dest@);
            }
        }
        let ghost vals = selected_values(self.attrspecs@, e@);
        let mut attrvalues: Vec<Vec<Vec<u8>>> = Vec::new();
        let mut i: usize = 0;
        while i < self.attrspecs.len()
            invariant
                i <= self.attrspecs@.len(),
                self.attrspecs == old(self).attrspecs,
                self.write_header == false,
                self.dest@ == old(self).dest@ + (if old(self).write_header {
                    csv_header_from(old(self).attrspecs@, 0) + seq![0x0du8, 0x0au8]
                } else {
                    Seq::<u8>::empty()
                }),
                self.log@ == old(self).log@.push(e@),
                vals == selected_values(self.attrspecs@, e@),
                attrvalues@.len() == i,
                forall|k: int|
                    0 <= k < i ==> (#[trigger] attrvalues@[k])@.map_values(|v: Vec<u8>| v@)
                        == vals[k],
            decreases self.attrspecs@.len() - i,
        {
            let vs = e.get(self.attrspecs[i].attribute_lowercase.as_slice());
            attrvalues.push(self.attrspecs[i].filter_values(vs));
            i = i + 1;
        }
        let mut prod = cartesian_product(&attrvalues);
        proof {
            assert(vals.len() == attrvalues@.len());
            assert(forall|k: int|
                0 <= k < vals.len() ==> (#[trigger] vals[k]).len() == (attrvalues@[k])@.len());
            assert(value_lens(vals) =~= prod.lens@);
            assert(product_empty(vals) == prod.emptied) by {
                if prod.emptied && vals.len() > 0 {
                    let w = choose|k: int|
                        0 <= k < attrvalues@.len() && (#[trigger] attrvalues@[k])@.len() == 0;
                    assert(vals[w].len() == 0);
                }
                if product_empty(vals) && vals.len() > 0 {
                    let w = choose|k: int| 0 <= k < vals.len() && (#[trigger] vals[k]).len() == 0;
                    assert((attrvalues@[w])@.len() == 0);
                }
            }
            if !prod.emptied {
                assert(prod.counters@ =~= zero_tuple(vals.len() as int));
            }
        }
        let ghost base = self.dest@;
        let ghost total = csv_entry_bytes(old(self).attrspecs@, e@);
        proof {
            if prod.emptied {
                assert(total =~= Seq::<u8>::empty());
                assert(base + total =~= base);
            } else {
                assert(base + csv_rows_odo(vals, prod.lens@, prod.counters@, prod.emptied)
                    =~= base + total);
            }
        }
        loop
            invariant
                prod.wf(),
                self.attrspecs == old(self).attrspecs,
                self.write_header == false,
                self.log@ == old(self).log@.push(e@),
                vals == selected_values(self.attrspecs@, e@),
                attrvalues@.map_values(|vv: Vec<Vec<u8>>| vv@.map_values(|v: Vec<u8>| v@))
                    == vals,
                prod.lens@ == value_lens(vals),
                base + total == self.dest@ + csv_rows_odo(
                    vals,
                    prod.lens@,
                    prod.counters@,
                    prod.emptied,
                ),
            ensures
                self.attrspecs == old(self).attrspecs,
                self.write_header == false,
                self.log@ == old(self).log@.push(e@),
                self.dest@ == base + total,
            decreases (if prod.emptied {
                0int
            } else {
                odo_total(prod.lens@) - odo_rank(prod.counters@, prod.lens@) + 1
            }),
        {
            proof {
                if !prod.emptied {
                    lemma_odo_rank_bounds(prod.counters@, prod.lens@);
                    lemma_odo_step_rank(prod.counters@, prod.lens@);
                }
            }
            let row = prod.next();
            match row {
                None => {
                    proof {
                        assert(csv_rows_odo(vals, prod.lens@, prod.counters@, true)
                            =~= Seq::<u8>::empty());
                        assert(self.dest@ + Seq::<u8>::empty() =~= self.dest@);
                    }
                    break ;
                },
                Some(ixs) => {
                    let ghost cs = ixs@;
                    let ghost rowbase = self.dest@;
                    let ghost fields0 = csv_fields_from(vals, cs, 0);
                    let mut k: usize = 0;
                    proof {
                        assert(rowbase + fields0.take(fields0.len() - csv_fields_from(
                            vals,
                            cs,
                            0,
                        ).len()) =~= rowbase);
                        assert(fields0.skip(0) =~= fields0);
                    }
                    while k < ixs.len()
                        invariant
                            k <= ixs@.len(),
                            cs == ixs@,
                            self.attrspecs == old(self).attrspecs,
                            self.write_header == false,
                            self.log@ == old(self).log@.push(e@),
                            vals == selected_values(self.attrspecs@, e@),
                            attrvalues@.map_values(
                                |vv: Vec<Vec<u8>>| vv@.map_values(|v: Vec<u8>| v@),
                            ) == vals,
                            ixs@.len() == attrvalues@.len(),
                            forall|q: int|
                                0 <= q < ixs@.len() ==> ixs@[q] < (#[trigger] attrvalues@[
                                    q
                                ])@.len(),
                            fields0 == csv_fields_from(vals, cs, 0),
                            self.dest@ == rowbase + fields0.take(
                                fields0.len() - csv_fields_from(vals, cs, k as int).len(),
                            ),
                            csv_fields_from(vals, cs, k as int).len() <= fields0.len(),
                            fields0.skip(
                                fields0.len() - csv_fields_from(vals, cs, k as int).len(),
                            ) == csv_fields_from(vals, cs, k as int),
                        decreases ixs@.len() - k,
                    {
                        let ghost sfx = csv_fields_from(vals, cs, k as int);
                        let ghost rest = csv_fields_from(vals, cs, k as int + 1);
                        let ghost mid = (if k > 0 {
                            seq![0x2cu8]
                        } else {
                            Seq::<u8>::empty()
                        }) + csv_field(vals[k as int][cs[k as int] as int]);
                        proof {
                            assert(sfx == mid + rest);
                            assert(vals[k as int][cs[k as int] as int] == (attrvalues@[
                                k as int
                            ])@[cs[k as int] as int]@);
                        }
                        if k != 0 {
                            self.dest.push(0x2c);
                        }
                        let mut field: Vec<u8> = Vec::new();
                        std::mem::swap(&mut field, &mut self.dest);
                        csv_escape(&mut field, attrvalues[k][ixs[k]].as_slice());
                        std::mem::swap(&mut field, &mut self.dest);
                        proof {
                            crate::entry::lemma_take_skip_chain(
                                rowbase,
                                fields0,
                                sfx,
                                mid,
                                rest,
                            );
                        }
                        k = k + 1;
                    }
                    self.dest.push(0x0d);
                    self.dest.push(0x0a);
                    proof {
                        assert(csv_fields_from(vals, cs, ixs@.len() as int)
                            =~= Seq::<u8>::empty());
                        assert(fields0.take(fields0.len() - 0) =~= fields0);
                        assert(self.dest@ =~= rowbase + fields0 + seq![0x0du8, 0x0au8]);
                        assert(csv_rows_odo(vals, prod.lens@, cs, false) == fields0 + seq![
                            0x0du8,
                            0x0au8,
                        ] + csv_rows_odo(
                            vals,
                            prod.lens@,
                            odo_step(cs, prod.lens@).0,
                            odo_step(cs, prod.lens@).1,
                        ));
                        assert(self.dest@ + csv_rows_odo(
                            vals,
                            prod.lens@,
                            odo_step(cs, prod.lens@).0,
                            odo_step(cs, prod.lens@).1,
                        ) =~= rowbase + csv_rows_odo(vals, prod.lens@, cs, false));
                    }
                },
            }
        }
        Ok(())
    }
}

} // verus!
