use vstd::prelude::*;

verus! {

/// The odometer successor of an index tuple under the given limits: the
/// rightmost position that can still step does, and everything to its right
/// wraps to zero. When nothing can step, the tuple has run out.
pub open spec fn odo_step(cs: Seq<usize>, lens: Seq<usize>) -> (Seq<usize>, bool)
    decreases cs.len(),
{
    if cs.len() == 0 {
        (cs, true)
    } else if cs.last() + 1 < lens.last() {
        (cs.update(cs.len() - 1, (cs.last() + 1) as usize), false)
    } else {
        let front = odo_step(cs.drop_last(), lens.drop_last());
        (front.0.push(0), front.1)
    }
}

/// Enumerates the cartesian product of a family of lists by index tuples,
/// in lexicographic order.
pub struct CartesianProduct {
    pub emptied: bool,
    pub lens: Vec<usize>,
    pub counters: Vec<usize>,
}

impl CartesianProduct {
    pub open spec fn wf(&self) -> bool {
        &&& self.counters@.len() == self.lens@.len()
        &&& !self.emptied ==> forall|i: int|
            0 <= i < self.counters@.len() ==> self.counters@[i] < self.lens@[i]
    }

    /// The current index tuple, and a step of the odometer. Yields every
    /// combination exactly once; exhausted when any list is empty.
    pub fn next(&mut self) -> (r: Option<Vec<usize>>)
        requires
            old(self).wf(),
        ensures
            final(self).wf(),
            final(self).lens@ == old(self).lens@,
            old(self).emptied ==> r is None && *final(self) == *old(self),
            !old(self).emptied ==> (match r {
                Some(v) => v@ == old(self).counters@ && final(self).counters@ == odo_step(
                    old(self).counters@,
                    old(self).lens@,
                ).0 && final(self).emptied == odo_step(
                    old(self).counters@,
                    old(self).lens@,
                ).1,
                None => false,
            }),
    {
        if self.emptied {
            return None;
        }
        let v = crate::entry::clone_vec_usize(&self.counters);
        let n = self.counters.len();
        let mut i = n;
        let ghost cs0 = self.counters@;
        let ghost lens0 = self.lens@;
        proof {
            assert(cs0.take(n as int) =~= cs0);
            assert(lens0.take(n as int) =~= lens0);
            assert(odo_step(cs0, lens0).0 + self.counters@.skip(n as int) =~= odo_step(
                cs0,
                lens0,
            ).0);
        }
        while i > 0
            invariant
                i <= n,
                n == cs0.len(),
                old(self).emptied == false,
                cs0 == old(self).counters@,
                lens0 == old(self).lens@,
                v@ == cs0,
                self.lens@ == lens0,
                cs0.len() == lens0.len(),
                self.counters@.len() == cs0.len(),
                self.emptied == false,
                forall|j: int| 0 <= j < cs0.len() ==> cs0[j] < lens0[j],
                self.counters@.take(i as int) == cs0.take(i as int),
                forall|j: int| i <= j < cs0.len() ==> self.counters@[j] == 0,
                odo_step(cs0, lens0) == (
                    odo_step(cs0.take(i as int), lens0.take(i as int)).0 + self.counters@.skip(
                        i as int,
                    ),
                    odo_step(cs0.take(i as int), lens0.take(i as int)).1,
                ),
            decreases i,
        {
            let idx = i - 1;
            proof {
                assert(cs0.take(i as int).last() == cs0[idx as int]);
                assert(cs0.take(i as int).drop_last() =~= cs0.take(idx as int));
                assert(lens0.take(i as int).last() == lens0[idx as int]);
                assert(lens0.take(i as int).drop_last() =~= lens0.take(idx as int));
                assert(self.counters@[idx as int] == cs0[idx as int]);
            }
            let cur = self.counters[idx];
            if cur + 1 < self.lens[idx] {
                self.counters.set(idx, cur + 1);
                proof {
                    let stepped = odo_step(cs0.take(i as int), lens0.take(i as int));
                    assert(stepped.0 =~= cs0.take(i as int).update(idx as int, (cur + 1) as usize));
                    assert(stepped.0 + self.counters@.skip(i as int) =~= self.counters@);
                    assert(odo_step(cs0, lens0).0 =~= self.counters@);
                }
                return Some(v);
            }
            self.counters.set(idx, 0);
            proof {
                let whole = odo_step(cs0.take(i as int), lens0.take(i as int));
                let front = odo_step(cs0.take(idx as int), lens0.take(idx as int));
                assert(whole.0 =~= front.0.push(0));
                assert(self.counters@.take(idx as int) =~= cs0.take(idx as int));
                assert(front.0.push(0) + self.counters@.skip(i as int) =~= front.0
                    + self.counters@.skip(idx as int));
            }
            i = idx;
        }
        self.emptied = true;
        proof {
            assert(cs0.take(0) =~= Seq::<usize>::empty());
            assert(lens0.take(0) =~= Seq::<usize>::empty());
            assert(odo_step(cs0.take(0), lens0.take(0)).1);
            assert(odo_step(cs0.take(0), lens0.take(0)).0 + self.counters@.skip(0)
                =~= self.counters@);
        }
        Some(v)
    }
}

/// Starts the product of the given family: exhausted at once when the
/// family is empty or any of its lists is.
pub fn cartesian_product<E>(vec: &Vec<Vec<E>>) -> (r: CartesianProduct)
    ensures
        r.wf(),
        r.lens@.len() == vec@.len(),
        forall|i: int| 0 <= i < vec@.len() ==> r.lens@[i] == (#[trigger] vec@[i])@.len(),
        r.emptied == (vec@.len() == 0 || exists|i: int|
            0 <= i < vec@.len() && (#[trigger] vec@[i])@.len() == 0),
        !r.emptied ==> forall|i: int| 0 <= i < r.counters@.len() ==> r.counters@[i] == 0,
    {
    let mut lens: Vec<usize> = Vec::new();
    let mut counters: Vec<usize> = Vec::new();
    let mut any_empty = false;
    let mut i: usize = 0;
    while i < vec.len()
        invariant
            i <= vec@.len(),
            lens@.len() == i,
            counters@.len() == i,
            forall|j: int| 0 <= j < i ==> lens@[j] == (#[trigger] vec@[j])@.len(),
            forall|j: int| 0 <= j < i ==> counters@[j] == 0,
            any_empty == (exists|j: int| 0 <= j < i && (#[trigger] vec@[j])@.len() == 0),
        decreases vec@.len() - i,
    {
        let l = vec[i].len();
        lens.push(l);
        counters.push(0);
        if l == 0 {
            any_empty = true;
        }
        i = i + 1;
    }
    proof {
        if !(vec@.len() == 0 || any_empty) {
            assert forall|j: int| 0 <= j < vec@.len() implies counters@[j] < lens@[j] by {
                assert(vec@[j]@.len() != 0);
            }
        }
    }
    CartesianProduct { emptied: vec.len() == 0 || any_empty, lens, counters }
}

/// The mixed-radix value of an index tuple: how many tuples precede it.
pub open spec fn odo_rank(cs: Seq<usize>, lens: Seq<usize>) -> int
    decreases cs.len(),
{
    if cs.len() == 0 {
        0
    } else {
        odo_rank(cs.drop_last(), lens.drop_last()) * lens.last() + cs.last()
    }
}

/// The number of tuples under the limits.
pub open spec fn odo_total(lens: Seq<usize>) -> int
    decreases lens.len(),
{
    if lens.len() == 0 {
        1
    } else {
        odo_total(lens.drop_last()) * lens.last()
    }
}

/// An in-bounds tuple ranks below the total.
pub proof fn lemma_odo_rank_bounds(cs: Seq<usize>, lens: Seq<usize>)
    requires
        cs.len() == lens.len(),
        forall|i: int| 0 <= i < cs.len() ==> cs[i] < lens[i],
    ensures
        0 <= odo_rank(cs, lens) < odo_total(lens),
    decreases cs.len(),
{
    if cs.len() > 0 {
        lemma_odo_rank_bounds(cs.drop_last(), lens.drop_last());
        let rf = odo_rank(cs.drop_last(), lens.drop_last());
        let tf = odo_total(lens.drop_last());
        let ll = lens.last() as int;
        assert(cs.last() < lens.last());
        assert(rf * ll + cs.last() < tf * ll) by (nonlinear_arith)
            requires
                0 <= rf < tf,
                0 < ll,
                cs.last() < ll,
        ;
        assert(rf * ll + cs.last() >= 0) by (nonlinear_arith)
            requires
                0 <= rf,
                0 < ll,
        ;
    }
}

/// A step that does not wrap moves exactly one rank forward and stays in
/// bounds.
pub proof fn lemma_odo_step_rank(cs: Seq<usize>, lens: Seq<usize>)
    requires
        cs.len() == lens.len(),
        forall|i: int| 0 <= i < cs.len() ==> cs[i] < lens[i],
    ensures
        !odo_step(cs, lens).1 ==> {
            let ns = odo_step(cs, lens).0;
            &&& ns.len() == lens.len()
            &&& (forall|i: int| 0 <= i < ns.len() ==> ns[i] < lens[i])
            &&& odo_rank(ns, lens) == odo_rank(cs, lens) + 1
        },
    decreases cs.len(),
{
    if cs.len() > 0 {
        let st = odo_step(cs, lens);
        if cs.last() + 1 < lens.last() {
            let ns = st.0;
            assert(ns.drop_last() =~= cs.drop_last());
            assert(ns.last() == cs.last() + 1);
        } else {
            lemma_odo_step_rank(cs.drop_last(), lens.drop_last());
            let front = odo_step(cs.drop_last(), lens.drop_last());
            if !front.1 {
                let ns = st.0;
                assert(ns =~= front.0.push(0));
                assert(ns.drop_last() =~= front.0);
                assert(ns.last() == 0);
                let rf = odo_rank(cs.drop_last(), lens.drop_last());
                let ll = lens.last() as int;
                assert(cs.last() as int == ll - 1);
                assert((rf + 1) * ll == rf * ll + ll) by (nonlinear_arith);
                assert(forall|i: int| 0 <= i < ns.len() - 1 ==> ns[i] == front.0[i]);
            }
        }
    }
}

} // verus!
