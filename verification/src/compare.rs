use vstd::prelude::*;

use crate::entry::{
    attr_lines_from, attrval_bytes, bytes_eq, dn_key, lemma_lines_step, lemma_take_skip_chain,
    lower_bytes, spec_values, write_attrval, AttrV, Entry, WriteEntry,
};
use crate::loc::StreamError;

verus! {

/// Lexicographic order on byte strings.
pub open spec fn bytes_lt(a: Seq<u8>, b: Seq<u8>) -> bool
    decreases a.len() + b.len(),
{
    if a.len() == 0 {
        b.len() > 0
    } else if b.len() == 0 {
        false
    } else if a[0] < b[0] {
        true
    } else if a[0] > b[0] {
        false
    } else {
        bytes_lt(a.drop_first(), b.drop_first())
    }
}

/// The order on distinguished names: a shorter ancestor name sorts before a
/// longer descendant name; equal lengths compare lexicographically.
pub open spec fn dn_before(a: Seq<u8>, b: Seq<u8>) -> bool {
    a.len() < b.len() || (a.len() == b.len() && bytes_lt(a, b))
}

#[derive(PartialEq, Eq, Structural, Clone, Copy, Debug)]
pub enum DnOrder {
    Less,
    Equal,
    Greater,
}

/// Three-way comparison under the distinguished-name order.
pub fn dn_compare(a: &[u8], b: &[u8]) -> (r: DnOrder)
    ensures
        r is Equal <==> a@ == b@,
        r is Less <==> dn_before(a@, b@),
        r is Greater <==> dn_before(b@, a@),
    {
    proof {
        lemma_bytes_lt_trichotomy(a@, b@);
    }
    if a.len() < b.len() {
        return DnOrder::Less;
    }
    if a.len() > b.len() {
        return DnOrder::Greater;
    }
    let mut i: usize = 0;
    while i < a.len()
        invariant
            i <= a@.len(),
            a@.len() == b@.len(),
            a@.take(i as int) == b@.take(i as int),
        decreases a@.len() - i,
    {
        if a[i] < b[i] {
            proof {
                lemma_bytes_lt_at(a@, b@, i as int);
                lemma_bytes_lt_trichotomy(a@, b@);
            }
            return DnOrder::Less;
        }
        if a[i] > b[i] {
            proof {
                assert(b@.take(i as int) == a@.take(i as int));
                lemma_bytes_lt_at(b@, a@, i as int);
                lemma_bytes_lt_trichotomy(a@, b@);
                lemma_bytes_lt_trichotomy(b@, a@);
            }
            return DnOrder::Greater;
        }
        proof {
            assert(a@.take(i as int + 1) =~= a@.take(i as int).push(a@[i as int]));
            assert(b@.take(i as int + 1) =~= b@.take(i as int).push(b@[i as int]));
        }
        i = i + 1;
    }
    proof {
        assert(a@.take(a@.len() as int) =~= a@);
        assert(b@.take(b@.len() as int) =~= b@);
        lemma_bytes_lt_irrefl(a@);
    }
    DnOrder::Equal
}

/// Exactly one of `<`, `=`, `>` holds.
proof fn lemma_bytes_lt_trichotomy(a: Seq<u8>, b: Seq<u8>)
    ensures
        !(bytes_lt(a, b) && bytes_lt(b, a)),
        a == b ==> !bytes_lt(a, b),
    decreases a.len() + b.len(),
{
    if a.len() > 0 && b.len() > 0 && a[0] == b[0] {
        lemma_bytes_lt_trichotomy(a.drop_first(), b.drop_first());
        if a == b {
            assert(a.drop_first() =~= b.drop_first());
        }
    }
}

proof fn lemma_bytes_lt_irrefl(a: Seq<u8>)
    ensures
        !bytes_lt(a, a),
    decreases a.len(),
{
    if a.len() > 0 {
        lemma_bytes_lt_irrefl(a.drop_first());
    }
}

/// Differing first at `i` with a smaller byte means lexicographically less.
proof fn lemma_bytes_lt_at(a: Seq<u8>, b: Seq<u8>, i: int)
    requires
        a.len() == b.len(),
        0 <= i < a.len(),
        a.take(i) == b.take(i),
        a[i] < b[i],
    ensures
        bytes_lt(a, b),
    decreases i,
{
    if i == 0 {
    } else {
        assert(a.take(i)[0] == a[0]);
        assert(b.take(i)[0] == b[0]);
        assert(a.drop_first().take(i - 1) =~= a.take(i).drop_first());
        assert(b.drop_first().take(i - 1) =~= b.take(i).drop_first());
        assert(a.drop_first()[i - 1] == a[i]);
        lemma_bytes_lt_at(a.drop_first(), b.drop_first(), i - 1);
    }
}

/// Entries keyed by lowercased distinguished name, kept in ascending
/// name order; an entry with a name already present replaces the old one.
/// Entries without a name are dropped.
pub struct SortedEntries {
    pub keys: Vec<Vec<u8>>,
    pub items: Vec<Entry>,
    pub log: Ghost<Seq<Seq<AttrV>>>,
}

impl SortedEntries {
    pub open spec fn sorted(&self) -> bool {
        &&& self.keys@.len() == self.items@.len()
        &&& forall|i: int, j: int|
            0 <= i < j < self.keys@.len() ==> dn_before(
                (#[trigger] self.keys@[i])@,
                (#[trigger] self.keys@[j])@,
            )
    }

    pub fn new() -> (r: SortedEntries)
        ensures
            r.wf(),
            r.sorted(),
            r.keys@.len() == 0,
    {
        SortedEntries { keys: Vec::new(), items: Vec::new(), log: Ghost(Seq::empty()) }
    }

    pub fn len(&self) -> (r: usize)
        ensures
            r == self.keys@.len(),
    {
        self.keys.len()
    }

    pub fn into_inner(self) -> (r: (Vec<Vec<u8>>, Vec<Entry>))
        ensures
            r.0 == self.keys,
            r.1 == self.items,
    {
        (self.keys, self.items)
    }
}

/// Where `key` belongs in an ascending key list: the first position whose
/// key does not come before it.
pub open spec fn insert_pos(ks: Seq<Seq<u8>>, key: Seq<u8>) -> int
    decreases ks.len(),
{
    if ks.len() == 0 {
        0
    } else if dn_before(ks[0], key) {
        1 + insert_pos(ks.drop_first(), key)
    } else {
        0
    }
}

/// `insert_pos` is the first position not strictly before the key.
pub proof fn lemma_insert_pos_char(ks: Seq<Seq<u8>>, key: Seq<u8>)
    ensures
        0 <= insert_pos(ks, key) <= ks.len(),
        forall|j: int| 0 <= j < insert_pos(ks, key) ==> dn_before(#[trigger] ks[j], key),
        insert_pos(ks, key) < ks.len() ==> !dn_before(ks[insert_pos(ks, key)], key),
    decreases ks.len(),
{
    if ks.len() > 0 {
        lemma_insert_pos_char(ks.drop_first(), key);
        assert(forall|j: int| 1 <= j < ks.len() ==> ks[j] == ks.drop_first()[j - 1]);
    }
}

/// The name order is a strict order: nothing comes before itself, and at
/// most one of the two directions holds.
proof fn lemma_dn_before_strict(a: Seq<u8>, b: Seq<u8>)
    ensures
        a == b ==> !dn_before(a, b),
        !(dn_before(a, b) && dn_before(b, a)),
{
    lemma_bytes_lt_irrefl(a);
    lemma_bytes_lt_trichotomy(a, b);
}

impl SortedEntries {
    /// The stored keys, in the contracts' view.
    pub open spec fn kview(&self) -> Seq<Seq<u8>> {
        self.keys@.map_values(|k: Vec<u8>| k@)
    }

    /// The stored entries, in the contracts' view.
    pub open spec fn iview(&self) -> Seq<Seq<AttrV>> {
        self.items@.map_values(|e: Entry| e@)
    }
}

impl WriteEntry for SortedEntries {
    open spec fn wf(&self) -> bool {
        self.sorted()
    }

    open spec fn entries(&self) -> Seq<Seq<AttrV>> {
        self.log@
    }

    open spec fn infallible(&self) -> bool {
        true
    }

    /// Stores the entry under its lowercased name, keeping the keys in
    /// ascending name order; a name already present has its entry replaced;
    /// an entry without a name changes nothing.
    #[verifier::rlimit(100)]
    fn write_entry(&mut self, e: &Entry) -> (r: Result<(), StreamError>)
        ensures
            r is Ok,
            final(self).sorted(),
            spec_values(e@, dn_key()).len() == 0 ==> final(self).kview() == old(self).kview()
                && final(self).iview() == old(self).iview(),
            spec_values(e@, dn_key()).len() > 0 ==> ({
                let key = lower_bytes(spec_values(e@, dn_key())[0]);
                let p = insert_pos(old(self).kview(), key);
                if p < old(self).kview().len() && old(self).kview()[p] == key {
                    final(self).kview() == old(self).kview()
                        && final(self).iview() == old(self).iview().update(p, e@)
                } else {
                    final(self).kview() == old(self).kview().insert(p, key)
                        && final(self).iview() == old(self).iview().insert(p, e@)
                }
            }),
    {
        proof {
            self.log@ = self.log@.push(e@);
            assert(lower_bytes(seq![0x64u8, 0x6eu8]) =~= dn_key());
        }
        let dn = match e.get_one(&[0x64u8, 0x6eu8]) {
            Some(v) => v,
            None => {
                return Ok(());
            },
        };
        let key = crate::entry::to_lower(dn.as_slice());
        let item = crate::entry::clone_entry(e);
        let n = self.keys.len();
        let mut i: usize = 0;
        proof {
            lemma_insert_pos_char(self.kview(), key@);
        }
        while i < n
            invariant
                i <= n,
                n == self.keys@.len(),
                self.sorted(),
                self.log@ == old(self).log@.push(e@),
                self.keys == old(self).keys,
                self.items == old(self).items,
                key@ == lower_bytes(spec_values(e@, dn_key())[0]),
                spec_values(e@, dn_key()).len() > 0,
                item@ == e@,
                forall|j: int| 0 <= j < i ==> dn_before((#[trigger] self.keys@[j])@, key@),
            decreases n - i,
        {
            match dn_compare(self.keys[i].as_slice(), key.as_slice()) {
                DnOrder::Equal => {
                    proof {
                        lemma_insert_pos_char(self.kview(), key@);
                        lemma_dn_before_strict((self.keys@[i as int])@, key@);
                        assert(self.kview()[i as int] == key@);
                        assert(insert_pos(self.kview(), key@) == i as int) by {
                            let p = insert_pos(self.kview(), key@);
                            if p < i {
                                assert(dn_before((self.keys@[p])@, key@));
                            }
                            if p > i {
                                assert(dn_before(#[trigger] self.kview()[i as int], key@));
                            }
                        }
                    }
                    // replace the stored entry for this name
                    self.items.remove(i);
                    self.items.insert(i, item);
                    proof {
                        old(self).items@.remove_ensures(i as int);
                        old(self).items@.remove(i as int).insert_ensures(i as int, item);
                        assert(self.iview() =~= old(self).iview().update(i as int, e@));
                        assert(self.kview() =~= old(self).kview());
                    }
                    return Ok(());
                },
                DnOrder::Less => {},
                DnOrder::Greater => {
                    proof {
                        lemma_insert_pos_char(self.kview(), key@);
                        lemma_dn_before_strict((self.keys@[i as int])@, key@);
                        assert(dn_before(key@, (self.keys@[i as int])@));
                        assert(insert_pos(self.kview(), key@) == i as int) by {
                            let p = insert_pos(self.kview(), key@);
                            if p < i {
                                assert(dn_before((self.keys@[p])@, key@));
                            }
                            if p > i {
                                assert(dn_before(#[trigger] self.kview()[i as int], key@));
                            }
                        }
                    }
                    self.keys.insert(i, key);
                    self.items.insert(i, item);
                    proof {
                        old(self).keys@.insert_ensures(i as int, key);
                        old(self).items@.insert_ensures(i as int, item);
                        old(self).kview().insert_ensures(i as int, key@);
                        old(self).iview().insert_ensures(i as int, e@);
                        assert(self.kview() =~= old(self).kview().insert(i as int, key@));
                        assert(self.iview() =~= old(self).iview().insert(i as int, e@));
                        assert(self.keys@ == old(self).keys@.insert(i as int, key));
                        assert(forall|p: int|
                            0 <= p < i ==> self.keys@[p] == old(self).keys@[p]);
                        assert(self.keys@[i as int] == key);
                        assert forall|p: int|
                            i < p < self.keys@.len() implies self.keys@[p] == old(self).keys@[p
                            - 1] by {
                            assert(old(self).keys@.insert(i as int, key)[(p - 1) + 1] == old(
                                self,
                            ).keys@[p - 1]);
                        }
                        assert forall|p: int, q: int|
                            0 <= p < q < self.keys@.len() implies dn_before(
                            (#[trigger] self.keys@[p])@,
                            (#[trigger] self.keys@[q])@,
                        ) by {
                            if q < i {
                            } else if p < i && q == i {
                            } else if p < i {
                                assert(self.keys@[p] == old(self).keys@[p]);
                                assert(self.keys@[q] == old(self).keys@[q - 1]);
                                assert(p < q - 1);
                            } else if p == i {
                                assert(self.keys@[q] == old(self).keys@[q - 1]);
                                assert(dn_before(key@, (old(self).keys@[i as int])@));
                                if q == i + 1 {
                                } else {
                                    assert(dn_before(
                                        (old(self).keys@[i as int])@,
                                        (old(self).keys@[q - 1])@,
                                    ));
                                    lemma_dn_before_trans(
                                        key@,
                                        (old(self).keys@[i as int])@,
                                        (old(self).keys@[q - 1])@,
                                    );
                                }
                            } else {
                                assert(self.keys@[p] == old(self).keys@[p - 1]);
                                assert(self.keys@[q] == old(self).keys@[q - 1]);
                            }
                        }
                    }
                    return Ok(());
                },
            }
            i = i + 1;
        }
        self.keys.push(key);
        self.items.push(item);
        proof {
            lemma_insert_pos_char(old(self).kview(), key@);
            assert(insert_pos(old(self).kview(), key@) == n as int) by {
                let p = insert_pos(old(self).kview(), key@);
                if p < n {
                    assert(dn_before(#[trigger] old(self).kview()[p], key@));
                    assert(dn_before((old(self).keys@[p])@, key@));
                }
            }
            old(self).kview().insert_ensures(n as int, key@);
            old(self).iview().insert_ensures(n as int, e@);
            assert(self.kview() =~= old(self).kview().insert(n as int, key@));
            assert(self.iview() =~= old(self).iview().insert(n as int, e@));
            assert forall|p: int, q: int|
                0 <= p < q < self.keys@.len() implies dn_before(
                (#[trigger] self.keys@[p])@,
                (#[trigger] self.keys@[q])@,
            ) by {
                if q == self.keys@.len() - 1 {
                    assert(self.keys@[p] == old(self).keys@[p]);
                } else {
                    assert(self.keys@[p] == old(self).keys@[p]);
                    assert(self.keys@[q] == old(self).keys@[q]);
                }
            }
        }
        Ok(())
    }
}

/// The name order is transitive.
proof fn lemma_dn_before_trans(a: Seq<u8>, b: Seq<u8>, c: Seq<u8>)
    requires
        dn_before(a, b),
        dn_before(b, c),
    ensures
        dn_before(a, c),
    decreases a.len() + b.len() + c.len(),
{
    if a.len() == b.len() && b.len() == c.len() && a.len() > 0 {
        if a[0] == b[0] && b[0] == c[0] {
            lemma_dn_before_trans(a.drop_first(), b.drop_first(), c.drop_first());
        }
    }
}

/// The values of `a` that do not occur in `b`, in order.
pub open spec fn spec_missing(a: Seq<Seq<u8>>, b: Seq<Seq<u8>>) -> Seq<Seq<u8>>
    decreases a.len(),
{
    if a.len() == 0 {
        Seq::empty()
    } else if b.contains(a[0]) {
        spec_missing(a.drop_first(), b)
    } else {
        seq![a[0]] + spec_missing(a.drop_first(), b)
    }
}

/// The values of `a` absent from `b`: the deletions (or, with the
/// arguments swapped, the additions) of a per-attribute modification.
pub fn diff_values(a: &Vec<Vec<u8>>, b: &Vec<Vec<u8>>) -> (r: Vec<Vec<u8>>)
    ensures
        r@.map_values(|v: Vec<u8>| v@) == spec_missing(
            a@.map_values(|v: Vec<u8>| v@),
            b@.map_values(|v: Vec<u8>| v@),
        ),
{
    let ghost av = a@.map_values(|v: Vec<u8>| v@);
    let ghost bv = b@.map_values(|v: Vec<u8>| v@);
    let mut out: Vec<Vec<u8>> = Vec::new();
    let mut i: usize = 0;
    proof {
        assert(av.skip(0) =~= av);
        assert(out@.map_values(|v: Vec<u8>| v@) + spec_missing(av.skip(0), bv) =~= spec_missing(
            av,
            bv,
        ));
    }
    while i < a.len()
        invariant
            i <= a@.len(),
            av == a@.map_values(|v: Vec<u8>| v@),
            bv == b@.map_values(|v: Vec<u8>| v@),
            out@.map_values(|v: Vec<u8>| v@) + spec_missing(av.skip(i as int), bv) == spec_missing(
                av,
                bv,
            ),
        decreases a@.len() - i,
    {
        let ghost sfx = av.skip(i as int);
        proof {
            assert(sfx[0] == av[i as int]);
            assert(sfx.drop_first() =~= av.skip(i as int + 1));
        }
        let mut found = false;
        let mut j: usize = 0;
        while j < b.len()
            invariant
                j <= b@.len(),
                bv == b@.map_values(|v: Vec<u8>| v@),
                i < a@.len(),
                av == a@.map_values(|v: Vec<u8>| v@),
                found == exists|k: int| 0 <= k < j && bv[k] == av[i as int],
            decreases b@.len() - j,
        {
            if bytes_eq(b[j].as_slice(), a[i].as_slice()) {
                proof {
                    assert(bv[j as int] == av[i as int]);
                }
                found = true;
            }
            j = j + 1;
        }
        proof {
            assert(found == bv.contains(av[i as int]));
        }
        if !found {
            let ghost prev = out@;
            let c = crate::entry::clone_vec_u8(&a[i]);
            let ghost cv = c@;
            out.push(c);
            proof {
                assert(out@.map_values(|v: Vec<u8>| v@) =~= prev.map_values(|v: Vec<u8>| v@).push(
                    cv,
                ));
                assert(prev.map_values(|v: Vec<u8>| v@).push(cv) + spec_missing(
                    av.skip(i as int + 1),
                    bv,
                ) =~= prev.map_values(|v: Vec<u8>| v@) + (seq![cv] + spec_missing(
                    av.skip(i as int + 1),
                    bv,
                )));
            }
        }
        i = i + 1;
    }
    proof {
        assert(av.skip(a@.len() as int) =~= Seq::<Seq<u8>>::empty());
        assert(spec_missing(av.skip(a@.len() as int), bv) =~= Seq::<Seq<u8>>::empty());
        assert(out@.map_values(|v: Vec<u8>| v@) + Seq::<Seq<u8>>::empty() =~= out@.map_values(
            |v: Vec<u8>| v@,
        ));
    }
    out
}

#[derive(PartialEq, Eq, Structural, Clone, Copy, Debug)]
pub enum ModifyOpType {
    Add,
    Delete,
    Replace,
}

/// One operation of a modify changerecord, in the contracts' view.
pub struct OpV {
    pub typ: ModifyOpType,
    pub attr: Seq<u8>,
    pub values: Seq<Seq<u8>>,
}

/// One operation of a modify changerecord.
pub struct ModifyOp {
    pub typ: ModifyOpType,
    pub attr: Vec<u8>,
    pub values: Vec<Vec<u8>>,
}

impl View for ModifyOp {
    type V = OpV;

    open spec fn view(&self) -> OpV {
        OpV {
            typ: self.typ,
            attr: self.attr@,
            values: self.values@.map_values(|v: Vec<u8>| v@),
        }
    }
}

/// Is this lowercase attribute kept by the allow list (or, inverted,
/// absent from the deny list)?
pub open spec fn spec_selected(lower: Seq<u8>, attrs: Seq<Seq<u8>>, invert: bool) -> bool {
    invert != attrs.contains(lower)
}

/// The operations for one attribute both sides may hold: a single changed
/// value of a single-valued attribute becomes one replace; otherwise the
/// values only the old side has are deleted and the values only the new
/// side has are added, in that order.
pub open spec fn ops_for_attr(lower: Seq<u8>, old_vals: Seq<Seq<u8>>, new_vals: Seq<Seq<u8>>) -> Seq<
    OpV,
> {
    let del = spec_missing(old_vals, new_vals);
    let add = spec_missing(new_vals, old_vals);
    if add.len() == 1 && del.len() == 1 && new_vals.len() == 1 {
        seq![OpV { typ: ModifyOpType::Replace, attr: lower, values: add }]
    } else {
        (if del.len() > 0 {
            seq![OpV { typ: ModifyOpType::Delete, attr: lower, values: del }]
        } else {
            Seq::empty()
        }) + (if add.len() > 0 {
            seq![OpV { typ: ModifyOpType::Add, attr: lower, values: add }]
        } else {
            Seq::empty()
        })
    }
}

/// The operations contributed by the new entry's attributes from `k` on:
/// additions and in-place changes of every selected non-name attribute.
pub open spec fn new_ops_from(
    old_v: Seq<AttrV>,
    new_v: Seq<AttrV>,
    attrs: Seq<Seq<u8>>,
    invert: bool,
    k: int,
) -> Seq<OpV>
    decreases new_v.len() - k,
{
    if k < 0 || k >= new_v.len() {
        Seq::empty()
    } else {
        let a = new_v[k];
        (if a.lower == dn_key() || !spec_selected(a.lower, attrs, invert) || a.values.len()
            == 0 {
            Seq::empty()
        } else {
            ops_for_attr(
                a.lower,
                spec_values(old_v, lower_bytes(a.lower)),
                spec_values(new_v, lower_bytes(a.lower)),
            )
        }) + new_ops_from(old_v, new_v, attrs, invert, k + 1)
    }
}

/// The deletions contributed by attributes only the old entry holds, from
/// `k` on.
pub open spec fn old_ops_from(
    old_v: Seq<AttrV>,
    new_v: Seq<AttrV>,
    attrs: Seq<Seq<u8>>,
    invert: bool,
    k: int,
) -> Seq<OpV>
    decreases old_v.len() - k,
{
    if k < 0 || k >= old_v.len() {
        Seq::empty()
    } else {
        let a = old_v[k];
        (if a.lower == dn_key() || !spec_selected(a.lower, attrs, invert) || a.values.len() == 0
            || spec_values(new_v, lower_bytes(a.lower)).len() > 0 || spec_values(
            old_v,
            lower_bytes(a.lower),
        ).len() == 0 {
            Seq::empty()
        } else {
            seq![
                OpV {
                    typ: ModifyOpType::Delete,
                    attr: a.lower,
                    values: spec_values(old_v, lower_bytes(a.lower)),
                },
            ]
        }) + old_ops_from(old_v, new_v, attrs, invert, k + 1)
    }
}

/// The whole modify-operation list that turns the old entry (or nothing)
/// into the new one, limited to the selected attributes.
pub open spec fn spec_modify_ops(
    old_opt: Option<Seq<AttrV>>,
    new_v: Seq<AttrV>,
    attrs: Seq<Seq<u8>>,
    invert: bool,
) -> Seq<OpV> {
    let old_v = (match old_opt {
        Some(o) => o,
        None => Seq::empty(),
    });
    new_ops_from(old_v, new_v, attrs, invert, 0) + (match old_opt {
        Some(o) => old_ops_from(o, new_v, attrs, invert, 0),
        None => Seq::empty(),
    })
}

/// A modify changerecord: the target name and its grouped operations.
pub struct ModifyChangeRecord {
    pub dn: Vec<u8>,
    pub ops: Vec<ModifyOp>,
}

/// Is this attribute kept by the allow list? With `invert`, the list names
/// the attributes to drop instead.
pub fn attr_selected(lower: &[u8], attrs: &Vec<Vec<u8>>, invert: bool) -> (r: bool)
    ensures
        r == (invert != (exists|i: int| 0 <= i < attrs@.len() && (#[trigger] attrs@[i])@ == lower@)),
{
    let mut any = false;
    let mut i: usize = 0;
    while i < attrs.len()
        invariant
            i <= attrs@.len(),
            any == exists|j: int| 0 <= j < i && (#[trigger] attrs@[j])@ == lower@,
        decreases attrs@.len() - i,
    {
        if bytes_eq(attrs[i].as_slice(), lower) {
            any = true;
        }
        i = i + 1;
    }
    invert != any
}

impl ModifyChangeRecord {
    /// The operations that turn `old_e` (or nothing) into `new_e`, limited
    /// to the selected attributes: per attribute, a lone changed value
    /// becomes a replace; otherwise the values only one side has are
    /// deleted and added. Yields nothing when the sides agree or the new
    /// entry has no name.
    pub fn new(old_e: Option<&Entry>, new_e: &Entry, attrs: &Vec<Vec<u8>>, invert: bool) -> (r:
        Option<ModifyChangeRecord>)
        ensures
            (match r {
                Some(m) => {
                    &&& m.ops@.len() > 0
                    &&& spec_values(new_e@, dn_key()).len() > 0
                    &&& m.dn@ == spec_values(new_e@, dn_key())[0]
                    &&& m.ops@.map_values(|o: ModifyOp| o@) == spec_modify_ops(
                        (match old_e {
                            Some(oe) => Some(oe@),
                            None => None,
                        }),
                        new_e@,
                        attrs@.map_values(|a: Vec<u8>| a@),
                        invert,
                    )
                    &&& (forall|k: int|
                        0 <= k < m.ops@.len() ==> (#[trigger] m.ops@[k]).values@.len() > 0)
                    &&& (forall|k: int|
                        0 <= k < m.ops@.len() && (#[trigger] m.ops@[k]).typ is Replace
                            ==> m.ops@[k].values@.len() == 1)
                    &&& (forall|k: int|
                        0 <= k < m.ops@.len() ==> (#[trigger] m.ops@[k]).attr@ != dn_key())
                },
                None => spec_values(new_e@, dn_key()).len() == 0 || spec_modify_ops(
                    (match old_e {
                        Some(oe) => Some(oe@),
                        None => None,
                    }),
                    new_e@,
                    attrs@.map_values(|a: Vec<u8>| a@),
                    invert,
                ).len() == 0,
            }),
    {
        proof {
            assert(lower_bytes(seq![0x64u8, 0x6eu8]) =~= dn_key());
        }
        let dn = match new_e.get_one(&[0x64u8, 0x6eu8]) {
            Some(v) => v,
            None => {
                return None;
            },
        };
        let mut ops: Vec<ModifyOp> = Vec::new();
        let ghost old_v: Seq<AttrV> = (match old_e {
            Some(oe) => oe@,
            None => Seq::empty(),
        });
        let ghost attrsv = attrs@.map_values(|a: Vec<u8>| a@);
        proof {
            assert(ops@.map_values(|o: ModifyOp| o@) + new_ops_from(
                old_v,
                new_e@,
                attrsv,
                invert,
                0,
            ) =~= new_ops_from(old_v, new_e@, attrsv, invert, 0));
        }
        // attributes of the new entry: additions and in-place changes
        let mut i: usize = 0;
        while i < new_e.attrs.len()
            invariant
                i <= new_e.attrs@.len(),
                spec_values(new_e@, dn_key()).len() > 0,
                dn@ == spec_values(new_e@, dn_key())[0],
                old_v == (match old_e {
                    Some(oe) => oe@,
                    None => Seq::<AttrV>::empty(),
                }),
                attrsv == attrs@.map_values(|a: Vec<u8>| a@),
                ops@.map_values(|o: ModifyOp| o@) + new_ops_from(
                    old_v,
                    new_e@,
                    attrsv,
                    invert,
                    i as int,
                ) == new_ops_from(old_v, new_e@, attrsv, invert, 0),
                forall|k: int| 0 <= k < ops@.len() ==> (#[trigger] ops@[k]).values@.len() > 0,
                forall|k: int|
                    0 <= k < ops@.len() && (#[trigger] ops@[k]).typ is Replace ==> ops@[
                        k
                    ].values@.len() == 1,
                forall|k: int| 0 <= k < ops@.len() ==> (#[trigger] ops@[k]).attr@ != dn_key(),
            decreases new_e.attrs@.len() - i,
        {
            let ghost pre_ops = ops@.map_values(|o: ModifyOp| o@);
            let ghost a = new_e@[i as int];
            let ghost here_ops = new_ops_from(old_v, new_e@, attrsv, invert, i as int);
            let ghost rest = new_ops_from(old_v, new_e@, attrsv, invert, i as int + 1);
            let lower = crate::entry::clone_vec_u8(&new_e.attrs[i].lowercase);
            let dk: [u8; 2] = [0x64, 0x6e];
            proof {
                assert(dk@ =~= dn_key());
                assert(a.lower == lower@);
                assert(a.values.len() == new_e.attrs@[i as int].values@.len());
            }
            let skip_it = bytes_eq(lower.as_slice(), dk.as_slice()) || !attr_selected(
                lower.as_slice(),
                attrs,
                invert,
            ) || new_e.attrs[i].values.len() == 0;
            proof {
                assert(spec_selected(lower@, attrsv, invert) == (invert != (exists|j: int|
                    0 <= j < attrs@.len() && (#[trigger] attrs@[j])@ == lower@))) by {
                    if attrsv.contains(lower@) {
                        let w = choose|j: int| 0 <= j < attrsv.len() && attrsv[j] == lower@;
                        assert(attrs@[w]@ == lower@);
                    }
                    if exists|j: int| 0 <= j < attrs@.len() && (#[trigger] attrs@[j])@ == lower@ {
                        let w = choose|j: int|
                            0 <= j < attrs@.len() && (#[trigger] attrs@[j])@ == lower@;
                        assert(attrsv[w] == lower@);
                    }
                }
                assert(skip_it == (a.lower == dn_key() || !spec_selected(a.lower, attrsv, invert)
                    || a.values.len() == 0));
            }
            if !skip_it {
                let new_vals = new_e.get(lower.as_slice());
                let old_vals = match old_e {
                    Some(oe) => oe.get(lower.as_slice()),
                    None => Vec::new(),
                };
                proof {
                    assert(old_vals@.map_values(|v: Vec<u8>| v@) =~= spec_values(
                        old_v,
                        lower_bytes(lower@),
                    )) by {
                        match old_e {
                            Some(oe) => {},
                            None => {
                                assert(spec_values(Seq::<AttrV>::empty(), lower_bytes(lower@))
                                    =~= Seq::<Seq<u8>>::empty());
                            },
                        }
                    }
                }
                let ghost sdel = spec_missing(
                    spec_values(old_v, lower_bytes(lower@)),
                    spec_values(new_e@, lower_bytes(lower@)),
                );
                let ghost sadd = spec_missing(
                    spec_values(new_e@, lower_bytes(lower@)),
                    spec_values(old_v, lower_bytes(lower@)),
                );
                let del_values = diff_values(&old_vals, &new_vals);
                let add_values = diff_values(&new_vals, &old_vals);
                proof {
                    assert(del_values@.map_values(|v: Vec<u8>| v@) == sdel);
                    assert(add_values@.map_values(|v: Vec<u8>| v@) == sadd);
                    assert(here_ops == ops_for_attr(
                        a.lower,
                        spec_values(old_v, lower_bytes(a.lower)),
                        spec_values(new_e@, lower_bytes(a.lower)),
                    ) + rest);
                }
                if add_values.len() == 1 && del_values.len() == 1 && new_vals.len() == 1 {
                    // a single-valued attribute changed in place
                    let op = ModifyOp {
                        typ: ModifyOpType::Replace,
                        attr: lower,
                        values: add_values,
                    };
                    let ghost opv = op@;
                    ops.push(op);
                    proof {
                        assert(ops@.map_values(|o: ModifyOp| o@) =~= pre_ops.push(opv));
                        assert(ops_for_attr(
                            a.lower,
                            spec_values(old_v, lower_bytes(a.lower)),
                            spec_values(new_e@, lower_bytes(a.lower)),
                        ) =~= seq![opv]);
                        assert(pre_ops.push(opv) + rest =~= pre_ops + (seq![opv] + rest));
                    }
                } else {
                    let ghost both = ops_for_attr(
                        a.lower,
                        spec_values(old_v, lower_bytes(a.lower)),
                        spec_values(new_e@, lower_bytes(a.lower)),
                    );
                    if del_values.len() > 0 {
                        let op = ModifyOp {
                            typ: ModifyOpType::Delete,
                            attr: crate::entry::clone_vec_u8(&lower),
                            values: del_values,
                        };
                        let ghost opv = op@;
                        ops.push(op);
                        proof {
                            assert(ops@.map_values(|o: ModifyOp| o@) =~= pre_ops.push(opv));
                        }
                    }
                    if add_values.len() > 0 {
                        let ghost mid_ops = ops@.map_values(|o: ModifyOp| o@);
                        let op = ModifyOp {
                            typ: ModifyOpType::Add,
                            attr: lower,
                            values: add_values,
                        };
                        let ghost opv = op@;
                        ops.push(op);
                        proof {
                            assert(ops@.map_values(|o: ModifyOp| o@) =~= mid_ops.push(opv));
                        }
                    }
                    proof {
                        if sdel.len() > 0 && sadd.len() > 0 {
                            assert(both =~= seq![
                                OpV { typ: ModifyOpType::Delete, attr: a.lower, values: sdel },
                                OpV { typ: ModifyOpType::Add, attr: a.lower, values: sadd },
                            ]);
                            assert(ops@.map_values(|o: ModifyOp| o@) =~= pre_ops + both);
                        } else if sdel.len() > 0 {
                            assert(both =~= seq![
                                OpV { typ: ModifyOpType::Delete, attr: a.lower, values: sdel },
                            ]);
                            assert(ops@.map_values(|o: ModifyOp| o@) =~= pre_ops + both);
                        } else if sadd.len() > 0 {
                            assert(both =~= seq![
                                OpV { typ: ModifyOpType::Add, attr: a.lower, values: sadd },
                            ]);
                            assert(ops@.map_values(|o: ModifyOp| o@) =~= pre_ops + both);
                        } else {
                            assert(both =~= Seq::<OpV>::empty());
                            assert(ops@.map_values(|o: ModifyOp| o@) =~= pre_ops + both);
                        }
                        assert((pre_ops + both) + rest =~= pre_ops + (both + rest));
                    }
                }
            } else {
                proof {
                    assert(here_ops =~= rest);
                }
            }
            i = i + 1;
        }
        proof {
            assert(new_ops_from(old_v, new_e@, attrsv, invert, new_e.attrs@.len() as int)
                =~= Seq::<OpV>::empty());
            assert(ops@.map_values(|o: ModifyOp| o@) + Seq::<OpV>::empty() =~= ops@.map_values(
                |o: ModifyOp| o@,
            ));
        }
        let ghost newops = new_ops_from(old_v, new_e@, attrsv, invert, 0);
        // attributes only the old entry has: deletions
        match old_e {
            Some(oe) => {
                let mut k: usize = 0;
                proof {
                    assert(ops@.map_values(|o: ModifyOp| o@) + old_ops_from(
                        oe@,
                        new_e@,
                        attrsv,
                        invert,
                        0,
                    ) =~= newops + old_ops_from(oe@, new_e@, attrsv, invert, 0));
                }
                while k < oe.attrs.len()
                    invariant
                        k <= oe.attrs@.len(),
                        spec_values(new_e@, dn_key()).len() > 0,
                        dn@ == spec_values(new_e@, dn_key())[0],
                        old_e == Some(oe),
                        old_v == oe@,
                        attrsv == attrs@.map_values(|a: Vec<u8>| a@),
                        newops == new_ops_from(old_v, new_e@, attrsv, invert, 0),
                        ops@.map_values(|o: ModifyOp| o@) + old_ops_from(
                            oe@,
                            new_e@,
                            attrsv,
                            invert,
                            k as int,
                        ) == newops + old_ops_from(oe@, new_e@, attrsv, invert, 0),
                        forall|k2: int|
                            0 <= k2 < ops@.len() ==> (#[trigger] ops@[k2]).values@.len() > 0,
                        forall|k2: int|
                            0 <= k2 < ops@.len() && (#[trigger] ops@[k2]).typ is Replace ==> ops@[
                                k2
                            ].values@.len() == 1,
                        forall|k2: int|
                            0 <= k2 < ops@.len() ==> (#[trigger] ops@[k2]).attr@ != dn_key(),
                    decreases oe.attrs@.len() - k,
                {
                    let ghost pre_ops = ops@.map_values(|o: ModifyOp| o@);
                    let ghost a = oe@[k as int];
                    let ghost here_ops = old_ops_from(oe@, new_e@, attrsv, invert, k as int);
                    let ghost rest = old_ops_from(oe@, new_e@, attrsv, invert, k as int + 1);
                    let lower = crate::entry::clone_vec_u8(&oe.attrs[k].lowercase);
                    let dk: [u8; 2] = [0x64, 0x6e];
                    proof {
                        assert(dk@ =~= dn_key());
                        assert(a.lower == lower@);
                        assert(a.values.len() == oe.attrs@[k as int].values@.len());
                    }
                    let in_new = new_e.get(lower.as_slice()).len() > 0;
                    let skip_it = bytes_eq(lower.as_slice(), dk.as_slice()) || !attr_selected(
                        lower.as_slice(),
                        attrs,
                        invert,
                    ) || oe.attrs[k].values.len() == 0 || in_new;
                    proof {
                        assert(in_new == (spec_values(new_e@, lower_bytes(lower@)).len() > 0));
                        assert(spec_selected(lower@, attrsv, invert) == (invert != (exists|
                            j: int,
                        |
                            0 <= j < attrs@.len() && (#[trigger] attrs@[j])@ == lower@))) by {
                            if attrsv.contains(lower@) {
                                let w = choose|j: int|
                                    0 <= j < attrsv.len() && attrsv[j] == lower@;
                                assert(attrs@[w]@ == lower@);
                            }
                            if exists|j: int|
                                0 <= j < attrs@.len() && (#[trigger] attrs@[j])@ == lower@ {
                                let w = choose|j: int|
                                    0 <= j < attrs@.len() && (#[trigger] attrs@[j])@ == lower@;
                                assert(attrsv[w] == lower@);
                            }
                        }
                    }
                    if !skip_it {
                        let old_vals = oe.get(lower.as_slice());
                        if old_vals.len() > 0 {
                            let op = ModifyOp {
                                typ: ModifyOpType::Delete,
                                attr: lower,
                                values: old_vals,
                            };
                            let ghost opv = op@;
                            ops.push(op);
                            proof {
                                assert(ops@.map_values(|o: ModifyOp| o@) =~= pre_ops.push(opv));
                                assert(here_ops =~= seq![opv] + rest);
                                assert(pre_ops.push(opv) + rest =~= pre_ops + (seq![opv] + rest));
                            }
                        } else {
                            proof {
                                assert(spec_values(oe@, lower_bytes(lower@)).len() == 0);
                                assert(here_ops =~= rest);
                            }
                        }
                    } else {
                        proof {
                            assert(here_ops =~= rest);
                        }
                    }
                    k = k + 1;
                }
                proof {
                    assert(old_ops_from(oe@, new_e@, attrsv, invert, oe.attrs@.len() as int)
                        =~= Seq::<OpV>::empty());
                    assert(ops@.map_values(|o: ModifyOp| o@) + Seq::<OpV>::empty()
                        =~= ops@.map_values(|o: ModifyOp| o@));
                }
            },
            None => {},
        }
        proof {
            assert(ops@.map_values(|o: ModifyOp| o@) =~= spec_modify_ops(
                (match old_e {
                    Some(oe) => Some(oe@),
                    None => None,
                }),
                new_e@,
                attrsv,
                invert,
            )) by {
                match old_e {
                    Some(oe) => {},
                    None => {
                        assert(newops + Seq::<OpV>::empty() =~= newops);
                    },
                }
            }
            assert(ops@.map_values(|o: ModifyOp| o@).len() == ops@.len());
        }
        if ops.len() == 0 {
            None
        } else {
            Some(ModifyChangeRecord { dn, ops })
        }
    }
}

/// `changetype: add`, as bytes: the name line, the changetype line, every
/// selected attribute's value lines, and a blank line.
pub open spec fn add_record_bytes(e: Seq<AttrV>, attrs: Seq<Seq<u8>>, invert: bool) -> Seq<u8> {
    if spec_values(e, dn_key()).len() == 0 {
        Seq::empty()
    } else {
        attrval_bytes(dn_key(), spec_values(e, dn_key())[0]) + seq![
            0x63u8, 0x68u8, 0x61u8, 0x6eu8, 0x67u8, 0x65u8, 0x74u8, 0x79u8, 0x70u8, 0x65u8,
            0x3au8, 0x20u8, 0x61u8, 0x64u8, 0x64u8, 0x0au8,
        ] + add_attrs_from(e, attrs, invert, 0) + seq![0x0au8]
    }
}

/// The value lines of every selected, non-name attribute from `k` on.
pub open spec fn add_attrs_from(e: Seq<AttrV>, attrs: Seq<Seq<u8>>, invert: bool, k: int) -> Seq<
    u8,
>
    decreases e.len() - k,
{
    if k < 0 || k >= e.len() {
        Seq::empty()
    } else {
        (if e[k].lower == dn_key() || !spec_selected(e[k].lower, attrs, invert) {
            Seq::empty()
        } else {
            attr_lines_from(e[k].name, e[k].values, 0)
        }) + add_attrs_from(e, attrs, invert, k + 1)
    }
}

/// One modify operation, as bytes: its keyword line, its value lines, and
/// the `-` terminator line.
pub open spec fn op_bytes(o: OpV) -> Seq<u8> {
    (match o.typ {
        ModifyOpType::Add => seq![0x61u8, 0x64u8, 0x64u8, 0x3au8, 0x20u8],
        ModifyOpType::Delete => seq![
            0x64u8, 0x65u8, 0x6cu8, 0x65u8, 0x74u8, 0x65u8, 0x3au8, 0x20u8,
        ],
        ModifyOpType::Replace => seq![
            0x72u8, 0x65u8, 0x70u8, 0x6cu8, 0x61u8, 0x63u8, 0x65u8, 0x3au8, 0x20u8,
        ],
    }) + o.attr + seq![0x0au8] + attr_lines_from(o.attr, o.values, 0) + seq![0x2du8, 0x0au8]
}

/// The operations of a modify changerecord from `k` on, as bytes.
pub open spec fn ops_bytes_from(ops: Seq<OpV>, k: int) -> Seq<u8>
    decreases ops.len() - k,
{
    if k < 0 || k >= ops.len() {
        Seq::empty()
    } else {
        op_bytes(ops[k]) + ops_bytes_from(ops, k + 1)
    }
}

/// `changetype: modify`, as bytes: the name line, the changetype line, the
/// grouped operations, and a blank line.
pub open spec fn modify_record_bytes(dn: Seq<u8>, ops: Seq<OpV>) -> Seq<u8> {
    attrval_bytes(dn_key(), dn) + seq![
        0x63u8, 0x68u8, 0x61u8, 0x6eu8, 0x67u8, 0x65u8, 0x74u8, 0x79u8, 0x70u8, 0x65u8, 0x3au8,
        0x20u8, 0x6du8, 0x6fu8, 0x64u8, 0x69u8, 0x66u8, 0x79u8, 0x0au8,
    ] + ops_bytes_from(ops, 0) + seq![0x0au8]
}

/// `changetype: delete`, as bytes.
pub open spec fn delete_record_bytes(dn: Seq<u8>) -> Seq<u8> {
    attrval_bytes(dn_key(), dn) + seq![
        0x63u8, 0x68u8, 0x61u8, 0x6eu8, 0x67u8, 0x65u8, 0x74u8, 0x79u8, 0x70u8, 0x65u8, 0x3au8,
        0x20u8, 0x64u8, 0x65u8, 0x6cu8, 0x65u8, 0x74u8, 0x65u8, 0x0au8, 0x0au8,
    ]
}

/// Writes a delete changerecord for the name.
pub fn write_delete(w: &mut Vec<u8>, dn: &[u8]) -> (r: Result<(), StreamError>)
    ensures
        r is Ok,
        final(w)@ == old(w)@ + delete_record_bytes(dn@),
{
    let dk: [u8; 2] = [0x64, 0x6e];
    proof {
        assert(dk@ =~= dn_key());
    }
    match write_attrval(w, dk.as_slice(), dn) {
        Ok(_) => {},
        Err(_) => {
            proof {
                assert(false);
            }
        },
    }
    let tail: [u8; 20] = [
        0x63, 0x68, 0x61, 0x6e, 0x67, 0x65, 0x74, 0x79, 0x70, 0x65, 0x3a, 0x20, 0x64, 0x65, 0x6c,
        0x65, 0x74, 0x65, 0x0a, 0x0a,
    ];
    crate::entry::append_bytes(w, tail.as_slice());
    proof {
        assert(final(w)@ =~= old(w)@ + delete_record_bytes(dn@));
    }
    Ok(())
}

/// Writes an add changerecord: the name, `changetype: add`, then every
/// selected attribute's values, and a blank line. An entry without a name
/// writes nothing.
pub fn write_add(
    w: &mut Vec<u8>,
    entry: &Entry,
    attrs: &Vec<Vec<u8>>,
    invert: bool,
) -> (r: Result<(), StreamError>)
    ensures
        r is Ok,
        final(w)@ == old(w)@ + add_record_bytes(
            entry@,
            attrs@.map_values(|a: Vec<u8>| a@),
            invert,
        ),
{
    let ghost attrsv = attrs@.map_values(|a: Vec<u8>| a@);
    proof {
        assert(lower_bytes(seq![0x64u8, 0x6eu8]) =~= dn_key());
    }
    let dn = match entry.get_one(&[0x64u8, 0x6eu8]) {
        Some(v) => v,
        None => {
            proof {
                assert(old(w)@ + add_record_bytes(entry@, attrsv, invert) =~= old(w)@);
            }
            return Ok(());
        },
    };
    let dk: [u8; 2] = [0x64, 0x6e];
    proof {
        assert(dk@ =~= dn_key());
    }
    match write_attrval(w, dk.as_slice(), dn.as_slice()) {
        Ok(_) => {},
        Err(_) => {
            proof {
                assert(false);
            }
        },
    }
    let ct: [u8; 16] = [
        0x63, 0x68, 0x61, 0x6e, 0x67, 0x65, 0x74, 0x79, 0x70, 0x65, 0x3a, 0x20, 0x61, 0x64, 0x64,
        0x0a,
    ];
    crate::entry::append_bytes(w, ct.as_slice());
    let ghost afterct = w@;
    let ghost total = add_attrs_from(entry@, attrsv, invert, 0);
    let mut i: usize = 0;
    let n = entry.attrs.len();
    proof {
        assert(afterct + total.take(total.len() - add_attrs_from(
            entry@,
            attrsv,
            invert,
            0,
        ).len()) =~= afterct);
        assert(total.skip(0) =~= total);
    }
    while i < n
        invariant
            i <= n,
            n == entry.attrs@.len(),
            dk@ == dn_key(),
            attrsv == attrs@.map_values(|a: Vec<u8>| a@),
            total == add_attrs_from(entry@, attrsv, invert, 0),
            w@ == afterct + total.take(
                total.len() - add_attrs_from(entry@, attrsv, invert, i as int).len(),
            ),
            add_attrs_from(entry@, attrsv, invert, i as int).len() <= total.len(),
            total.skip(total.len() - add_attrs_from(entry@, attrsv, invert, i as int).len())
                == add_attrs_from(entry@, attrsv, invert, i as int),
        decreases n - i,
    {
        let ghost a = entry@[i as int];
        let ghost sfx = add_attrs_from(entry@, attrsv, invert, i as int);
        let ghost rest = add_attrs_from(entry@, attrsv, invert, i as int + 1);
        let lower = crate::entry::clone_vec_u8(&entry.attrs[i].lowercase);
        proof {
            assert(a.lower == lower@);
        }
        let selected = attr_selected(lower.as_slice(), attrs, invert);
        proof {
            assert(spec_selected(lower@, attrsv, invert) == (invert != (exists|j: int|
                0 <= j < attrs@.len() && (#[trigger] attrs@[j])@ == lower@))) by {
                if attrsv.contains(lower@) {
                    let q = choose|j: int| 0 <= j < attrsv.len() && attrsv[j] == lower@;
                    assert(attrs@[q]@ == lower@);
                }
                if exists|j: int| 0 <= j < attrs@.len() && (#[trigger] attrs@[j])@ == lower@ {
                    let q = choose|j: int|
                        0 <= j < attrs@.len() && (#[trigger] attrs@[j])@ == lower@;
                    assert(attrsv[q] == lower@);
                }
            }
        }
        let keep = !bytes_eq(lower.as_slice(), dk.as_slice()) && selected;
        if keep {
            let ghost lines0 = attr_lines_from(a.name, a.values, 0);
            proof {
                assert(sfx == lines0 + rest);
            }
            let mut j: usize = 0;
            let m = entry.attrs[i].values.len();
            let ghost wb = w@;
            proof {
                assert(wb + lines0.take(lines0.len() - attr_lines_from(
                    a.name,
                    a.values,
                    0,
                ).len()) =~= wb);
                assert(lines0.skip(0) =~= lines0);
            }
            while j < m
                invariant
                    j <= m,
                    i < entry.attrs@.len(),
                    m == entry.attrs@[i as int].values@.len(),
                    a == entry@[i as int],
                    lines0 == attr_lines_from(a.name, a.values, 0),
                    w@ == wb + lines0.take(
                        lines0.len() - attr_lines_from(a.name, a.values, j as int).len(),
                    ),
                    attr_lines_from(a.name, a.values, j as int).len() <= lines0.len(),
                    lines0.skip(
                        lines0.len() - attr_lines_from(a.name, a.values, j as int).len(),
                    ) == attr_lines_from(a.name, a.values, j as int),
                decreases m - j,
            {
                proof {
                    assert(a.values[j as int] == entry.attrs@[i as int].values@[j as int]@);
                    assert(a.name == entry.attrs@[i as int].name@);
                }
                match write_attrval(
                    w,
                    entry.attrs[i].name.as_slice(),
                    entry.attrs[i].values[j].as_slice(),
                ) {
                    Ok(_) => {},
                    Err(_) => {
                        proof {
                            assert(false);
                        }
                    },
                }
                proof {
                    lemma_lines_step(a.name, a.values, j as int);
                    lemma_take_skip_chain(
                        wb,
                        lines0,
                        attr_lines_from(a.name, a.values, j as int),
                        attrval_bytes(a.name, a.values[j as int]),
                        attr_lines_from(a.name, a.values, j as int + 1),
                    );
                }
                j = j + 1;
            }
            proof {
                assert(attr_lines_from(a.name, a.values, m as int) =~= Seq::<u8>::empty());
                lemma_take_skip_chain(afterct, total, sfx, lines0, rest);
            }
        } else {
            proof {
                assert(sfx =~= rest);
            }
        }
        i = i + 1;
    }
    proof {
        assert(add_attrs_from(entry@, attrsv, invert, n as int) =~= Seq::<u8>::empty());
        assert(total.take(total.len() - 0) =~= total);
    }
    w.push(0x0a);
    proof {
        assert(final(w)@ =~= old(w)@ + add_record_bytes(entry@, attrsv, invert));
    }
    Ok(())
}

/// Writes a modify changerecord: the name, `changetype: modify`, then each
/// operation with its values and a `-` line, and a blank line.
pub fn write_modify(w: &mut Vec<u8>, m: &ModifyChangeRecord) -> (r: Result<(), StreamError>)
    ensures
        r is Ok,
        final(w)@ == old(w)@ + modify_record_bytes(
            m.dn@,
            m.ops@.map_values(|o: ModifyOp| o@),
        ),
{
    let ghost opsv = m.ops@.map_values(|o: ModifyOp| o@);
    let dk: [u8; 2] = [0x64, 0x6e];
    proof {
        assert(dk@ =~= dn_key());
    }
    match write_attrval(w, dk.as_slice(), m.dn.as_slice()) {
        Ok(_) => {},
        Err(_) => {
            proof {
                assert(false);
            }
        },
    }
    let ct: [u8; 19] = [
        0x63, 0x68, 0x61, 0x6e, 0x67, 0x65, 0x74, 0x79, 0x70, 0x65, 0x3a, 0x20, 0x6d, 0x6f, 0x64,
        0x69, 0x66, 0x79, 0x0a,
    ];
    crate::entry::append_bytes(w, ct.as_slice());
    let ghost afterct = w@;
    let ghost total = ops_bytes_from(opsv, 0);
    let mut i: usize = 0;
    proof {
        assert(afterct + total.take(total.len() - ops_bytes_from(opsv, 0).len()) =~= afterct);
        assert(total.skip(0) =~= total);
    }
    while i < m.ops.len()
        invariant
            i <= m.ops@.len(),
            opsv == m.ops@.map_values(|o: ModifyOp| o@),
            total == ops_bytes_from(opsv, 0),
            w@ == afterct + total.take(total.len() - ops_bytes_from(opsv, i as int).len()),
            ops_bytes_from(opsv, i as int).len() <= total.len(),
            total.skip(total.len() - ops_bytes_from(opsv, i as int).len()) == ops_bytes_from(
                opsv,
                i as int,
            ),
        decreases m.ops@.len() - i,
    {
        let ghost o = opsv[i as int];
        let ghost sfx = ops_bytes_from(opsv, i as int);
        let ghost rest = ops_bytes_from(opsv, i as int + 1);
        proof {
            assert(sfx == op_bytes(o) + rest);
        }
        let ghost wb = w@;
        match m.ops[i].typ {
            ModifyOpType::Add => {
                let kw: [u8; 5] = [0x61, 0x64, 0x64, 0x3a, 0x20];
                crate::entry::append_bytes(w, kw.as_slice());
            },
            ModifyOpType::Delete => {
                let kw: [u8; 8] = [0x64, 0x65, 0x6c, 0x65, 0x74, 0x65, 0x3a, 0x20];
                crate::entry::append_bytes(w, kw.as_slice());
            },
            ModifyOpType::Replace => {
                let kw: [u8; 9] = [0x72, 0x65, 0x70, 0x6c, 0x61, 0x63, 0x65, 0x3a, 0x20];
                crate::entry::append_bytes(w, kw.as_slice());
            },
        }
        crate::entry::append_bytes(w, m.ops[i].attr.as_slice());
        w.push(0x0a);
        let ghost lines0 = attr_lines_from(o.attr, o.values, 0);
        let ghost wl = w@;
        let mut j: usize = 0;
        let nv = m.ops[i].values.len();
        proof {
            assert(o.attr == m.ops@[i as int].attr@);
            assert(o.values == m.ops@[i as int].values@.map_values(|v: Vec<u8>| v@));
            assert(wl + lines0.take(lines0.len() - attr_lines_from(
                o.attr,
                o.values,
                0,
            ).len()) =~= wl);
            assert(lines0.skip(0) =~= lines0);
        }
        while j < nv
            invariant
                j <= nv,
                i < m.ops@.len(),
                nv == m.ops@[i as int].values@.len(),
                o == m.ops@[i as int]@,
                lines0 == attr_lines_from(o.attr, o.values, 0),
                w@ == wl + lines0.take(
                    lines0.len() - attr_lines_from(o.attr, o.values, j as int).len(),
                ),
                attr_lines_from(o.attr, o.values, j as int).len() <= lines0.len(),
                lines0.skip(lines0.len() - attr_lines_from(o.attr, o.values, j as int).len())
                    == attr_lines_from(o.attr, o.values, j as int),
            decreases nv - j,
        {
            proof {
                assert(o.values[j as int] == m.ops@[i as int].values@[j as int]@);
                assert(o.attr == m.ops@[i as int].attr@);
            }
            match write_attrval(
                w,
                m.ops[i].attr.as_slice(),
                m.ops[i].values[j].as_slice(),
            ) {
                Ok(_) => {},
                Err(_) => {
                    proof {
                        assert(false);
                    }
                },
            }
            proof {
                lemma_lines_step(o.attr, o.values, j as int);
                lemma_take_skip_chain(
                    wl,
                    lines0,
                    attr_lines_from(o.attr, o.values, j as int),
                    attrval_bytes(o.attr, o.values[j as int]),
                    attr_lines_from(o.attr, o.values, j as int + 1),
                );
            }
            j = j + 1;
        }
        w.push(0x2d);
        w.push(0x0a);
        proof {
            assert(attr_lines_from(o.attr, o.values, nv as int) =~= Seq::<u8>::empty());
            assert(w@ =~= wb + op_bytes(o));
            lemma_take_skip_chain(afterct, total, sfx, op_bytes(o), rest);
        }
        i = i + 1;
    }
    proof {
        assert(ops_bytes_from(opsv, m.ops@.len() as int) =~= Seq::<u8>::empty());
        assert(total.take(total.len() - 0) =~= total);
    }
    w.push(0x0a);
    proof {
        assert(final(w)@ =~= old(w)@ + modify_record_bytes(m.dn@, opsv));
    }
    Ok(())
}

/// Everything one pass over two name-sorted entry streams decides: the
/// records written at once, the deferred modifies, the names to delete,
/// and the deletions withheld for want of `force`.
pub struct MergePlan {
    pub main: Seq<u8>,
    pub deferred: Seq<(Seq<u8>, Seq<OpV>)>,
    pub deletes: Seq<Seq<u8>>,
    pub skipped: Seq<Seq<u8>>,
}

pub open spec fn plan_empty() -> MergePlan {
    MergePlan {
        main: Seq::empty(),
        deferred: Seq::empty(),
        deletes: Seq::empty(),
        skipped: Seq::empty(),
    }
}

pub open spec fn plan_concat(a: MergePlan, b: MergePlan) -> MergePlan {
    MergePlan {
        main: a.main + b.main,
        deferred: a.deferred + b.deferred,
        deletes: a.deletes + b.deletes,
        skipped: a.skipped + b.skipped,
    }
}

/// The deferred modify of one new entry, limited to the deferred
/// attributes, if it has a name and any such change.
pub open spec fn defer_step(
    old_opt: Option<Seq<AttrV>>,
    e: Seq<AttrV>,
    defer_attrs: Seq<Seq<u8>>,
) -> Seq<(Seq<u8>, Seq<OpV>)> {
    let dops = spec_modify_ops(old_opt, e, defer_attrs, false);
    if spec_values(e, dn_key()).len() > 0 && dops.len() > 0 {
        seq![(spec_values(e, dn_key())[0], dops)]
    } else {
        Seq::empty()
    }
}

/// The decisions of the merge walk from positions `i` and `j` on.
pub open spec fn merge_plan(
    ok: Seq<Seq<u8>>,
    oi: Seq<Seq<AttrV>>,
    nk: Seq<Seq<u8>>,
    ni: Seq<Seq<AttrV>>,
    sel_attrs: Seq<Seq<u8>>,
    invert: bool,
    force: bool,
    defer_attrs: Seq<Seq<u8>>,
    i: int,
    j: int,
) -> MergePlan
    decreases ok.len() - i + nk.len() - j,
{
    if i < 0 || j < 0 || i > ok.len() || j > nk.len() || (i >= ok.len() && j >= nk.len()) {
        plan_empty()
    } else if i < ok.len() && (j >= nk.len() || dn_before(ok[i], nk[j])) {
        // only the old stream has this name: delete, or withhold
        let dnv = spec_values(oi[i], dn_key());
        let step = if dnv.len() == 0 {
            plan_empty()
        } else if force {
            MergePlan { deletes: seq![dnv[0]], ..plan_empty() }
        } else {
            MergePlan { skipped: seq![dnv[0]], ..plan_empty() }
        };
        plan_concat(
            step,
            merge_plan(ok, oi, nk, ni, sel_attrs, invert, force, defer_attrs, i + 1, j),
        )
    } else if j < nk.len() && (i >= ok.len() || dn_before(nk[j], ok[i])) {
        // only the new stream has this name: add, and maybe defer
        let step = MergePlan {
            main: add_record_bytes(ni[j], sel_attrs, invert),
            deferred: defer_step(None, ni[j], defer_attrs),
            ..plan_empty()
        };
        plan_concat(
            step,
            merge_plan(ok, oi, nk, ni, sel_attrs, invert, force, defer_attrs, i, j + 1),
        )
    } else {
        // both streams hold the name: modify, and maybe defer
        let mops = spec_modify_ops(Some(oi[i]), ni[j], sel_attrs, invert);
        let dnv = spec_values(ni[j], dn_key());
        let step = MergePlan {
            main: (if dnv.len() > 0 && mops.len() > 0 {
                modify_record_bytes(dnv[0], mops)
            } else {
                Seq::empty()
            }),
            deferred: defer_step(Some(oi[i]), ni[j], defer_attrs),
            ..plan_empty()
        };
        plan_concat(
            step,
            merge_plan(ok, oi, nk, ni, sel_attrs, invert, force, defer_attrs, i + 1, j + 1),
        )
    }
}

/// The deferred modify records from `k` on, as bytes.
pub open spec fn deferred_bytes(ds: Seq<(Seq<u8>, Seq<OpV>)>, k: int) -> Seq<u8>
    decreases ds.len() - k,
{
    if k < 0 || k >= ds.len() {
        Seq::empty()
    } else {
        modify_record_bytes(ds[k].0, ds[k].1) + deferred_bytes(ds, k + 1)
    }
}

/// The first `d` delete records, in reverse name order, as bytes.
pub open spec fn deletes_rev_bytes(ds: Seq<Seq<u8>>, d: int) -> Seq<u8>
    decreases d,
{
    if d <= 0 {
        Seq::empty()
    } else {
        delete_record_bytes(ds[d - 1]) + deletes_rev_bytes(ds, d - 1)
    }
}

/// What to defer, skip or write while comparing two sorted entry streams.
pub struct CompareParams {
    pub attrs: Vec<Vec<u8>>,
    pub invert: bool,
    pub force: bool,
    pub defer_attrs: Vec<Vec<u8>>,
}

/// The outcome of a comparison: the changerecord stream and the names of
/// entries whose deletion was withheld for want of `force`.
pub struct CompareOutcome {
    pub output: Vec<u8>,
    pub skipped_deletes: Vec<Vec<u8>>,
}

/// Walks two name-sorted entry streams and emits the changerecords that
/// turn the first into the second: adds for names only the second has,
/// deletes (in reverse name order, and only under `force`) for names only
/// the first has, and modifies where both have the name. Changes to
/// deferred attributes come at the end, so references between entries can
/// resolve.
#[verifier::rlimit(100)]
#[verifier::spinoff_prover]
pub fn compare_entries(old_es: &SortedEntries, new_es: &SortedEntries, params: &CompareParams) -> (r:
    CompareOutcome)
    requires
        old_es.sorted(),
        new_es.sorted(),
    ensures
        ({
            let plan = merge_plan(
                old_es.kview(),
                old_es.iview(),
                new_es.kview(),
                new_es.iview(),
                params.attrs@.map_values(|a: Vec<u8>| a@),
                params.invert,
                params.force,
                params.defer_attrs@.map_values(|a: Vec<u8>| a@),
                0,
                0,
            );
            &&& r.output@ == plan.main + deferred_bytes(plan.deferred, 0) + deletes_rev_bytes(
                plan.deletes,
                plan.deletes.len() as int,
            )
            &&& r.skipped_deletes@.map_values(|d: Vec<u8>| d@) == plan.skipped
        }),
{
    let ghost ok = old_es.kview();
    let ghost oi = old_es.iview();
    let ghost nk = new_es.kview();
    let ghost ni = new_es.iview();
    let ghost sel = params.attrs@.map_values(|a: Vec<u8>| a@);
    let ghost dfa = params.defer_attrs@.map_values(|a: Vec<u8>| a@);
    let ghost plan0 = merge_plan(ok, oi, nk, ni, sel, params.invert, params.force, dfa, 0, 0);
    let mut out: Vec<u8> = Vec::new();
    let mut deferred_deletes: Vec<Vec<u8>> = Vec::new();
    let mut deferred_modifies: Vec<ModifyChangeRecord> = Vec::new();
    let mut skipped_deletes: Vec<Vec<u8>> = Vec::new();
    let mut i: usize = 0;
    let mut j: usize = 0;
    let no = old_es.keys.len();
    let nn = new_es.keys.len();
    proof {
        assert(out@ + plan0.main =~= plan0.main);
        assert(deferred_modifies@.map_values(|m: ModifyChangeRecord| (
            m.dn@,
            m.ops@.map_values(|o: ModifyOp| o@),
        )) + plan0.deferred =~= plan0.deferred);
        assert(deferred_deletes@.map_values(|d: Vec<u8>| d@) + plan0.deletes =~= plan0.deletes);
        assert(skipped_deletes@.map_values(|d: Vec<u8>| d@) + plan0.skipped =~= plan0.skipped);
        assert(lower_bytes(seq![0x64u8, 0x6eu8]) =~= dn_key());
    }
    while i < no || j < nn
        invariant
            i <= no,
            j <= nn,
            no == old_es.keys@.len(),
            nn == new_es.keys@.len(),
            old_es.keys@.len() == old_es.items@.len(),
            new_es.keys@.len() == new_es.items@.len(),
            ok == old_es.kview(),
            oi == old_es.iview(),
            nk == new_es.kview(),
            ni == new_es.iview(),
            sel == params.attrs@.map_values(|a: Vec<u8>| a@),
            dfa == params.defer_attrs@.map_values(|a: Vec<u8>| a@),
            plan0 == merge_plan(ok, oi, nk, ni, sel, params.invert, params.force, dfa, 0, 0),
            out@ + merge_plan(
                ok,
                oi,
                nk,
                ni,
                sel,
                params.invert,
                params.force,
                dfa,
                i as int,
                j as int,
            ).main == plan0.main,
            deferred_modifies@.map_values(|m: ModifyChangeRecord| (
                m.dn@,
                m.ops@.map_values(|o: ModifyOp| o@),
            )) + merge_plan(
                ok,
                oi,
                nk,
                ni,
                sel,
                params.invert,
                params.force,
                dfa,
                i as int,
                j as int,
            ).deferred == plan0.deferred,
            deferred_deletes@.map_values(|d: Vec<u8>| d@) + merge_plan(
                ok,
                oi,
                nk,
                ni,
                sel,
                params.invert,
                params.force,
                dfa,
                i as int,
                j as int,
            ).deletes == plan0.deletes,
            skipped_deletes@.map_values(|d: Vec<u8>| d@) + merge_plan(
                ok,
                oi,
                nk,
                ni,
                sel,
                params.invert,
                params.force,
                dfa,
                i as int,
                j as int,
            ).skipped == plan0.skipped,
        decreases (no - i) + (nn - j),
    {
        let ghost cur = merge_plan(
            ok,
            oi,
            nk,
            ni,
            sel,
            params.invert,
            params.force,
            dfa,
            i as int,
            j as int,
        );
        let ghost preout = out@;
        let ghost predm = deferred_modifies@.map_values(|m: ModifyChangeRecord| (
            m.dn@,
            m.ops@.map_values(|o: ModifyOp| o@),
        ));
        let ghost predd = deferred_deletes@.map_values(|d: Vec<u8>| d@);
        let ghost presk = skipped_deletes@.map_values(|d: Vec<u8>| d@);
        let step: DnOrder;
        if i < no && j < nn {
            step = dn_compare(old_es.keys[i].as_slice(), new_es.keys[j].as_slice());
            proof {
                lemma_dn_before_strict((old_es.keys@[i as int])@, (new_es.keys@[j as int])@);
            }
        } else if i < no {
            step = DnOrder::Less;
        } else {
            step = DnOrder::Greater;
        }
        match step {
            DnOrder::Less => {
                proof {
                    assert(lower_bytes(seq![0x64u8, 0x6eu8]) =~= dn_key());
                    assert(oi[i as int] == old_es.items@[i as int]@);
                }
                let ghost nxt = merge_plan(
                    ok,
                    oi,
                    nk,
                    ni,
                    sel,
                    params.invert,
                    params.force,
                    dfa,
                    i as int + 1,
                    j as int,
                );
                // only the old stream has this name
                match old_es.items[i].get_one(&[0x64u8, 0x6eu8]) {
                    Some(dn) => {
                        let ghost dnv = dn@;
                        if params.force {
                            deferred_deletes.push(dn);
                            proof {
                                assert(deferred_deletes@.map_values(|d: Vec<u8>| d@)
                                    =~= predd.push(dnv));
                                assert(cur.deletes =~= seq![dnv] + nxt.deletes);
                                assert(predd.push(dnv) + nxt.deletes =~= predd + cur.deletes);
                            }
                        } else {
                            skipped_deletes.push(dn);
                            proof {
                                assert(skipped_deletes@.map_values(|d: Vec<u8>| d@)
                                    =~= presk.push(dnv));
                                assert(cur.skipped =~= seq![dnv] + nxt.skipped);
                                assert(presk.push(dnv) + nxt.skipped =~= presk + cur.skipped);
                            }
                        }
                    },
                    None => {
                        proof {
                            assert(cur.deletes =~= nxt.deletes);
                            assert(cur.skipped =~= nxt.skipped);
                        }
                    },
                }
                proof {
                    assert(cur.main =~= nxt.main);
                    assert(cur.deferred =~= nxt.deferred);
                }
                i = i + 1;
            },
            DnOrder::Greater => {
                proof {
                    assert(lower_bytes(seq![0x64u8, 0x6eu8]) =~= dn_key());
                    assert(ni[j as int] == new_es.items@[j as int]@);
                }
                let ghost nxt = merge_plan(
                    ok,
                    oi,
                    nk,
                    ni,
                    sel,
                    params.invert,
                    params.force,
                    dfa,
                    i as int,
                    j as int + 1,
                );
                // only the new stream has this name
                match write_add(&mut out, &new_es.items[j], &params.attrs, params.invert) {
                    Ok(_) => {},
                    Err(_) => {
                        proof {
                            assert(false);
                        }
                    },
                }
                proof {
                    assert(out@ =~= preout + add_record_bytes(ni[j as int], sel, params.invert));
                }
                match ModifyChangeRecord::new(
                    None,
                    &new_es.items[j],
                    &params.defer_attrs,
                    false,
                ) {
                    Some(defer) => {
                        let ghost dv = (
                            defer.dn@,
                            defer.ops@.map_values(|o: ModifyOp| o@),
                        );
                        deferred_modifies.push(defer);
                        proof {
                            assert(deferred_modifies@.map_values(|m: ModifyChangeRecord| (
                                m.dn@,
                                m.ops@.map_values(|o: ModifyOp| o@),
                            )) =~= predm.push(dv));
                            assert(defer_step(None, ni[j as int], dfa) =~= seq![dv]);
                            assert(predm.push(dv) + nxt.deferred =~= predm + cur.deferred);
                        }
                    },
                    None => {
                        proof {
                            assert(defer_step(None, ni[j as int], dfa)
                                =~= Seq::<(Seq<u8>, Seq<OpV>)>::empty());
                            assert(cur.deferred =~= nxt.deferred);
                        }
                    },
                }
                proof {
                    assert(cur.main =~= add_record_bytes(ni[j as int], sel, params.invert)
                        + nxt.main);
                    assert(preout + add_record_bytes(ni[j as int], sel, params.invert) + nxt.main
                        =~= preout + cur.main);
                    assert(cur.deletes =~= nxt.deletes);
                    assert(cur.skipped =~= nxt.skipped);
                }
                j = j + 1;
            },
            DnOrder::Equal => {
                proof {
                    assert(lower_bytes(seq![0x64u8, 0x6eu8]) =~= dn_key());
                    assert(ni[j as int] == new_es.items@[j as int]@);
                    assert(oi[i as int] == old_es.items@[i as int]@);
                }
                let ghost nxt = merge_plan(
                    ok,
                    oi,
                    nk,
                    ni,
                    sel,
                    params.invert,
                    params.force,
                    dfa,
                    i as int + 1,
                    j as int + 1,
                );
                match ModifyChangeRecord::new(
                    Some(&old_es.items[i]),
                    &new_es.items[j],
                    &params.attrs,
                    params.invert,
                ) {
                    Some(change) => {
                        match write_modify(&mut out, &change) {
                            Ok(_) => {},
                            Err(_) => {
                                proof {
                                    assert(false);
                                }
                            },
                        }
                        proof {
                            let mops = spec_modify_ops(
                                Some(oi[i as int]),
                                ni[j as int],
                                sel,
                                params.invert,
                            );
                            assert(out@ =~= preout + modify_record_bytes(
                                spec_values(ni[j as int], dn_key())[0],
                                mops,
                            ));
                        }
                    },
                    None => {
                        proof {
                            assert(out@ =~= preout);
                        }
                    },
                }
                proof {
                    let mops = spec_modify_ops(
                        Some(oi[i as int]),
                        ni[j as int],
                        sel,
                        params.invert,
                    );
                    let dnv = spec_values(ni[j as int], dn_key());
                    assert(cur.main =~= (if dnv.len() > 0 && mops.len() > 0 {
                        modify_record_bytes(dnv[0], mops)
                    } else {
                        Seq::<u8>::empty()
                    }) + nxt.main);
                    assert(out@ + nxt.main =~= preout + cur.main);
                }
                match ModifyChangeRecord::new(
                    Some(&old_es.items[i]),
                    &new_es.items[j],
                    &params.defer_attrs,
                    false,
                ) {
                    Some(defer) => {
                        let ghost dv = (
                            defer.dn@,
                            defer.ops@.map_values(|o: ModifyOp| o@),
                        );
                        deferred_modifies.push(defer);
                        proof {
                            assert(deferred_modifies@.map_values(|m: ModifyChangeRecord| (
                                m.dn@,
                                m.ops@.map_values(|o: ModifyOp| o@),
                            )) =~= predm.push(dv));
                            assert(defer_step(Some(oi[i as int]), ni[j as int], dfa) =~= seq![dv]);
                            assert(predm.push(dv) + nxt.deferred =~= predm + cur.deferred);
                        }
                    },
                    None => {
                        proof {
                            assert(defer_step(Some(oi[i as int]), ni[j as int], dfa)
                                =~= Seq::<(Seq<u8>, Seq<OpV>)>::empty());
                            assert(cur.deferred =~= nxt.deferred);
                        }
                    },
                }
                proof {
                    assert(cur.deletes =~= nxt.deletes);
                    assert(cur.skipped =~= nxt.skipped);
                }
                i = i + 1;
                j = j + 1;
            },
        }
    }
    let ghost dmv = deferred_modifies@.map_values(|m: ModifyChangeRecord| (
        m.dn@,
        m.ops@.map_values(|o: ModifyOp| o@),
    ));
    let ghost ddv = deferred_deletes@.map_values(|d: Vec<u8>| d@);
    let ghost outmid = out@;
    proof {
        let fin = merge_plan(
            ok,
            oi,
            nk,
            ni,
            sel,
            params.invert,
            params.force,
            dfa,
            no as int,
            nn as int,
        );
        assert(fin =~= plan_empty());
        assert(out@ + Seq::<u8>::empty() =~= out@);
        assert(dmv + Seq::<(Seq<u8>, Seq<OpV>)>::empty() =~= dmv);
        assert(ddv + Seq::<Seq<u8>>::empty() =~= ddv);
        assert(skipped_deletes@.map_values(|d: Vec<u8>| d@) + Seq::<Seq<u8>>::empty()
            =~= skipped_deletes@.map_values(|d: Vec<u8>| d@));
        assert(out@ + deferred_bytes(dmv, 0).take(deferred_bytes(dmv, 0).len()
            - deferred_bytes(dmv, 0).len()) =~= out@);
    }
    let mut k: usize = 0;
    while k < deferred_modifies.len()
        invariant
            k <= deferred_modifies@.len(),
            dmv == deferred_modifies@.map_values(|m: ModifyChangeRecord| (
                m.dn@,
                m.ops@.map_values(|o: ModifyOp| o@),
            )),
            out@ + deferred_bytes(dmv, k as int) == outmid + deferred_bytes(dmv, 0),
        decreases deferred_modifies@.len() - k,
    {
        let ghost preout = out@;
        match write_modify(&mut out, &deferred_modifies[k]) {
            Ok(_) => {},
            Err(_) => {
                proof {
                    assert(false);
                }
            },
        }
        proof {
            assert(dmv[k as int] == (
                deferred_modifies@[k as int].dn@,
                deferred_modifies@[k as int].ops@.map_values(|o: ModifyOp| o@),
            ));
            assert(deferred_bytes(dmv, k as int) == modify_record_bytes(
                dmv[k as int].0,
                dmv[k as int].1,
            ) + deferred_bytes(dmv, k as int + 1));
            assert(out@ + deferred_bytes(dmv, k as int + 1) =~= preout + deferred_bytes(
                dmv,
                k as int,
            ));
        }
        k = k + 1;
    }
    proof {
        assert(deferred_bytes(dmv, deferred_modifies@.len() as int) =~= Seq::<u8>::empty());
        assert(out@ + Seq::<u8>::empty() =~= out@);
    }
    let ghost outdm = out@;
    let mut d = deferred_deletes.len();
    proof {
        assert(outdm + deletes_rev_bytes(ddv, ddv.len() as int) =~= outdm + deletes_rev_bytes(
            ddv,
            ddv.len() as int,
        ));
    }
    while d > 0
        invariant
            d <= deferred_deletes@.len(),
            ddv == deferred_deletes@.map_values(|x: Vec<u8>| x@),
            out@ + deletes_rev_bytes(ddv, d as int) == outdm + deletes_rev_bytes(
                ddv,
                ddv.len() as int,
            ),
        decreases d,
    {
        d = d - 1;
        let ghost preout = out@;
        match write_delete(&mut out, deferred_deletes[d].as_slice()) {
            Ok(_) => {},
            Err(_) => {
                proof {
                    assert(false);
                }
            },
        }
        proof {
            assert(ddv[d as int] == deferred_deletes@[d as int]@);
            assert(deletes_rev_bytes(ddv, d as int + 1) == delete_record_bytes(ddv[d as int])
                + deletes_rev_bytes(ddv, d as int));
            assert(out@ + deletes_rev_bytes(ddv, d as int) =~= preout + deletes_rev_bytes(
                ddv,
                d as int + 1,
            ));
        }
    }
    proof {
        assert(deletes_rev_bytes(ddv, 0) =~= Seq::<u8>::empty());
        assert(out@ =~= outdm + deletes_rev_bytes(ddv, ddv.len() as int));
        assert(out@ =~= plan0.main + deferred_bytes(plan0.deferred, 0) + deletes_rev_bytes(
            plan0.deletes,
            plan0.deletes.len() as int,
        ));
    }
    CompareOutcome { output: out, skipped_deletes }
}

} // verus!
