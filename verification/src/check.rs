//! The checks of two BOMs against each other.

use vstd::prelude::*;
use crate::index::{
    BomIndex, IndexView, RefNote, contains_string, index_bom, index_of, index_sound,
    lemma_index_sound, rows_named,
};
use crate::rows::{BomEntry, BomVec};
use crate::strmap::{StrMap, StrMapView, lemma_pos};

verus! {

/// A finding of the reference check.
#[derive(Clone, Copy, PartialEq, Eq, Structural, Debug)]
pub enum HashNote {
    /// A note on a reference of BOM1.
    Ref1(RefNote),
    /// A note on a reference of BOM2.
    Ref2(RefNote),
    /// The reference at this position of BOM1's reference index is not in BOM2.
    NotIn2(usize),
    /// The reference at this position of BOM2's reference index is not in BOM1.
    NotIn1(usize),
}

/// The positions, below `n`, of the keys of `a` that `b` lacks, in order.
pub open spec fn missing_keys(a: StrMapView<usize>, b: StrMapView<usize>, n: nat) -> Seq<usize>
    decreases n,
{
    if n == 0 {
        Seq::empty()
    } else {
        let m = missing_keys(a, b, (n - 1) as nat);
        if b.has(a.keys[n - 1]) {
            m
        } else {
            m.push((n - 1) as usize)
        }
    }
}

/// The positions of the references of `a` that `b` lacks.
pub open spec fn missing_refs(a: IndexView, b: IndexView) -> Seq<usize> {
    missing_keys(a.refs, b.refs, a.refs.keys.len())
}

/// The findings of the reference check, in the order in which they are made.
pub open spec fn hash_notes(ix1: IndexView, ix2: IndexView) -> Seq<HashNote> {
    ix1.notes.map_values(|n: RefNote| HashNote::Ref1(n)) + ix2.notes.map_values(
        |n: RefNote| HashNote::Ref2(n),
    ) + missing_refs(ix1, ix2).map_values(|i: usize| missing_note(true, i)) + missing_refs(
        ix2,
        ix1,
    ).map_values(|i: usize| missing_note(false, i))
}

/// The errors of the reference check: repeated references in either BOM, and
/// references of either BOM that the other lacks.
pub open spec fn hash_errors(ix1: IndexView, ix2: IndexView) -> nat {
    ix1.dups + ix2.dups + missing_refs(ix1, ix2).len() + missing_refs(ix2, ix1).len()
}

/// The two BOMs indexed, with the findings of the reference check (the
/// indexes hold positions in the two entry lists).
pub struct HashBoms {
    pub bom1: BomIndex,
    pub bom2: BomIndex,
    pub notes: Vec<HashNote>,
}

/// What `HashBoms` holds.
#[verifier::ext_equal]
pub struct HashView {
    pub bom1: IndexView,
    pub bom2: IndexView,
    pub notes: Seq<HashNote>,
}

impl View for HashBoms {
    type V = HashView;

    open spec fn view(&self) -> HashView {
        HashView { bom1: self.bom1@, bom2: self.bom2@, notes: self.notes@ }
    }
}

/// With no missing key found, `b` has every key of `a`.
pub proof fn lemma_no_missing(a: StrMapView<usize>, b: StrMapView<usize>, n: nat)
    requires
        n <= a.keys.len(),
        missing_keys(a, b, n).len() == 0,
    ensures
        forall|i: int| 0 <= i < n ==> b.has(#[trigger] a.keys[i]),
    decreases n,
{
    if n > 0 {
        let m = missing_keys(a, b, (n - 1) as nat);
        if !b.has(a.keys[n - 1]) {
            assert(m.push((n - 1) as usize).len() > 0);
        }
        lemma_no_missing(a, b, (n - 1) as nat);
    }
}

/// The finding that the reference at position `i` of one BOM's index is
/// missing from the other BOM (`first`: BOM1's reference missing from BOM2).
pub open spec fn missing_note(first: bool, i: usize) -> HashNote {
    if first {
        HashNote::NotIn2(i)
    } else {
        HashNote::NotIn1(i)
    }
}

fn push_missing(
    notes: &mut Vec<HashNote>,
    a: &StrMap<usize>,
    b: &StrMap<usize>,
    first: bool,
) -> (count: usize)
    requires
        a@.wf(),
        b@.wf(),
    ensures
        final(notes)@ == old(notes)@ + missing_keys(a@, b@, a@.keys.len()).map_values(
            |i: usize| missing_note(first, i),
        ),
        count == missing_keys(a@, b@, a@.keys.len()).len(),
{
    let ghost f = |i: usize| missing_note(first, i);
    let n = a.len();
    let mut i: usize = 0;
    let mut count: usize = 0;
    while i < n
        invariant
            i <= n,
            n == a@.keys.len(),
            a@.wf(),
            b@.wf(),
            f == (|i: usize| missing_note(first, i)),
            notes@ =~= old(notes)@ + missing_keys(a@, b@, i as nat).map_values(f),
            count == missing_keys(a@, b@, i as nat).len(),
            count <= notes@.len(),
        decreases n - i,
    {
        let ghost before = missing_keys(a@, b@, i as nat);
        if b.find(a.key_at(i)).is_none() {
            let note = if first {
                HashNote::NotIn2(i)
            } else {
                HashNote::NotIn1(i)
            };
            notes.push(note);
            assert(notes@.len() == notes.len());
            count = count + 1;
            assert(missing_keys(a@, b@, (i + 1) as nat) == before.push(i));
            assert(before.push(i).map_values(f) =~= before.map_values(f).push(f(i)));
        } else {
            assert(missing_keys(a@, b@, (i + 1) as nat) == before);
        }
        i += 1;
    }
    count
}

/// Indexes the two BOMs and checks their references: within each BOM every
/// reference of a fitted entry is to be unique, and the two BOMs are to
/// hold the same references. Returns the number of errors and the indexes.
pub fn boms_to_hash(bom1: &Vec<BomVec>, bom2: &Vec<BomVec>) -> (res: (usize, HashBoms))
    ensures
        res.1.bom1@ == index_of(bom1.deep_view()),
        res.1.bom2@ == index_of(bom2.deep_view()),
        res.1.bom1@.wf(),
        res.1.bom2@.wf(),
        res.1.notes@ == hash_notes(res.1.bom1@, res.1.bom2@),
        res.0 == hash_errors(res.1.bom1@, res.1.bom2@),
        index_sound(res.1.bom1@, bom1.deep_view()),
        index_sound(res.1.bom2@, bom2.deep_view()),
{
    let ix1 = index_bom(bom1);
    let ix2 = index_bom(bom2);
    proof {
        assert(bom1@.len() == bom1.len() && bom2@.len() == bom2.len());
        lemma_index_sound(bom1.deep_view());
        lemma_index_sound(bom2.deep_view());
    }
    let mut notes: Vec<HashNote> = Vec::new();
    let mut i: usize = 0;
    while i < ix1.notes.len()
        invariant
            i <= ix1.notes@.len(),
            notes@ =~= ix1.notes@.take(i as int).map_values(|n: RefNote| HashNote::Ref1(n)),
        decreases ix1.notes@.len() - i,
    {
        notes.push(HashNote::Ref1(ix1.notes[i]));
        assert(ix1.notes@.take(i + 1) =~= ix1.notes@.take(i as int).push(ix1.notes@[i as int]));
        i += 1;
    }
    assert(ix1.notes@.take(ix1.notes@.len() as int) =~= ix1.notes@);
    let ghost part1 = notes@;
    let mut i: usize = 0;
    while i < ix2.notes.len()
        invariant
            i <= ix2.notes@.len(),
            notes@ =~= part1 + ix2.notes@.take(i as int).map_values(|n: RefNote| HashNote::Ref2(n)),
        decreases ix2.notes@.len() - i,
    {
        notes.push(HashNote::Ref2(ix2.notes[i]));
        assert(ix2.notes@.take(i + 1) =~= ix2.notes@.take(i as int).push(ix2.notes@[i as int]));
        i += 1;
    }
    assert(ix2.notes@.take(ix2.notes@.len() as int) =~= ix2.notes@);
    let m12 = push_missing(&mut notes, &ix1.refs, &ix2.refs, true);
    let m21 = push_missing(&mut notes, &ix2.refs, &ix1.refs, false);
    assert(notes@ =~= hash_notes(ix1@, ix2@));
    assert(notes@.len() == notes.len());
    let errors = ix1.dups + ix2.dups + m12 + m21;
    (errors, HashBoms { bom1: ix1, bom2: ix2, notes })
}

/// Every reference listed under a name in `names` is a key of `refs`, whose
/// values are positions in `boms`.
pub open spec fn names_within(
    names: StrMapView<Seq<Seq<char>>>,
    refs: StrMapView<usize>,
    boms: Seq<BomEntry>,
) -> bool {
    &&& names.wf()
    &&& refs.wf()
    &&& forall|k: int, l: int|
        0 <= k < names.keys.len() && 0 <= l < names.vals[k].len() ==> refs.has(
            #[trigger] names.vals[k][l],
        )
    &&& forall|i: int| 0 <= i < refs.keys.len() ==> #[trigger] refs.vals[i] < boms.len()
}

/// The name of the entry of `boms` that `refs` indexes the reference `r` to.
pub open spec fn name_of_ref(boms: Seq<BomEntry>, refs: StrMapView<usize>, r: Seq<char>) -> Seq<
    char,
> {
    boms[refs.get(r).unwrap() as int].name
}

/// A finding of the name check: the reference at place `l` of the list of
/// name `k` is given a name in the other BOM that differs from the one given
/// to the list's first reference.
#[derive(Clone, Copy, PartialEq, Eq, Structural, Debug)]
pub enum NameNote {
    /// `k` is a position in BOM1's name index; the names are BOM2's.
    In1(usize, usize),
    /// `k` is a position in BOM2's name index; the names are BOM1's.
    In2(usize, usize),
}

pub open spec fn name_note(first: bool, k: usize, l: usize) -> NameNote {
    if first {
        NameNote::In1(k, l)
    } else {
        NameNote::In2(k, l)
    }
}

/// The findings in the first `l` references of the list `s` of name `k`.
pub open spec fn list_name_notes(
    first: bool,
    k: usize,
    s: Seq<Seq<char>>,
    boms: Seq<BomEntry>,
    refs: StrMapView<usize>,
    l: nat,
) -> Seq<NameNote>
    decreases l,
{
    if l == 0 {
        Seq::empty()
    } else {
        let prev = list_name_notes(first, k, s, boms, refs, (l - 1) as nat);
        if name_of_ref(boms, refs, s[l - 1]) != name_of_ref(boms, refs, s[0]) {
            prev.push(name_note(first, k, (l - 1) as usize))
        } else {
            prev
        }
    }
}

/// The findings in the first `k` names of `names`.
pub open spec fn name_notes(
    first: bool,
    names: StrMapView<Seq<Seq<char>>>,
    boms: Seq<BomEntry>,
    refs: StrMapView<usize>,
    k: nat,
) -> Seq<NameNote>
    decreases k,
{
    if k == 0 {
        Seq::empty()
    } else {
        name_notes(first, names, boms, refs, (k - 1) as nat) + list_name_notes(
            first,
            (k - 1) as usize,
            names.vals[k - 1],
            boms,
            refs,
            names.vals[k - 1].len(),
        )
    }
}

/// The findings of the name check, in order: BOM1's names, then BOM2's.
pub open spec fn name_check_notes(h: HashView, bom1: Seq<BomEntry>, bom2: Seq<BomEntry>) -> Seq<
    NameNote,
> {
    name_notes(true, h.bom1.names, bom2, h.bom2.refs, h.bom1.names.keys.len()) + name_notes(
        false,
        h.bom2.names,
        bom1,
        h.bom1.refs,
        h.bom2.names.keys.len(),
    )
}

fn push_name_notes(
    notes: &mut Vec<NameNote>,
    first: bool,
    names: &StrMap<Vec<String>>,
    boms: &Vec<BomVec>,
    refs: &StrMap<usize>,
)
    requires
        names_within(names@, refs@, boms.deep_view()),
    ensures
        final(notes)@ == old(notes)@ + name_notes(
            first,
            names@,
            boms.deep_view(),
            refs@,
            names@.keys.len(),
        ),
{
    let ghost bv = boms.deep_view();
    let n = names.len();
    let mut k: usize = 0;
    while k < n
        invariant
            k <= n,
            n == names@.keys.len(),
            bv == boms.deep_view(),
            names_within(names@, refs@, bv),
            notes@ =~= old(notes)@ + name_notes(first, names@, bv, refs@, k as nat),
        decreases n - k,
    {
        let list = names.value_at(k);
        let ghost s = names@.vals[k as int];
        let ghost start = notes@;
        let mut l: usize = 0;
        let mut first_name: Option<&String> = None;
        while l < list.len()
            invariant
                k < n,
                n == names@.keys.len(),
                bv == boms.deep_view(),
                names_within(names@, refs@, bv),
                s == names@.vals[k as int],
                list.deep_view() == s,
                l <= s.len(),
                l > 0 ==> (first_name matches Some(f) && f@ == name_of_ref(bv, refs@, s[0])),
                notes@ =~= start + list_name_notes(first, k, s, bv, refs@, l as nat),
            decreases s.len() - l,
        {
            assert(refs@.has(s[l as int]));
            let i = refs.find(&list[l]).unwrap();
            proof { lemma_pos(refs@, i as int); }
            assert(refs@.vals[i as int] < bv.len());
            let row = *refs.value_at(i);
            let name = &boms[row].b_name;
            assert(name@ == name_of_ref(bv, refs@, s[l as int]));
            if l == 0 {
                first_name = Some(name);
            }
            let f = first_name.unwrap();
            if *name != *f {
                notes.push(if first {
                    NameNote::In1(k, l)
                } else {
                    NameNote::In2(k, l)
                });
            }
            l += 1;
        }
        assert(notes@ =~= old(notes)@ + name_notes(first, names@, bv, refs@, (k + 1) as nat));
        k += 1;
    }
}

/// Checks that the references listed under each name of one BOM bear one
/// name in the other BOM: a reference whose entry in the other BOM is named
/// otherwise than the entry of the list's first reference is an error.
/// Returns the number of errors and the findings.
pub fn check_ref_to_name(bom1: &Vec<BomVec>, bom2: &Vec<BomVec>, hbs: &HashBoms) -> (res: (
    usize,
    Vec<NameNote>,
))
    requires
        names_within(hbs.bom1@.names, hbs.bom2@.refs, bom2.deep_view()),
        names_within(hbs.bom2@.names, hbs.bom1@.refs, bom1.deep_view()),
    ensures
        res.1@ == name_check_notes(hbs@, bom1.deep_view(), bom2.deep_view()),
        res.0 == res.1@.len(),
{
    let mut notes: Vec<NameNote> = Vec::new();
    push_name_notes(&mut notes, true, &hbs.bom1.names, bom2, &hbs.bom2.refs);
    push_name_notes(&mut notes, false, &hbs.bom2.names, bom1, &hbs.bom1.refs);
    assert(notes@ =~= name_check_notes(hbs@, bom1.deep_view(), bom2.deep_view()));
    (notes.len(), notes)
}

/// The first part code present among the first `p` of `o`, if any.
pub open spec fn first_some(o: Seq<Option<usize>>, p: nat) -> Option<usize>
    decreases p,
{
    if p == 0 {
        None
    } else {
        let f = first_some(o, (p - 1) as nat);
        if f is Some {
            f
        } else {
            o[p - 1]
        }
    }
}

/// The place of the first part code present among the first `p` of `o`.
pub open spec fn first_some_pos(o: Seq<Option<usize>>, p: nat) -> nat
    decreases p,
{
    if p == 0 {
        0
    } else if first_some(o, (p - 1) as nat) is Some {
        first_some_pos(o, (p - 1) as nat)
    } else {
        (p - 1) as nat
    }
}

pub proof fn lemma_first_some(o: Seq<Option<usize>>, p: nat)
    requires
        p <= o.len(),
    ensures
        first_some(o, p) is None <==> forall|i: int| 0 <= i < p ==> #[trigger] o[i] is None,
        first_some(o, p) is Some ==> first_some_pos(o, p) < p && o[first_some_pos(o, p) as int]
            == first_some(o, p),
    decreases p,
{
    if p > 0 {
        lemma_first_some(o, (p - 1) as nat);
    }
}

/// The part codes of the entries at positions `rows` of `boms`.
pub open spec fn row_odoos(boms: Seq<BomEntry>, rows: Seq<usize>) -> Seq<Option<usize>> {
    rows.map_values(|r: usize| boms[r as int].odoo)
}

/// A finding of the part code check.
#[derive(Clone, Copy, PartialEq, Eq, Structural, Debug)]
pub enum OdooNote {
    /// In the entry list of name `k` (of BOM1 when `first`, else of BOM2),
    /// the entry at place `p` has a part code that differs from the first
    /// part code of the list, which the entry at place `q` has.
    Clash { first: bool, k: usize, p: usize, q: usize },
    /// The entry list of name `k` has entries with and without a part code
    /// (a warning, not an error).
    Mixed { first: bool, k: usize },
    /// For name `k` of BOM1, the first part code `o1` among the BOM1 entries
    /// of its references differs from the first, `o2`, among their BOM2
    /// entries; both are known once its reference at place `p` is seen.
    Cross { k: usize, p: usize, o1: usize, o2: usize },
}

/// Place `p` of `o` holds a part code other than the first one before it.
pub open spec fn clashes_at(o: Seq<Option<usize>>, p: int) -> bool {
    o[p] is Some && first_some(o, p as nat) is Some && o[p] != first_some(o, p as nat)
}

/// `o` has places with and places without a part code.
pub open spec fn mixed(o: Seq<Option<usize>>) -> bool {
    exists|i: int, j: int| 0 <= i < o.len() && 0 <= j < o.len() && #[trigger] o[i] is None && #[trigger] o[j] is Some
}

/// The clashes among the first `p` places of the list `o` of name `k`.
pub open spec fn clash_notes(first: bool, k: usize, o: Seq<Option<usize>>, p: nat) -> Seq<OdooNote>
    decreases p,
{
    if p == 0 {
        Seq::empty()
    } else {
        let prev = clash_notes(first, k, o, (p - 1) as nat);
        if clashes_at(o, p - 1) {
            prev.push(
                OdooNote::Clash {
                    first,
                    k,
                    p: (p - 1) as usize,
                    q: first_some_pos(o, (p - 1) as nat) as usize,
                },
            )
        } else {
            prev
        }
    }
}

/// The findings on the list `o` of name `k`: its clashes, then the warning.
pub open spec fn list_odoo_notes(first: bool, k: usize, o: Seq<Option<usize>>) -> Seq<OdooNote> {
    clash_notes(first, k, o, o.len()) + if mixed(o) {
        seq![OdooNote::Mixed { first, k }]
    } else {
        Seq::empty()
    }
}

/// The findings on the first `k` entry lists of `name_rows`.
pub open spec fn odoo_list_notes(
    first: bool,
    name_rows: StrMapView<Seq<usize>>,
    boms: Seq<BomEntry>,
    k: nat,
) -> Seq<OdooNote>
    decreases k,
{
    if k == 0 {
        Seq::empty()
    } else {
        odoo_list_notes(first, name_rows, boms, (k - 1) as nat) + list_odoo_notes(
            first,
            (k - 1) as usize,
            row_odoos(boms, name_rows.vals[k - 1]),
        )
    }
}

/// The number of errors among the findings (warnings are not counted).
pub open spec fn odoo_errors(notes: Seq<OdooNote>) -> nat
    decreases notes.len(),
{
    if notes.len() == 0 {
        0
    } else {
        odoo_errors(notes.drop_last()) + if notes.last() is Mixed {
            0nat
        } else {
            1nat
        }
    }
}

/// The entry lists of `name_rows` are not empty and hold positions in `boms`.
pub open spec fn rows_within(name_rows: StrMapView<Seq<usize>>, boms: Seq<BomEntry>) -> bool {
    &&& name_rows.wf()
    &&& forall|k: int|
        0 <= k < name_rows.keys.len() ==> #[trigger] name_rows.vals[k].len() > 0 && forall|p: int|
            0 <= p < name_rows.vals[k].len() ==> #[trigger] name_rows.vals[k][p] < boms.len()
}

pub proof fn lemma_odoo_errors_add(a: Seq<OdooNote>, b: Seq<OdooNote>)
    ensures
        odoo_errors(a + b) == odoo_errors(a) + odoo_errors(b),
    decreases b.len(),
{
    if b.len() == 0 {
        assert(a + b =~= a);
    } else {
        lemma_odoo_errors_add(a, b.drop_last());
        assert((a + b).drop_last() =~= a + b.drop_last());
    }
}

proof fn lemma_odoo_errors_bound(a: Seq<OdooNote>)
    ensures
        odoo_errors(a) <= a.len(),
    decreases a.len(),
{
    if a.len() > 0 {
        lemma_odoo_errors_bound(a.drop_last());
    }
}

fn push_list_odoo_notes(
    notes: &mut Vec<OdooNote>,
    first: bool,
    k: usize,
    rows: &Vec<usize>,
    boms: &Vec<BomVec>,
)
    requires
        rows@.len() > 0,
        forall|p: int| 0 <= p < rows@.len() ==> #[trigger] rows@[p] < boms@.len(),
    ensures
        final(notes)@ == old(notes)@ + list_odoo_notes(first, k, row_odoos(boms.deep_view(), rows@)),
{
    let ghost o = row_odoos(boms.deep_view(), rows@);
    let mut pr: Option<usize> = boms[rows[0]].b_odoo;
    let mut pr_pos: usize = 0;
    let mut wrn = false;
    let mut p: usize = 0;
    while p < rows.len()
        invariant
            p <= rows@.len(),
            rows@.len() > 0,
            o == row_odoos(boms.deep_view(), rows@),
            forall|q: int| 0 <= q < rows@.len() ==> #[trigger] rows@[q] < boms@.len(),
            p == 0 ==> pr == o[0] && pr_pos == 0,
            p > 0 ==> pr == first_some(o, p as nat),
            p > 0 && pr is Some ==> pr_pos == first_some_pos(o, p as nat),
            wrn == mixed(o.take(p as int)),
            notes@ =~= old(notes)@ + clash_notes(first, k, o, p as nat),
        decreases rows@.len() - p,
    {
        proof { lemma_first_some(o, p as nat); }
        let cur = boms[rows[p]].b_odoo;
        assert(cur == o[p as int]);
        let ghost was_mixed = mixed(o.take(p as int));
        if cur != pr {
            if cur.is_some() && pr.is_some() {
                notes.push(OdooNote::Clash { first, k, p, q: pr_pos });
            } else {
                wrn = true;
            }
        }
        if pr.is_none() {
            pr = cur;
            pr_pos = p;
        }
        proof {
            let t = o.take(p + 1);
            assert(t.take(p as int) =~= o.take(p as int));
            if p == 0 {
                assert(!mixed(t));
            } else {
                if mixed(t) && !was_mixed {
                    let (i, j) = choose|i: int, j: int| 0 <= i < t.len() && 0 <= j < t.len() && #[trigger] t[i] is None && #[trigger] t[j] is Some;
                    if i < p && j < p {
                        assert(o.take(p as int)[i] is None && o.take(p as int)[j] is Some);
                    }
                }
                if wrn && !was_mixed {
                    if cur is None {
                        let q = first_some_pos(o, p as nat) as int;
                        assert(t[p as int] is None && t[q] is Some);
                    } else {
                        assert(t[p as int] is Some && t[0] is None);
                    }
                }
                if was_mixed {
                    let (i, j) = choose|i: int, j: int| 0 <= i < o.take(p as int).len() && 0 <= j < o.take(p as int).len() && #[trigger] o.take(p as int)[i] is None && #[trigger] o.take(p as int)[j] is Some;
                    assert(t[i] is None && t[j] is Some);
                }
                if mixed(t) && !was_mixed {
                    // a place without and a place with a part code: one of them is p
                    if cur is None {
                        let (i, j) = choose|i: int, j: int| 0 <= i < t.len() && 0 <= j < t.len() && #[trigger] t[i] is None && #[trigger] t[j] is Some;
                        assert(o[j] is Some);
                    } else {
                        let (i, j) = choose|i: int, j: int| 0 <= i < t.len() && 0 <= j < t.len() && #[trigger] t[i] is None && #[trigger] t[j] is Some;
                        assert(o[i] is None);
                        if first_some(o, p as nat) is Some {
                            let q = first_some_pos(o, p as nat) as int;
                            assert(o.take(p as int)[i] is None && o.take(p as int)[q] is Some);
                        }
                    }
                }
            }
        }
        p += 1;
    }
    assert(o.take(rows@.len() as int) =~= o);
    if wrn {
        notes.push(OdooNote::Mixed { first, k });
    }
    assert(notes@ =~= old(notes)@ + list_odoo_notes(first, k, o));
}

/// Once a part code is found, it stays the first one, at the same place.
pub proof fn lemma_first_some_stable(o: Seq<Option<usize>>, p: nat, q: nat)
    requires
        p <= q,
        first_some(o, p) is Some,
    ensures
        first_some(o, q) == first_some(o, p),
        first_some_pos(o, q) == first_some_pos(o, p),
    decreases q - p,
{
    if p < q {
        lemma_first_some_stable(o, p, (q - 1) as nat);
    }
}

/// The part codes of the entries that `refs` indexes the references `s` to.
pub open spec fn ref_odoos(boms: Seq<BomEntry>, refs: StrMapView<usize>, s: Seq<Seq<char>>) -> Seq<
    Option<usize>,
> {
    s.map_values(|r: Seq<char>| boms[refs.get(r).unwrap() as int].odoo)
}

/// Among the first `l` places, both lists have a part code, and their first
/// part codes differ.
pub open spec fn cross_differs(o1: Seq<Option<usize>>, o2: Seq<Option<usize>>, l: nat) -> bool {
    first_some(o1, l) is Some && first_some(o2, l) is Some && first_some(o1, l) != first_some(o2, l)
}

/// The larger of two places.
pub open spec fn later(a: nat, b: nat) -> nat {
    if a < b {
        b
    } else {
        a
    }
}

/// The finding on name `k` of BOM1 whose references' part codes are `o1`
/// in BOM1 and `o2` in BOM2.
pub open spec fn cross_notes(k: usize, o1: Seq<Option<usize>>, o2: Seq<Option<usize>>) -> Seq<
    OdooNote,
> {
    if cross_differs(o1, o2, o1.len()) {
        seq![
            OdooNote::Cross {
                k,
                p: later(first_some_pos(o1, o1.len()), first_some_pos(o2, o1.len())) as usize,
                o1: first_some(o1, o1.len()).unwrap(),
                o2: first_some(o2, o1.len()).unwrap(),
            },
        ]
    } else {
        Seq::empty()
    }
}

/// The findings on the first `k` names of BOM1 when the part codes of their
/// references are compared across the two BOMs.
pub open spec fn cross_all(h: HashView, bom1: Seq<BomEntry>, bom2: Seq<BomEntry>, k: nat) -> Seq<
    OdooNote,
>
    decreases k,
{
    if k == 0 {
        Seq::empty()
    } else {
        let s = h.bom1.names.vals[k - 1];
        cross_all(h, bom1, bom2, (k - 1) as nat) + cross_notes(
            (k - 1) as usize,
            ref_odoos(bom1, h.bom1.refs, s),
            ref_odoos(bom2, h.bom2.refs, s),
        )
    }
}

/// The findings of the part code checks within each BOM.
pub open spec fn odoo_lists_notes(h: HashView, bom1: Seq<BomEntry>, bom2: Seq<BomEntry>) -> Seq<
    OdooNote,
> {
    odoo_list_notes(true, h.bom1.name_rows, bom1, h.bom1.name_rows.keys.len()) + odoo_list_notes(
        false,
        h.bom2.name_rows,
        bom2,
        h.bom2.name_rows.keys.len(),
    )
}

/// The findings of the part code check, in order: within BOM1, within BOM2,
/// and, where these found no error, across the BOMs.
pub open spec fn odoo_check_notes(h: HashView, bom1: Seq<BomEntry>, bom2: Seq<BomEntry>) -> Seq<
    OdooNote,
> {
    let a = odoo_lists_notes(h, bom1, bom2);
    if odoo_errors(a) == 0 {
        a + cross_all(h, bom1, bom2, h.bom1.names.keys.len())
    } else {
        a
    }
}

fn push_odoo_list_notes(
    notes: &mut Vec<OdooNote>,
    first: bool,
    name_rows: &StrMap<Vec<usize>>,
    boms: &Vec<BomVec>,
)
    requires
        rows_within(name_rows@, boms.deep_view()),
    ensures
        final(notes)@ == old(notes)@ + odoo_list_notes(
            first,
            name_rows@,
            boms.deep_view(),
            name_rows@.keys.len(),
        ),
{
    let n = name_rows.len();
    let mut k: usize = 0;
    while k < n
        invariant
            k <= n,
            n == name_rows@.keys.len(),
            rows_within(name_rows@, boms.deep_view()),
            notes@ =~= old(notes)@ + odoo_list_notes(first, name_rows@, boms.deep_view(), k as nat),
        decreases n - k,
    {
        let rows = name_rows.value_at(k);
        assert(rows@ == name_rows@.vals[k as int]);
        assert(rows@.len() > 0);
        assert forall|p: int| 0 <= p < rows@.len() implies #[trigger] rows@[p] < boms@.len() by {
            assert(name_rows@.vals[k as int][p] < boms.deep_view().len());
        }
        push_list_odoo_notes(notes, first, k, rows, boms);
        k += 1;
    }
}

fn push_cross_notes(
    notes: &mut Vec<OdooNote>,
    k: usize,
    s: &Vec<String>,
    bom1: &Vec<BomVec>,
    refs1: &StrMap<usize>,
    bom2: &Vec<BomVec>,
    refs2: &StrMap<usize>,
)
    requires
        refs1@.wf(),
        refs2@.wf(),
        forall|l: int| 0 <= l < s@.len() ==> refs1@.has(#[trigger] s.deep_view()[l]) && refs2@.has(
            s.deep_view()[l],
        ),
        forall|i: int| 0 <= i < refs1@.keys.len() ==> #[trigger] refs1@.vals[i] < bom1@.len(),
        forall|i: int| 0 <= i < refs2@.keys.len() ==> #[trigger] refs2@.vals[i] < bom2@.len(),
    ensures
        final(notes)@ == old(notes)@ + cross_notes(
            k,
            ref_odoos(bom1.deep_view(), refs1@, s.deep_view()),
            ref_odoos(bom2.deep_view(), refs2@, s.deep_view()),
        ),
{
    let ghost o1 = ref_odoos(bom1.deep_view(), refs1@, s.deep_view());
    let ghost o2 = ref_odoos(bom2.deep_view(), refs2@, s.deep_view());
    let mut odoo1: Option<usize> = None;
    let mut odoo2: Option<usize> = None;
    let mut r_ierr = false;
    let mut l: usize = 0;
    while l < s.len()
        invariant
            l <= s@.len(),
            o1 == ref_odoos(bom1.deep_view(), refs1@, s.deep_view()),
            o2 == ref_odoos(bom2.deep_view(), refs2@, s.deep_view()),
            refs1@.wf(),
            refs2@.wf(),
            forall|l: int| 0 <= l < s@.len() ==> refs1@.has(#[trigger] s.deep_view()[l]) && refs2@.has(
                s.deep_view()[l],
            ),
            forall|i: int| 0 <= i < refs1@.keys.len() ==> #[trigger] refs1@.vals[i] < bom1@.len(),
            forall|i: int| 0 <= i < refs2@.keys.len() ==> #[trigger] refs2@.vals[i] < bom2@.len(),
            odoo1 == first_some(o1, l as nat),
            odoo2 == first_some(o2, l as nat),
            r_ierr == cross_differs(o1, o2, l as nat),
            r_ierr ==> notes@ == old(notes)@.push(
                OdooNote::Cross {
                    k,
                    p: later(first_some_pos(o1, l as nat), first_some_pos(o2, l as nat)) as usize,
                    o1: first_some(o1, l as nat).unwrap(),
                    o2: first_some(o2, l as nat).unwrap(),
                },
            ),
            !r_ierr ==> notes@ == old(notes)@,
        decreases s@.len() - l,
    {
        let r = &s[l];
        assert(r@ == s.deep_view()[l as int]);
        let i1 = refs1.find(r).unwrap();
        let i2 = refs2.find(r).unwrap();
        proof {
            lemma_pos(refs1@, i1 as int);
            lemma_pos(refs2@, i2 as int);
        }
        let c1 = bom1[*refs1.value_at(i1)].b_odoo;
        let c2 = bom2[*refs2.value_at(i2)].b_odoo;
        assert(c1 == o1[l as int]);
        assert(c2 == o2[l as int]);
        proof {
            if first_some(o1, l as nat) is Some {
                lemma_first_some_stable(o1, l as nat, (l + 1) as nat);
            }
            if first_some(o2, l as nat) is Some {
                lemma_first_some_stable(o2, l as nat, (l + 1) as nat);
            }
        }
        if odoo1.is_none() {
            odoo1 = c1;
        }
        if odoo2.is_none() {
            odoo2 = c2;
        }
        proof {
            lemma_first_some(o1, (l + 1) as nat);
            lemma_first_some(o2, (l + 1) as nat);
            if first_some(o1, l as nat) is None {
                assert(first_some_pos(o1, (l + 1) as nat) == l);
            }
            if first_some(o2, l as nat) is None {
                assert(first_some_pos(o2, (l + 1) as nat) == l);
            }
        }
        if odoo1.is_some() && odoo2.is_some() {
            if odoo1 != odoo2 && !r_ierr {
                r_ierr = true;
                notes.push(OdooNote::Cross { k, p: l, o1: odoo1.unwrap(), o2: odoo2.unwrap() });
            }
        }
        l += 1;
    }
    proof {
        if r_ierr {
            assert(cross_differs(o1, o2, o1.len()));
        }
    }
}

fn count_odoo_errors(notes: &Vec<OdooNote>) -> (n: usize)
    ensures
        n == odoo_errors(notes@),
{
    let mut n: usize = 0;
    let mut i: usize = 0;
    while i < notes.len()
        invariant
            i <= notes@.len(),
            n == odoo_errors(notes@.take(i as int)),
        decreases notes@.len() - i,
    {
        assert(notes@.take(i + 1).drop_last() =~= notes@.take(i as int));
        proof { lemma_odoo_errors_bound(notes@.take(i + 1)); }
        match notes[i] {
            OdooNote::Mixed { .. } => {},
            _ => {
                n = n + 1;
            },
        }
        i += 1;
    }
    assert(notes@.take(notes@.len() as int) =~= notes@);
    n
}

/// Checks part codes. Within each BOM, the entries listed under one name are
/// to have one part code: an entry whose part code differs from the first
/// one of its list is an error, and a list with entries both with and without
/// a part code is warned of. Where no error was found, for each name of BOM1
/// the first part code among the BOM1 entries of its references is to equal
/// the first among their BOM2 entries. Returns the number of errors and the
/// findings.
pub fn check_odoo(bom1: &Vec<BomVec>, bom2: &Vec<BomVec>, hbs: &HashBoms) -> (res: (
    usize,
    Vec<OdooNote>,
))
    requires
        rows_within(hbs.bom1@.name_rows, bom1.deep_view()),
        rows_within(hbs.bom2@.name_rows, bom2.deep_view()),
        odoo_errors(odoo_lists_notes(hbs@, bom1.deep_view(), bom2.deep_view())) == 0 ==> {
            &&& names_within(hbs.bom1@.names, hbs.bom1@.refs, bom1.deep_view())
            &&& names_within(hbs.bom1@.names, hbs.bom2@.refs, bom2.deep_view())
        },
    ensures
        res.1@ == odoo_check_notes(hbs@, bom1.deep_view(), bom2.deep_view()),
        res.0 == odoo_errors(res.1@),
{
    let mut notes: Vec<OdooNote> = Vec::new();
    push_odoo_list_notes(&mut notes, true, &hbs.bom1.name_rows, bom1);
    push_odoo_list_notes(&mut notes, false, &hbs.bom2.name_rows, bom2);
    let ghost a = notes@;
    assert(a =~= odoo_lists_notes(hbs@, bom1.deep_view(), bom2.deep_view()));
    let err = count_odoo_errors(&notes);
    if err == 0 {
        let names = &hbs.bom1.names;
        let n = names.len();
        let mut k: usize = 0;
        while k < n
            invariant
                k <= n,
                n == names@.keys.len(),
                names == &hbs.bom1.names,
                names_within(hbs.bom1@.names, hbs.bom1@.refs, bom1.deep_view()),
                names_within(hbs.bom1@.names, hbs.bom2@.refs, bom2.deep_view()),
                notes@ =~= a + cross_all(hbs@, bom1.deep_view(), bom2.deep_view(), k as nat),
            decreases n - k,
        {
            let s = names.value_at(k);
            assert forall|l: int| 0 <= l < s@.len() implies hbs.bom1@.refs.has(
                #[trigger] s.deep_view()[l],
            ) && hbs.bom2@.refs.has(s.deep_view()[l]) by {
                assert(s.deep_view()[l] == names@.vals[k as int][l]);
            }
            let ghost before = notes@;
            push_cross_notes(
                &mut notes,
                k,
                s,
                bom1,
                &hbs.bom1.refs,
                bom2,
                &hbs.bom2.refs,
            );
            assert(bom1.deep_view().len() == bom1@.len());
            k += 1;
        }
    }
    let count = count_odoo_errors(&notes);
    (count, notes)
}

/// A finding of the quantity check. `k` is a position in the name index of
/// entry lists of BOM1 (when `first`) or of BOM2, and `p` a place in that list.
#[derive(Clone, Copy, PartialEq, Eq, Structural, Debug)]
pub enum QntyNote {
    /// The entry has no quantity.
    NoQnty { first: bool, k: usize, p: usize },
    /// The entry's quantity differs from the number of its references.
    QntyRefs { first: bool, k: usize, p: usize },
    /// The quantities of the list `k` of BOM1 add up otherwise than those of
    /// the list `k2` of BOM2 that it is compared with.
    Totals { k: usize, k2: usize },
}

/// The finding on the entry `e` at place `p` of list `k`, if any.
pub open spec fn entry_qnty_notes(first: bool, k: usize, p: usize, e: BomEntry) -> Seq<QntyNote> {
    match e.qnty {
        None => seq![QntyNote::NoQnty { first, k, p }],
        Some(q) => if q != e.refs.len() {
            seq![QntyNote::QntyRefs { first, k, p }]
        } else {
            Seq::empty()
        },
    }
}

/// The findings on the first `p` entries of the list `rows` (list `k`).
pub open spec fn rows_qnty_notes(
    first: bool,
    k: usize,
    boms: Seq<BomEntry>,
    rows: Seq<usize>,
    p: nat,
) -> Seq<QntyNote>
    decreases p,
{
    if p == 0 {
        Seq::empty()
    } else {
        rows_qnty_notes(first, k, boms, rows, (p - 1) as nat) + entry_qnty_notes(
            first,
            k,
            (p - 1) as usize,
            boms[rows[p - 1] as int],
        )
    }
}

/// The sum of the quantities of the first `p` entries of the list `rows`
/// (an entry without a quantity adds nothing).
pub open spec fn qnty_sum(boms: Seq<BomEntry>, rows: Seq<usize>, p: nat) -> nat
    decreases p,
{
    if p == 0 {
        0
    } else {
        qnty_sum(boms, rows, (p - 1) as nat) + match boms[rows[p - 1] as int].qnty {
            Some(q) => q as nat,
            None => 0nat,
        }
    }
}

pub proof fn lemma_qnty_sum_mono(boms: Seq<BomEntry>, rows: Seq<usize>, p: nat, q: nat)
    requires
        p <= q,
    ensures
        qnty_sum(boms, rows, p) <= qnty_sum(boms, rows, q),
    decreases q - p,
{
    if p < q {
        lemma_qnty_sum_mono(boms, rows, p, (q - 1) as nat);
    }
}

/// The first reference of the first entry of the list `k` of BOM1.
pub open spec fn lead_ref(h: HashView, bom1: Seq<BomEntry>, k: int) -> Seq<char> {
    bom1[h.bom1.name_rows.vals[k][0] as int].refs[0]
}

/// The name, in BOM2, of the lead reference of list `k` of BOM1.
pub open spec fn partner_name(h: HashView, bom1: Seq<BomEntry>, bom2: Seq<BomEntry>, k: int) -> Seq<
    char,
> {
    bom2[h.bom2.refs.get(lead_ref(h, bom1, k)).unwrap() as int].name
}

/// The position of the list of BOM2 that the list `k` of BOM1 is compared with.
pub open spec fn partner(h: HashView, bom1: Seq<BomEntry>, bom2: Seq<BomEntry>, k: int) -> int {
    h.bom2.name_rows.pos(partner_name(h, bom1, bom2, k))
}

/// The findings on the list `k` of BOM1 and its partner list of BOM2.
pub open spec fn list_qnty_notes(h: HashView, bom1: Seq<BomEntry>, bom2: Seq<BomEntry>, k: int) -> Seq<
    QntyNote,
> {
    let l1 = h.bom1.name_rows.vals[k];
    let k2 = partner(h, bom1, bom2, k);
    let l2 = h.bom2.name_rows.vals[k2];
    let a = rows_qnty_notes(true, k as usize, bom1, l1, l1.len());
    let b = rows_qnty_notes(false, k2 as usize, bom2, l2, l2.len());
    a + b + if a.len() == 0 && b.len() == 0 && qnty_sum(bom1, l1, l1.len()) != qnty_sum(
        bom2,
        l2,
        l2.len(),
    ) {
        seq![QntyNote::Totals { k: k as usize, k2: k2 as usize }]
    } else {
        Seq::empty()
    }
}

/// The findings on the first `k` lists of BOM1.
pub open spec fn qnty_notes_upto(h: HashView, bom1: Seq<BomEntry>, bom2: Seq<BomEntry>, k: nat) -> Seq<
    QntyNote,
>
    decreases k,
{
    if k == 0 {
        Seq::empty()
    } else {
        qnty_notes_upto(h, bom1, bom2, (k - 1) as nat) + list_qnty_notes(h, bom1, bom2, k - 1)
    }
}

/// The findings of the quantity check.
pub open spec fn qnty_check_notes(h: HashView, bom1: Seq<BomEntry>, bom2: Seq<BomEntry>) -> Seq<
    QntyNote,
> {
    qnty_notes_upto(h, bom1, bom2, h.bom1.name_rows.keys.len())
}

/// The quantity check can be made on list `k` of BOM1: its first entry has
/// a reference, which BOM2 holds, under a name that BOM2 lists, and the
/// quantities of both lists add up to a number that fits in `usize`.
pub open spec fn qnty_list_defined(h: HashView, bom1: Seq<BomEntry>, bom2: Seq<BomEntry>, k: int) -> bool {
    let l1 = h.bom1.name_rows.vals[k];
    &&& bom1[l1[0] as int].refs.len() > 0
    &&& h.bom2.refs.has(lead_ref(h, bom1, k))
    &&& h.bom2.name_rows.has(partner_name(h, bom1, bom2, k))
    &&& qnty_sum(bom1, l1, l1.len()) <= usize::MAX
    &&& qnty_sum(bom2, h.bom2.name_rows.vals[partner(h, bom1, bom2, k)], h.bom2.name_rows.vals[partner(h, bom1, bom2, k)].len()) <= usize::MAX
}

/// The quantity check can be made (else it stops on a missing reference or
/// name, or on a sum too large for `usize`).
pub open spec fn qnty_defined(h: HashView, bom1: Seq<BomEntry>, bom2: Seq<BomEntry>) -> bool {
    qnty_defined_upto(h, bom1, bom2, h.bom1.name_rows.keys.len())
}

/// The indexes are such that the quantity check can look up what it needs
/// (the entry lists are not empty and hold positions of entries, and the
/// reference index of BOM2 gives positions of entries).
pub open spec fn qnty_base(h: HashView, bom1: Seq<BomEntry>, bom2: Seq<BomEntry>) -> bool {
    &&& rows_within(h.bom1.name_rows, bom1)
    &&& rows_within(h.bom2.name_rows, bom2)
    &&& h.bom2.refs.wf()
    &&& forall|i: int| 0 <= i < h.bom2.refs.keys.len() ==> #[trigger] h.bom2.refs.vals[i] < bom2.len()
}

/// The quantity check can be made on the first `m` lists of BOM1.
pub open spec fn qnty_defined_upto(h: HashView, bom1: Seq<BomEntry>, bom2: Seq<BomEntry>, m: nat) -> bool {
    &&& qnty_base(h, bom1, bom2)
    &&& forall|k: int| 0 <= k < m ==> #[trigger] qnty_list_defined(h, bom1, bom2, k)
}

fn push_rows_qnty_notes(
    notes: &mut Vec<QntyNote>,
    first: bool,
    k: usize,
    boms: &Vec<BomVec>,
    rows: &Vec<usize>,
) -> (sum: usize)
    requires
        forall|p: int| 0 <= p < rows@.len() ==> #[trigger] rows@[p] < boms@.len(),
        qnty_sum(boms.deep_view(), rows@, rows@.len()) <= usize::MAX,
    ensures
        final(notes)@ == old(notes)@ + rows_qnty_notes(first, k, boms.deep_view(), rows@, rows@.len()),
        sum == qnty_sum(boms.deep_view(), rows@, rows@.len()),
{
    let ghost bv = boms.deep_view();
    let mut sum: usize = 0;
    let mut p: usize = 0;
    while p < rows.len()
        invariant
            p <= rows@.len(),
            bv == boms.deep_view(),
            forall|q: int| 0 <= q < rows@.len() ==> #[trigger] rows@[q] < boms@.len(),
            qnty_sum(bv, rows@, rows@.len()) <= usize::MAX,
            sum == qnty_sum(bv, rows@, p as nat),
            notes@ =~= old(notes)@ + rows_qnty_notes(first, k, bv, rows@, p as nat),
        decreases rows@.len() - p,
    {
        let e = &boms[rows[p]];
        assert(bv[rows@[p as int] as int] == e@);
        proof { lemma_qnty_sum_mono(bv, rows@, (p + 1) as nat, rows@.len()); }
        match e.b_qnty {
            Some(q) => {
                sum = sum + q;
                if q != e.b_ref.len() {
                    notes.push(QntyNote::QntyRefs { first, k, p });
                }
            },
            None => {
                notes.push(QntyNote::NoQnty { first, k, p });
            },
        }
        p += 1;
    }
    sum
}

/// Checks quantities: each entry listed under a name is to have a quantity
/// equal to its number of references; and where the list of a BOM1 name and
/// the BOM2 list of the name that BOM2 gives its lead reference have no such
/// error, their quantities are to add up to the same total. Returns the number
/// of errors and the findings.
pub fn check_qnty(bom1: &Vec<BomVec>, bom2: &Vec<BomVec>, hbs: &HashBoms) -> (res: (
    usize,
    Vec<QntyNote>,
))
    requires
        qnty_defined(hbs@, bom1.deep_view(), bom2.deep_view()),
    ensures
        res.1@ == qnty_check_notes(hbs@, bom1.deep_view(), bom2.deep_view()),
        res.0 == res.1@.len(),
{
    let n = hbs.bom1.name_rows.len();
    let notes = qnty_notes_prefix(bom1, bom2, hbs, n);
    (notes.len(), notes)
}

/// The findings of the quantity check on the first `m` lists of BOM1.
pub fn qnty_notes_prefix(bom1: &Vec<BomVec>, bom2: &Vec<BomVec>, hbs: &HashBoms, m: usize) -> (notes: Vec<
    QntyNote,
>)
    requires
        m <= hbs@.bom1.name_rows.keys.len(),
        qnty_defined_upto(hbs@, bom1.deep_view(), bom2.deep_view(), m as nat),
    ensures
        notes@ == qnty_notes_upto(hbs@, bom1.deep_view(), bom2.deep_view(), m as nat),
{
    let ghost b1 = bom1.deep_view();
    let ghost b2 = bom2.deep_view();
    let mut notes: Vec<QntyNote> = Vec::new();
    let n = m;
    let mut k: usize = 0;
    while k < n
        invariant
            k <= n,
            n <= hbs@.bom1.name_rows.keys.len(),
            b1 == bom1.deep_view(),
            b2 == bom2.deep_view(),
            qnty_defined_upto(hbs@, b1, b2, n as nat),
            notes@ =~= qnty_notes_upto(hbs@, b1, b2, k as nat),
        decreases n - k,
    {
        assert(qnty_list_defined(hbs@, b1, b2, k as int));
        let l1 = hbs.bom1.name_rows.value_at(k);
        assert(l1@ == hbs@.bom1.name_rows.vals[k as int]);
        assert(l1@[0] < bom1@.len());
        let first = &bom1[l1[0]];
        assert(first@ == b1[l1@[0] as int]);
        let lead = &first.b_ref[0];
        assert(lead@ == lead_ref(hbs@, b1, k as int));
        let i = hbs.bom2.refs.find(lead).unwrap();
        proof { lemma_pos(hbs@.bom2.refs, i as int); }
        let row2 = *hbs.bom2.refs.value_at(i);
        let name2 = &bom2[row2].b_name;
        assert(name2@ == partner_name(hbs@, b1, b2, k as int));
        let k2 = hbs.bom2.name_rows.find(name2).unwrap();
        let l2 = hbs.bom2.name_rows.value_at(k2);
        assert(l2@ == hbs@.bom2.name_rows.vals[partner(hbs@, b1, b2, k as int)]);
        assert forall|p: int| 0 <= p < l1@.len() implies #[trigger] l1@[p] < bom1@.len() by {
            assert(hbs@.bom1.name_rows.vals[k as int][p] < b1.len());
        }
        assert forall|p: int| 0 <= p < l2@.len() implies #[trigger] l2@[p] < bom2@.len() by {
            assert(hbs@.bom2.name_rows.vals[k2 as int][p] < b2.len());
        }
        let start = notes.len();
        let qn1 = push_rows_qnty_notes(&mut notes, true, k, bom1, l1);
        let mid = notes.len();
        let qn2 = push_rows_qnty_notes(&mut notes, false, k2, bom2, l2);
        let end = notes.len();
        if start == mid && mid == end && qn1 != qn2 {
            notes.push(QntyNote::Totals { k, k2 });
        }
        k += 1;
    }
    notes
}

fn qnty_sum_fits(boms: &Vec<BomVec>, rows: &Vec<usize>) -> (r: bool)
    requires
        forall|p: int| 0 <= p < rows@.len() ==> #[trigger] rows@[p] < boms@.len(),
    ensures
        r == (qnty_sum(boms.deep_view(), rows@, rows@.len()) <= usize::MAX),
{
    let ghost bv = boms.deep_view();
    let mut sum: usize = 0;
    let mut p: usize = 0;
    while p < rows.len()
        invariant
            p <= rows@.len(),
            bv == boms.deep_view(),
            forall|q: int| 0 <= q < rows@.len() ==> #[trigger] rows@[q] < boms@.len(),
            sum == qnty_sum(bv, rows@, p as nat),
        decreases rows@.len() - p,
    {
        assert(bv[rows@[p as int] as int] == boms@[rows@[p as int] as int]@);
        proof { lemma_qnty_sum_mono(bv, rows@, (p + 1) as nat, rows@.len()); }
        match boms[rows[p]].b_qnty {
            Some(q) => {
                match sum.checked_add(q) {
                    Some(t) => {
                        sum = t;
                    },
                    None => {
                        return false;
                    },
                }
            },
            None => {},
        }
        p += 1;
    }
    true
}

/// Whether the quantity check can be made (see `qnty_defined`).
pub fn qnty_check_defined(bom1: &Vec<BomVec>, bom2: &Vec<BomVec>, hbs: &HashBoms) -> (r: bool)
    requires
        qnty_base(hbs@, bom1.deep_view(), bom2.deep_view()),
    ensures
        r == qnty_defined(hbs@, bom1.deep_view(), bom2.deep_view()),
{
    let k = qnty_defined_count(bom1, bom2, hbs);
    k == hbs.bom1.name_rows.len()
}

/// The number of lists of BOM1, from the first, on which the quantity check
/// can be made: it stops at the first on which it cannot.
pub fn qnty_defined_count(bom1: &Vec<BomVec>, bom2: &Vec<BomVec>, hbs: &HashBoms) -> (r: usize)
    requires
        qnty_base(hbs@, bom1.deep_view(), bom2.deep_view()),
    ensures
        r <= hbs@.bom1.name_rows.keys.len(),
        qnty_defined_upto(hbs@, bom1.deep_view(), bom2.deep_view(), r as nat),
        r < hbs@.bom1.name_rows.keys.len() ==> !qnty_list_defined(
            hbs@,
            bom1.deep_view(),
            bom2.deep_view(),
            r as int,
        ),
{
    let ghost b1 = bom1.deep_view();
    let ghost b2 = bom2.deep_view();
    let n = hbs.bom1.name_rows.len();
    let mut k: usize = 0;
    while k < n
        invariant
            k <= n,
            n == hbs@.bom1.name_rows.keys.len(),
            b1 == bom1.deep_view(),
            b2 == bom2.deep_view(),
            rows_within(hbs.bom1@.name_rows, b1),
            rows_within(hbs.bom2@.name_rows, b2),
            hbs.bom2@.refs.wf(),
            forall|i: int| 0 <= i < hbs.bom2@.refs.keys.len() ==> #[trigger] hbs.bom2@.refs.vals[i] < bom2@.len(),
            forall|j: int| 0 <= j < k ==> #[trigger] qnty_list_defined(hbs@, b1, b2, j),
        decreases n - k,
    {
        let l1 = hbs.bom1.name_rows.value_at(k);
        assert(l1@ == hbs@.bom1.name_rows.vals[k as int]);
        assert(l1@.len() > 0);
        assert(l1@[0] < b1.len());
        let first = &bom1[l1[0]];
        assert(first@ == b1[l1@[0] as int]);
        if first.b_ref.len() == 0 {
            assert(!qnty_list_defined(hbs@, b1, b2, k as int));
            return k;
        }
        let lead = &first.b_ref[0];
        assert(lead@ == lead_ref(hbs@, b1, k as int));
        let i = match hbs.bom2.refs.find(lead) {
            Some(i) => i,
            None => {
                assert(!qnty_list_defined(hbs@, b1, b2, k as int));
                return k;
            },
        };
        proof { lemma_pos(hbs@.bom2.refs, i as int); }
        let row2 = *hbs.bom2.refs.value_at(i);
        let name2 = &bom2[row2].b_name;
        assert(name2@ == partner_name(hbs@, b1, b2, k as int));
        let k2 = match hbs.bom2.name_rows.find(name2) {
            Some(k2) => k2,
            None => {
                assert(!qnty_list_defined(hbs@, b1, b2, k as int));
                return k;
            },
        };
        let l2 = hbs.bom2.name_rows.value_at(k2);
        assert(k2 as int == partner(hbs@, b1, b2, k as int));
        assert(l2@ == hbs@.bom2.name_rows.vals[k2 as int]);
        assert(hbs@.bom2.name_rows.vals[k2 as int].len() > 0);
        assert forall|p: int| 0 <= p < l1@.len() implies #[trigger] l1@[p] < bom1@.len() by {
            assert(hbs@.bom1.name_rows.vals[k as int][p] < b1.len());
        }
        assert forall|p: int| 0 <= p < l2@.len() implies #[trigger] l2@[p] < bom2@.len() by {
            assert(hbs@.bom2.name_rows.vals[k2 as int][p] < b2.len());
        }
        if !qnty_sum_fits(bom1, l1) || !qnty_sum_fits(bom2, l2) {
            assert(!qnty_list_defined(hbs@, b1, b2, k as int));
            return k;
        }
        assert(qnty_list_defined(hbs@, b1, b2, k as int));
        k += 1;
    }
    n
}

/// A line of the final table: the BOM1 entry and the BOM2 entry shown side
/// by side (positions in the entry lists; `None` leaves the side empty).
pub type TableLine = (Option<usize>, Option<usize>);

/// The state of the final table as it is drawn: the lines so far, and the
/// references already shown of each BOM.
#[verifier::ext_equal]
pub struct TableView {
    pub lines: Seq<TableLine>,
    pub shown1: Seq<Seq<char>>,
    pub shown2: Seq<Seq<char>>,
}

/// Draws the reference `r`: an entry not shown yet is shown with all its
/// references; the BOM1 entry, if new, goes on a line with the BOM2 entry if
/// that one is new too; a new BOM2 entry alone goes on a line of its own.
pub open spec fn table_step(
    st: TableView,
    h: HashView,
    bom1: Seq<BomEntry>,
    bom2: Seq<BomEntry>,
    r: Seq<char>,
) -> TableView {
    let i1 = h.bom1.refs.get(r).unwrap();
    let i2 = h.bom2.refs.get(r).unwrap();
    if !st.shown1.contains(r) {
        TableView {
            lines: st.lines.push(
                (Some(i1), if !st.shown2.contains(r) {
                    Some(i2)
                } else {
                    None
                }),
            ),
            shown1: st.shown1 + bom1[i1 as int].refs,
            shown2: st.shown2 + bom2[i2 as int].refs,
        }
    } else if !st.shown2.contains(r) {
        TableView {
            lines: st.lines.push((None, Some(i2))),
            shown1: st.shown1,
            shown2: st.shown2 + bom2[i2 as int].refs,
        }
    } else {
        st
    }
}

/// Draws the first `l` references of the list `s`.
pub open spec fn table_list(
    st: TableView,
    h: HashView,
    bom1: Seq<BomEntry>,
    bom2: Seq<BomEntry>,
    s: Seq<Seq<char>>,
    l: nat,
) -> TableView
    decreases l,
{
    if l == 0 {
        st
    } else {
        table_step(table_list(st, h, bom1, bom2, s, (l - 1) as nat), h, bom1, bom2, s[l - 1])
    }
}

/// Draws the reference lists of the first `k` names of BOM1.
pub open spec fn table_upto(h: HashView, bom1: Seq<BomEntry>, bom2: Seq<BomEntry>, k: nat) -> TableView
    decreases k,
{
    if k == 0 {
        TableView { lines: Seq::empty(), shown1: Seq::empty(), shown2: Seq::empty() }
    } else {
        let s = h.bom1.names.vals[k - 1];
        table_list(table_upto(h, bom1, bom2, (k - 1) as nat), h, bom1, bom2, s, s.len())
    }
}

/// The lines of the final table.
pub open spec fn final_table_lines(h: HashView, bom1: Seq<BomEntry>, bom2: Seq<BomEntry>) -> Seq<
    TableLine,
> {
    table_upto(h, bom1, bom2, h.bom1.names.keys.len()).lines
}

fn extend_strings(v: &mut Vec<String>, items: &Vec<String>)
    ensures
        final(v).deep_view() == old(v).deep_view() + items.deep_view(),
{
    let mut i: usize = 0;
    while i < items.len()
        invariant
            i <= items@.len(),
            v.deep_view() =~= old(v).deep_view() + items.deep_view().take(i as int),
        decreases items@.len() - i,
    {
        let ghost prev = v.deep_view();
        v.push(items[i].clone());
        assert(v.deep_view() =~= prev.push(items@[i as int]@));
        assert(items.deep_view().take(i + 1) =~= items.deep_view().take(i as int).push(items@[i as int]@));
        i += 1;
    }
    assert(items.deep_view().take(items@.len() as int) =~= items.deep_view());
}

/// Draws the final table: for each name of BOM1, for each of its references,
/// the entries of the two BOMs that hold it, each entry shown once.
pub fn final_table(bom1: &Vec<BomVec>, bom2: &Vec<BomVec>, hbs: &HashBoms) -> (lines: Vec<TableLine>)
    requires
        names_within(hbs.bom1@.names, hbs.bom1@.refs, bom1.deep_view()),
        names_within(hbs.bom1@.names, hbs.bom2@.refs, bom2.deep_view()),
    ensures
        lines@ == final_table_lines(hbs@, bom1.deep_view(), bom2.deep_view()),
{
    let ghost b1 = bom1.deep_view();
    let ghost b2 = bom2.deep_view();
    let mut lines: Vec<TableLine> = Vec::new();
    let mut shown1: Vec<String> = Vec::new();
    let mut shown2: Vec<String> = Vec::new();
    let names = &hbs.bom1.names;
    let n = names.len();
    let mut k: usize = 0;
    while k < n
        invariant
            k <= n,
            n == names@.keys.len(),
            names == &hbs.bom1.names,
            b1 == bom1.deep_view(),
            b2 == bom2.deep_view(),
            names_within(hbs.bom1@.names, hbs.bom1@.refs, b1),
            names_within(hbs.bom1@.names, hbs.bom2@.refs, b2),
            (TableView { lines: lines@, shown1: shown1.deep_view(), shown2: shown2.deep_view() })
                == table_upto(hbs@, b1, b2, k as nat),
        decreases n - k,
    {
        let s = names.value_at(k);
        let ghost st0 = table_upto(hbs@, b1, b2, k as nat);
        let mut l: usize = 0;
        while l < s.len()
            invariant
                k < n,
                n == names@.keys.len(),
                names == &hbs.bom1.names,
                b1 == bom1.deep_view(),
                b2 == bom2.deep_view(),
                names_within(hbs.bom1@.names, hbs.bom1@.refs, b1),
                names_within(hbs.bom1@.names, hbs.bom2@.refs, b2),
                s.deep_view() == names@.vals[k as int],
                l <= s@.len(),
                (TableView { lines: lines@, shown1: shown1.deep_view(), shown2: shown2.deep_view() })
                    == table_list(st0, hbs@, b1, b2, s.deep_view(), l as nat),
            decreases s@.len() - l,
        {
            let r = &s[l];
            assert(r@ == names@.vals[k as int][l as int]);
            let i1 = hbs.bom1.refs.find(r).unwrap();
            let i2 = hbs.bom2.refs.find(r).unwrap();
            proof {
                lemma_pos(hbs@.bom1.refs, i1 as int);
                lemma_pos(hbs@.bom2.refs, i2 as int);
            }
            let row1 = *hbs.bom1.refs.value_at(i1);
            let row2 = *hbs.bom2.refs.value_at(i2);
            assert(b1[row1 as int] == bom1@[row1 as int]@);
            assert(b2[row2 as int] == bom2@[row2 as int]@);
            if !contains_string(&shown1, r) {
                let second = if !contains_string(&shown2, r) {
                    Some(row2)
                } else {
                    None
                };
                lines.push((Some(row1), second));
                extend_strings(&mut shown1, &bom1[row1].b_ref);
                extend_strings(&mut shown2, &bom2[row2].b_ref);
            } else if !contains_string(&shown2, r) {
                lines.push((None, Some(row2)));
                extend_strings(&mut shown2, &bom2[row2].b_ref);
            }
            l += 1;
        }
        k += 1;
    }
    lines
}

/// When the reference check finds no error, the two BOMs hold the same
/// references, and every later check can look up what it needs.
pub proof fn lemma_ref_check_passed(h: HashView, bom1: Seq<BomEntry>, bom2: Seq<BomEntry>)
    requires
        index_sound(h.bom1, bom1),
        index_sound(h.bom2, bom2),
        hash_errors(h.bom1, h.bom2) == 0,
    ensures
        forall|r: Seq<char>| #[trigger] h.bom1.refs.has(r) <==> h.bom2.refs.has(r),
        names_within(h.bom1.names, h.bom1.refs, bom1),
        names_within(h.bom1.names, h.bom2.refs, bom2),
        names_within(h.bom2.names, h.bom2.refs, bom2),
        names_within(h.bom2.names, h.bom1.refs, bom1),
        rows_within(h.bom1.name_rows, bom1),
        rows_within(h.bom2.name_rows, bom2),
{
    lemma_no_missing(h.bom1.refs, h.bom2.refs, h.bom1.refs.keys.len());
    lemma_no_missing(h.bom2.refs, h.bom1.refs, h.bom2.refs.keys.len());
    assert forall|r: Seq<char>| #[trigger] h.bom1.refs.has(r) <==> h.bom2.refs.has(r) by {
        if h.bom1.refs.has(r) {
            let j = choose|j: int| 0 <= j < h.bom1.refs.keys.len() && h.bom1.refs.keys[j] == r;
            assert(h.bom2.refs.has(h.bom1.refs.keys[j]));
        }
        if h.bom2.refs.has(r) {
            let j = choose|j: int| 0 <= j < h.bom2.refs.keys.len() && h.bom2.refs.keys[j] == r;
            assert(h.bom1.refs.has(h.bom2.refs.keys[j]));
        }
    }
    lemma_names_within(h.bom1, bom1);
    lemma_names_within(h.bom2, bom2);
    assert forall|k: int, l: int|
        0 <= k < h.bom1.names.keys.len() && 0 <= l < h.bom1.names.vals[k].len() implies h.bom2.refs.has(
        #[trigger] h.bom1.names.vals[k][l],
    ) by {
        assert(h.bom1.refs.has(h.bom1.names.vals[k][l]));
    }
    assert forall|k: int, l: int|
        0 <= k < h.bom2.names.keys.len() && 0 <= l < h.bom2.names.vals[k].len() implies h.bom1.refs.has(
        #[trigger] h.bom2.names.vals[k][l],
    ) by {
        assert(h.bom2.refs.has(h.bom2.names.vals[k][l]));
    }
}

/// The index of a BOM meets what the checks look up in it.
pub proof fn lemma_names_within(ix: IndexView, boms: Seq<BomEntry>)
    requires
        index_sound(ix, boms),
    ensures
        names_within(ix.names, ix.refs, boms),
        rows_within(ix.name_rows, boms),
{
    assert forall|k: int, l: int|
        0 <= k < ix.names.keys.len() && 0 <= l < ix.names.vals[k].len() implies ix.refs.has(
        #[trigger] ix.names.vals[k][l],
    ) by {
        lemma_pos(ix.names, k);
        assert(ix.names.get(ix.names.keys[k]).unwrap().contains(ix.names.vals[k][l]));
    }
    assert forall|i: int| 0 <= i < ix.refs.keys.len() implies #[trigger] ix.refs.vals[i] < boms.len() by {
        lemma_pos(ix.refs, i);
        assert(ix.refs.has(ix.refs.keys[i]));
    }
    assert forall|k: int| 0 <= k < ix.name_rows.keys.len() implies #[trigger] ix.name_rows.vals[k].len()
        > 0 && forall|p: int|
        0 <= p < ix.name_rows.vals[k].len() ==> #[trigger] ix.name_rows.vals[k][p] < boms.len() by {
        lemma_pos(ix.name_rows, k);
        assert(ix.name_rows.has(ix.name_rows.keys[k]));
        assert(rows_named(ix.name_rows.vals[k], boms, ix.name_rows.keys[k], false));
    }
}

/// How far the quantity check went.
pub enum QntyStage {
    /// It was made: the number of errors and the findings.
    Done(usize, Vec<QntyNote>),
    /// It could not be made on list `k` of BOM1 (see `qnty_list_defined`):
    /// the findings on the lists before it.
    Stopped { k: usize, notes: Vec<QntyNote> },
}

/// The checks of two BOMs, made in turn, each only when those before it
/// found no error: references, names, part codes, quantities; and the final
/// table when all passed.
pub struct BomCheck {
    pub ref_errors: usize,
    pub hash: HashBoms,
    pub names: Option<(usize, Vec<NameNote>)>,
    pub odoo: Option<(usize, Vec<OdooNote>)>,
    pub qnty: Option<QntyStage>,
    pub table: Option<Vec<TableLine>>,
}

/// Runs the checks of BOM2 against BOM1 in turn, stopping at the first
/// check that finds an error.
pub fn check_boms(bom1: &Vec<BomVec>, bom2: &Vec<BomVec>) -> (c: BomCheck)
    ensures
        c.hash.bom1@ == index_of(bom1.deep_view()),
        c.hash.bom2@ == index_of(bom2.deep_view()),
        c.hash.notes@ == hash_notes(c.hash.bom1@, c.hash.bom2@),
        c.ref_errors == hash_errors(c.hash.bom1@, c.hash.bom2@),
        (c.names is Some) == (c.ref_errors == 0),
        c.names matches Some((n, notes)) ==> notes@ == name_check_notes(
            c.hash@,
            bom1.deep_view(),
            bom2.deep_view(),
        ) && n == notes@.len(),
        (c.odoo is Some) == (c.names matches Some((n, _)) && n == 0),
        c.odoo matches Some((n, notes)) ==> notes@ == odoo_check_notes(
            c.hash@,
            bom1.deep_view(),
            bom2.deep_view(),
        ) && n == odoo_errors(notes@),
        (c.qnty is Some) == (c.odoo matches Some((n, _)) && n == 0),
        c.qnty matches Some(q) ==> (q is Stopped <==> !qnty_defined(
            c.hash@,
            bom1.deep_view(),
            bom2.deep_view(),
        )),
        c.qnty matches Some(QntyStage::Stopped { k, notes }) ==> {
            &&& k < c.hash@.bom1.name_rows.keys.len()
            &&& qnty_defined_upto(c.hash@, bom1.deep_view(), bom2.deep_view(), k as nat)
            &&& !qnty_list_defined(c.hash@, bom1.deep_view(), bom2.deep_view(), k as int)
            &&& notes@ == qnty_notes_upto(c.hash@, bom1.deep_view(), bom2.deep_view(), k as nat)
        },
        c.qnty matches Some(QntyStage::Done(n, notes)) ==> notes@ == qnty_check_notes(
            c.hash@,
            bom1.deep_view(),
            bom2.deep_view(),
        ) && n == notes@.len(),
        (c.table is Some) == (c.qnty matches Some(QntyStage::Done(n, _)) && n == 0),
        c.table matches Some(t) ==> t@ == final_table_lines(
            c.hash@,
            bom1.deep_view(),
            bom2.deep_view(),
        ),
{
    let (ref_errors, hash) = boms_to_hash(bom1, bom2);
    let mut c = BomCheck { ref_errors, hash, names: None, odoo: None, qnty: None, table: None };
    if ref_errors != 0 {
        return c;
    }
    proof { lemma_ref_check_passed(c.hash@, bom1.deep_view(), bom2.deep_view()); }
    let (n, notes) = check_ref_to_name(bom1, bom2, &c.hash);
    c.names = Some((n, notes));
    if n != 0 {
        return c;
    }
    let (n, notes) = check_odoo(bom1, bom2, &c.hash);
    c.odoo = Some((n, notes));
    if n != 0 {
        return c;
    }
    let k = qnty_defined_count(bom1, bom2, &c.hash);
    if k < c.hash.bom1.name_rows.len() {
        let notes = qnty_notes_prefix(bom1, bom2, &c.hash, k);
        c.qnty = Some(QntyStage::Stopped { k, notes });
        return c;
    }
    let (n, notes) = check_qnty(bom1, bom2, &c.hash);
    c.qnty = Some(QntyStage::Done(n, notes));
    if n != 0 {
        return c;
    }
    c.table = Some(final_table(bom1, bom2, &c.hash));
    c
}

} // verus!
