//! Indexing one BOM: its entries by reference, and by name.

use vstd::prelude::*;
use vstd::utf8::encode_utf8;
use crate::rows::{BomEntry, BomVec};
use crate::strmap::{StrMap, StrMapView, lemma_add, lemma_pos, lemma_set};
use crate::text::{bytes_contain, has_infix};

verus! {

/// A note made on one reference while a BOM is indexed.
#[derive(Clone, Copy, PartialEq, Eq, Structural, Debug)]
pub enum RefNote {
    /// The reference at this position (entry, place in its list) is empty.
    Empty(usize, usize),
    /// The reference at this position came before in the BOM.
    Duplicate(usize, usize),
}

/// The bytes of `DNP` ("do not place"), which mark an entry whose part is not fitted.
pub open spec fn dnp_marker() -> Seq<u8> {
    seq![68u8, 78u8, 80u8]
}

/// The entry's value holds `DNP`: its part is not fitted.
pub open spec fn is_dnp(e: BomEntry) -> bool {
    has_infix(encode_utf8(e.value), dnp_marker())
}

/// The first reference of an entry, or the empty string where it has none.
pub open spec fn first_ref(e: BomEntry) -> Seq<char> {
    if e.refs.len() > 0 {
        e.refs[0]
    } else {
        Seq::empty()
    }
}

/// The contents of a BOM index.
#[verifier::ext_equal]
pub struct IndexView {
    /// Each reference, with the first entry (position) that holds it.
    pub refs: StrMapView<usize>,
    /// Each name of a fitted entry, with the references of its entries.
    pub names: StrMapView<Seq<Seq<char>>>,
    /// Each name of a fitted entry, with the entries kept for it.
    pub name_rows: StrMapView<Seq<usize>>,
    /// Each name of an entry that is not fitted, with those entries.
    pub dnp_rows: StrMapView<Seq<usize>>,
    /// The notes on empty and repeated references, in order.
    pub notes: Seq<RefNote>,
    /// The number of references that came before in the BOM.
    pub dups: nat,
}

impl IndexView {
    pub open spec fn empty() -> IndexView {
        IndexView {
            refs: StrMapView::empty(),
            names: StrMapView::empty(),
            name_rows: StrMapView::empty(),
            dnp_rows: StrMapView::empty(),
            notes: Seq::empty(),
            dups: 0,
        }
    }

    pub open spec fn wf(self) -> bool {
        &&& self.refs.wf()
        &&& self.names.wf()
        &&& self.name_rows.wf()
        &&& self.dnp_rows.wf()
        &&& self.dups <= self.notes.len()
    }
}

/// Records the reference `r` at position `pos` of entry `row`: an empty one
/// is noted; one already indexed is noted and counted as repeated; a new one
/// is indexed to this entry.
pub open spec fn note_ref(st: IndexView, row: usize, pos: usize, r: Seq<char>) -> IndexView {
    let notes = if r.len() == 0 {
        st.notes.push(RefNote::Empty(row, pos))
    } else {
        st.notes
    };
    if st.refs.has(r) {
        IndexView { notes: notes.push(RefNote::Duplicate(row, pos)), dups: st.dups + 1, ..st }
    } else {
        IndexView { notes, refs: st.refs.add(r, row), ..st }
    }
}

/// Records the references `refs` of entry `row`, in order.
pub open spec fn note_refs(st: IndexView, row: usize, refs: Seq<Seq<char>>) -> IndexView
    decreases refs.len(),
{
    if refs.len() == 0 {
        st
    } else {
        note_ref(note_refs(st, row, refs.drop_last()), row, (refs.len() - 1) as usize, refs.last())
    }
}

/// The list `set` with each of `items` that it lacks added, in order.
pub open spec fn add_new(set: Seq<Seq<char>>, items: Seq<Seq<char>>) -> Seq<Seq<char>>
    decreases items.len(),
{
    if items.len() == 0 {
        set
    } else {
        let s = add_new(set, items.drop_last());
        if s.contains(items.last()) {
            s
        } else {
            s.push(items.last())
        }
    }
}

/// The map with `row` appended to the list of key `k` (a new key gets a list of one).
pub open spec fn add_row_to(m: StrMapView<Seq<usize>>, k: Seq<char>, row: usize) -> StrMapView<
    Seq<usize>,
> {
    if m.has(k) {
        m.set(m.pos(k), m.vals[m.pos(k)].push(row))
    } else {
        m.add(k, seq![row])
    }
}

/// The name's reference list with the references `refs` added.
pub open spec fn add_refs_to(m: StrMapView<Seq<Seq<char>>>, k: Seq<char>, refs: Seq<Seq<char>>) -> StrMapView<
    Seq<Seq<char>>,
> {
    if m.has(k) {
        m.set(m.pos(k), add_new(m.vals[m.pos(k)], refs))
    } else {
        m.add(k, add_new(Seq::empty(), refs))
    }
}

/// An entry of a name is kept in the name's list unless the name has one
/// already and the entry's first reference is among the name's references.
pub open spec fn keeps_row(st: IndexView, e: BomEntry) -> bool {
    !st.name_rows.has(e.name) || !st.names.has(e.name) || !st.names.vals[st.names.pos(
        e.name,
    )].contains(first_ref(e))
}

/// Indexes the entry `e` at position `row`.
pub open spec fn index_row(st: IndexView, row: usize, e: BomEntry) -> IndexView {
    if is_dnp(e) {
        IndexView { dnp_rows: add_row_to(st.dnp_rows, e.name, row), ..st }
    } else {
        let st1 = note_refs(st, row, e.refs);
        let name_rows = if keeps_row(st1, e) {
            add_row_to(st1.name_rows, e.name, row)
        } else {
            st1.name_rows
        };
        IndexView { name_rows, names: add_refs_to(st1.names, e.name, e.refs), ..st1 }
    }
}

/// The index of the entries `boms`, made entry by entry.
pub open spec fn index_of(boms: Seq<BomEntry>) -> IndexView
    decreases boms.len(),
{
    if boms.len() == 0 {
        IndexView::empty()
    } else {
        index_row(index_of(boms.drop_last()), (boms.len() - 1) as usize, boms.last())
    }
}

/// What recording references changes: only the reference map and the
/// notes; old references keep their entry, new ones get `row`, and every
/// recorded reference is indexed.
pub proof fn lemma_note_refs(st: IndexView, row: usize, refs: Seq<Seq<char>>)
    requires
        st.wf(),
    ensures
        note_refs(st, row, refs).wf(),
        note_refs(st, row, refs).names == st.names,
        note_refs(st, row, refs).name_rows == st.name_rows,
        note_refs(st, row, refs).dnp_rows == st.dnp_rows,
        forall|k: Seq<char>|
            st.refs.has(k) ==> #[trigger] note_refs(st, row, refs).refs.get(k) == st.refs.get(k),
        forall|k: Seq<char>|
            #[trigger] note_refs(st, row, refs).refs.has(k) ==> st.refs.has(k) || (refs.contains(k)
                && note_refs(st, row, refs).refs.get(k) == Some(row)),
        forall|j: int| 0 <= j < refs.len() ==> note_refs(st, row, refs).refs.has(#[trigger] refs[j]),
    decreases refs.len(),
{
    if refs.len() > 0 {
        let prev = refs.drop_last();
        lemma_note_refs(st, row, prev);
        let mid = note_refs(st, row, prev);
        let r = refs.last();
        let res = note_ref(mid, row, (refs.len() - 1) as usize, r);
        if !mid.refs.has(r) {
            lemma_add(mid.refs, r, row);
            assert forall|k: Seq<char>| #[trigger] res.refs.has(k) implies st.refs.has(k) || (
            refs.contains(k) && res.refs.get(k) == Some(row)) by {
                if k == r {
                    assert(refs[refs.len() - 1] == r);
                } else {
                    assert(res.refs.get(k) == mid.refs.get(k));
                    if !st.refs.has(k) {
                        assert(mid.refs.has(k));
                        let j = choose|j: int| 0 <= j < prev.len() && prev[j] == k;
                        assert(refs[j] == k);
                    }
                }
            }
            assert forall|k: Seq<char>| st.refs.has(k) implies #[trigger] res.refs.get(k)
                == st.refs.get(k) by {
                assert(mid.refs.get(k) == st.refs.get(k));
                if k == r {
                    assert(mid.refs.has(k));
                }
            }
        } else {
            assert forall|k: Seq<char>| #[trigger] res.refs.has(k) implies st.refs.has(k) || (
            refs.contains(k) && res.refs.get(k) == Some(row)) by {
                if !st.refs.has(k) {
                    let j = choose|j: int| 0 <= j < prev.len() && prev[j] == k;
                    assert(refs[j] == k);
                }
            }
        }
        assert forall|j: int| 0 <= j < refs.len() implies res.refs.has(#[trigger] refs[j]) by {
            if j < refs.len() - 1 {
                assert(prev[j] == refs[j]);
                if !mid.refs.has(r) {
                    lemma_add(mid.refs, r, row);
                    if refs[j] != r {
                        assert(res.refs.get(refs[j]) == mid.refs.get(refs[j]));
                    }
                }
            }
        }
    }
}

/// An item is in the grown list exactly when it was in the list or is one
/// of the items; the grown list has no item twice when the list had none.
pub proof fn lemma_add_new(set: Seq<Seq<char>>, items: Seq<Seq<char>>)
    ensures
        forall|x: Seq<char>| #[trigger] add_new(set, items).contains(x) <==> set.contains(x)
            || items.contains(x),
        set.no_duplicates() ==> add_new(set, items).no_duplicates(),
    decreases items.len(),
{
    if items.len() > 0 {
        let prev = items.drop_last();
        lemma_add_new(set, prev);
        let s0 = add_new(set, prev);
        let last = items.last();
        assert forall|x: Seq<char>| #[trigger] add_new(set, items).contains(x) <==> set.contains(x)
            || items.contains(x) by {
            if items.contains(x) && !set.contains(x) {
                let j = choose|j: int| 0 <= j < items.len() && items[j] == x;
                if j < items.len() - 1 {
                    assert(prev[j] == x);
                    assert(s0.contains(x));
                }
            }
            if prev.contains(x) {
                let j = choose|j: int| 0 <= j < prev.len() && prev[j] == x;
                assert(items[j] == x);
            }
            if !s0.contains(last) {
                assert(s0.push(last)[s0.len() as int] == last);
                if s0.contains(x) {
                    let j = choose|j: int| 0 <= j < s0.len() && s0[j] == x;
                    assert(s0.push(last)[j] == x);
                }
                if s0.push(last).contains(x) && x != last {
                    let j = choose|j: int| 0 <= j < s0.len() + 1 && s0.push(last)[j] == x;
                    assert(s0[j] == x);
                }
            }
            assert(items[items.len() - 1] == last);
        }
        if set.no_duplicates() && !s0.contains(last) {
            assert forall|i: int, j: int|
                0 <= i < s0.len() + 1 && 0 <= j < s0.len() + 1 && i != j implies s0.push(last)[i]
                != s0.push(last)[j] by {
                if i == s0.len() {
                    assert(s0[j] != last);
                } else if j == s0.len() {
                    assert(s0[i] != last);
                }
            }
        }
    }
}

/// The positions `rows` are entries of `boms`, all named `n`, all fitted
/// (`dnp` false) or all not fitted (`dnp` true), and there is at least one.
pub open spec fn rows_named(rows: Seq<usize>, boms: Seq<BomEntry>, n: Seq<char>, dnp: bool) -> bool {
    &&& rows.len() > 0
    &&& forall|p: int|
        0 <= p < rows.len() ==> #[trigger] rows[p] < boms.len() && boms[rows[p] as int].name == n
            && is_dnp(boms[rows[p] as int]) == dnp
}

/// What holds of the index of `boms` (see `lemma_index_sound`).
pub open spec fn index_sound(ix: IndexView, boms: Seq<BomEntry>) -> bool {
    &&& ix.wf()
    &&& forall|k: Seq<char>| #[trigger]
        ix.refs.has(k) ==> {
            let v = ix.refs.get(k).unwrap();
            &&& v < boms.len()
            &&& !is_dnp(boms[v as int])
            &&& boms[v as int].refs.contains(k)
            &&& ix.name_rows.has(boms[v as int].name)
        }
    &&& forall|n: Seq<char>, r: Seq<char>|
        ix.names.has(n) && #[trigger] ix.names.get(n).unwrap().contains(r) ==> ix.refs.has(r)
    &&& forall|n: Seq<char>| #[trigger]
        ix.names.has(n) ==> ix.names.get(n).unwrap().no_duplicates()
    &&& forall|n: Seq<char>| #[trigger]
        ix.name_rows.has(n) ==> rows_named(ix.name_rows.get(n).unwrap(), boms, n, false)
    &&& forall|n: Seq<char>| #[trigger]
        ix.dnp_rows.has(n) ==> rows_named(ix.dnp_rows.get(n).unwrap(), boms, n, true)
    &&& forall|i: int, j: int|
        0 <= i < boms.len() && !is_dnp(boms[i]) && 0 <= j < boms[i].refs.len() ==> ix.refs.has(
            #[trigger] boms[i].refs[j],
        )
}

pub proof fn lemma_add_row_to(m: StrMapView<Seq<usize>>, k: Seq<char>, row: usize)
    requires
        m.wf(),
    ensures
        add_row_to(m, k, row).wf(),
        add_row_to(m, k, row).has(k),
        add_row_to(m, k, row).get(k).unwrap() == (if m.has(k) {
            m.get(k).unwrap().push(row)
        } else {
            seq![row]
        }),
        forall|k2: Seq<char>| k2 != k ==> #[trigger] add_row_to(m, k, row).get(k2) == m.get(k2),
        forall|k2: Seq<char>| #[trigger] add_row_to(m, k, row).has(k2) <==> m.has(k2) || k2 == k,
{
    if m.has(k) {
        lemma_pos(m, m.pos(k));
        lemma_set(m, m.pos(k), m.vals[m.pos(k)].push(row));
    } else {
        lemma_add(m, k, seq![row]);
    }
    let m2 = add_row_to(m, k, row);
    assert forall|k2: Seq<char>| #[trigger] m2.has(k2) <==> m.has(k2) || k2 == k by {
        if k2 != k {
            assert(m2.get(k2) == m.get(k2));
        }
    }
}

pub proof fn lemma_add_refs_to(m: StrMapView<Seq<Seq<char>>>, k: Seq<char>, refs: Seq<Seq<char>>)
    requires
        m.wf(),
    ensures
        add_refs_to(m, k, refs).wf(),
        add_refs_to(m, k, refs).has(k),
        add_refs_to(m, k, refs).get(k).unwrap() == (if m.has(k) {
            add_new(m.get(k).unwrap(), refs)
        } else {
            add_new(Seq::empty(), refs)
        }),
        forall|k2: Seq<char>| k2 != k ==> #[trigger] add_refs_to(m, k, refs).get(k2) == m.get(k2),
        forall|k2: Seq<char>| #[trigger] add_refs_to(m, k, refs).has(k2) <==> m.has(k2) || k2 == k,
{
    if m.has(k) {
        lemma_pos(m, m.pos(k));
        lemma_set(m, m.pos(k), add_new(m.vals[m.pos(k)], refs));
    } else {
        lemma_add(m, k, add_new(Seq::empty(), refs));
    }
    let m2 = add_refs_to(m, k, refs);
    assert forall|k2: Seq<char>| #[trigger] m2.has(k2) <==> m.has(k2) || k2 == k by {
        if k2 != k {
            assert(m2.get(k2) == m.get(k2));
        }
    }
}

proof fn lemma_index_row_sound(st: IndexView, prev: Seq<BomEntry>, e: BomEntry)
    requires
        index_sound(st, prev),
        prev.len() <= usize::MAX,
    ensures
        index_sound(index_row(st, prev.len() as usize, e), prev.push(e)),
{
    let row = prev.len() as usize;
    let boms = prev.push(e);
    let res = index_row(st, row, e);
    assert forall|i: int| 0 <= i < prev.len() implies #[trigger] boms[i] == prev[i] by {}
    assert(boms[row as int] == e);
    if is_dnp(e) {
        lemma_add_row_to(st.dnp_rows, e.name, row);
        assert forall|n: Seq<char>| #[trigger] res.dnp_rows.has(n) implies rows_named(
            res.dnp_rows.get(n).unwrap(),
            boms,
            n,
            true,
        ) by {
            let l = res.dnp_rows.get(n).unwrap();
            if n == e.name {
                if st.dnp_rows.has(n) {
                    assert(rows_named(st.dnp_rows.get(n).unwrap(), prev, n, true));
                    assert forall|p: int| 0 <= p < l.len() implies #[trigger] l[p] < boms.len()
                        && boms[l[p] as int].name == n && is_dnp(boms[l[p] as int]) == true by {
                        if p < l.len() - 1 {
                            assert(l[p] == st.dnp_rows.get(n).unwrap()[p]);
                        }
                    }
                } else {
                    assert(l[0] == row);
                }
            } else {
                assert(rows_named(st.dnp_rows.get(n).unwrap(), prev, n, true));
            }
        }
        assert forall|n: Seq<char>| #[trigger] res.name_rows.has(n) implies rows_named(
            res.name_rows.get(n).unwrap(),
            boms,
            n,
            false,
        ) by {
            assert(rows_named(st.name_rows.get(n).unwrap(), prev, n, false));
        }
        assert forall|k: Seq<char>| #[trigger] res.refs.has(k) implies {
            let v = res.refs.get(k).unwrap();
            &&& v < boms.len()
            &&& !is_dnp(boms[v as int])
            &&& boms[v as int].refs.contains(k)
            &&& res.name_rows.has(boms[v as int].name)
        } by {
            let v = st.refs.get(k).unwrap();
            assert(v < prev.len());
            assert(boms[v as int] == prev[v as int]);
        }
        assert forall|i: int, j: int|
            0 <= i < boms.len() && !is_dnp(boms[i]) && 0 <= j < boms[i].refs.len() implies res.refs.has(
            #[trigger] boms[i].refs[j],
        ) by {
            assert(i < prev.len());
            assert(boms[i] == prev[i]);
        }
    } else {
        let st1 = note_refs(st, row, e.refs);
        lemma_note_refs(st, row, e.refs);
        let keep = keeps_row(st1, e);
        lemma_add_row_to(st1.name_rows, e.name, row);
        lemma_add_refs_to(st1.names, e.name, e.refs);
        let base = if st1.names.has(e.name) {
            st1.names.get(e.name).unwrap()
        } else {
            Seq::empty()
        };
        lemma_add_new(base, e.refs);
        if st1.names.has(e.name) {
            lemma_pos(st1.names, st1.names.pos(e.name));
        }
        if keep {
        } else {
            assert(st1.name_rows.has(e.name));
        }
        assert(res.name_rows.has(e.name));
        assert forall|n: Seq<char>| #[trigger] res.name_rows.has(n) implies rows_named(
            res.name_rows.get(n).unwrap(),
            boms,
            n,
            false,
        ) by {
            let l = res.name_rows.get(n).unwrap();
            if n == e.name && keep {
                if st1.name_rows.has(n) {
                    assert(rows_named(st.name_rows.get(n).unwrap(), prev, n, false));
                    assert forall|p: int| 0 <= p < l.len() implies #[trigger] l[p] < boms.len()
                        && boms[l[p] as int].name == n && is_dnp(boms[l[p] as int]) == false by {
                        if p < l.len() - 1 {
                            assert(l[p] == st.name_rows.get(n).unwrap()[p]);
                        }
                    }
                } else {
                    assert(l[0] == row);
                }
            } else {
                assert(res.name_rows.get(n) == st.name_rows.get(n));
                assert(rows_named(st.name_rows.get(n).unwrap(), prev, n, false));
            }
        }
        assert forall|n: Seq<char>| #[trigger] res.dnp_rows.has(n) implies rows_named(
            res.dnp_rows.get(n).unwrap(),
            boms,
            n,
            true,
        ) by {
            assert(rows_named(st.dnp_rows.get(n).unwrap(), prev, n, true));
        }
        assert forall|k: Seq<char>| #[trigger] res.refs.has(k) implies {
            let v = res.refs.get(k).unwrap();
            &&& v < boms.len()
            &&& !is_dnp(boms[v as int])
            &&& boms[v as int].refs.contains(k)
            &&& res.name_rows.has(boms[v as int].name)
        } by {
            if st.refs.has(k) {
                let v = st.refs.get(k).unwrap();
                assert(boms[v as int] == prev[v as int]);
                if prev[v as int].name != e.name {
                    assert(res.name_rows.get(prev[v as int].name) == st.name_rows.get(
                        prev[v as int].name,
                    ));
                }
            }
        }
        assert forall|n: Seq<char>, r: Seq<char>|
            res.names.has(n) && #[trigger] res.names.get(n).unwrap().contains(r) implies res.refs.has(
            r,
        ) by {
            if n == e.name {
                if e.refs.contains(r) {
                    let j = choose|j: int| 0 <= j < e.refs.len() && e.refs[j] == r;
                    assert(res.refs.has(e.refs[j]));
                } else {
                    assert(base.contains(r));
                    assert(st.refs.has(r));
                    assert(st1.refs.get(r) == st.refs.get(r));
                }
            } else {
                assert(res.names.get(n) == st.names.get(n));
                assert(st.refs.has(r));
                assert(st1.refs.get(r) == st.refs.get(r));
            }
        }
        assert forall|n: Seq<char>| #[trigger] res.names.has(n) implies res.names.get(
            n,
        ).unwrap().no_duplicates() by {
            if n != e.name {
                assert(res.names.get(n) == st.names.get(n));
            }
        }
        assert forall|i: int, j: int|
            0 <= i < boms.len() && !is_dnp(boms[i]) && 0 <= j < boms[i].refs.len() implies res.refs.has(
            #[trigger] boms[i].refs[j],
        ) by {
            if i < prev.len() {
                assert(boms[i] == prev[i]);
                assert(st.refs.has(prev[i].refs[j]));
                assert(st1.refs.get(prev[i].refs[j]) == st.refs.get(prev[i].refs[j]));
            } else {
                assert(boms[i] == e);
            }
        }
    }
}

/// Indexing an entry keeps the index well formed.
pub proof fn lemma_index_row_wf(st: IndexView, row: usize, e: BomEntry)
    requires
        st.wf(),
    ensures
        index_row(st, row, e).wf(),
{
    if is_dnp(e) {
        lemma_add_row_to(st.dnp_rows, e.name, row);
    } else {
        let st1 = note_refs(st, row, e.refs);
        lemma_note_refs(st, row, e.refs);
        lemma_add_row_to(st1.name_rows, e.name, row);
        lemma_add_refs_to(st1.names, e.name, e.refs);
    }
}

/// The index of `boms` is sound: each reference is indexed to a fitted
/// entry that holds it, and that entry's name is indexed; every reference of
/// a name is indexed; the entries listed for a name bear it, fitted or not
/// fitted as the list says; and every reference of a fitted entry is indexed.
pub proof fn lemma_index_sound(boms: Seq<BomEntry>)
    requires
        boms.len() <= usize::MAX,
    ensures
        index_sound(index_of(boms), boms),
    decreases boms.len(),
{
    if boms.len() > 0 {
        let prev = boms.drop_last();
        lemma_index_sound(prev);
        lemma_index_row_sound(index_of(prev), prev, boms.last());
        assert(prev.push(boms.last()) =~= boms);
    }
}

/// The index of one BOM: its references, its names with their references
/// and their entries, and its entries that are not fitted, by name.
pub struct BomIndex {
    /// Each reference, with the position of the first fitted entry that holds it.
    pub refs: StrMap<usize>,
    /// Each name of a fitted entry, with the references of its entries.
    pub names: StrMap<Vec<String>>,
    /// Each name of a fitted entry, with the positions of the entries kept for it.
    pub name_rows: StrMap<Vec<usize>>,
    /// Each name of an entry that is not fitted, with those entries' positions.
    pub dnp_rows: StrMap<Vec<usize>>,
    /// The notes on empty and repeated references, in order.
    pub notes: Vec<RefNote>,
    /// The number of repeated references.
    pub dups: usize,
}

impl View for BomIndex {
    type V = IndexView;

    open spec fn view(&self) -> IndexView {
        IndexView {
            refs: self.refs@,
            names: self.names@,
            name_rows: self.name_rows@,
            dnp_rows: self.dnp_rows@,
            notes: self.notes@,
            dups: self.dups as nat,
        }
    }
}

/// Whether the list of strings `v` holds `s`.
pub fn contains_string(v: &Vec<String>, s: &String) -> (r: bool)
    ensures
        r == v.deep_view().contains(s@),
{
    let mut i: usize = 0;
    while i < v.len()
        invariant
            i <= v@.len(),
            forall|j: int| 0 <= j < i ==> v.deep_view()[j] != s@,
        decreases v@.len() - i,
    {
        if v[i] == *s {
            assert(v.deep_view()[i as int] == s@);
            return true;
        }
        i += 1;
    }
    false
}

impl BomIndex {
    /// The index of no entries.
    pub fn new() -> (ix: BomIndex)
        ensures
            ix@ == IndexView::empty(),
            ix@.wf(),
    {
        let ix = BomIndex {
            refs: StrMap::new(),
            names: StrMap::new(),
            name_rows: StrMap::new(),
            dnp_rows: StrMap::new(),
            notes: Vec::new(),
            dups: 0,
        };
        assert(ix@ =~= IndexView::empty());
        ix
    }

    fn note_ref(&mut self, row: usize, pos: usize, r: &String)
        requires
            old(self)@.wf(),
        ensures
            final(self)@ == note_ref(old(self)@, row, pos, r@),
            final(self)@.wf(),
    {
        if r.as_str().is_empty() {
            self.notes.push(RefNote::Empty(row, pos));
        }
        match self.refs.find(r) {
            Some(_) => {
                self.notes.push(RefNote::Duplicate(row, pos));
                assert(self.notes@.len() == self.notes.len());
                self.dups = self.dups + 1;
            },
            None => {
                self.refs.push(r.clone(), row);
            },
        }
        assert(self@ =~= note_ref(old(self)@, row, pos, r@));
    }

    fn add_row_to(m: &mut StrMap<Vec<usize>>, k: &String, row: usize)
        requires
            old(m)@.wf(),
        ensures
            final(m)@ == add_row_to(old(m)@, k@, row),
            final(m)@.wf(),
    {
        match m.find(k) {
            Some(i) => {
                m.push_to(i, row);
            },
            None => {
                let v = vec![row];
                assert(v.deep_view() =~= seq![row]);
                m.push(k.clone(), v);
            },
        }
    }

    fn add_refs_to(m: &mut StrMap<Vec<String>>, k: &String, refs: &Vec<String>)
        requires
            old(m)@.wf(),
        ensures
            final(m)@ == add_refs_to(old(m)@, k@, refs.deep_view()),
            final(m)@.wf(),
    {
        let i = match m.find(k) {
            Some(i) => i,
            None => {
                let v: Vec<String> = Vec::new();
                assert(v.deep_view() =~= Seq::<Seq<char>>::empty());
                m.push(k.clone(), v);
                proof { lemma_pos(m@, (m@.keys.len() - 1) as int); }
                m.len() - 1
            },
        };
        let ghost start = m@.vals[i as int];
        let ghost base = m@;
        let mut j: usize = 0;
        while j < refs.len()
            invariant
                j <= refs@.len(),
                base.wf(),
                i < base.keys.len(),
                base.keys[i as int] == k@,
                m@ == base.set(i as int, add_new(start, refs.deep_view().take(j as int))),
                m@.wf(),
            decreases refs@.len() - j,
        {
            assert(refs.deep_view().take(j + 1).drop_last() =~= refs.deep_view().take(j as int));
            assert(refs.deep_view().take(j + 1).last() == refs@[j as int]@);
            proof { lemma_pos(m@, i as int); }
            if !contains_string(m.value_at(i), &refs[j]) {
                m.push_to(i, refs[j].clone());
            }
            assert(m@ =~= base.set(i as int, add_new(start, refs.deep_view().take(j + 1))));
            j += 1;
        }
        assert(refs.deep_view().take(refs@.len() as int) =~= refs.deep_view());
        assert(m@ =~= add_refs_to(old(m)@, k@, refs.deep_view()));
    }

    /// Indexes the entry `e` at position `row`.
    pub fn index_entry(&mut self, row: usize, e: &BomVec)
        requires
            old(self)@.wf(),
        ensures
            final(self)@ == index_row(old(self)@, row, e@),
            final(self)@.wf(),
    {
        let dnp: [u8; 3] = [68u8, 78u8, 80u8];
        if bytes_contain(e.b_value.as_str().as_bytes(), dnp.as_slice()) {
            Self::add_row_to(&mut self.dnp_rows, &e.b_name, row);
            assert(self@ =~= index_row(old(self)@, row, e@));
            return;
        }
        let ghost refs = e@.refs;
        let mut j: usize = 0;
        while j < e.b_ref.len()
            invariant
                j <= e.b_ref@.len(),
                refs == e.b_ref.deep_view(),
                self@ == note_refs(old(self)@, row, refs.take(j as int)),
                self@.wf(),
            decreases e.b_ref@.len() - j,
        {
            assert(refs.take(j + 1).drop_last() =~= refs.take(j as int));
            assert(refs.take(j + 1).last() == e.b_ref@[j as int]@);
            self.note_ref(row, j, &e.b_ref[j]);
            j += 1;
        }
        assert(refs.take(e.b_ref@.len() as int) =~= refs);
        let ghost st1 = self@;
        let empty = String::new();
        let first: &String = if e.b_ref.len() > 0 {
            &e.b_ref[0]
        } else {
            &empty
        };
        assert(first@ == first_ref(e@));
        let keep = match self.name_rows.find(&e.b_name) {
            None => true,
            Some(_) => match self.names.find(&e.b_name) {
                None => true,
                Some(k) => !contains_string(self.names.value_at(k), first),
            },
        };
        assert(keep == keeps_row(st1, e@));
        if keep {
            Self::add_row_to(&mut self.name_rows, &e.b_name, row);
        }
        Self::add_refs_to(&mut self.names, &e.b_name, &e.b_ref);
        assert(self@ =~= index_row(old(self)@, row, e@));
    }
}

/// The lists `lists` one after the other.
pub open spec fn concat_lists(lists: Seq<Seq<usize>>) -> Seq<usize>
    decreases lists.len(),
{
    if lists.len() == 0 {
        Seq::empty()
    } else {
        concat_lists(lists.drop_last()) + lists.last()
    }
}

impl BomIndex {
    /// The entries that are not fitted, name by name in the order of the
    /// names, each name's entries in their order: the listing that ends the
    /// final table.
    pub fn dnp_entries(&self) -> (v: Vec<usize>)
        requires
            self@.wf(),
        ensures
            v@ == concat_lists(self@.dnp_rows.vals),
    {
        let mut v: Vec<usize> = Vec::new();
        let n = self.dnp_rows.len();
        let mut k: usize = 0;
        while k < n
            invariant
                k <= n,
                n == self@.dnp_rows.keys.len(),
                self@.wf(),
                v@ == concat_lists(self@.dnp_rows.vals.take(k as int)),
            decreases n - k,
        {
            let rows = self.dnp_rows.value_at(k);
            let ghost before = v@;
            let mut p: usize = 0;
            while p < rows.len()
                invariant
                    p <= rows@.len(),
                    v@ == before + rows@.take(p as int),
                decreases rows@.len() - p,
            {
                v.push(rows[p]);
                assert(rows@.take(p + 1) =~= rows@.take(p as int).push(rows@[p as int]));
                assert(before + rows@.take(p + 1) =~= (before + rows@.take(p as int)).push(rows@[p as int]));
                p += 1;
            }
            assert(rows@.take(rows@.len() as int) =~= rows@);
            assert(rows@ == rows.deep_view());
            let ghost vals = self@.dnp_rows.vals;
            assert(vals.take(k + 1).drop_last() =~= vals.take(k as int));
            assert(vals.take(k + 1).last() == vals[k as int]);
            k += 1;
        }
        assert(self@.dnp_rows.vals.take(n as int) =~= self@.dnp_rows.vals);
        v
    }
}

/// Indexes the entries of one BOM, in order.
pub fn index_bom(bom: &Vec<BomVec>) -> (ix: BomIndex)
    ensures
        ix@ == index_of(bom.deep_view()),
        ix@.wf(),
{
    let mut ix = BomIndex::new();
    let mut i: usize = 0;
    while i < bom.len()
        invariant
            i <= bom@.len(),
            ix@ == index_of(bom.deep_view().take(i as int)),
            ix@.wf(),
        decreases bom@.len() - i,
    {
        assert(bom.deep_view().take(i + 1).drop_last() =~= bom.deep_view().take(i as int));
        assert(bom.deep_view().take(i + 1).last() == bom@[i as int]@);
        ix.index_entry(i, &bom[i]);
        i += 1;
    }
    assert(bom.deep_view().take(bom@.len() as int) =~= bom.deep_view());
    ix
}

} // verus!