//! Properties of the checks that hold for all inputs.

use vstd::prelude::*;
use crate::check::{
    HashView, OdooNote, QntyNote, TableView, clash_notes, clashes_at, cross_all, cross_notes, entry_qnty_notes, first_some, first_some_pos, lemma_first_some,
    lemma_first_some_stable, list_name_notes, name_check_notes, name_notes, name_of_ref, final_table_lines, hash_errors, lemma_no_missing, missing_keys,
    lemma_odoo_errors_add, list_odoo_notes, list_qnty_notes, names_within, odoo_check_notes, odoo_errors,
    odoo_list_notes, odoo_lists_notes, ref_odoos, row_odoos, partner, qnty_check_notes, qnty_notes_upto, qnty_sum, rows_qnty_notes, table_list, table_step, table_upto,
};
use crate::index::{
    IndexView, index_of, index_sound, is_dnp, lemma_add_new,
    lemma_add_refs_to, lemma_add_row_to, lemma_index_sound, lemma_note_refs, note_refs,
};
use crate::search::{hits, lemma_hits_prefix, lines_of, search_hits, strip_cr};
use crate::rows::{BomEntry, BomRow, RowResult, dot_zero, entries_of, is_header, qnty_value, ref_list, row_result, strip_each};
use crate::text::{
    decimal, digit_char, digits_value, has_infix, is_digit, is_whitespace, lemma_split_on_len,
    occurs_at, parse_usize, split_on, strip_whitespace, unsigned_part,
};
use vstd::utf8::{encode_utf8, is_ascii_chars, is_ascii_chars_encode_utf8};
use crate::strmap::StrMapView;
use crate::config::{ConfigError, CsvDelim, config_of};

verus! {

/// Some fitted entry of `boms` holds the reference `r`.
pub open spec fn listed(boms: Seq<BomEntry>, r: Seq<char>) -> bool {
    exists|i: int| 0 <= i < boms.len() && !is_dnp(boms[i]) && #[trigger] boms[i].refs.contains(r)
}

/// The number of references of the fitted entries of `boms`, counted with
/// repetitions.
pub open spec fn fitted_ref_count(boms: Seq<BomEntry>) -> nat
    decreases boms.len(),
{
    if boms.len() == 0 {
        0
    } else {
        fitted_ref_count(boms.drop_last()) + if is_dnp(boms.last()) {
            0nat
        } else {
            boms.last().refs.len()
        }
    }
}

/// The reference index of a BOM holds exactly the references of its fitted
/// entries, each with the first fitted entry that holds it.
pub proof fn law_reference_index(boms: Seq<BomEntry>, r: Seq<char>)
    requires
        boms.len() <= usize::MAX,
    ensures
        index_of(boms).refs.has(r) <==> listed(boms, r),
        index_of(boms).refs.has(r) ==> {
            let v = index_of(boms).refs.get(r).unwrap() as int;
            &&& 0 <= v < boms.len()
            &&& !is_dnp(boms[v])
            &&& boms[v].refs.contains(r)
            &&& forall|i: int| 0 <= i < v ==> is_dnp(boms[i]) || !#[trigger] boms[i].refs.contains(r)
        },
    decreases boms.len(),
{
    lemma_index_sound(boms);
    let ix = index_of(boms);
    if listed(boms, r) {
        let i = choose|i: int| 0 <= i < boms.len() && !is_dnp(boms[i]) && #[trigger] boms[i].refs.contains(r);
        let j = choose|j: int| 0 <= j < boms[i].refs.len() && boms[i].refs[j] == r;
        assert(ix.refs.has(boms[i].refs[j]));
    }
    if ix.refs.has(r) {
        let v = ix.refs.get(r).unwrap() as int;
        assert(listed(boms, r)) by {
            assert(boms[v].refs.contains(r));
        }
        if boms.len() > 0 {
            let prev = boms.drop_last();
            let st = index_of(prev);
            let e = boms.last();
            let n = prev.len() as usize;
            lemma_index_sound(prev);
            assert forall|i: int| 0 <= i < prev.len() implies #[trigger] boms[i] == prev[i] by {}
            if st.refs.has(r) {
                law_reference_index(prev, r);
                if !is_dnp(e) {
                    lemma_note_refs(st, n, e.refs);
                    assert(note_refs(st, n, e.refs).refs.get(r) == st.refs.get(r));
                }
                assert(ix.refs.get(r) == st.refs.get(r));
            } else {
                assert(!is_dnp(e));
                lemma_note_refs(st, n, e.refs);
                assert(note_refs(st, n, e.refs).refs.get(r) == Some(n));
                assert forall|i: int| 0 <= i < v implies is_dnp(boms[i]) || !#[trigger] boms[i].refs.contains(r) by {
                    if !is_dnp(boms[i]) && boms[i].refs.contains(r) {
                        law_reference_index(prev, r);
                        assert(prev[i].refs.contains(r));
                    }
                }
            }
        }
    }
}

proof fn lemma_note_refs_count(st: IndexView, row: usize, refs: Seq<Seq<char>>)
    requires
        st.wf(),
    ensures
        note_refs(st, row, refs).dups + note_refs(st, row, refs).refs.keys.len() == st.dups
            + st.refs.keys.len() + refs.len(),
    decreases refs.len(),
{
    if refs.len() > 0 {
        lemma_note_refs_count(st, row, refs.drop_last());
        lemma_note_refs(st, row, refs.drop_last());
    }
}

/// Each reference of a fitted entry is either new to the reference index or
/// counted as repeated: the repeated references and the indexed ones add up
/// to all references of the fitted entries.
pub proof fn law_repeated_references(boms: Seq<BomEntry>)
    ensures
        index_of(boms).dups + index_of(boms).refs.keys.len() == fitted_ref_count(boms),
    decreases boms.len(),
{
    if boms.len() > 0 {
        let prev = boms.drop_last();
        law_repeated_references(prev);
        let st = index_of(prev);
        lemma_index_wf(prev);
        if !is_dnp(boms.last()) {
            lemma_note_refs_count(st, (boms.len() - 1) as usize, boms.last().refs);
        }
    }
}

/// The index of any entries is well formed.
pub proof fn lemma_index_wf(boms: Seq<BomEntry>)
    ensures
        index_of(boms).wf(),
    decreases boms.len(),
{
    if boms.len() > 0 {
        let prev = boms.drop_last();
        lemma_index_wf(prev);
        let st = index_of(prev);
        crate::index::lemma_index_row_wf(st, (boms.len() - 1) as usize, boms.last());
    }
}

proof fn lemma_missing_empty(a: StrMapView<usize>, b: StrMapView<usize>, n: nat)
    requires
        n <= a.keys.len(),
        forall|i: int| 0 <= i < n ==> b.has(#[trigger] a.keys[i]),
    ensures
        missing_keys(a, b, n).len() == 0,
    decreases n,
{
    if n > 0 {
        lemma_missing_empty(a, b, (n - 1) as nat);
    }
}

/// The reference check finds no error exactly when neither BOM repeats a
/// reference among its fitted entries and both list the same references.
pub proof fn law_reference_check(bom1: Seq<BomEntry>, bom2: Seq<BomEntry>)
    requires
        bom1.len() <= usize::MAX,
        bom2.len() <= usize::MAX,
    ensures
        hash_errors(index_of(bom1), index_of(bom2)) == 0 <==> {
            &&& index_of(bom1).dups == 0
            &&& index_of(bom2).dups == 0
            &&& forall|r: Seq<char>| #[trigger] listed(bom1, r) <==> listed(bom2, r)
        },
{
    let h1 = index_of(bom1);
    let h2 = index_of(bom2);
    lemma_index_sound(bom1);
    lemma_index_sound(bom2);
    assert forall|r: Seq<char>| #[trigger] listed(bom1, r) == h1.refs.has(r) && listed(bom2, r)
        == h2.refs.has(r) by {
        law_reference_index(bom1, r);
        law_reference_index(bom2, r);
    }
    if hash_errors(h1, h2) == 0 {
        lemma_no_missing(h1.refs, h2.refs, h1.refs.keys.len());
        lemma_no_missing(h2.refs, h1.refs, h2.refs.keys.len());
        assert forall|r: Seq<char>| #[trigger] listed(bom1, r) <==> listed(bom2, r) by {
            if h1.refs.has(r) {
                let j = choose|j: int| 0 <= j < h1.refs.keys.len() && h1.refs.keys[j] == r;
                assert(h2.refs.has(h1.refs.keys[j]));
            }
            if h2.refs.has(r) {
                let j = choose|j: int| 0 <= j < h2.refs.keys.len() && h2.refs.keys[j] == r;
                assert(h1.refs.has(h2.refs.keys[j]));
            }
        }
    }
    if h1.dups == 0 && h2.dups == 0 && forall|r: Seq<char>| #[trigger] listed(bom1, r) <==> listed(
        bom2,
        r,
    ) {
        assert forall|i: int| 0 <= i < h1.refs.keys.len() implies h2.refs.has(#[trigger] h1.refs.keys[i]) by {
            assert(h1.refs.has(h1.refs.keys[i]));
            assert(listed(bom1, h1.refs.keys[i]));
        }
        assert forall|i: int| 0 <= i < h2.refs.keys.len() implies h1.refs.has(#[trigger] h2.refs.keys[i]) by {
            assert(h2.refs.has(h2.refs.keys[i]));
            assert(listed(bom2, h2.refs.keys[i]));
            assert(listed(bom1, h2.refs.keys[i]));
        }
        lemma_missing_empty(h1.refs, h2.refs, h1.refs.keys.len());
        lemma_missing_empty(h2.refs, h1.refs, h2.refs.keys.len());
    }
}

proof fn lemma_split_on_parts(s: Seq<char>, sep: char)
    ensures
        forall|k: int, j: int|
            0 <= k < split_on(s, sep).len() && 0 <= j < split_on(s, sep)[k].len() ==> #[trigger] split_on(
                s,
                sep,
            )[k][j] != sep,
    decreases s.len(),
{
    if s.len() > 0 {
        lemma_split_on_parts(s.drop_last(), sep);
        lemma_split_on_len(s.drop_last(), sep);
        let p = split_on(s.drop_last(), sep);
        assert forall|k: int, j: int|
            0 <= k < split_on(s, sep).len() && 0 <= j < split_on(s, sep)[k].len() implies #[trigger] split_on(
            s,
            sep,
        )[k][j] != sep by {
            if s.last() != sep && k == p.len() - 1 && j == p.last().len() {
            } else if k < p.len() {
                assert(p[k][j] != sep);
            }
        }
    }
}

proof fn lemma_strip_whitespace(s: Seq<char>)
    ensures
        forall|j: int| 0 <= j < strip_whitespace(s).len() ==> !is_whitespace(#[trigger] strip_whitespace(s)[j])
            && s.contains(strip_whitespace(s)[j]),
    decreases s.len(),
{
    if s.len() > 0 {
        lemma_strip_whitespace(s.drop_last());
        let r = strip_whitespace(s.drop_last());
        assert forall|j: int| 0 <= j < strip_whitespace(s).len() implies !is_whitespace(#[trigger] strip_whitespace(s)[j])
            && s.contains(strip_whitespace(s)[j]) by {
            if j < r.len() {
                assert(r[j] == strip_whitespace(s)[j]);
                let i = choose|i: int| 0 <= i < s.drop_last().len() && s.drop_last()[i] == r[j];
                assert(s[i] == r[j]);
            } else {
                assert(s[s.len() - 1] == s.last());
            }
        }
    }
}

/// A reference of an entry holds neither whitespace nor a comma.
pub proof fn law_references_are_clean(field: Seq<char>)
    ensures
        forall|k: int, j: int|
            0 <= k < ref_list(field).len() && 0 <= j < ref_list(field)[k].len() ==> {
                let c = #[trigger] ref_list(field)[k][j];
                !is_whitespace(c) && c != ','
            },
{
    let parts = split_on(field, ',');
    lemma_split_on_parts(field, ',');
    lemma_split_on_len(field, ',');
    assert forall|k: int, j: int|
        0 <= k < ref_list(field).len() && 0 <= j < ref_list(field)[k].len() implies {
        let c = #[trigger] ref_list(field)[k][j];
        !is_whitespace(c) && c != ','
    } by {
        let x = ref_list(field)[k];
        assert(x == strip_each(parts)[k]);
        assert(x == strip_whitespace(parts[k]));
        lemma_strip_whitespace(parts[k]);
        let i = choose|i: int| 0 <= i < parts[k].len() && parts[k][i] == x[j];
        assert(parts[k][i] != ',');
    }
}

/// A row whose reference field holds `Ref` is a header row. Any other row
/// becomes an entry exactly when its reference field is at least two bytes
/// long: the entry keeps the row's part code, value and name, holds the
/// references of the field and the quantity read from the quantity field.
/// A shorter field is skipped as holding no reference, with its quantity.
pub proof fn law_row_kept(r: BomRow)
    ensures
        row_result(r) is Header <==> is_header(r),
        row_result(r) is Entry <==> !is_header(r) && encode_utf8(r.refs).len() >= 2,
        row_result(r) is NoRefs <==> !is_header(r) && encode_utf8(r.refs).len() < 2,
        !is_header(r) && encode_utf8(r.refs).len() >= 2 ==> row_result(r) == RowResult::Entry(
            (BomEntry {
                odoo: r.odoo,
                refs: ref_list(r.refs),
                value: r.value,
                name: r.name,
                qnty: qnty_value(encode_utf8(r.qnty)),
            }),
        ),
        !is_header(r) && encode_utf8(r.refs).len() < 2 ==> row_result(r) == RowResult::NoRefs(
            qnty_value(encode_utf8(r.qnty)),
        ),
{
}

proof fn lemma_split_on_none(s: Seq<char>, sep: char)
    requires
        forall|i: int| 0 <= i < s.len() ==> s[i] != sep,
    ensures
        split_on(s, sep) == seq![s],
    decreases s.len(),
{
    if s.len() > 0 {
        lemma_split_on_none(s.drop_last(), sep);
        assert(s.drop_last().push(s.last()) =~= s);
        assert(split_on(s, sep) =~= seq![s]);
    } else {
        assert(s =~= Seq::<char>::empty());
    }
}

proof fn lemma_strip_none(s: Seq<char>)
    requires
        forall|i: int| 0 <= i < s.len() ==> !is_whitespace(s[i]),
    ensures
        strip_whitespace(s) == s,
    decreases s.len(),
{
    if s.len() > 0 {
        lemma_strip_none(s.drop_last());
        assert(s.drop_last().push(s.last()) =~= s);
    }
}

/// A reference field that holds one reference, with neither a comma nor
/// whitespace in it, gives that one reference (`R1` gives `[R1]`).
pub proof fn law_single_reference(field: Seq<char>)
    requires
        field.len() > 0,
        forall|i: int| 0 <= i < field.len() ==> field[i] != ',' && !is_whitespace(#[trigger] field[i]),
    ensures
        ref_list(field) == seq![field],
{
    lemma_split_on_none(field, ',');
    lemma_strip_none(field);
    assert(strip_each(seq![field]) =~= seq![field]);
    assert(field != Seq::<char>::empty()) by {
        assert(field.len() != 0);
    }
}

/// A quantity written with a trailing `.0` reads as the same number written
/// without it (`12.0` as `12`).
pub proof fn law_point_zero_quantity(d: Seq<u8>)
    requires
        d.len() > 0,
        forall|i: int| 0 <= i < d.len() ==> is_digit(#[trigger] d[i]),
    ensures
        qnty_value(d + dot_zero()) == parse_usize(d),
        qnty_value(d) == parse_usize(d),
{
    let q = d + dot_zero();
    assert(occurs_at(q, dot_zero(), d.len() as int)) by {
        assert(q.subrange(d.len() as int, d.len() as int + 2) =~= dot_zero());
    }
    assert(q.take(q.len() - 2) =~= d);
    if has_infix(d, dot_zero()) {
        let i = choose|i: int| occurs_at(d, dot_zero(), i);
        assert(d.subrange(i, i + 2)[0] == d[i]);
        assert(is_digit(d[i]));
    }
}

proof fn lemma_digit_char(d: nat)
    requires
        d < 10,
    ensures
        digit_char(d) as u8 == 48 + d,
        '\0' <= digit_char(d) <= '\u{7f}',
{
}

proof fn lemma_decimal_digits(n: nat)
    ensures
        decimal(n).len() > 0,
        forall|i: int| 0 <= i < decimal(n).len() ==> is_digit(#[trigger] decimal(n)[i] as u8),
        is_ascii_chars(decimal(n)),
    decreases n,
{
    if n >= 10 {
        lemma_decimal_digits(n / 10);
        lemma_digit_char(n % 10);
        let p = decimal(n / 10);
        assert forall|i: int| 0 <= i < decimal(n).len() implies is_digit(#[trigger] decimal(n)[i] as u8) by {
            if i < p.len() {
                assert(decimal(n)[i] == p[i]);
            }
        }
        assert forall|i: int| 0 <= i < decimal(n).len() implies '\0' <= #[trigger] decimal(n)[i] <= '\u{7f}' by {
            if i < p.len() {
                assert(decimal(n)[i] == p[i]);
            }
        }
    } else {
        lemma_digit_char(n);
    }
}

proof fn lemma_decimal_value(n: nat, b: Seq<u8>)
    requires
        b.len() == decimal(n).len(),
        forall|i: int| 0 <= i < b.len() ==> #[trigger] b[i] == decimal(n)[i] as u8,
    ensures
        digits_value(b) == n,
    decreases n,
{
    lemma_decimal_digits(n);
    if n < 10 {
        assert(b.drop_last() =~= Seq::<u8>::empty());
        lemma_digit_char(n);
        assert(b[0] == decimal(n)[0] as u8);
        assert(b.last() == 48 + n);
        assert(digits_value(b.drop_last()) == 0);
        assert(digits_value(b) == digits_value(b.drop_last()) * 10 + (b.last() - 48) as nat);
    } else {
        let m = n / 10;
        lemma_decimal_digits(m);
        lemma_digit_char(n % 10);
        assert(decimal(n) == decimal(m).push(digit_char(n % 10)));
        assert forall|i: int| 0 <= i < b.drop_last().len() implies #[trigger] b.drop_last()[i] == decimal(m)[i] as u8 by {
            assert(b[i] == decimal(n)[i] as u8);
        }
        lemma_decimal_value(m, b.drop_last());
        assert(b[b.len() - 1] == decimal(n)[b.len() - 1] as u8);
        assert(b.last() == 48 + n % 10);
        assert(digits_value(b) == digits_value(b.drop_last()) * 10 + (b.last() - 48) as nat);
    }
}

/// What a number cell shows of a number reads back as that number.
pub proof fn law_decimal_reads_back(n: usize)
    ensures
        parse_usize(encode_utf8(decimal(n as nat))) == Some(n),
{
    let c = decimal(n as nat);
    lemma_decimal_digits(n as nat);
    is_ascii_chars_encode_utf8(c);
    let b = encode_utf8(c);
    lemma_decimal_value(n as nat, b);
    assert(b[0] != 43);
    assert(unsigned_part(b) == b);
    assert forall|i: int| 0 <= i < b.len() implies is_digit(#[trigger] b[i]) by {
        assert(b[i] == c[i] as u8);
    }
    assert(b[0] == c[0] as u8);
}

/// What the final table keeps while it is drawn: each entry on a line has
/// all its references marked as shown, and no entry is on two lines.
pub open spec fn table_inv(st: TableView, bom1: Seq<BomEntry>, bom2: Seq<BomEntry>) -> bool {
    &&& forall|i: int| 0 <= i < st.lines.len() && st.lines[i].0 is Some ==> #[trigger] st.lines[i].0.unwrap() < bom1.len()
    &&& forall|i: int| 0 <= i < st.lines.len() && st.lines[i].1 is Some ==> #[trigger] st.lines[i].1.unwrap() < bom2.len()
    &&& forall|i: int, x: Seq<char>|
        0 <= i < st.lines.len() && st.lines[i].0 is Some && #[trigger] bom1[st.lines[i].0.unwrap() as int].refs.contains(x)
            ==> st.shown1.contains(x)
    &&& forall|i: int, x: Seq<char>|
        0 <= i < st.lines.len() && st.lines[i].1 is Some && #[trigger] bom2[st.lines[i].1.unwrap() as int].refs.contains(x)
            ==> st.shown2.contains(x)
    &&& forall|i: int, j: int|
        0 <= i < j < st.lines.len() && #[trigger] st.lines[i].0 is Some && #[trigger] st.lines[j].0 is Some
            ==> st.lines[i].0 != st.lines[j].0
    &&& forall|i: int, j: int|
        0 <= i < j < st.lines.len() && #[trigger] st.lines[i].1 is Some && #[trigger] st.lines[j].1 is Some
            ==> st.lines[i].1 != st.lines[j].1
}

proof fn lemma_table_step(st: TableView, h: HashView, bom1: Seq<BomEntry>, bom2: Seq<BomEntry>, r: Seq<char>)
    requires
        table_inv(st, bom1, bom2),
        index_sound(h.bom1, bom1),
        index_sound(h.bom2, bom2),
        h.bom1.refs.has(r),
        h.bom2.refs.has(r),
    ensures
        table_inv(table_step(st, h, bom1, bom2, r), bom1, bom2),
{
    let i1 = h.bom1.refs.get(r).unwrap();
    let i2 = h.bom2.refs.get(r).unwrap();
    let nx = table_step(st, h, bom1, bom2, r);
    assert(bom1[i1 as int].refs.contains(r));
    assert(bom2[i2 as int].refs.contains(r));
    if !st.shown1.contains(r) || !st.shown2.contains(r) {
        let n = st.lines.len() as int;
        assert forall|i: int| 0 <= i < n implies #[trigger] nx.lines[i] == st.lines[i] by {}
        assert forall|x: Seq<char>| st.shown1.contains(x) implies nx.shown1.contains(x) by {
            let j = choose|j: int| 0 <= j < st.shown1.len() && st.shown1[j] == x;
            assert(nx.shown1[j] == x);
        }
        assert forall|x: Seq<char>| st.shown2.contains(x) implies nx.shown2.contains(x) by {
            let j = choose|j: int| 0 <= j < st.shown2.len() && st.shown2[j] == x;
            assert(nx.shown2[j] == x);
        }
        if !st.shown1.contains(r) {
            assert forall|x: Seq<char>| bom1[i1 as int].refs.contains(x) implies nx.shown1.contains(x) by {
                let j = choose|j: int| 0 <= j < bom1[i1 as int].refs.len() && bom1[i1 as int].refs[j] == x;
                assert(nx.shown1[st.shown1.len() + j] == x);
            }
            assert forall|i: int| 0 <= i < n && st.lines[i].0 is Some implies st.lines[i].0 != Some(i1) by {
                if st.lines[i].0 == Some(i1) {
                    assert(st.shown1.contains(r));
                }
            }
        }
        if !st.shown2.contains(r) {
            assert forall|x: Seq<char>| bom2[i2 as int].refs.contains(x) implies nx.shown2.contains(x) by {
                let j = choose|j: int| 0 <= j < bom2[i2 as int].refs.len() && bom2[i2 as int].refs[j] == x;
                assert(nx.shown2[st.shown2.len() + j] == x);
            }
            assert forall|i: int| 0 <= i < n && st.lines[i].1 is Some implies st.lines[i].1 != Some(i2) by {
                if st.lines[i].1 == Some(i2) {
                    assert(st.shown2.contains(r));
                }
            }
        }
    }
}

proof fn lemma_table_list(
    st: TableView,
    h: HashView,
    bom1: Seq<BomEntry>,
    bom2: Seq<BomEntry>,
    s: Seq<Seq<char>>,
    l: nat,
)
    requires
        table_inv(st, bom1, bom2),
        index_sound(h.bom1, bom1),
        index_sound(h.bom2, bom2),
        l <= s.len(),
        forall|j: int| 0 <= j < s.len() ==> h.bom1.refs.has(#[trigger] s[j]) && h.bom2.refs.has(s[j]),
    ensures
        table_inv(table_list(st, h, bom1, bom2, s, l), bom1, bom2),
    decreases l,
{
    if l > 0 {
        lemma_table_list(st, h, bom1, bom2, s, (l - 1) as nat);
        lemma_table_step(table_list(st, h, bom1, bom2, s, (l - 1) as nat), h, bom1, bom2, s[l - 1]);
    }
}

proof fn lemma_table_upto(h: HashView, bom1: Seq<BomEntry>, bom2: Seq<BomEntry>, k: nat)
    requires
        index_sound(h.bom1, bom1),
        index_sound(h.bom2, bom2),
        names_within(h.bom1.names, h.bom1.refs, bom1),
        names_within(h.bom1.names, h.bom2.refs, bom2),
        k <= h.bom1.names.keys.len(),
    ensures
        table_inv(table_upto(h, bom1, bom2, k), bom1, bom2),
    decreases k,
{
    if k > 0 {
        lemma_table_upto(h, bom1, bom2, (k - 1) as nat);
        let s = h.bom1.names.vals[k - 1];
        assert forall|j: int| 0 <= j < s.len() implies h.bom1.refs.has(#[trigger] s[j]) && h.bom2.refs.has(s[j]) by {
            assert(h.bom1.refs.has(h.bom1.names.vals[k - 1][j]));
            assert(h.bom2.refs.has(h.bom1.names.vals[k - 1][j]));
        }
        lemma_table_list(table_upto(h, bom1, bom2, (k - 1) as nat), h, bom1, bom2, s, s.len());
    }
}

/// The final table shows each entry of either BOM on one line at most.
pub proof fn law_table_shows_no_entry_twice(h: HashView, bom1: Seq<BomEntry>, bom2: Seq<BomEntry>)
    requires
        index_sound(h.bom1, bom1),
        index_sound(h.bom2, bom2),
        names_within(h.bom1.names, h.bom1.refs, bom1),
        names_within(h.bom1.names, h.bom2.refs, bom2),
    ensures
        forall|i: int, j: int|
            0 <= i < j < final_table_lines(h, bom1, bom2).len() && #[trigger] final_table_lines(h, bom1, bom2)[i].0 is Some
                && #[trigger] final_table_lines(h, bom1, bom2)[j].0 is Some ==> final_table_lines(h, bom1, bom2)[i].0
                != final_table_lines(h, bom1, bom2)[j].0,
        forall|i: int, j: int|
            0 <= i < j < final_table_lines(h, bom1, bom2).len() && #[trigger] final_table_lines(h, bom1, bom2)[i].1 is Some
                && #[trigger] final_table_lines(h, bom1, bom2)[j].1 is Some ==> final_table_lines(h, bom1, bom2)[i].1
                != final_table_lines(h, bom1, bom2)[j].1,
{
    lemma_table_upto(h, bom1, bom2, h.bom1.names.keys.len());
}

/// Some fitted entry of `boms` is named `n`.
pub open spec fn has_fitted_named(boms: Seq<BomEntry>, n: Seq<char>) -> bool {
    exists|i: int| 0 <= i < boms.len() && !is_dnp(boms[i]) && #[trigger] boms[i].name == n
}

/// Some fitted entry of `boms` named `n` holds the reference `r`.
pub open spec fn named_holds(boms: Seq<BomEntry>, n: Seq<char>, r: Seq<char>) -> bool {
    exists|i: int|
        0 <= i < boms.len() && !is_dnp(boms[i]) && boms[i].name == n && #[trigger] boms[i].refs.contains(r)
}

/// The name index of a BOM holds the names of its fitted entries, each with
/// the references of its fitted entries (each once).
pub proof fn law_name_index(boms: Seq<BomEntry>, n: Seq<char>, r: Seq<char>)
    ensures
        index_of(boms).names.has(n) <==> has_fitted_named(boms, n),
        index_of(boms).names.has(n) ==> (index_of(boms).names.get(n).unwrap().contains(r)
            <==> named_holds(boms, n, r)),
    decreases boms.len(),
{
    if boms.len() > 0 {
        let prev = boms.drop_last();
        let e = boms.last();
        let st = index_of(prev);
        let row = (boms.len() - 1) as usize;
        law_name_index(prev, n, r);
        lemma_index_wf(prev);
        assert forall|i: int| 0 <= i < prev.len() implies #[trigger] boms[i] == prev[i] by {}
        assert(boms[boms.len() - 1] == e);
        if has_fitted_named(prev, n) {
            let i = choose|i: int| 0 <= i < prev.len() && !is_dnp(prev[i]) && #[trigger] prev[i].name == n;
            assert(boms[i].name == n);
        }
        if named_holds(prev, n, r) {
            let i = choose|i: int|
                0 <= i < prev.len() && !is_dnp(prev[i]) && prev[i].name == n && #[trigger] prev[i].refs.contains(r);
            assert(boms[i].refs.contains(r));
        }
        if has_fitted_named(boms, n) && !has_fitted_named(prev, n) {
            let i = choose|i: int| 0 <= i < boms.len() && !is_dnp(boms[i]) && #[trigger] boms[i].name == n;
            if i < prev.len() {
                assert(prev[i].name == n);
            }
        }
        if named_holds(boms, n, r) && !named_holds(prev, n, r) {
            let i = choose|i: int|
                0 <= i < boms.len() && !is_dnp(boms[i]) && boms[i].name == n && #[trigger] boms[i].refs.contains(r);
            if i < prev.len() {
                assert(prev[i].refs.contains(r));
            }
        }
        if !is_dnp(e) {
            lemma_note_refs(st, row, e.refs);
            let st1 = note_refs(st, row, e.refs);
            lemma_add_refs_to(st1.names, e.name, e.refs);
            if n == e.name {
                let base = if st.names.has(n) {
                    st.names.get(n).unwrap()
                } else {
                    Seq::empty()
                };
                lemma_add_new(base, e.refs);
            }
        }
    }
}

/// The entries that are not fitted are listed under their names, each at
/// its position, in order.
pub proof fn law_dnp_index(boms: Seq<BomEntry>, n: Seq<char>, p: usize)
    requires
        boms.len() <= usize::MAX,
    ensures
        index_of(boms).dnp_rows.has(n) ==> (index_of(boms).dnp_rows.get(n).unwrap().contains(p) <==> (
        p < boms.len() && is_dnp(boms[p as int]) && boms[p as int].name == n)),
        !index_of(boms).dnp_rows.has(n) ==> !(p < boms.len() && is_dnp(boms[p as int])
            && boms[p as int].name == n),
    decreases boms.len(),
{
    if boms.len() > 0 {
        let prev = boms.drop_last();
        let e = boms.last();
        let st = index_of(prev);
        let row = (boms.len() - 1) as usize;
        law_dnp_index(prev, n, p);
        lemma_index_wf(prev);
        if p < prev.len() {
            assert(boms[p as int] == prev[p as int]);
        }
        if is_dnp(e) {
            lemma_add_row_to(st.dnp_rows, e.name, row);
            if n == e.name && st.dnp_rows.has(n) {
                let l = st.dnp_rows.get(n).unwrap();
                assert(l.push(row).contains(p) <==> l.contains(p) || p == row) by {
                    if l.push(row).contains(p) && p != row {
                        let j = choose|j: int| 0 <= j < l.len() + 1 && l.push(row)[j] == p;
                        assert(l[j] == p);
                    }
                    if l.contains(p) {
                        let j = choose|j: int| 0 <= j < l.len() && l[j] == p;
                        assert(l.push(row)[j] == p);
                    }
                    assert(l.push(row)[l.len() as int] == row);
                }
            }
            if n == e.name && !st.dnp_rows.has(n) {
                assert(seq![row].contains(p) <==> p == row) by {
                    assert(seq![row][0] == row);
                }
            }
        } else {
            lemma_note_refs(st, row, e.refs);
        }
    }
}

/// Every fitted entry's name has an entry list, which starts with the first
/// fitted entry of that name and holds only fitted entries of that name.
pub proof fn law_name_rows(boms: Seq<BomEntry>, n: Seq<char>)
    requires
        boms.len() <= usize::MAX,
    ensures
        index_of(boms).name_rows.has(n) <==> has_fitted_named(boms, n),
        index_of(boms).name_rows.has(n) ==> {
            let l = index_of(boms).name_rows.get(n).unwrap();
            &&& l.len() > 0
            &&& forall|i: int| 0 <= i < l[0] ==> is_dnp(boms[i]) || #[trigger] boms[i].name != n
            &&& forall|p: int| 0 <= p < l.len() ==> #[trigger] l[p] < boms.len() && !is_dnp(boms[l[p] as int])
                && boms[l[p] as int].name == n
        },
    decreases boms.len(),
{
    lemma_index_sound(boms);
    let ix = index_of(boms);
    if ix.name_rows.has(n) {
        assert(crate::index::rows_named(ix.name_rows.get(n).unwrap(), boms, n, false));
    }
    if boms.len() > 0 {
        let prev = boms.drop_last();
        let e = boms.last();
        let st = index_of(prev);
        let row = (boms.len() - 1) as usize;
        law_name_rows(prev, n);
        lemma_index_wf(prev);
        assert forall|i: int| 0 <= i < prev.len() implies #[trigger] boms[i] == prev[i] by {}
        assert(boms[boms.len() - 1] == e);
        if has_fitted_named(prev, n) {
            let i = choose|i: int| 0 <= i < prev.len() && !is_dnp(prev[i]) && #[trigger] prev[i].name == n;
            assert(boms[i].name == n);
        }
        if has_fitted_named(boms, n) && !has_fitted_named(prev, n) {
            let i = choose|i: int| 0 <= i < boms.len() && !is_dnp(boms[i]) && #[trigger] boms[i].name == n;
            if i < prev.len() {
                assert(prev[i].name == n);
            }
        }
        if !is_dnp(e) {
            lemma_note_refs(st, row, e.refs);
            let st1 = note_refs(st, row, e.refs);
            lemma_add_row_to(st1.name_rows, e.name, row);
            if n == e.name && !st.name_rows.has(n) {
                assert forall|i: int| 0 <= i < row implies is_dnp(boms[i]) || #[trigger] boms[i].name != n by {
                    if !is_dnp(boms[i]) && boms[i].name == n {
                        assert(prev[i].name == n);
                    }
                }
            }
        }
    }
}

proof fn lemma_list_name_notes(
    first: bool,
    k: usize,
    s: Seq<Seq<char>>,
    boms: Seq<BomEntry>,
    refs: StrMapView<usize>,
    l: nat,
)
    requires
        l <= s.len(),
    ensures
        list_name_notes(first, k, s, boms, refs, l).len() == 0 <==> forall|j: int|
            0 <= j < l ==> #[trigger] name_of_ref(boms, refs, s[j]) == name_of_ref(boms, refs, s[0]),
    decreases l,
{
    if l > 0 {
        lemma_list_name_notes(first, k, s, boms, refs, (l - 1) as nat);
    }
}

/// The names of a BOM's name index agree with the other BOM when the
/// references listed under each of them are all given, in the other BOM,
/// the name given to the list's first reference: then, and only then, the
/// name check finds nothing on them.
pub proof fn law_name_check(
    first: bool,
    names: StrMapView<Seq<Seq<char>>>,
    boms: Seq<BomEntry>,
    refs: StrMapView<usize>,
    k: nat,
)
    requires
        k <= names.keys.len(),
    ensures
        name_notes(first, names, boms, refs, k).len() == 0 <==> forall|m: int, j: int|
            0 <= m < k && 0 <= j < names.vals[m].len() ==> #[trigger] name_of_ref(boms, refs, names.vals[m][j])
                == name_of_ref(boms, refs, names.vals[m][0]),
    decreases k,
{
    if k > 0 {
        law_name_check(first, names, boms, refs, (k - 1) as nat);
        let s = names.vals[k - 1];
        lemma_list_name_notes(first, (k - 1) as usize, s, boms, refs, s.len());
        if name_notes(first, names, boms, refs, k).len() == 0 {
            assert forall|m: int, j: int| 0 <= m < k && 0 <= j < names.vals[m].len() implies #[trigger] name_of_ref(
                boms,
                refs,
                names.vals[m][j],
            ) == name_of_ref(boms, refs, names.vals[m][0]) by {
                if m == k - 1 {
                    assert(name_of_ref(boms, refs, s[j]) == name_of_ref(boms, refs, s[0]));
                }
            }
        } else {
            if name_notes(first, names, boms, refs, (k - 1) as nat).len() == 0 {
                let j = choose|j: int| 0 <= j < s.len() && name_of_ref(boms, refs, #[trigger] s[j]) != name_of_ref(boms, refs, s[0]);
                assert(name_of_ref(boms, refs, names.vals[k - 1][j]) != name_of_ref(boms, refs, names.vals[k - 1][0]));
            }
        }
    }
}

/// The name check finds no error exactly when, in both directions, every
/// reference listed under a name of one BOM is given, in the other BOM, the
/// name given there to the list's first reference: BOM1's names are held to
/// BOM2 and BOM2's names to BOM1. So the check comes out alike with the two
/// BOMs swapped.
pub proof fn law_name_check_both(h: HashView, bom1: Seq<BomEntry>, bom2: Seq<BomEntry>)
    ensures
        name_check_notes(h, bom1, bom2).len() == 0 <==> {
            &&& forall|m: int, j: int|
                0 <= m < h.bom1.names.keys.len() && 0 <= j < h.bom1.names.vals[m].len() ==> #[trigger] name_of_ref(
                    bom2,
                    h.bom2.refs,
                    h.bom1.names.vals[m][j],
                ) == name_of_ref(bom2, h.bom2.refs, h.bom1.names.vals[m][0])
            &&& forall|m: int, j: int|
                0 <= m < h.bom2.names.keys.len() && 0 <= j < h.bom2.names.vals[m].len() ==> #[trigger] name_of_ref(
                    bom1,
                    h.bom1.refs,
                    h.bom2.names.vals[m][j],
                ) == name_of_ref(bom1, h.bom1.refs, h.bom2.names.vals[m][0])
        },
        name_check_notes(h, bom1, bom2).len() == 0 <==> name_check_notes(
            (HashView { bom1: h.bom2, bom2: h.bom1, notes: h.notes }),
            bom2,
            bom1,
        ).len() == 0,
        name_check_notes(h, bom1, bom2).len() == name_check_notes(
            (HashView { bom1: h.bom2, bom2: h.bom1, notes: h.notes }),
            bom2,
            bom1,
        ).len(),
{
    let n1 = h.bom1.names.keys.len();
    let n2 = h.bom2.names.keys.len();
    law_name_check(true, h.bom1.names, bom2, h.bom2.refs, n1);
    law_name_check(false, h.bom2.names, bom1, h.bom1.refs, n2);
    lemma_name_notes_len(true, false, h.bom1.names, bom2, h.bom2.refs, n1);
    lemma_name_notes_len(false, true, h.bom2.names, bom1, h.bom1.refs, n2);
}

/// The number of findings does not depend on which BOM the names are from.
proof fn lemma_name_notes_len(
    first: bool,
    other: bool,
    names: StrMapView<Seq<Seq<char>>>,
    boms: Seq<BomEntry>,
    refs: StrMapView<usize>,
    k: nat,
)
    ensures
        name_notes(first, names, boms, refs, k).len() == name_notes(other, names, boms, refs, k).len(),
    decreases k,
{
    if k > 0 {
        lemma_name_notes_len(first, other, names, boms, refs, (k - 1) as nat);
        let s = names.vals[k - 1];
        lemma_list_name_notes_len(first, other, (k - 1) as usize, s, boms, refs, s.len());
    }
}

proof fn lemma_list_name_notes_len(
    first: bool,
    other: bool,
    k: usize,
    s: Seq<Seq<char>>,
    boms: Seq<BomEntry>,
    refs: StrMapView<usize>,
    l: nat,
)
    ensures
        list_name_notes(first, k, s, boms, refs, l).len() == list_name_notes(other, k, s, boms, refs, l).len(),
    decreases l,
{
    if l > 0 {
        lemma_list_name_notes_len(first, other, k, s, boms, refs, (l - 1) as nat);
    }
}

proof fn lemma_clash_notes(first: bool, k: usize, o: Seq<Option<usize>>, p: nat)
    requires
        p <= o.len(),
    ensures
        clash_notes(first, k, o, p).len() == 0 <==> forall|i: int| 0 <= i < p ==> !#[trigger] clashes_at(o, i),
    decreases p,
{
    if p > 0 {
        lemma_clash_notes(first, k, o, (p - 1) as nat);
    }
}

/// Within an entry list, the part code check finds no clash exactly when
/// all the part codes that the entries have are the same.
pub proof fn law_one_part_code(first: bool, k: usize, o: Seq<Option<usize>>)
    ensures
        clash_notes(first, k, o, o.len()).len() == 0 <==> forall|i: int, j: int|
            0 <= i < o.len() && 0 <= j < o.len() && #[trigger] o[i] is Some && #[trigger] o[j] is Some ==> o[i] == o[j],
{
    lemma_clash_notes(first, k, o, o.len());
    if clash_notes(first, k, o, o.len()).len() == 0 {
        assert forall|i: int, j: int|
            0 <= i < o.len() && 0 <= j < o.len() && #[trigger] o[i] is Some && #[trigger] o[j] is Some implies o[i] == o[j] by {
            // both equal the first part code of the list
            lemma_first_some(o, o.len());
            assert(first_some(o, o.len()) is Some) by {
                assert(o[i] is Some);
            }
            let q = first_some_pos(o, o.len()) as int;
            assert forall|x: int| 0 <= x < o.len() && o[x] is Some implies o[x] == o[q] by {
                if x != q {
                    assert(!clashes_at(o, x));
                    lemma_first_some(o, x as nat);
                    if x < q {
                        lemma_first_some(o, q as nat);
                        // no part code before q
                        lemma_first_some_upto(o, q as nat, o.len());
                        assert(first_some(o, q as nat) is None);
                        assert(o[x] is None);
                    } else {
                        lemma_first_some_upto(o, q as nat, o.len());
                        assert(first_some(o, (q + 1) as nat) == o[q]);
                        lemma_first_some_stable(o, (q + 1) as nat, x as nat);
                    }
                }
            }
            assert(o[i] == o[q]);
            assert(o[j] == o[q]);
        }
    } else {
        let p = choose|i: int| 0 <= i < o.len() && #[trigger] clashes_at(o, i);
        lemma_first_some(o, p as nat);
        let q = first_some_pos(o, p as nat) as int;
        assert(o[q] is Some && o[p] is Some && o[q] != o[p]);
    }
}

/// The entry's quantity is given and equals the number of its references.
pub open spec fn qnty_counts_refs(e: BomEntry) -> bool {
    e.qnty is Some && e.qnty.unwrap() == e.refs.len()
}

/// `n` is a finding on an entry at a place below `p` of the list `k` (of BOM1
/// when `first`, else of BOM2).
pub open spec fn entry_note_below(n: QntyNote, first: bool, k: usize, p: nat) -> bool {
    match n {
        QntyNote::NoQnty { first: f, k: l, p: q } => f == first && l == k && q < p,
        QntyNote::QntyRefs { first: f, k: l, p: q } => f == first && l == k && q < p,
        QntyNote::Totals { .. } => false,
    }
}

proof fn lemma_rows_qnty_notes(first: bool, k: usize, boms: Seq<BomEntry>, rows: Seq<usize>, p: nat)
    requires
        p <= rows.len(),
        rows.len() <= usize::MAX,
    ensures
        forall|j: int|
            0 <= j < rows_qnty_notes(first, k, boms, rows, p).len() ==> entry_note_below(
                #[trigger] rows_qnty_notes(first, k, boms, rows, p)[j],
                first,
                k,
                p,
            ),
        forall|i: int|
            0 <= i < p ==> (rows_qnty_notes(first, k, boms, rows, p).contains(
                QntyNote::NoQnty { first, k, p: i as usize },
            ) <==> boms[#[trigger] rows[i] as int].qnty is None),
        forall|i: int|
            0 <= i < p ==> (rows_qnty_notes(first, k, boms, rows, p).contains(
                QntyNote::QntyRefs { first, k, p: i as usize },
            ) <==> boms[#[trigger] rows[i] as int].qnty is Some && !qnty_counts_refs(
                boms[rows[i] as int],
            )),
    decreases p,
{
    if p > 0 {
        lemma_rows_qnty_notes(first, k, boms, rows, (p - 1) as nat);
        let a = rows_qnty_notes(first, k, boms, rows, (p - 1) as nat);
        let e = boms[rows[p - 1] as int];
        let b = entry_qnty_notes(first, k, (p - 1) as usize, e);
        let all = rows_qnty_notes(first, k, boms, rows, p);
        assert(all == a + b);
        assert forall|j: int| 0 <= j < all.len() implies entry_note_below(#[trigger] all[j], first, k, p) by {
            if j < a.len() {
                assert(all[j] == a[j]);
                assert(entry_note_below(a[j], first, k, (p - 1) as nat));
            } else {
                assert(all[j] == b[j - a.len()]);
            }
        }
        assert forall|i: int| 0 <= i < p implies {
            &&& (all.contains(QntyNote::NoQnty { first, k, p: i as usize }) <==> boms[#[trigger] rows[i] as int].qnty is None)
            &&& (all.contains(QntyNote::QntyRefs { first, k, p: i as usize }) <==> boms[rows[i] as int].qnty is Some
                && !qnty_counts_refs(boms[rows[i] as int]))
        } by {
            let x = QntyNote::NoQnty { first, k, p: i as usize };
            let y = QntyNote::QntyRefs { first, k, p: i as usize };
            vstd::seq_lib::lemma_seq_concat_contains_all_elements(a, b, x);
            vstd::seq_lib::lemma_seq_concat_contains_all_elements(a, b, y);
            if i < p - 1 {
                if b.contains(x) {
                    let j = choose|j: int| 0 <= j < b.len() && b[j] == x;
                    assert(b[j] == x);
                }
                if b.contains(y) {
                    let j = choose|j: int| 0 <= j < b.len() && b[j] == y;
                    assert(b[j] == y);
                }
            } else {
                if a.contains(x) {
                    let j = choose|j: int| 0 <= j < a.len() && a[j] == x;
                    assert(entry_note_below(a[j], first, k, (p - 1) as nat));
                }
                if a.contains(y) {
                    let j = choose|j: int| 0 <= j < a.len() && a[j] == y;
                    assert(entry_note_below(a[j], first, k, (p - 1) as nat));
                }
                if e.qnty is None {
                    assert(b[0] == x);
                } else if !qnty_counts_refs(e) {
                    assert(b[0] == y);
                }
            }
        }
    }
}

/// The quantity check reports an entry of a list exactly when its quantity
/// is missing (`NoQnty`) or differs, one way or the other, from the number of
/// its references (`QntyRefs`), and reports nothing else on the list's
/// entries: a list yields no such finding exactly when every entry's quantity
/// equals its number of references.
pub proof fn law_entry_quantities(first: bool, k: usize, boms: Seq<BomEntry>, rows: Seq<usize>)
    requires
        rows.len() <= usize::MAX,
    ensures
        rows_qnty_notes(first, k, boms, rows, rows.len()).len() == 0 <==> forall|i: int|
            0 <= i < rows.len() ==> qnty_counts_refs(boms[#[trigger] rows[i] as int]),
        forall|j: int|
            0 <= j < rows_qnty_notes(first, k, boms, rows, rows.len()).len() ==> entry_note_below(
                #[trigger] rows_qnty_notes(first, k, boms, rows, rows.len())[j],
                first,
                k,
                rows.len(),
            ),
        forall|i: int|
            0 <= i < rows.len() ==> (rows_qnty_notes(first, k, boms, rows, rows.len()).contains(
                QntyNote::NoQnty { first, k, p: i as usize },
            ) <==> boms[#[trigger] rows[i] as int].qnty is None),
        forall|i: int|
            0 <= i < rows.len() ==> (rows_qnty_notes(first, k, boms, rows, rows.len()).contains(
                QntyNote::QntyRefs { first, k, p: i as usize },
            ) <==> boms[#[trigger] rows[i] as int].qnty is Some && boms[rows[i] as int].qnty.unwrap()
                != boms[rows[i] as int].refs.len()),
{
    let n = rows.len();
    lemma_rows_qnty_notes(first, k, boms, rows, n);
    let all = rows_qnty_notes(first, k, boms, rows, n);
    if all.len() == 0 {
        assert forall|i: int| 0 <= i < n implies qnty_counts_refs(boms[#[trigger] rows[i] as int]) by {
            if !qnty_counts_refs(boms[rows[i] as int]) {
                if boms[rows[i] as int].qnty is None {
                    assert(all.contains(QntyNote::NoQnty { first, k, p: i as usize }));
                } else {
                    assert(all.contains(QntyNote::QntyRefs { first, k, p: i as usize }));
                }
            }
        }
    } else {
        let x = all[0];
        assert(entry_note_below(x, first, k, n));
        assert(all.contains(x));
        match x {
            QntyNote::NoQnty { first: f, k: l, p: q } => {
                assert(x == QntyNote::NoQnty { first, k, p: (q as int) as usize });
                assert(!qnty_counts_refs(boms[rows[q as int] as int]));
            },
            QntyNote::QntyRefs { first: f, k: l, p: q } => {
                assert(x == QntyNote::QntyRefs { first, k, p: (q as int) as usize });
                assert(!qnty_counts_refs(boms[rows[q as int] as int]));
            },
            QntyNote::Totals { .. } => {},
        }
    }
}

/// Before the place of the first part code of the list there is none, and
/// just after it the first part code is the one at that place.
proof fn lemma_first_some_upto(o: Seq<Option<usize>>, q: nat, n: nat)
    requires
        n <= o.len(),
        first_some(o, n) is Some,
        q == first_some_pos(o, n),
    ensures
        first_some(o, q) is None,
        q < n,
        first_some(o, q + 1) == o[q as int],
    decreases n,
{
    lemma_first_some(o, n);
    if first_some(o, (n - 1) as nat) is Some {
        lemma_first_some_upto(o, q, (n - 1) as nat);
    }
}

proof fn lemma_split_concat(x: Seq<char>, y: Seq<char>, sep: char)
    ensures
        split_on(x + seq![sep] + y, sep) == split_on(x, sep) + split_on(y, sep),
    decreases y.len(),
{
    let c = x + seq![sep] + y;
    if y.len() == 0 {
        assert(c.drop_last() =~= x);
        assert(c.last() == sep);
        assert(split_on(y, sep) =~= seq![Seq::<char>::empty()]);
        assert(split_on(x, sep).push(Seq::empty()) =~= split_on(x, sep) + seq![Seq::<char>::empty()]);
    } else {
        let y2 = y.drop_last();
        lemma_split_concat(x, y2, sep);
        lemma_split_on_len(y2, sep);
        assert(c.drop_last() =~= x + seq![sep] + y2);
        assert(c.last() == y.last());
        let px = split_on(x, sep);
        let py = split_on(y2, sep);
        if y.last() == sep {
            assert((px + py).push(Seq::empty()) =~= px + py.push(Seq::empty()));
        } else {
            assert((px + py).update((px + py).len() - 1, (px + py).last().push(y.last())) =~= px
                + py.update(py.len() - 1, py.last().push(y.last())));
        }
    }
}

proof fn lemma_split_len_bound(s: Seq<char>, sep: char)
    ensures
        split_on(s, sep).len() <= s.len() + 1,
    decreases s.len(),
{
    if s.len() > 0 {
        lemma_split_len_bound(s.drop_last(), sep);
        lemma_split_on_len(s.drop_last(), sep);
    }
}

/// A text that does not end in a line break or a carriage return, followed
/// by a line break and another text, has the lines of the first text and
/// then the lines of the second.
pub proof fn law_lines_concat(a: Seq<char>, b: Seq<char>)
    requires
        a.len() > 0,
        a.last() != '\n',
        a.last() != '\r',
    ensures
        lines_of(a + seq!['\n'] + b) == lines_of(a) + lines_of(b),
{
    let c = a + seq!['\n'] + b;
    lemma_split_concat(a, b, '\n');
    lemma_split_on_len(a, '\n');
    lemma_split_on_len(b, '\n');
    lemma_split_on_len(a.drop_last(), '\n');
    let pa = split_on(a, '\n');
    let pb = split_on(b, '\n');
    let la = pa.last();
    // the last part of `a` ends with its last character
    let p0 = split_on(a.drop_last(), '\n');
    assert(pa == p0.update(p0.len() - 1, p0.last().push(a.last())));
    assert(la == p0.last().push(a.last()));
    assert(la.len() > 0 && la.last() == a.last());
    assert(strip_cr(la) == la);
    let f = |l: Seq<char>| strip_cr(l);
    let parts = pa + pb;
    assert(parts.drop_last() =~= pa + pb.drop_last());
    assert(parts.last() == pb.last());
    assert((pa + pb.drop_last()).map_values(f) =~= pa.map_values(f) + pb.drop_last().map_values(f));
    assert(pa.map_values(f) =~= pa.drop_last().map_values(f).push(la));
    assert(lines_of(a) == pa.drop_last().map_values(f).push(la));
    if pb.last().len() == 0 {
        assert(lines_of(c) =~= lines_of(a) + lines_of(b));
    } else {
        assert(lines_of(c) =~= lines_of(a) + lines_of(b));
    }
}

/// The hits with their line numbers moved on by `off`.
pub open spec fn shift_hits(h: Seq<(usize, Seq<char>)>, off: nat) -> Seq<(usize, Seq<char>)> {
    h.map_values(|p: (usize, Seq<char>)| ((p.0 + off) as usize, p.1))
}

proof fn lemma_hits_concat(q: Seq<char>, x: Seq<Seq<char>>, y: Seq<Seq<char>>, n: nat)
    requires
        n <= y.len(),
        x.len() + y.len() <= usize::MAX + 1,
    ensures
        hits(q, x + y, x.len() + n) == hits(q, x, x.len()) + shift_hits(hits(q, y, n), x.len()),
    decreases n,
{
    if n == 0 {
        lemma_hits_prefix(q, x + y, x, x.len());
        assert(hits(q, y, 0) =~= Seq::<(usize, Seq<char>)>::empty());
        assert(hits(q, x, x.len()) + shift_hits(hits(q, y, 0), x.len()) =~= hits(q, x, x.len()));
    } else {
        lemma_hits_concat(q, x, y, (n - 1) as nat);
        assert((x + y)[x.len() + n - 1] == y[n - 1]);
        let h = hits(q, y, (n - 1) as nat);
        let g = |p: (usize, Seq<char>)| ((p.0 + x.len()) as usize, p.1);
        assert(h.push(((n - 1) as usize, y[n - 1])).map_values(g) =~= h.map_values(g).push(
            ((x.len() + n - 1) as usize, y[n - 1]),
        ));
        assert(hits(q, x, x.len()) + h.map_values(g).push(((x.len() + n - 1) as usize, y[n - 1]))
            =~= (hits(q, x, x.len()) + h.map_values(g)).push(((x.len() + n - 1) as usize, y[n - 1])));
    }
}

/// Searching a text that does not end in a line break or a carriage
/// return, followed by a line break and another text, finds the hits of
/// the first text, then those of the second with their line numbers moved
/// on by the number of lines of the first.
pub proof fn law_search_concat(q: Seq<char>, a: Seq<char>, b: Seq<char>)
    requires
        a.len() > 0,
        a.last() != '\n',
        a.last() != '\r',
        a.len() + 1 + b.len() <= usize::MAX,
    ensures
        search_hits(q, a + seq!['\n'] + b) == search_hits(q, a) + shift_hits(
            search_hits(q, b),
            lines_of(a).len(),
        ),
{
    law_lines_concat(a, b);
    lemma_split_len_bound(a, '\n');
    lemma_split_len_bound(b, '\n');
    lemma_split_on_len(a, '\n');
    lemma_split_on_len(b, '\n');
    let la = lines_of(a);
    let lb = lines_of(b);
    assert(la.len() <= split_on(a, '\n').len());
    assert(lb.len() <= split_on(b, '\n').len());
    lemma_hits_concat(q, la, lb, lb.len());
}

/// No two fitted entries of `boms` hold the same reference.
pub open spec fn unique_holders(boms: Seq<BomEntry>) -> bool {
    forall|i: int, j: int, r: Seq<char>|
        0 <= i < boms.len() && 0 <= j < boms.len() && !is_dnp(boms[i]) && !is_dnp(boms[j])
            && #[trigger] boms[i].refs.contains(r) && #[trigger] boms[j].refs.contains(r) ==> i == j
}

proof fn lemma_note_refs_dups(st: IndexView, row: usize, refs: Seq<Seq<char>>)
    requires
        st.wf(),
    ensures
        note_refs(st, row, refs).dups >= st.dups,
        (exists|p: int| 0 <= p < refs.len() && st.refs.has(#[trigger] refs[p])) ==> note_refs(
            st,
            row,
            refs,
        ).dups > st.dups,
    decreases refs.len(),
{
    if refs.len() > 0 {
        let prev = refs.drop_last();
        lemma_note_refs_dups(st, row, prev);
        lemma_note_refs(st, row, prev);
        let mid = note_refs(st, row, prev);
        if exists|p: int| 0 <= p < refs.len() && st.refs.has(#[trigger] refs[p]) {
            let p = choose|p: int| 0 <= p < refs.len() && st.refs.has(#[trigger] refs[p]);
            if p < refs.len() - 1 {
                assert(prev[p] == refs[p]);
            } else {
                assert(mid.refs.get(refs.last()) == st.refs.get(refs.last()));
            }
        }
    }
}

/// A BOM whose index counts no repeated reference has no two fitted entries
/// that hold the same reference.
pub proof fn law_no_repeats_unique(boms: Seq<BomEntry>)
    requires
        boms.len() <= usize::MAX,
        index_of(boms).dups == 0,
    ensures
        unique_holders(boms),
    decreases boms.len(),
{
    if boms.len() > 0 {
        let prev = boms.drop_last();
        let e = boms.last();
        let st = index_of(prev);
        let row = (boms.len() - 1) as usize;
        lemma_index_wf(prev);
        lemma_index_sound(prev);
        if !is_dnp(e) {
            lemma_note_refs_dups(st, row, e.refs);
        }
        law_no_repeats_unique(prev);
        assert forall|i: int| 0 <= i < prev.len() implies #[trigger] boms[i] == prev[i] by {}
        assert(boms[boms.len() - 1] == e);
        assert forall|i: int, j: int, r: Seq<char>|
            0 <= i < boms.len() && 0 <= j < boms.len() && !is_dnp(boms[i]) && !is_dnp(boms[j])
                && #[trigger] boms[i].refs.contains(r) && #[trigger] boms[j].refs.contains(r) implies i == j by {
            if i < prev.len() && j < prev.len() {
                assert(prev[i].refs.contains(r) && prev[j].refs.contains(r));
            } else if i != j {
                let o = if i < prev.len() { i } else { j };
                assert(o < prev.len());
                assert(prev[o].refs.contains(r));
                let m = choose|m: int| 0 <= m < prev[o].refs.len() && prev[o].refs[m] == r;
                assert(st.refs.has(prev[o].refs[m]));
                let q = choose|q: int| 0 <= q < e.refs.len() && e.refs[q] == r;
                assert(st.refs.has(e.refs[q]));
            }
        }
    }
}

/// What drawing the final table keeps: every reference marked as shown is
/// held by an entry shown on that side, and the entries shown are fitted.
pub open spec fn table_cover(st: TableView, bom1: Seq<BomEntry>, bom2: Seq<BomEntry>) -> bool {
    &&& forall|i: int| 0 <= i < st.lines.len() && st.lines[i].0 is Some ==> #[trigger] st.lines[i].0.unwrap()
        < bom1.len() && !is_dnp(bom1[st.lines[i].0.unwrap() as int])
    &&& forall|i: int| 0 <= i < st.lines.len() && st.lines[i].1 is Some ==> #[trigger] st.lines[i].1.unwrap()
        < bom2.len() && !is_dnp(bom2[st.lines[i].1.unwrap() as int])
    &&& forall|x: Seq<char>| #[trigger] st.shown1.contains(x) ==> exists|i: int|
        0 <= i < st.lines.len() && st.lines[i].0 is Some && #[trigger] bom1[st.lines[i].0.unwrap() as int].refs.contains(x)
    &&& forall|x: Seq<char>| #[trigger] st.shown2.contains(x) ==> exists|i: int|
        0 <= i < st.lines.len() && st.lines[i].1 is Some && #[trigger] bom2[st.lines[i].1.unwrap() as int].refs.contains(x)
}

proof fn lemma_cover_step(st: TableView, h: HashView, bom1: Seq<BomEntry>, bom2: Seq<BomEntry>, r: Seq<char>)
    requires
        table_cover(st, bom1, bom2),
        index_sound(h.bom1, bom1),
        index_sound(h.bom2, bom2),
        unique_holders(bom1),
        unique_holders(bom2),
        h.bom1.refs.has(r),
        h.bom2.refs.has(r),
    ensures
        table_cover(table_step(st, h, bom1, bom2, r), bom1, bom2),
        table_step(st, h, bom1, bom2, r).shown1.contains(r),
        table_step(st, h, bom1, bom2, r).shown2.contains(r),
        forall|x: Seq<char>| st.shown1.contains(x) ==> #[trigger] table_step(st, h, bom1, bom2, r).shown1.contains(x),
        forall|x: Seq<char>| st.shown2.contains(x) ==> #[trigger] table_step(st, h, bom1, bom2, r).shown2.contains(x),
{
    let i1 = h.bom1.refs.get(r).unwrap();
    let i2 = h.bom2.refs.get(r).unwrap();
    let nx = table_step(st, h, bom1, bom2, r);
    assert(bom1[i1 as int].refs.contains(r));
    assert(bom2[i2 as int].refs.contains(r));
    let n = st.lines.len() as int;
    assert forall|i: int| 0 <= i < n implies #[trigger] nx.lines[i] == st.lines[i] by {}
    assert forall|x: Seq<char>| st.shown1.contains(x) implies #[trigger] nx.shown1.contains(x) by {
        let j = choose|j: int| 0 <= j < st.shown1.len() && st.shown1[j] == x;
        assert(nx.shown1[j] == x);
    }
    assert forall|x: Seq<char>| st.shown2.contains(x) implies #[trigger] nx.shown2.contains(x) by {
        let j = choose|j: int| 0 <= j < st.shown2.len() && st.shown2[j] == x;
        assert(nx.shown2[j] == x);
    }
    if !st.shown1.contains(r) {
        let m = choose|m: int| 0 <= m < bom1[i1 as int].refs.len() && bom1[i1 as int].refs[m] == r;
        assert(nx.shown1[st.shown1.len() + m] == r);
    }
    if !st.shown1.contains(r) || !st.shown2.contains(r) {
        let m = choose|m: int| 0 <= m < bom2[i2 as int].refs.len() && bom2[i2 as int].refs[m] == r;
        assert(nx.shown2[st.shown2.len() + m] == r);
    }
    // a reference already shown on a side is shown by the one fitted entry that holds it
    if st.shown2.contains(r) {
        let j = choose|j: int| 0 <= j < st.lines.len() && st.lines[j].1 is Some && #[trigger] bom2[st.lines[j].1.unwrap() as int].refs.contains(r);
        assert(st.lines[j].1.unwrap() == i2);
    }
    if st.shown1.contains(r) {
        let j = choose|j: int| 0 <= j < st.lines.len() && st.lines[j].0 is Some && #[trigger] bom1[st.lines[j].0.unwrap() as int].refs.contains(r);
        assert(st.lines[j].0.unwrap() == i1);
    }
    assert forall|x: Seq<char>| #[trigger] nx.shown1.contains(x) implies exists|i: int|
        0 <= i < nx.lines.len() && nx.lines[i].0 is Some && #[trigger] bom1[nx.lines[i].0.unwrap() as int].refs.contains(x) by {
        if st.shown1.contains(x) {
            let i = choose|i: int| 0 <= i < st.lines.len() && st.lines[i].0 is Some && #[trigger] bom1[st.lines[i].0.unwrap() as int].refs.contains(x);
            assert(nx.lines[i] == st.lines[i]);
            assert(bom1[nx.lines[i].0.unwrap() as int].refs.contains(x));
        } else {
            assert(!st.shown1.contains(r));
            let j = choose|j: int| 0 <= j < nx.shown1.len() && nx.shown1[j] == x;
            assert(j >= st.shown1.len());
            assert(bom1[i1 as int].refs[j - st.shown1.len()] == x);
            assert(nx.lines[n].0 == Some(i1));
            assert(bom1[nx.lines[n].0.unwrap() as int].refs.contains(x));
        }
    }
    assert forall|x: Seq<char>| #[trigger] nx.shown2.contains(x) implies exists|i: int|
        0 <= i < nx.lines.len() && nx.lines[i].1 is Some && #[trigger] bom2[nx.lines[i].1.unwrap() as int].refs.contains(x) by {
        if st.shown2.contains(x) {
            let i = choose|i: int| 0 <= i < st.lines.len() && st.lines[i].1 is Some && #[trigger] bom2[st.lines[i].1.unwrap() as int].refs.contains(x);
            assert(nx.lines[i] == st.lines[i]);
            assert(bom2[nx.lines[i].1.unwrap() as int].refs.contains(x));
        } else {
            assert(!st.shown1.contains(r) || !st.shown2.contains(r));
            let j = choose|j: int| 0 <= j < nx.shown2.len() && nx.shown2[j] == x;
            assert(j >= st.shown2.len());
            assert(bom2[i2 as int].refs[j - st.shown2.len()] == x);
            assert(bom2[i2 as int].refs.contains(x));
            if st.shown2.contains(r) {
                let k = choose|k: int| 0 <= k < st.lines.len() && st.lines[k].1 is Some && #[trigger] bom2[st.lines[k].1.unwrap() as int].refs.contains(r);
                assert(nx.lines[k] == st.lines[k]);
                assert(nx.lines[k].1 == Some(i2));
                assert(bom2[nx.lines[k].1.unwrap() as int].refs.contains(x));
            } else {
                assert(nx.lines[n].1 == Some(i2));
                assert(bom2[nx.lines[n].1.unwrap() as int].refs.contains(x));
            }
        }
    }
    assert forall|i: int| 0 <= i < nx.lines.len() && nx.lines[i].0 is Some implies #[trigger] nx.lines[i].0.unwrap()
        < bom1.len() && !is_dnp(bom1[nx.lines[i].0.unwrap() as int]) by {
        if i < n {
            assert(nx.lines[i] == st.lines[i]);
        }
    }
    assert forall|i: int| 0 <= i < nx.lines.len() && nx.lines[i].1 is Some implies #[trigger] nx.lines[i].1.unwrap()
        < bom2.len() && !is_dnp(bom2[nx.lines[i].1.unwrap() as int]) by {
        if i < n {
            assert(nx.lines[i] == st.lines[i]);
        }
    }
}

proof fn lemma_cover_list(
    st: TableView,
    h: HashView,
    bom1: Seq<BomEntry>,
    bom2: Seq<BomEntry>,
    s: Seq<Seq<char>>,
    l: nat,
)
    requires
        table_cover(st, bom1, bom2),
        index_sound(h.bom1, bom1),
        index_sound(h.bom2, bom2),
        unique_holders(bom1),
        unique_holders(bom2),
        l <= s.len(),
        forall|j: int| 0 <= j < s.len() ==> h.bom1.refs.has(#[trigger] s[j]) && h.bom2.refs.has(s[j]),
    ensures
        table_cover(table_list(st, h, bom1, bom2, s, l), bom1, bom2),
        forall|j: int| 0 <= j < l ==> #[trigger] table_list(st, h, bom1, bom2, s, l).shown1.contains(s[j])
            && table_list(st, h, bom1, bom2, s, l).shown2.contains(s[j]),
        forall|x: Seq<char>| st.shown1.contains(x) ==> #[trigger] table_list(st, h, bom1, bom2, s, l).shown1.contains(x),
        forall|x: Seq<char>| st.shown2.contains(x) ==> #[trigger] table_list(st, h, bom1, bom2, s, l).shown2.contains(x),
    decreases l,
{
    if l > 0 {
        lemma_cover_list(st, h, bom1, bom2, s, (l - 1) as nat);
        let mid = table_list(st, h, bom1, bom2, s, (l - 1) as nat);
        lemma_cover_step(mid, h, bom1, bom2, s[l - 1]);
        let nx = table_list(st, h, bom1, bom2, s, l);
        assert forall|j: int| 0 <= j < l implies #[trigger] nx.shown1.contains(s[j]) && nx.shown2.contains(s[j]) by {
            if j < l - 1 {
                assert(table_list(st, h, bom1, bom2, s, (l - 1) as nat).shown1.contains(s[j]));
                assert(table_list(st, h, bom1, bom2, s, (l - 1) as nat).shown2.contains(s[j]));
                assert(nx.shown1.contains(s[j]));
                assert(nx.shown2.contains(s[j]));
            } else {
                assert(nx.shown1.contains(s[l - 1]));
                assert(nx.shown2.contains(s[l - 1]));
            }
        }
        assert forall|x: Seq<char>| st.shown1.contains(x) implies #[trigger] nx.shown1.contains(x) by {
            assert(mid.shown1.contains(x));
        }
        assert forall|x: Seq<char>| st.shown2.contains(x) implies #[trigger] nx.shown2.contains(x) by {
            assert(mid.shown2.contains(x));
        }
    }
}

proof fn lemma_cover_upto(h: HashView, bom1: Seq<BomEntry>, bom2: Seq<BomEntry>, k: nat)
    requires
        index_sound(h.bom1, bom1),
        index_sound(h.bom2, bom2),
        unique_holders(bom1),
        unique_holders(bom2),
        names_within(h.bom1.names, h.bom1.refs, bom1),
        names_within(h.bom1.names, h.bom2.refs, bom2),
        k <= h.bom1.names.keys.len(),
    ensures
        table_cover(table_upto(h, bom1, bom2, k), bom1, bom2),
        forall|m: int, j: int|
            0 <= m < k && 0 <= j < h.bom1.names.vals[m].len() ==> table_upto(h, bom1, bom2, k).shown1.contains(
                #[trigger] h.bom1.names.vals[m][j],
            ) && table_upto(h, bom1, bom2, k).shown2.contains(h.bom1.names.vals[m][j]),
    decreases k,
{
    if k > 0 {
        lemma_cover_upto(h, bom1, bom2, (k - 1) as nat);
        let prev = table_upto(h, bom1, bom2, (k - 1) as nat);
        let s = h.bom1.names.vals[k - 1];
        assert forall|j: int| 0 <= j < s.len() implies h.bom1.refs.has(#[trigger] s[j]) && h.bom2.refs.has(s[j]) by {
            assert(h.bom1.refs.has(h.bom1.names.vals[k - 1][j]));
            assert(h.bom2.refs.has(h.bom1.names.vals[k - 1][j]));
        }
        lemma_cover_list(prev, h, bom1, bom2, s, s.len());
        let nx = table_upto(h, bom1, bom2, k);
        assert forall|m: int, j: int|
            0 <= m < k && 0 <= j < h.bom1.names.vals[m].len() implies nx.shown1.contains(
            #[trigger] h.bom1.names.vals[m][j],
        ) && nx.shown2.contains(h.bom1.names.vals[m][j]) by {
            if m < k - 1 {
                assert(prev.shown1.contains(h.bom1.names.vals[m][j]));
                assert(prev.shown2.contains(h.bom1.names.vals[m][j]));
            } else {
                assert(s[j] == h.bom1.names.vals[m][j]);
            }
        }
    }
}

/// When neither BOM repeats a reference, the final table shows, for every
/// reference listed under a name of BOM1, the BOM1 entry and the BOM2 entry
/// that the indexes give for it.
pub proof fn law_table_shows_every_entry(h: HashView, bom1: Seq<BomEntry>, bom2: Seq<BomEntry>)
    requires
        bom1.len() <= usize::MAX,
        bom2.len() <= usize::MAX,
        h.bom1 == index_of(bom1),
        h.bom2 == index_of(bom2),
        h.bom1.dups == 0,
        h.bom2.dups == 0,
        names_within(h.bom1.names, h.bom1.refs, bom1),
        names_within(h.bom1.names, h.bom2.refs, bom2),
    ensures
        forall|m: int, j: int|
            0 <= m < h.bom1.names.keys.len() && 0 <= j < h.bom1.names.vals[m].len() ==> {
                let r = #[trigger] h.bom1.names.vals[m][j];
                &&& exists|i: int|
                    0 <= i < final_table_lines(h, bom1, bom2).len() && #[trigger] final_table_lines(h, bom1, bom2)[i].0
                        == Some(h.bom1.refs.get(r).unwrap())
                &&& exists|i: int|
                    0 <= i < final_table_lines(h, bom1, bom2).len() && #[trigger] final_table_lines(h, bom1, bom2)[i].1
                        == Some(h.bom2.refs.get(r).unwrap())
            },
{
    lemma_index_sound(bom1);
    lemma_index_sound(bom2);
    law_no_repeats_unique(bom1);
    law_no_repeats_unique(bom2);
    let t = table_upto(h, bom1, bom2, h.bom1.names.keys.len());
    let empty = TableView { lines: Seq::empty(), shown1: Seq::empty(), shown2: Seq::empty() };
    assert(table_cover(empty, bom1, bom2));
    lemma_cover_upto(h, bom1, bom2, h.bom1.names.keys.len());
    assert forall|m: int, j: int|
        0 <= m < h.bom1.names.keys.len() && 0 <= j < h.bom1.names.vals[m].len() implies {
        let r = #[trigger] h.bom1.names.vals[m][j];
        &&& exists|i: int|
            0 <= i < final_table_lines(h, bom1, bom2).len() && #[trigger] final_table_lines(h, bom1, bom2)[i].0
                == Some(h.bom1.refs.get(r).unwrap())
        &&& exists|i: int|
            0 <= i < final_table_lines(h, bom1, bom2).len() && #[trigger] final_table_lines(h, bom1, bom2)[i].1
                == Some(h.bom2.refs.get(r).unwrap())
    } by {
        let r = h.bom1.names.vals[m][j];
        assert(h.bom1.refs.has(r) && h.bom2.refs.has(r));
        assert(t.shown1.contains(r) && t.shown2.contains(r));
        let i = choose|i: int| 0 <= i < t.lines.len() && t.lines[i].0 is Some && #[trigger] bom1[t.lines[i].0.unwrap() as int].refs.contains(r);
        let e1 = h.bom1.refs.get(r).unwrap();
        assert(bom1[e1 as int].refs.contains(r));
        assert(t.lines[i].0 == Some(e1));
        assert(final_table_lines(h, bom1, bom2)[i].0 == Some(e1));
        let i2 = choose|i: int| 0 <= i < t.lines.len() && t.lines[i].1 is Some && #[trigger] bom2[t.lines[i].1.unwrap() as int].refs.contains(r);
        let e2 = h.bom2.refs.get(r).unwrap();
        assert(bom2[e2 as int].refs.contains(r));
        assert(t.lines[i2].1 == Some(e2));
        assert(final_table_lines(h, bom1, bom2)[i2].1 == Some(e2));
    }
}

/// The delimiter that a letter of the delimiter argument names: `t` a tab,
/// `z` a comma.
pub open spec fn letter_delim(c: char) -> CsvDelim {
    if c == 't' {
        CsvDelim::Tab
    } else {
        CsvDelim::Zap
    }
}

/// A command line of the program's name and three arguments, the first of
/// them two letters, each `t` or `z` (`tt`, `tz`, `zt` or `zz`), is accepted:
/// the first letter gives BOM1's delimiter, the second BOM2's, and the other
/// two arguments are the BOM1 and BOM2 files. A command line of another
/// length is refused.
pub proof fn law_delimiter_letters(args: Seq<Seq<char>>, c1: char, c2: char)
    requires
        args.len() == 4,
        args[1] == seq![c1, c2],
        c1 == 't' || c1 == 'z',
        c2 == 't' || c2 == 'z',
    ensures
        config_of(args) == Ok::<(Seq<char>, Seq<char>, CsvDelim, CsvDelim), ConfigError>(
            (args[2], args[3], letter_delim(c1), letter_delim(c2)),
        ),
{
    let d = seq![c1, c2];
    assert(is_ascii_chars(d));
    is_ascii_chars_encode_utf8(d);
    assert(encode_utf8(d)[0] == c1 as u8);
    assert(encode_utf8(d)[1] == c2 as u8);
    assert(args.drop_first()[0] == d);
}

/// A command line with other than three arguments after the program's name
/// is never accepted.
pub proof fn law_three_arguments(args: Seq<Seq<char>>)
    requires
        args.len() != 4,
    ensures
        config_of(args) is Err,
{
}

/// Place `i` of `o` holds the first part code of `o`: it holds one, and no
/// place before it does.
pub open spec fn first_code_at(o: Seq<Option<usize>>, i: int) -> bool {
    &&& 0 <= i < o.len()
    &&& o[i] is Some
    &&& forall|x: int| 0 <= x < i ==> #[trigger] o[x] is None
}

proof fn lemma_first_code_at(o: Seq<Option<usize>>, i: int)
    requires
        first_code_at(o, i),
    ensures
        first_some(o, o.len()) == o[i],
        first_some_pos(o, o.len()) == i,
{
    lemma_first_some(o, i as nat);
    assert(first_some(o, i as nat) is None);
    assert(first_some(o, (i + 1) as nat) == o[i]);
    assert(first_some_pos(o, (i + 1) as nat) == i);
    lemma_first_some_stable(o, (i + 1) as nat, o.len());
}

proof fn lemma_first_code_found(o: Seq<Option<usize>>)
    requires
        first_some(o, o.len()) is Some,
    ensures
        first_code_at(o, first_some_pos(o, o.len()) as int),
{
    let q = first_some_pos(o, o.len());
    lemma_first_some(o, o.len());
    lemma_first_some_upto(o, q, o.len());
    lemma_first_some(o, q);
}

/// For a name of BOM1 whose references have the part codes `o1` in BOM1 and
/// `o2` in BOM2, the check across the BOMs finds an error exactly when some
/// reference has a part code in BOM1, some has one in BOM2, and the first
/// such codes differ, wherever in the list they stand. The one finding then
/// gives the two codes and the later of their places.
pub proof fn law_cross_check(k: usize, o1: Seq<Option<usize>>, o2: Seq<Option<usize>>)
    requires
        o1.len() == o2.len(),
    ensures
        cross_notes(k, o1, o2).len() <= 1,
        cross_notes(k, o1, o2).len() == 1 <==> exists|i: int, j: int|
            #[trigger] first_code_at(o1, i) && #[trigger] first_code_at(o2, j) && o1[i] != o2[j],
        forall|i: int, j: int|
            #[trigger] first_code_at(o1, i) && #[trigger] first_code_at(o2, j) && o1[i] != o2[j]
                ==> cross_notes(k, o1, o2) == seq![
                OdooNote::Cross {
                    k,
                    p: (if i < j {
                        j
                    } else {
                        i
                    }) as usize,
                    o1: o1[i].unwrap(),
                    o2: o2[j].unwrap(),
                },
            ],
{
    assert forall|i: int, j: int|
        #[trigger] first_code_at(o1, i) && #[trigger] first_code_at(o2, j) && o1[i] != o2[j]
            implies cross_notes(k, o1, o2) == seq![
            OdooNote::Cross {
                k,
                p: (if i < j {
                    j
                } else {
                    i
                }) as usize,
                o1: o1[i].unwrap(),
                o2: o2[j].unwrap(),
            },
        ] by {
        lemma_first_code_at(o1, i);
        lemma_first_code_at(o2, j);
    }
    if cross_notes(k, o1, o2).len() == 1 {
        lemma_first_code_found(o1);
        lemma_first_code_found(o2);
        let i = first_some_pos(o1, o1.len()) as int;
        let j = first_some_pos(o2, o2.len()) as int;
        lemma_first_code_at(o1, i);
        lemma_first_code_at(o2, j);
        assert(first_code_at(o1, i) && first_code_at(o2, j) && o1[i] != o2[j]);
    }
}

proof fn lemma_rows_qnty_none(first: bool, k: usize, boms: Seq<BomEntry>, rows: Seq<usize>, p: nat)
    ensures
        rows_qnty_notes(first, k, boms, rows, p).len() == 0 <==> forall|i: int|
            0 <= i < p ==> qnty_counts_refs(boms[#[trigger] rows[i] as int]),
    decreases p,
{
    if p > 0 {
        lemma_rows_qnty_none(first, k, boms, rows, (p - 1) as nat);
    }
}

/// The entries of the list of name `k` of BOM1, and those of the BOM2 list
/// that it is compared with, each have a quantity equal to their number of
/// references, and the quantities of the two lists add up to the same total.
pub open spec fn list_quantities_agree(h: HashView, bom1: Seq<BomEntry>, bom2: Seq<BomEntry>, k: int) -> bool {
    let l1 = h.bom1.name_rows.vals[k];
    let l2 = h.bom2.name_rows.vals[partner(h, bom1, bom2, k)];
    &&& forall|i: int| 0 <= i < l1.len() ==> qnty_counts_refs(bom1[#[trigger] l1[i] as int])
    &&& forall|i: int| 0 <= i < l2.len() ==> qnty_counts_refs(bom2[#[trigger] l2[i] as int])
    &&& qnty_sum(bom1, l1, l1.len()) == qnty_sum(bom2, l2, l2.len())
}

/// The quantity check finds nothing exactly when, for every name list of
/// BOM1, each of its entries and each entry of the BOM2 list that it is
/// compared with has a quantity equal to its number of references, and the
/// quantities of the two lists add up to the same total.
pub proof fn law_quantity_check(h: HashView, bom1: Seq<BomEntry>, bom2: Seq<BomEntry>)
    ensures
        qnty_check_notes(h, bom1, bom2).len() == 0 <==> forall|k: int|
            0 <= k < h.bom1.name_rows.keys.len() ==> #[trigger] list_quantities_agree(h, bom1, bom2, k),
{
    lemma_quantity_upto(h, bom1, bom2, h.bom1.name_rows.keys.len());
}

proof fn lemma_quantity_upto(h: HashView, bom1: Seq<BomEntry>, bom2: Seq<BomEntry>, m: nat)
    ensures
        qnty_notes_upto(h, bom1, bom2, m).len() == 0 <==> forall|k: int|
            0 <= k < m ==> #[trigger] list_quantities_agree(h, bom1, bom2, k),
    decreases m,
{
    if m > 0 {
        lemma_quantity_upto(h, bom1, bom2, (m - 1) as nat);
        let k = m - 1;
        let l1 = h.bom1.name_rows.vals[k];
        let k2 = partner(h, bom1, bom2, k);
        let l2 = h.bom2.name_rows.vals[k2];
        lemma_rows_qnty_none(true, k as usize, bom1, l1, l1.len());
        lemma_rows_qnty_none(false, k2 as usize, bom2, l2, l2.len());
        assert(list_qnty_notes(h, bom1, bom2, k).len() == 0 <==> list_quantities_agree(h, bom1, bom2, k));
        if forall|x: int| 0 <= x < m - 1 ==> #[trigger] list_quantities_agree(h, bom1, bom2, x) {
            if list_quantities_agree(h, bom1, bom2, k) {
                assert forall|x: int| 0 <= x < m implies #[trigger] list_quantities_agree(h, bom1, bom2, x) by {
                    if x < m - 1 {
                        assert(list_quantities_agree(h, bom1, bom2, x));
                    }
                }
            }
        }
    }
}

/// The name at position `m` of BOM1's name index has references with a part
/// code in BOM1 and references with one in BOM2, and the first such codes
/// differ.
pub open spec fn cross_mismatch(h: HashView, bom1: Seq<BomEntry>, bom2: Seq<BomEntry>, m: int) -> bool {
    let s = h.bom1.names.vals[m];
    let o1 = ref_odoos(bom1, h.bom1.refs, s);
    let o2 = ref_odoos(bom2, h.bom2.refs, s);
    exists|i: int, j: int| #[trigger] first_code_at(o1, i) && #[trigger] first_code_at(o2, j) && o1[i] != o2[j]
}

/// Some finding of `notes` compares the part codes of name `m` across the BOMs.
pub open spec fn has_cross_note(notes: Seq<OdooNote>, m: int) -> bool {
    exists|j: int| 0 <= j < notes.len() && #[trigger] notes[j] is Cross && notes[j]->Cross_k == m
}

proof fn lemma_errors_all_counted(a: Seq<OdooNote>)
    requires
        forall|j: int| 0 <= j < a.len() ==> !(#[trigger] a[j] is Mixed),
    ensures
        odoo_errors(a) == a.len(),
    decreases a.len(),
{
    if a.len() > 0 {
        assert forall|j: int| 0 <= j < a.drop_last().len() implies !(#[trigger] a.drop_last()[j] is Mixed) by {
            assert(a.drop_last()[j] == a[j]);
        }
        lemma_errors_all_counted(a.drop_last());
    }
}

proof fn lemma_clash_only(first: bool, k: usize, o: Seq<Option<usize>>, p: nat)
    ensures
        forall|j: int| 0 <= j < clash_notes(first, k, o, p).len() ==> #[trigger] clash_notes(first, k, o, p)[j] is Clash,
    decreases p,
{
    if p > 0 {
        lemma_clash_only(first, k, o, (p - 1) as nat);
    }
}

proof fn lemma_lists_no_cross(first: bool, name_rows: StrMapView<Seq<usize>>, boms: Seq<BomEntry>, k: nat)
    ensures
        forall|j: int| 0 <= j < odoo_list_notes(first, name_rows, boms, k).len() ==> !(
            #[trigger] odoo_list_notes(first, name_rows, boms, k)[j] is Cross),
    decreases k,
{
    if k > 0 {
        lemma_lists_no_cross(first, name_rows, boms, (k - 1) as nat);
        let a = odoo_list_notes(first, name_rows, boms, (k - 1) as nat);
        let o = row_odoos(boms, name_rows.vals[k - 1]);
        let c = clash_notes(first, (k - 1) as usize, o, o.len());
        lemma_clash_only(first, (k - 1) as usize, o, o.len());
        let b = list_odoo_notes(first, (k - 1) as usize, o);
        let all = odoo_list_notes(first, name_rows, boms, k);
        assert(all == a + b);
        assert forall|j: int| 0 <= j < all.len() implies !(#[trigger] all[j] is Cross) by {
            if j < a.len() {
                assert(all[j] == a[j]);
            } else if j < a.len() + c.len() {
                assert(all[j] == c[j - a.len()]);
            } else {
                assert(all[j] == b[j - a.len()]);
            }
        }
    }
}

proof fn lemma_cross_all(h: HashView, bom1: Seq<BomEntry>, bom2: Seq<BomEntry>, n: nat)
    requires
        n <= usize::MAX,
    ensures
        forall|j: int|
            0 <= j < cross_all(h, bom1, bom2, n).len() ==> #[trigger] cross_all(h, bom1, bom2, n)[j] is Cross
                && cross_all(h, bom1, bom2, n)[j]->Cross_k < n,
        forall|m: int| 0 <= m < n ==> (has_cross_note(cross_all(h, bom1, bom2, n), m) <==> #[trigger] cross_mismatch(h, bom1, bom2, m)),
    decreases n,
{
    if n > 0 {
        lemma_cross_all(h, bom1, bom2, (n - 1) as nat);
        let a = cross_all(h, bom1, bom2, (n - 1) as nat);
        let s = h.bom1.names.vals[n - 1];
        let o1 = ref_odoos(bom1, h.bom1.refs, s);
        let o2 = ref_odoos(bom2, h.bom2.refs, s);
        let b = cross_notes((n - 1) as usize, o1, o2);
        law_cross_check((n - 1) as usize, o1, o2);
        let all = cross_all(h, bom1, bom2, n);
        assert(all == a + b);
        assert forall|j: int| 0 <= j < all.len() implies #[trigger] all[j] is Cross && all[j]->Cross_k < n by {
            if j < a.len() {
                assert(all[j] == a[j]);
            } else {
                assert(all[j] == b[j - a.len()]);
            }
        }
        assert forall|m: int| 0 <= m < n implies (has_cross_note(all, m) <==> #[trigger] cross_mismatch(h, bom1, bom2, m)) by {
            if has_cross_note(all, m) {
                let j = choose|j: int| 0 <= j < all.len() && #[trigger] all[j] is Cross && all[j]->Cross_k == m;
                if j < a.len() {
                    assert(all[j] == a[j]);
                    assert(has_cross_note(a, m));
                } else {
                    assert(all[j] == b[j - a.len()]);
                    assert(b.len() == 1);
                    assert(m == n - 1);
                }
            }
            if cross_mismatch(h, bom1, bom2, m) {
                if m < n - 1 {
                    let j = choose|j: int| 0 <= j < a.len() && #[trigger] a[j] is Cross && a[j]->Cross_k == m;
                    assert(all[j] == a[j]);
                } else {
                    assert(b.len() == 1);
                    assert(all[a.len() as int] == b[0]);
                }
            }
        }
    }
}

/// The checks within each BOM come first. Where they find an error, the part
/// codes are not compared across the BOMs. Where they find none, the part code
/// check gives, for each name of BOM1, a finding across the BOMs exactly when
/// some reference of that name has a part code in BOM1, some has one in BOM2,
/// and the first such codes differ, wherever in the list they stand; each
/// such finding counts as an error, so the check passes exactly when no name
/// has such codes.
pub proof fn law_part_code_check(h: HashView, bom1: Seq<BomEntry>, bom2: Seq<BomEntry>)
    requires
        h.bom1.names.keys.len() <= usize::MAX,
    ensures
        odoo_errors(odoo_lists_notes(h, bom1, bom2)) > 0 ==> odoo_check_notes(h, bom1, bom2) == odoo_lists_notes(
            h,
            bom1,
            bom2,
        ),
        odoo_errors(odoo_lists_notes(h, bom1, bom2)) == 0 ==> forall|m: int|
            0 <= m < h.bom1.names.keys.len() ==> (has_cross_note(odoo_check_notes(h, bom1, bom2), m)
                <==> #[trigger] cross_mismatch(h, bom1, bom2, m)),
        odoo_errors(odoo_lists_notes(h, bom1, bom2)) == 0 ==> (odoo_errors(odoo_check_notes(h, bom1, bom2))
            == 0 <==> forall|m: int|
            0 <= m < h.bom1.names.keys.len() ==> !#[trigger] cross_mismatch(h, bom1, bom2, m)),
{
    let n = h.bom1.names.keys.len();
    let a = odoo_lists_notes(h, bom1, bom2);
    if odoo_errors(a) == 0 {
        let c = cross_all(h, bom1, bom2, n);
        let all = odoo_check_notes(h, bom1, bom2);
        assert(all == a + c);
        lemma_cross_all(h, bom1, bom2, n);
        let a1 = odoo_list_notes(true, h.bom1.name_rows, bom1, h.bom1.name_rows.keys.len());
        let a2 = odoo_list_notes(false, h.bom2.name_rows, bom2, h.bom2.name_rows.keys.len());
        lemma_lists_no_cross(true, h.bom1.name_rows, bom1, h.bom1.name_rows.keys.len());
        lemma_lists_no_cross(false, h.bom2.name_rows, bom2, h.bom2.name_rows.keys.len());
        assert(a == a1 + a2);
        assert forall|j: int| 0 <= j < a.len() implies !(#[trigger] a[j] is Cross) by {
            if j < a1.len() {
                assert(a[j] == a1[j]);
            } else {
                assert(a[j] == a2[j - a1.len()]);
            }
        }
        assert forall|m: int| 0 <= m < n implies (has_cross_note(all, m) <==> #[trigger] cross_mismatch(h, bom1, bom2, m)) by {
            if has_cross_note(all, m) {
                let j = choose|j: int| 0 <= j < all.len() && #[trigger] all[j] is Cross && all[j]->Cross_k == m;
                assert(j >= a.len()) by {
                    if j < a.len() {
                        assert(all[j] == a[j]);
                    }
                }
                assert(all[j] == c[j - a.len()]);
                assert(has_cross_note(c, m));
            }
            if has_cross_note(c, m) {
                let j = choose|j: int| 0 <= j < c.len() && #[trigger] c[j] is Cross && c[j]->Cross_k == m;
                assert(all[j + a.len()] == c[j]);
            }
        }
        lemma_odoo_errors_add(a, c);
        assert forall|j: int| 0 <= j < c.len() implies !(#[trigger] c[j] is Mixed) by {
            assert(c[j] is Cross);
        }
        lemma_errors_all_counted(c);
        if c.len() > 0 {
            let x = c[0];
            assert(x is Cross);
            let m = x->Cross_k as int;
            assert(has_cross_note(c, m));
            assert(cross_mismatch(h, bom1, bom2, m));
        } else {
            assert forall|m: int| 0 <= m < n implies !#[trigger] cross_mismatch(h, bom1, bom2, m) by {
                if cross_mismatch(h, bom1, bom2, m) {
                    assert(has_cross_note(c, m));
                }
            }
        }
    }
}

/// The entries of a table are those of its rows in their order: the rows of
/// two parts of a table give the entries of the first part, then those of the
/// second; and a single row `r` gives its entry, if it becomes one, else none.
pub proof fn law_entries_in_order(a: Seq<BomRow>, b: Seq<BomRow>, r: BomRow)
    ensures
        entries_of(a + b) == entries_of(a) + entries_of(b),
        entries_of(seq![r]) == match row_result(r) {
            RowResult::Entry(e) => seq![e],
            _ => Seq::<BomEntry>::empty(),
        },
    decreases b.len(),
{
    assert(seq![r].drop_last() =~= Seq::<BomRow>::empty());
    assert(entries_of(seq![r].drop_last()) == Seq::<BomEntry>::empty());
    assert(seq![r].last() == r);
    assert(seq![r].len() == 1);
    match row_result(r) {
        RowResult::Entry(e) => {
            assert(Seq::<BomEntry>::empty().push(e) =~= seq![e]);
        },
        _ => {},
    }
    if b.len() == 0 {
        assert(a + b =~= a);
        assert(entries_of(a) + entries_of(b) =~= entries_of(a));
    } else {
        law_entries_in_order(a, b.drop_last(), r);
        assert((a + b).drop_last() =~= a + b.drop_last());
        assert((a + b).last() == b.last());
        match row_result(b.last()) {
            RowResult::Entry(e) => {
                assert(entries_of(a) + entries_of(b.drop_last()).push(e) =~= (entries_of(a) + entries_of(
                    b.drop_last(),
                )).push(e));
            },
            _ => {},
        }
    }
}

/// The references `ps` written one after another with a comma between each
/// two of them.
pub open spec fn comma_joined(ps: Seq<Seq<char>>) -> Seq<char>
    decreases ps.len(),
{
    if ps.len() <= 1 {
        if ps.len() == 0 {
            Seq::empty()
        } else {
            ps[0]
        }
    } else {
        comma_joined(ps.drop_last()) + seq![','] + ps.last()
    }
}

/// A reference: not empty, with neither a comma nor whitespace in it.
pub open spec fn plain_reference(p: Seq<char>) -> bool {
    p.len() > 0 && forall|i: int| 0 <= i < p.len() ==> p[i] != ',' && !is_whitespace(#[trigger] p[i])
}

proof fn lemma_split_joined(ps: Seq<Seq<char>>)
    requires
        ps.len() > 0,
        forall|k: int| 0 <= k < ps.len() ==> plain_reference(#[trigger] ps[k]),
    ensures
        split_on(comma_joined(ps), ',') == ps,
    decreases ps.len(),
{
    if ps.len() == 1 {
        lemma_split_on_none(ps[0], ',');
        assert(seq![ps[0]] =~= ps);
    } else {
        let q = ps.drop_last();
        assert forall|k: int| 0 <= k < q.len() implies plain_reference(#[trigger] q[k]) by {
            assert(q[k] == ps[k]);
        }
        lemma_split_joined(q);
        lemma_split_concat(comma_joined(q), ps.last(), ',');
        assert(plain_reference(ps[ps.len() - 1]));
        lemma_split_on_none(ps.last(), ',');
        assert(q + seq![ps.last()] =~= ps);
    }
}

/// The references of a field that lists references with a comma between
/// each two of them, with or without a comma after the last one, are those
/// references in their order (`R1,R2` and `R1,R2,` both give `[R1, R2]`).
pub proof fn law_reference_list(ps: Seq<Seq<char>>)
    requires
        ps.len() > 0,
        forall|k: int| 0 <= k < ps.len() ==> plain_reference(#[trigger] ps[k]),
    ensures
        ref_list(comma_joined(ps)) == ps,
        ref_list(comma_joined(ps) + seq![',']) == ps,
{
    let j = comma_joined(ps);
    lemma_split_joined(ps);
    assert forall|k: int| 0 <= k < ps.len() implies #[trigger] strip_whitespace(ps[k]) == ps[k] by {
        assert(plain_reference(ps[k]));
        lemma_strip_none(ps[k]);
    }
    assert(strip_each(ps) =~= ps);
    assert(plain_reference(ps[ps.len() - 1]));
    assert(ps.last() != Seq::<char>::empty()) by {
        assert(ps.last().len() > 0);
    }
    let t = j + seq![','];
    assert(t.drop_last() =~= j);
    assert(t.last() == ',');
    assert(split_on(t, ',') == ps.push(Seq::<char>::empty()));
    assert(strip_whitespace(Seq::<char>::empty()) == Seq::<char>::empty());
    assert(strip_each(ps.push(Seq::<char>::empty())) =~= ps.push(Seq::<char>::empty()));
    assert(ps.push(Seq::<char>::empty()).drop_last() =~= ps);
}

} // verus!
