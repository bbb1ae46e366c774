//! Table rows and the BOM entries made of them.

use vstd::prelude::*;
use vstd::utf8::encode_utf8;
use vstd::utf8::is_char_boundary;
use crate::text::{
    char_is_whitespace, has_infix, lemma_split_on_len, parse_usize, parse_usize_prefix, push_char,
    split_on, strip_whitespace, bytes_contain,
};

verus! {

/// Each part with its whitespace removed.
pub open spec fn strip_each(ps: Seq<Seq<char>>) -> Seq<Seq<char>> {
    ps.map_values(|p: Seq<char>| strip_whitespace(p))
}

/// The references of a row: its reference field split at commas, whitespace
/// removed from each part, and the last part dropped when it is empty
/// (a reference list usually ends with a comma).
pub open spec fn ref_list(r: Seq<char>) -> Seq<Seq<char>> {
    let parts = strip_each(split_on(r, ','));
    if parts.last() == Seq::<char>::empty() {
        parts.drop_last()
    } else {
        parts
    }
}

/// Splits a reference field into its references.
pub fn split_refs(r: &str) -> (refs: Vec<String>)
    ensures
        refs.deep_view() == ref_list(r@),
{
    let n = r.unicode_len();
    let mut done: Vec<String> = Vec::new();
    let mut cur = String::new();
    let mut i: usize = 0;
    proof {
        lemma_split_on_len(r@.take(0), ',');
        assert(r@.take(0) =~= Seq::<char>::empty());
    }
    while i < n
        invariant
            i <= n,
            n == r@.len(),
            split_on(r@.take(i as int), ',').len() >= 1,
            done.deep_view() =~= strip_each(split_on(r@.take(i as int), ',').drop_last()),
            cur@ == strip_whitespace(split_on(r@.take(i as int), ',').last()),
        decreases n - i,
    {
        let c = r.get_char(i);
        let ghost prev = split_on(r@.take(i as int), ',');
        let ghost next = split_on(r@.take(i + 1), ',');
        assert(r@.take(i + 1).drop_last() =~= r@.take(i as int));
        assert(r@.take(i + 1).last() == c);
        if c == ',' {
            assert(next == prev.push(Seq::empty()));
            assert(next.drop_last() =~= prev);
            let ghost old_done = done.deep_view();
            done.push(cur);
            assert(done.deep_view() =~= old_done.push(strip_whitespace(prev.last())));
            assert(strip_each(prev) =~= strip_each(prev.drop_last()).push(
                strip_whitespace(prev.last()),
            ));
            cur = String::new();
            assert(strip_whitespace(Seq::<char>::empty()) =~= Seq::<char>::empty());
        } else {
            assert(next == prev.update(prev.len() - 1, prev.last().push(c)));
            assert(next.drop_last() =~= prev.drop_last());
            assert(next.last() == prev.last().push(c));
            assert(prev.last().push(c).drop_last() =~= prev.last());
            if !char_is_whitespace(c) {
                push_char(&mut cur, c);
            }
        }
        i += 1;
    }
    assert(r@.take(n as int) =~= r@);
    let ghost whole = split_on(r@, ',');
    let ghost parts = strip_each(whole);
    let ghost old_done = done.deep_view();
    done.push(cur);
    assert(done.deep_view() =~= old_done.push(strip_whitespace(whole.last())));
    assert(whole =~= whole.drop_last().push(whole.last()));
    assert(strip_each(whole) =~= strip_each(whole.drop_last()).push(strip_whitespace(whole.last())));
    assert(done.deep_view() =~= parts);
    let k = done.len() - 1;
    assert(parts.last() == done@[k as int]@);
    if done[k].as_str().is_empty() {
        assert(parts.last() =~= Seq::<char>::empty());
        done.pop();
        assert(done.deep_view() =~= parts.drop_last());
    } else {
        assert(parts.last() != Seq::<char>::empty());
    }
    done
}

/// One row of a BOM table, as read from the table: part code, reference
/// field, value, name and quantity field.
pub struct BomRows {
    pub b_odoo: Option<usize>,
    pub b_ref: String,
    pub b_value: String,
    pub b_name: String,
    pub b_qnty: String,
}

/// What a table row holds, as text.
pub struct BomRow {
    pub odoo: Option<usize>,
    pub refs: Seq<char>,
    pub value: Seq<char>,
    pub name: Seq<char>,
    pub qnty: Seq<char>,
}

impl View for BomRows {
    type V = BomRow;

    open spec fn view(&self) -> BomRow {
        BomRow {
            odoo: self.b_odoo,
            refs: self.b_ref@,
            value: self.b_value@,
            name: self.b_name@,
            qnty: self.b_qnty@,
        }
    }
}

impl DeepView for BomRows {
    type V = BomRow;

    open spec fn deep_view(&self) -> BomRow {
        self@
    }
}

/// One entry of a BOM: part code, references, value, name, quantity.
#[derive(Debug, PartialEq)]
pub struct BomVec {
    pub b_odoo: Option<usize>,
    pub b_ref: Vec<String>,
    pub b_value: String,
    pub b_name: String,
    pub b_qnty: Option<usize>,
}

/// What a BOM entry holds.
#[verifier::ext_equal]
pub struct BomEntry {
    pub odoo: Option<usize>,
    pub refs: Seq<Seq<char>>,
    pub value: Seq<char>,
    pub name: Seq<char>,
    pub qnty: Option<usize>,
}

impl View for BomVec {
    type V = BomEntry;

    open spec fn view(&self) -> BomEntry {
        BomEntry {
            odoo: self.b_odoo,
            refs: self.b_ref.deep_view(),
            value: self.b_value@,
            name: self.b_name@,
            qnty: self.b_qnty,
        }
    }
}

impl DeepView for BomVec {
    type V = BomEntry;

    open spec fn deep_view(&self) -> BomEntry {
        self@
    }
}

/// The bytes of `.0`.
pub open spec fn dot_zero() -> Seq<u8> {
    seq![46u8, 48u8]
}

/// The bytes of `Ref`, which marks a header row.
pub open spec fn ref_marker() -> Seq<u8> {
    seq![82u8, 101u8, 102u8]
}

/// A quantity field holding `.0` and longer than two bytes loses its last two
/// bytes before it is read as a number (`12.0` is read as `12`).
pub open spec fn qnty_is_cut(q: Seq<u8>) -> bool {
    has_infix(q, dot_zero()) && q.len() > 2
}

/// The quantity that the UTF-8 quantity field `q` gives.
pub open spec fn qnty_value(q: Seq<u8>) -> Option<usize> {
    if qnty_is_cut(q) {
        parse_usize(q.take(q.len() - 2))
    } else {
        parse_usize(q)
    }
}

/// The quantity field can be cut: where it loses two bytes, these end a
/// character (else the table reader stops on the field).
pub open spec fn qnty_cut_defined(q: Seq<u8>) -> bool {
    qnty_is_cut(q) ==> is_char_boundary(q, q.len() - 2)
}

/// Whether the quantity field `q` can be read (see `qnty_cut_defined`).
pub fn qnty_field_is_readable(q: &str) -> (r: bool)
    ensures
        r == qnty_cut_defined(encode_utf8(q@)),
{
    let b = q.as_bytes();
    let dz: [u8; 2] = [46u8, 48u8];
    if bytes_contain(b, dz.as_slice()) && b.len() > 2 {
        q.is_char_boundary(b.len() - 2)
    } else {
        true
    }
}

/// Reads a quantity field.
pub fn parse_qnty(q: &str) -> (r: Option<usize>)
    requires
        qnty_cut_defined(encode_utf8(q@)),
    ensures
        r == qnty_value(encode_utf8(q@)),
{
    let b = q.as_bytes();
    let dz: [u8; 2] = [46u8, 48u8];
    if bytes_contain(b, dz.as_slice()) && b.len() > 2 {
        parse_usize_prefix(b, b.len() - 2)
    } else {
        assert(b@.take(b@.len() as int) =~= b@);
        parse_usize_prefix(b, b.len())
    }
}

/// What becomes of a table row.
pub enum RowOutcome {
    /// A header row (its reference field holds `Ref`): skipped.
    Header,
    /// A row whose reference field is shorter than two bytes: skipped with a
    /// warning that shows the quantity read from it.
    NoRefs(Option<usize>),
    /// A row that becomes this entry.
    Entry(BomVec),
}

/// What becomes of a table row, as values.
#[verifier::ext_equal]
pub enum RowResult {
    Header,
    NoRefs(Option<usize>),
    Entry(BomEntry),
}

impl View for RowOutcome {
    type V = RowResult;

    open spec fn view(&self) -> RowResult {
        match self {
            RowOutcome::Header => RowResult::Header,
            RowOutcome::NoRefs(q) => RowResult::NoRefs(*q),
            RowOutcome::Entry(b) => RowResult::Entry(b@),
        }
    }
}

/// What becomes of the row `r`.
pub open spec fn row_result(r: BomRow) -> RowResult {
    if is_header(r) {
        RowResult::Header
    } else if encode_utf8(r.refs).len() > 1 {
        RowResult::Entry(
            BomEntry {
                odoo: r.odoo,
                refs: ref_list(r.refs),
                value: r.value,
                name: r.name,
                qnty: qnty_value(encode_utf8(r.qnty)),
            },
        )
    } else {
        RowResult::NoRefs(qnty_value(encode_utf8(r.qnty)))
    }
}

/// The row is a header row: its reference field holds `Ref`.
pub open spec fn is_header(r: BomRow) -> bool {
    has_infix(encode_utf8(r.refs), ref_marker())
}

/// The row can be read: it is a header row, or its quantity field can be cut
/// (see `qnty_cut_defined`).
pub open spec fn row_readable(r: BomRow) -> bool {
    is_header(r) || qnty_cut_defined(encode_utf8(r.qnty))
}

/// Whether the row can be read (see `row_readable`).
pub fn row_is_readable(row: &BomRows) -> (r: bool)
    ensures
        r == row_readable(row@),
{
    let rm: [u8; 3] = [82u8, 101u8, 102u8];
    let rs = rm.as_slice();
    assert(rs@ =~= ref_marker());
    bytes_contain(row.b_ref.as_str().as_bytes(), rs) || qnty_field_is_readable(row.b_qnty.as_str())
}

/// Turns a table row into a BOM entry, or says why it is skipped.
pub fn bom_row_to_vec(row: &BomRows) -> (out: RowOutcome)
    requires
        row_readable(row@),
    ensures
        out@ == row_result(row@),
{
    let rm: [u8; 3] = [82u8, 101u8, 102u8];
    if bytes_contain(row.b_ref.as_str().as_bytes(), rm.as_slice()) {
        return RowOutcome::Header;
    }
    let qnty = parse_qnty(row.b_qnty.as_str());
    if row.b_ref.as_str().as_bytes().len() > 1 {
        let refs = split_refs(row.b_ref.as_str());
        let out = RowOutcome::Entry(
            BomVec {
                b_odoo: row.b_odoo,
                b_ref: refs,
                b_value: row.b_value.clone(),
                b_name: row.b_name.clone(),
                b_qnty: qnty,
            },
        );
        assert(out@ =~= row_result(row@));
        out
    } else {
        RowOutcome::NoRefs(qnty)
    }
}

/// The entries that the rows give, in their order.
pub open spec fn entries_of(rows: Seq<BomRow>) -> Seq<BomEntry>
    decreases rows.len(),
{
    if rows.len() == 0 {
        Seq::empty()
    } else {
        let e = entries_of(rows.drop_last());
        match row_result(rows.last()) {
            RowResult::Entry(b) => e.push(b),
            _ => e,
        }
    }
}

/// The rows skipped for want of references: their positions and the
/// quantities read from them, in their order.
pub open spec fn no_ref_rows_of(rows: Seq<BomRow>) -> Seq<(usize, Option<usize>)>
    decreases rows.len(),
{
    if rows.len() == 0 {
        Seq::empty()
    } else {
        let e = no_ref_rows_of(rows.drop_last());
        match row_result(rows.last()) {
            RowResult::NoRefs(q) => e.push(((rows.len() - 1) as usize, q)),
            _ => e,
        }
    }
}

/// Every quantity field of the rows can be read.
pub open spec fn rows_readable(rows: Seq<BomRow>) -> bool {
    forall|i: int| 0 <= i < rows.len() ==> row_readable(#[trigger] rows[i])
}

/// The entries of a table and the rows skipped for want of references.
pub struct BomLoad {
    pub boms: Vec<BomVec>,
    pub no_refs: Vec<(usize, Option<usize>)>,
}

/// Turns the rows of a table into BOM entries: header rows are skipped, and
/// rows with a reference field shorter than two bytes are skipped and listed.
pub fn bom_rows_to_vec(rows: &Vec<BomRows>) -> (load: BomLoad)
    requires
        rows_readable(rows.deep_view()),
    ensures
        load.boms.deep_view() == entries_of(rows.deep_view()),
        load.no_refs@ == no_ref_rows_of(rows.deep_view()),
{
    let mut boms: Vec<BomVec> = Vec::new();
    let mut no_refs: Vec<(usize, Option<usize>)> = Vec::new();
    let mut i: usize = 0;
    while i < rows.len()
        invariant
            i <= rows@.len(),
            rows_readable(rows.deep_view()),
            boms.deep_view() =~= entries_of(rows.deep_view().take(i as int)),
            no_refs@ =~= no_ref_rows_of(rows.deep_view().take(i as int)),
        decreases rows@.len() - i,
    {
        let ghost pre = rows.deep_view().take(i as int);
        let ghost post = rows.deep_view().take(i + 1);
        assert(post.drop_last() =~= pre);
        assert(post.last() == rows@[i as int]@);
        assert(rows.deep_view()[i as int] == rows@[i as int]@);
        assert(row_readable(rows.deep_view()[i as int]));
        match bom_row_to_vec(&rows[i]) {
            RowOutcome::Header => {},
            RowOutcome::NoRefs(q) => {
                no_refs.push((i, q));
            },
            RowOutcome::Entry(b) => {
                let ghost before = boms.deep_view();
                boms.push(b);
                assert(boms.deep_view() =~= before.push(b@));
            },
        }
        i += 1;
    }
    assert(rows.deep_view().take(rows@.len() as int) =~= rows.deep_view());
    BomLoad { boms, no_refs }
}

} // verus!
