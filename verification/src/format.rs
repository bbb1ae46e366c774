//! The text of a table line that shows BOM entries.

use vstd::prelude::*;
use vstd::string::StringExecFns;
use crate::rows::{BomEntry, BomVec};
use crate::text::{decimal, push_char, push_decimal};

verus! {

/// A number cell: the number and a tab, or `-` and a tab where there is none.
pub open spec fn number_cell(o: Option<usize>) -> Seq<char> {
    match o {
        Some(v) => decimal(v as nat).push('\t'),
        None => seq!['-', '\t'],
    }
}

/// The references, each followed by a comma and a space.
pub open spec fn refs_cell(refs: Seq<Seq<char>>) -> Seq<char>
    decreases refs.len(),
{
    if refs.len() == 0 {
        Seq::empty()
    } else {
        refs_cell(refs.drop_last()) + refs.last() + seq![',', ' ']
    }
}

/// One side of a line: the entry's part code, references (only when the
/// message is empty), value, name and quantity, separated by tabs; or, with
/// no entry, the message between empty cells.
pub open spec fn side_text(mes: Seq<char>, b: Option<BomEntry>) -> Seq<char> {
    match b {
        Some(e) => number_cell(e.odoo) + (if mes.len() == 0 {
            refs_cell(e.refs)
        } else {
            Seq::empty()
        }) + seq!['\t'] + e.value + seq!['\t'] + e.name + seq!['\t'] + number_cell(e.qnty),
        None => seq!['\t'] + mes + seq!['\t', '\t', '\t', '\t'],
    }
}

/// The line that shows two entries (or messages) side by side.
pub open spec fn bomvec_line(
    mes1: Seq<char>,
    mes2: Seq<char>,
    b1: Option<BomEntry>,
    b2: Option<BomEntry>,
) -> Seq<char> {
    side_text(mes1, b1) + side_text(mes2, b2)
}

fn push_number_cell(s: &mut String, o: Option<usize>)
    ensures
        final(s)@ == old(s)@ + number_cell(o),
{
    match o {
        Some(v) => {
            push_decimal(s, v);
            push_char(s, '\t');
        },
        None => {
            push_char(s, '-');
            push_char(s, '\t');
        },
    }
    assert(final(s)@ =~= old(s)@ + number_cell(o));
}

fn push_side(s: &mut String, mes: &str, b: Option<&BomVec>)
    ensures
        final(s)@ == old(s)@ + side_text(mes@, match b {
            Some(e) => Some(e@),
            None => None,
        }),
{
    match b {
        Some(e) => {
            push_number_cell(s, e.b_odoo);
            let ghost after_odoo = s@;
            if mes.unicode_len() == 0 {
                let mut i: usize = 0;
                while i < e.b_ref.len()
                    invariant
                        i <= e.b_ref@.len(),
                        s@ =~= after_odoo + refs_cell(e.b_ref.deep_view().take(i as int)),
                    decreases e.b_ref@.len() - i,
                {
                    let ghost before = s@;
                    s.append(e.b_ref[i].as_str());
                    push_char(s, ',');
                    push_char(s, ' ');
                    let ghost t = e.b_ref.deep_view().take(i + 1);
                    assert(t.drop_last() =~= e.b_ref.deep_view().take(i as int));
                    assert(t.last() == e.b_ref@[i as int]@);
                    assert(s@ =~= before + e.b_ref@[i as int]@ + seq![',', ' ']);
                    i += 1;
                }
                assert(e.b_ref.deep_view().take(e.b_ref@.len() as int) =~= e.b_ref.deep_view());
            }
            let ghost after_refs = s@;
            push_char(s, '\t');
            s.append(e.b_value.as_str());
            push_char(s, '\t');
            s.append(e.b_name.as_str());
            push_char(s, '\t');
            assert(s@ =~= after_refs + seq!['\t'] + e@.value + seq!['\t'] + e@.name + seq!['\t']);
            push_number_cell(s, e.b_qnty);
        },
        None => {
            push_char(s, '\t');
            s.append(mes);
            push_char(s, '\t');
            push_char(s, '\t');
            push_char(s, '\t');
            push_char(s, '\t');
        },
    }
    assert(final(s)@ =~= old(s)@ + side_text(mes@, match b {
        Some(e) => Some(e@),
        None => None,
    }));
}

/// The line that shows the entries `obom1` and `obom2` side by side (a side
/// without an entry shows its message instead).
pub fn format_bomvec(mes1: &str, mes2: &str, obom1: Option<&BomVec>, obom2: Option<&BomVec>) -> (line: String)
    ensures
        line@ == bomvec_line(mes1@, mes2@, match obom1 {
            Some(e) => Some(e@),
            None => None,
        }, match obom2 {
            Some(e) => Some(e@),
            None => None,
        }),
{
    let mut s = String::new();
    push_side(&mut s, mes1, obom1);
    push_side(&mut s, mes2, obom2);
    assert(s@ =~= bomvec_line(mes1@, mes2@, match obom1 {
        Some(e) => Some(e@),
        None => None,
    }, match obom2 {
        Some(e) => Some(e@),
        None => None,
    }));
    s
}

/// The header line of the final table: the columns of a BOM1 entry, then
/// those of a BOM2 entry.
pub fn table_header() -> (h: &'static str)
    ensures
        h@ == "Odoo\tRef\tValue\tName\tQnty\tOdoo2\tRef2\tValue2\tName2\tQnty2"@,
{
    "Odoo\tRef\tValue\tName\tQnty\tOdoo2\tRef2\tValue2\tName2\tQnty2"
}

} // verus!
