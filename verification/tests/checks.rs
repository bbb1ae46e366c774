use checkbom::check::{
    boms_to_hash, check_boms, check_odoo, check_qnty, check_ref_to_name, final_table, HashNote,
    NameNote, OdooNote, QntyNote, QntyStage,
};
use checkbom::index::RefNote;
use checkbom::BomVec;

fn entry(odoo: Option<usize>, refs: &[&str], value: &str, name: &str, qnty: Option<usize>) -> BomVec {
    BomVec {
        b_odoo: odoo,
        b_ref: refs.iter().map(|r| r.to_string()).collect(),
        b_value: value.to_string(),
        b_name: name.to_string(),
        b_qnty: qnty,
    }
}

#[test]
pub fn test_boms_to_hash() {
    let mut bom1: Vec<BomVec> = Vec::new();
    let mut bom2: Vec<BomVec> = Vec::new();
    let ins = BomVec {
        b_odoo: Some(1234),
        b_ref: vec!["C1".to_string(), "C2".to_string(), "C3".to_string()],
        b_value: "100n".to_string(),
        b_name: "capacitor 0,1uF ceramic SMD_0603".to_string(),
        b_qnty: Some(3),
    };
    bom1.push(ins);
    let ins = BomVec {
        b_odoo: Some(1234),
        b_ref: vec!["C1".to_string(), "C2".to_string(), "C3".to_string()],
        b_value: "100n".to_string(),
        b_name: "capacitor 0,1uF ceramic murata SMD_0603".to_string(),
        b_qnty: Some(3),
    };
    bom2.push(ins);
    let (ae1, as1) = boms_to_hash(&bom1, &bom2);
    assert_eq!(ae1, 0);
    let c1 = *as1.bom1.refs.get(&"C1".to_string()).unwrap();
    assert_eq!(bom1[c1].b_odoo.unwrap(), 1234);
    let c3 = *as1.bom1.refs.get(&"C3".to_string()).unwrap();
    assert_eq!(bom1[c3].b_name, "capacitor 0,1uF ceramic SMD_0603");
    let c2 = *as1.bom2.refs.get(&"C2".to_string()).unwrap();
    assert_eq!(bom2[c2].b_qnty.unwrap(), 3);
    let ats = as1
        .bom1
        .name_rows
        .get(&"capacitor 0,1uF ceramic SMD_0603".to_string())
        .unwrap();
    let ats2 = bom1[ats[0]].b_odoo.unwrap();
    assert_eq!(ats2, 1234);
    assert_eq!(bom1[ats[0]].b_ref[1], "C2");
}

#[test]
fn repeated_and_missing_references_are_errors() {
    let bom1 = vec![
        entry(Some(1), &["C1", "C2"], "1uF", "cap", Some(2)),
        entry(Some(1), &["C2", "C3"], "1uF", "cap", Some(2)),
    ];
    let bom2 = vec![entry(Some(1), &["C1", "C4"], "1uF", "cap", Some(2))];
    let (err, hb) = boms_to_hash(&bom1, &bom2);
    // C2 repeated in BOM1; C2 and C3 missing from BOM2; C4 missing from BOM1
    assert_eq!(err, 4);
    assert_eq!(hb.bom1.dups, 1);
    // four references in all: three distinct ones and one repetition
    assert_eq!(hb.bom1.refs.len() + hb.bom1.dups, 4);
    assert_eq!(hb.bom1.notes, vec![RefNote::Duplicate(1, 0)]);
    // the repeated reference stays indexed to the first entry that holds it
    assert_eq!(*hb.bom1.refs.get(&"C2".to_string()).unwrap(), 0);
    assert_eq!(
        hb.notes,
        vec![
            HashNote::Ref1(RefNote::Duplicate(1, 0)),
            HashNote::NotIn2(1),
            HashNote::NotIn2(2),
            HashNote::NotIn1(1),
        ]
    );
    assert_eq!(hb.bom1.refs.key_at(2), "C3");
    assert_eq!(hb.bom2.refs.key_at(1), "C4");
}

#[test]
fn empty_reference_is_noted_but_not_an_error() {
    let bom1 = vec![entry(None, &["", "R1"], "10k", "res", Some(2))];
    let bom2 = vec![entry(None, &["", "R1"], "10k", "res", Some(2))];
    let (err, hb) = boms_to_hash(&bom1, &bom2);
    assert_eq!(err, 0);
    assert_eq!(hb.bom1.notes, vec![RefNote::Empty(0, 0)]);
    assert_eq!(hb.notes, vec![HashNote::Ref1(RefNote::Empty(0, 0)), HashNote::Ref2(RefNote::Empty(0, 0))]);
}

#[test]
fn dnp_entries_are_kept_apart() {
    let bom1 = vec![
        entry(Some(5), &["R1"], "10k", "res", Some(1)),
        entry(Some(5), &["R2"], "10k DNP", "res", Some(1)),
    ];
    let bom2 = vec![entry(Some(5), &["R1"], "10k", "res", Some(1))];
    let (err, hb) = boms_to_hash(&bom1, &bom2);
    assert_eq!(err, 0);
    assert!(hb.bom1.refs.get(&"R2".to_string()).is_none());
    assert_eq!(*hb.bom1.dnp_rows.get(&"res".to_string()).unwrap(), vec![1]);
    assert_eq!(*hb.bom1.name_rows.get(&"res".to_string()).unwrap(), vec![0]);
}

#[test]
fn entries_of_a_name_are_listed_unless_their_first_reference_is_known() {
    let bom = vec![
        entry(Some(1), &["C1", "C2"], "1uF", "cap", Some(2)),
        entry(Some(1), &["C3"], "1uF", "cap", Some(1)),
        entry(Some(1), &["C2", "C9"], "1uF", "cap", Some(2)),
    ];
    let (_, hb) = boms_to_hash(&bom, &bom);
    assert_eq!(*hb.bom1.name_rows.get(&"cap".to_string()).unwrap(), vec![0, 1]);
    let refs = hb.bom1.names.get(&"cap".to_string()).unwrap();
    assert_eq!(*refs, vec!["C1".to_string(), "C2".to_string(), "C3".to_string(), "C9".to_string()]);
}

#[test]
fn names_must_agree_across_boms() {
    let bom1 = vec![entry(Some(1), &["C1", "C2", "C3"], "1uF", "cap", Some(3))];
    let bom2 = vec![
        entry(Some(1), &["C1", "C2"], "1uF", "cap A", Some(2)),
        entry(Some(1), &["C3"], "1uF", "cap B", Some(1)),
    ];
    let (err, hb) = boms_to_hash(&bom1, &bom2);
    assert_eq!(err, 0);
    let (n, notes) = check_ref_to_name(&bom1, &bom2, &hb);
    // C3 is named "cap B" in BOM2 while C1 is "cap A"; BOM2's lists agree in BOM1
    assert_eq!(n, 1);
    assert_eq!(notes, vec![NameNote::In1(0, 2)]);
}

#[test]
fn part_codes_within_a_name_must_agree() {
    let bom1 = vec![
        entry(Some(7), &["C1"], "1uF", "cap", Some(1)),
        entry(None, &["C2"], "1uF", "cap", Some(1)),
        entry(Some(8), &["C3"], "1uF", "cap", Some(1)),
    ];
    let (err, hb) = boms_to_hash(&bom1, &bom1);
    assert_eq!(err, 0);
    let (n, notes) = check_odoo(&bom1, &bom1, &hb);
    assert_eq!(n, 2);
    assert_eq!(
        notes,
        vec![
            OdooNote::Clash { first: true, k: 0, p: 2, q: 0 },
            OdooNote::Mixed { first: true, k: 0 },
            OdooNote::Clash { first: false, k: 0, p: 2, q: 0 },
            OdooNote::Mixed { first: false, k: 0 },
        ]
    );
}

#[test]
fn part_codes_must_agree_across_boms() {
    let bom1 = vec![
        entry(None, &["C1"], "1uF", "cap", Some(1)),
        entry(Some(3), &["C2"], "1uF", "cap", Some(1)),
    ];
    let bom2 = vec![
        entry(Some(4), &["C1"], "1uF", "cap", Some(1)),
        entry(Some(4), &["C2"], "1uF", "cap", Some(1)),
    ];
    let (err, hb) = boms_to_hash(&bom1, &bom2);
    assert_eq!(err, 0);
    let (n, notes) = check_odoo(&bom1, &bom2, &hb);
    assert_eq!(n, 1);
    assert_eq!(
        notes,
        vec![
            OdooNote::Mixed { first: true, k: 0 },
            OdooNote::Cross { k: 0, p: 1, o1: 3, o2: 4 },
        ]
    );
}

#[test]
fn quantities_must_match_references_and_totals() {
    let bom1 = vec![
        entry(Some(1), &["C1", "C2"], "1uF", "cap", Some(2)),
        entry(Some(1), &["C3"], "1uF", "cap", Some(1)),
    ];
    let bom2 = vec![entry(Some(1), &["C1", "C2", "C3"], "1uF", "cap", Some(3))];
    let (_, hb) = boms_to_hash(&bom1, &bom2);
    let (n, notes) = check_qnty(&bom1, &bom2, &hb);
    assert_eq!(n, 0);
    assert!(notes.is_empty());

    let bom2 = vec![entry(Some(1), &["C1", "C2", "C3"], "1uF", "cap", Some(4))];
    let (_, hb) = boms_to_hash(&bom1, &bom2);
    let (n, notes) = check_qnty(&bom1, &bom2, &hb);
    assert_eq!(n, 1);
    assert_eq!(notes, vec![QntyNote::QntyRefs { first: false, k: 0, p: 0 }]);

    let bom2 = vec![
        entry(Some(1), &["C1", "C2"], "1uF", "cap", Some(2)),
        entry(Some(1), &["C3"], "1uF", "cap", None),
    ];
    let (_, hb) = boms_to_hash(&bom1, &bom2);
    let (n, notes) = check_qnty(&bom1, &bom2, &hb);
    assert_eq!(n, 1);
    assert_eq!(notes, vec![QntyNote::NoQnty { first: false, k: 0, p: 1 }]);
}

#[test]
fn quantity_totals_differ() {
    let bom1 = vec![entry(Some(1), &["C1", "C2"], "1uF", "cap", Some(2))];
    let bom2 = vec![
        entry(Some(1), &["C1"], "1uF", "cap", Some(1)),
        entry(Some(1), &["C2"], "1uF", "cap2", Some(1)),
    ];
    let (_, hb) = boms_to_hash(&bom1, &bom2);
    let (n, notes) = check_qnty(&bom1, &bom2, &hb);
    assert_eq!(n, 1);
    assert_eq!(notes, vec![QntyNote::Totals { k: 0, k2: 0 }]);
}

#[test]
fn final_table_shows_each_entry_once() {
    let bom1 = vec![
        entry(Some(1), &["C1", "C2"], "1uF", "cap", Some(2)),
        entry(Some(2), &["R1"], "10k", "res", Some(1)),
    ];
    let bom2 = vec![
        entry(Some(1), &["C1"], "1uF", "cap", Some(1)),
        entry(Some(1), &["C2"], "1uF", "cap", Some(1)),
        entry(Some(2), &["R1"], "10k", "res", Some(1)),
    ];
    let (err, hb) = boms_to_hash(&bom1, &bom2);
    assert_eq!(err, 0);
    let lines = final_table(&bom1, &bom2, &hb);
    assert_eq!(lines, vec![(Some(0), Some(0)), (None, Some(1)), (Some(1), Some(2))]);
}

#[test]
fn check_boms_runs_all_stages_on_matching_boms() {
    let bom1 = vec![
        entry(Some(1), &["C1", "C2"], "1uF", "cap", Some(2)),
        entry(Some(2), &["R1"], "10k", "res", Some(1)),
        entry(Some(3), &["R9"], "10k DNP", "res", Some(1)),
    ];
    let bom2 = vec![
        entry(Some(1), &["C1", "C2"], "1uF", "cap", Some(2)),
        entry(Some(2), &["R1"], "10k", "res", Some(1)),
    ];
    let c = check_boms(&bom1, &bom2);
    assert_eq!(c.ref_errors, 0);
    assert_eq!(c.names.as_ref().unwrap().0, 0);
    assert_eq!(c.odoo.as_ref().unwrap().0, 0);
    match c.qnty.as_ref().unwrap() {
        QntyStage::Done(n, _) => assert_eq!(*n, 0),
        QntyStage::Stopped { .. } => panic!("the quantity check is defined here"),
    }
    assert_eq!(c.table.unwrap(), vec![(Some(0), Some(0)), (Some(1), Some(1))]);
}

#[test]
fn check_boms_stops_at_the_first_failing_stage() {
    let bom1 = vec![entry(Some(1), &["C1"], "1uF", "cap", Some(1))];
    let bom2 = vec![entry(Some(1), &["C2"], "1uF", "cap", Some(1))];
    let c = check_boms(&bom1, &bom2);
    assert_eq!(c.ref_errors, 2);
    assert!(c.names.is_none() && c.odoo.is_none() && c.qnty.is_none() && c.table.is_none());

    let bom2 = vec![entry(Some(2), &["C1"], "1uF", "cap", Some(1))];
    let c = check_boms(&bom1, &bom2);
    assert_eq!(c.ref_errors, 0);
    assert_eq!(c.names.as_ref().unwrap().0, 0);
    assert_eq!(c.odoo.as_ref().unwrap().0, 1);
    assert!(c.qnty.is_none() && c.table.is_none());
}

#[test]
fn quantity_check_stops_on_an_entry_without_references() {
    let bom1 = vec![entry(Some(1), &[], "1uF", "cap", Some(0))];
    let bom2 = vec![entry(Some(1), &[], "1uF", "cap", Some(0))];
    let c = check_boms(&bom1, &bom2);
    assert_eq!(c.odoo.as_ref().unwrap().0, 0);
    assert!(matches!(c.qnty, Some(QntyStage::Stopped { k: 0, .. })));
    assert!(c.table.is_none());
}

#[test]
fn stopped_quantity_check_keeps_the_findings_before_it() {
    let bom1 = vec![
        entry(Some(1), &["C1"], "1uF", "cap", None),
        entry(Some(2), &[], "1k", "res", Some(0)),
    ];
    let bom2 = vec![
        entry(Some(1), &["C1"], "1uF", "cap", Some(1)),
        entry(Some(2), &[], "1k", "res", Some(0)),
    ];
    let c = check_boms(&bom1, &bom2);
    assert_eq!(c.odoo.as_ref().unwrap().0, 0);
    match c.qnty.as_ref().unwrap() {
        QntyStage::Stopped { k, notes } => {
            assert_eq!(*k, 1);
            assert_eq!(*notes, vec![QntyNote::NoQnty { first: true, k: 0, p: 0 }]);
        }
        QntyStage::Done(..) => panic!("the quantity check stops on the second list"),
    }
}

#[test]
fn dnp_entries_are_listed_name_by_name() {
    let bom = vec![
        entry(Some(5), &["R1"], "10k", "res", Some(1)),
        entry(Some(5), &["R2"], "10k DNP", "res", Some(1)),
        entry(Some(6), &["C9"], "DNP", "cap", Some(1)),
        entry(Some(5), &["R3"], "DNP 10k", "res", Some(1)),
    ];
    let (_, hb) = boms_to_hash(&bom, &bom);
    assert_eq!(hb.bom1.dnp_entries(), vec![1, 3, 2]);
    assert_eq!(
        checkbom::format::table_header(),
        "Odoo\tRef\tValue\tName\tQnty\tOdoo2\tRef2\tValue2\tName2\tQnty2"
    );
}
