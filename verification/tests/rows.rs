use checkbom::config::ConfigError;
use checkbom::format::format_bomvec;
use checkbom::rows::{
    bom_row_to_vec, bom_rows_to_vec, parse_qnty, qnty_field_is_readable, split_refs, RowOutcome,
};
use checkbom::search::{search7, split_whitespace_indices};
use checkbom::text::{bytes_contain, char_is_whitespace, str_contains};
use checkbom::{BomRows, BomVec, Config, CsvDelim};

fn row(odoo: Option<usize>, r: &str, value: &str, name: &str, qnty: &str) -> BomRows {
    BomRows {
        b_odoo: odoo,
        b_ref: r.to_string(),
        b_value: value.to_string(),
        b_name: name.to_string(),
        b_qnty: qnty.to_string(),
    }
}

#[test]
fn rows_of_a_table_become_entries() {
    // the rows of the sample BOM1 table
    let rows = vec![
        row(Some(1717), "C56, ", "1uF", "C_1uF_25V_SMD_0603", "1"),
        row(None, "C57, C58, ", "100pF", "Chip ceramic capacitor 0603 100 pF", "2"),
        row(Some(1813), "C63,", "22pF", "C_22pF_50V_SMD_0603", "1"),
        row(Some(3354), "C64, C72", "100uF", "Aluminum capacitors RVZ series 100uF", "2"),
    ];
    let load = bom_rows_to_vec(&rows);
    let av = &load.boms[0..4];
    assert_eq!(Some(1717), av.get(0).unwrap().b_odoo);
    assert_eq!(None, av.get(1).unwrap().b_odoo);
    assert_eq!(Some(1813), av.get(2).unwrap().b_odoo);
    assert_eq!(Some(3354), av.get(3).unwrap().b_odoo);
    assert_eq!("C56", av.get(0).unwrap().b_ref.get(0).unwrap());
    assert_eq!("C63", av.get(2).unwrap().b_ref.get(0).unwrap());
    assert_eq!("C72", av.get(3).unwrap().b_ref.get(1).unwrap());
    assert_eq!(av[1].b_ref, vec!["C57".to_string(), "C58".to_string()]);
    assert_eq!(av[3].b_qnty, Some(2));
    assert!(load.no_refs.is_empty());
}

#[test]
fn header_and_short_rows_are_skipped() {
    let rows = vec![
        row(None, "Ref", "Value", "Name", "Qnty"),
        row(Some(1), "C", "1uF", "cap", "3.0"),
        row(Some(2), "R1,", "10k", "res", "1"),
    ];
    let load = bom_rows_to_vec(&rows);
    assert_eq!(load.boms.len(), 1);
    assert_eq!(load.boms[0].b_ref, vec!["R1".to_string()]);
    assert_eq!(load.no_refs, vec![(1, Some(3))]);
    assert!(matches!(bom_row_to_vec(&rows[0]), RowOutcome::Header));
    assert!(matches!(bom_row_to_vec(&rows[1]), RowOutcome::NoRefs(Some(3))));
}

#[test]
fn reference_fields_split_at_commas() {
    assert_eq!(split_refs("C1, C2, C3,"), vec!["C1", "C2", "C3"]);
    assert_eq!(split_refs("C 1,\tC2"), vec!["C1", "C2"]);
    assert_eq!(split_refs("  "), Vec::<String>::new());
    assert_eq!(split_refs(",,"), vec!["", ""]);
    assert_eq!(split_refs("R1\u{3000}, R2"), vec!["R1", "R2"]);
}

#[test]
fn quantity_fields_are_read_as_numbers() {
    assert_eq!(parse_qnty("12.0"), Some(12));
    assert_eq!(parse_qnty("12"), Some(12));
    assert_eq!(parse_qnty("+4"), Some(4));
    assert_eq!(parse_qnty("1.5"), None);
    assert_eq!(parse_qnty(".0"), None);
    assert_eq!(parse_qnty("-1"), None);
    assert_eq!(parse_qnty(""), None);
    assert_eq!(parse_qnty("abc"), None);
    assert_eq!(parse_qnty("18446744073709551615"), Some(usize::MAX));
    assert_eq!(parse_qnty("18446744073709551616"), None);
    assert_eq!(parse_qnty("3.0.0"), None);
    assert!(qnty_field_is_readable("12.0"));
    assert!(qnty_field_is_readable("2.0é"));
    assert!(!qnty_field_is_readable("2.0€"));
}

#[test]
fn command_line_is_read() {
    let args = |v: &[&str]| v.iter().map(|s| s.to_string()).collect::<Vec<String>>();
    let c = Config::new(args(&["checkbom", "tz", "bom1.csv", "bom2.CSV"])).unwrap();
    assert_eq!(c.bom1, "bom1.csv");
    assert_eq!(c.bom2, "bom2.CSV");
    assert_eq!(c.delim1, CsvDelim::Tab);
    assert_eq!(c.delim2, CsvDelim::Zap);
    let c = Config::new(args(&["checkbom", "zt", "a", "b"])).unwrap();
    assert_eq!((c.delim1, c.delim2), (CsvDelim::Zap, CsvDelim::Tab));
    assert_eq!(Config::new(args(&["checkbom", "h"])).err(), Some(ConfigError::Help));
    assert_eq!(Config::new(args(&["checkbom", "x"])).err(), Some(ConfigError::UnknownArguments));
    assert_eq!(Config::new(args(&["checkbom"])).err(), Some(ConfigError::UnknownArguments));
    assert_eq!(Config::new(args(&["checkbom", "a", "b"])).err(), Some(ConfigError::NotThreeArguments));
    assert_eq!(
        Config::new(args(&["checkbom", "a", "b", "c", "d"])).err(),
        Some(ConfigError::UnknownArguments)
    );
    assert_eq!(
        Config::new(args(&["checkbom", "tx", "a", "b"])).err(),
        Some(ConfigError::UnknownDelimiters)
    );
    assert_eq!(
        Config::new(args(&["checkbom", "ttt", "a", "b"])).err(),
        Some(ConfigError::UnknownDelimiters)
    );
    assert_eq!(ConfigError::NotThreeArguments.message(), "Must be 3 arguments. Try h for help.");
    assert_eq!(ConfigError::UnknownArguments.message(), "Unknown arguments. Try h for help.");
    assert_eq!(
        ConfigError::UnknownDelimiters.message(),
        "Unknown delimiters arguments. Try h for help."
    );
    assert_eq!(CsvDelim::Tab.byte(), b'\t');
    assert_eq!(CsvDelim::Zap.byte(), b',');
}

#[test]
fn entry_lines_are_formatted() {
    let b = BomVec {
        b_odoo: Some(1234),
        b_ref: vec!["C1".to_string(), "C2".to_string()],
        b_value: "100n".to_string(),
        b_name: "cap".to_string(),
        b_qnty: Some(2),
    };
    let c = BomVec { b_odoo: None, b_ref: vec![], b_value: "1k".to_string(), b_name: "res".to_string(), b_qnty: None };
    assert_eq!(format_bomvec("", "", Some(&b), Some(&c)), "1234\tC1, C2, \t100n\tcap\t2\t-\t\t1k\tres\t-\t");
    assert_eq!(format_bomvec("x", "", Some(&b), None), "1234\t\t100n\tcap\t2\t\t\t\t\t\t");
    assert_eq!(format_bomvec("", "m", None, None), "\t\t\t\t\t\tm\t\t\t\t");
    // a number shown in a cell reads back as the same quantity
    let line = format_bomvec("", "", Some(&b), None);
    let cells: Vec<&str> = line.split('\t').collect();
    assert_eq!(parse_qnty(cells[0]), Some(1234));
}

#[test]
fn lines_holding_a_query_are_found() {
    let text = "foo\r\nbar baz\nqux foo\n\nlast foo\r";
    let hits = search7("foo", text);
    assert_eq!(hits, vec![(0, "foo"), (2, "qux foo"), (4, "last foo\r")]);
    assert_eq!(search7("zzz", text), vec![]);
    assert_eq!(search7("", "a\nb\n"), vec![(0, "a"), (1, "b")]);
}

#[test]
fn search_over_joined_texts() {
    let a = "x foo\ny";
    let b = "foo\r\nbar\nfoo";
    let joined = format!("{}\n{}", a, b);
    let first = search7("foo", a);
    let second = search7("foo", b);
    let lines_a = a.lines().count();
    let mut expected: Vec<(usize, &str)> = first.clone();
    for (i, l) in second {
        expected.push((i + lines_a, l));
    }
    assert_eq!(search7("foo", &joined), expected);
    assert_eq!(expected, vec![(0, "x foo"), (2, "foo"), (4, "foo")]);
}

#[test]
fn words_come_with_their_byte_offsets() {
    let mut iter = split_whitespace_indices(" Hello world").into_iter();
    assert_eq!(Some((1, "Hello")), iter.next());
    assert_eq!(Some((7, "world")), iter.next());
    assert_eq!(split_whitespace_indices("é  ab\tc "), vec![(0, "é"), (4, "ab"), (7, "c")]);
    assert_eq!(split_whitespace_indices("   "), vec![]);
}

#[test]
fn substring_search_and_whitespace() {
    assert!(bytes_contain(b"abcDNPx", b"DNP"));
    assert!(!bytes_contain(b"DN", b"DNP"));
    assert!(bytes_contain(b"", b""));
    assert!(str_contains("10k DNP", "DNP"));
    assert!(char_is_whitespace('\u{a0}'));
    assert!(!char_is_whitespace('x'));
}
