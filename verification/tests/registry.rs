use csv::ByteRecord;
use iitree::record::parse_line;
use iitree::registry::Registry;

fn chr1() -> Registry {
    let mut r = Registry::new();
    r.add("chr1", 10, 20);
    r.add("chr1", 15, 25);
    r.add("chr1", 30, 40);
    r.build();
    r
}

#[test]
fn new_registry_is_open_and_empty() {
    let r = Registry::new();
    assert!(!r.finalized());
    assert!(!r.contains("chr1"));
    assert_eq!(r.count("chr1"), 0);
}

#[test]
fn records_are_filed_by_key() {
    let mut r = Registry::new();
    r.add("chr1", 10, 20);
    r.add("chr2", 1, 2);
    r.add("chr1", 15, 25);
    assert!(r.contains("chr1"));
    assert!(r.contains("chr2"));
    assert!(!r.contains("chr3"));
    assert_eq!(r.count("chr1"), 2);
    assert_eq!(r.count("chr2"), 1);
    assert!(!r.finalized());
    r.build();
    assert!(r.finalized());
    assert_eq!(r.count("chr1"), 2);
}

#[test]
fn query_known_key() {
    let mut r = chr1();
    assert_eq!(r.query("chr1", 12, 22), (12, 22, 2, 10));
}

#[test]
fn query_unknown_key() {
    let mut r = chr1();
    assert_eq!(r.query("chr2", 0, 100), (0, 100, 0, 0));
}

#[test]
fn query_empty_registry() {
    let mut r = Registry::new();
    r.build();
    assert_eq!(r.query("chr1", 0, 100), (0, 100, 0, 0));
}

#[test]
fn keys_do_not_mix() {
    let mut r = Registry::new();
    r.add("a", 0, 5);
    r.add("b", 8, 10);
    r.add("a", 8, 10);
    r.add("b", 100, 200);
    r.build();
    assert_eq!(r.query("a", 0, 10), (0, 10, 2, 7));
    assert_eq!(r.query("b", 0, 10), (0, 10, 1, 2));
    assert_eq!(r.query("b", 0, 1000), (0, 1000, 2, 102));
}

#[test]
fn grouped_records_need_not_be_contiguous() {
    let mut r = Registry::new();
    for i in 0..50 {
        r.add("x", i * 10, i * 10 + 5);
        r.add("y", i * 10 + 5, i * 10 + 10);
    }
    r.build();
    assert_eq!(r.query("x", 0, 500), (0, 500, 50, 250));
    assert_eq!(r.query("y", 0, 500), (0, 500, 50, 250));
    assert_eq!(r.query("x", 3, 12), (3, 12, 2, 4));
}

#[test]
fn query_twice_is_the_same() {
    let mut r = chr1();
    let first = r.query("chr1", 0, 35);
    assert_eq!(first, (0, 35, 3, 20));
    assert_eq!(r.query("chr1", 0, 35), first);
}

#[test]
fn records_flow_from_rows_to_answers() {
    let index_rows = vec![
        vec!["chr1", "10", "20"],
        vec!["chr2", "0", "5"],
        vec!["chr1", "30", "40"],
        vec!["chr1", "15", "25"],
        vec!["chr2", "8", "10"],
    ];
    let mut r = Registry::new();
    for row in index_rows {
        let record = ByteRecord::from(row);
        let (key, st, en) = parse_line(&record).unwrap();
        r.add(key, st, en);
    }
    r.build();
    let queries = vec![
        (vec!["chr1", "12", "22"], (12, 22, 2, 10)),
        (vec!["chr2", "0", "10"], (0, 10, 2, 7)),
        (vec!["chr3", "0", "100"], (0, 100, 0, 0)),
    ];
    for (row, want) in queries {
        let record = ByteRecord::from(row);
        let (key, st, en) = parse_line(&record).unwrap();
        assert_eq!(r.query(key, st, en), want);
    }
}
