use csv::ByteRecord;
use iitree::record::{parse_i32, parse_line};

#[test]
fn plain_row() {
    let r = ByteRecord::from(vec!["chr1", "10", "20"]);
    assert_eq!(parse_line(&r), Some(("chr1", 10, 20)));
}

#[test]
fn fields_are_read_in_order() {
    let r = ByteRecord::from(vec!["7", "8", "9"]);
    assert_eq!(parse_line(&r), Some(("7", 8, 9)));
}

#[test]
fn extra_fields_are_ignored() {
    let r = ByteRecord::from(vec!["chrX", "-5", "+7", "name", "0", "+"]);
    assert_eq!(parse_line(&r), Some(("chrX", -5, 7)));
}

#[test]
fn key_may_be_any_text() {
    let r = ByteRecord::from(vec!["clé π", "1", "2"]);
    assert_eq!(parse_line(&r), Some(("clé π", 1, 2)));
    let r = ByteRecord::from(vec!["", "1", "2"]);
    assert_eq!(parse_line(&r), Some(("", 1, 2)));
}

#[test]
fn too_few_fields() {
    assert_eq!(parse_line(&ByteRecord::new()), None);
    assert_eq!(parse_line(&ByteRecord::from(vec!["chr1"])), None);
    assert_eq!(parse_line(&ByteRecord::from(vec!["chr1", "10"])), None);
}

#[test]
fn coordinates_must_be_numbers() {
    assert_eq!(parse_line(&ByteRecord::from(vec!["chr1", "ten", "20"])), None);
    assert_eq!(parse_line(&ByteRecord::from(vec!["chr1", "10", "20.5"])), None);
    assert_eq!(parse_line(&ByteRecord::from(vec!["chr1", "", "20"])), None);
    assert_eq!(parse_line(&ByteRecord::from(vec!["chr1", " 10", "20"])), None);
    assert_eq!(parse_line(&ByteRecord::from(vec!["chr1", "10", "3000000000"])), None);
}

#[test]
fn key_must_be_text() {
    let mut r = ByteRecord::new();
    r.push_field(&[0xff, 0xfe]);
    r.push_field(b"1");
    r.push_field(b"2");
    assert_eq!(parse_line(&r), None);
}

#[test]
fn numbers_in_base_ten() {
    assert_eq!(parse_i32(b"0"), Some(0));
    assert_eq!(parse_i32(b"42"), Some(42));
    assert_eq!(parse_i32(b"007"), Some(7));
    assert_eq!(parse_i32(b"+42"), Some(42));
    assert_eq!(parse_i32(b"-42"), Some(-42));
    assert_eq!(parse_i32(b"-0"), Some(0));
    assert_eq!(parse_i32(b"2147483647"), Some(i32::MAX));
    assert_eq!(parse_i32(b"-2147483648"), Some(i32::MIN));
    assert_eq!(parse_i32(b"0000000000000000000012"), Some(12));
}

#[test]
fn not_numbers() {
    assert_eq!(parse_i32(b""), None);
    assert_eq!(parse_i32(b"+"), None);
    assert_eq!(parse_i32(b"-"), None);
    assert_eq!(parse_i32(b"+-1"), None);
    assert_eq!(parse_i32(b"1-"), None);
    assert_eq!(parse_i32(b"12a"), None);
    assert_eq!(parse_i32(b"1 2"), None);
    assert_eq!(parse_i32(b"1_000"), None);
    assert_eq!(parse_i32(b"0x10"), None);
    assert_eq!(parse_i32(&[0x31, 0xff]), None);
}

#[test]
fn numbers_out_of_range() {
    assert_eq!(parse_i32(b"2147483648"), None);
    assert_eq!(parse_i32(b"-2147483649"), None);
    assert_eq!(parse_i32(b"99999999999999999999999999"), None);
    assert_eq!(parse_i32(b"-99999999999999999999999999"), None);
}

#[test]
fn agrees_with_the_standard_parser() {
    let samples: [&str; 14] = [
        "0", "1", "-1", "+1", "", "+", "-", "2147483647", "2147483648", "-2147483648",
        "-2147483649", "12x", "x12", "00",
    ];
    for s in samples.iter() {
        assert_eq!(parse_i32(s.as_bytes()), s.parse::<i32>().ok(), "{:?}", s);
    }
}
