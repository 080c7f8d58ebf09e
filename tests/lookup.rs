use iptoasn::addr::{addr_le, Addr};
use iptoasn::dataset::{gunzip, load_asns, load_compressed, parse_line, DatabaseError};
use iptoasn::index::{Database, Record};
use iptoasn::refresh::{resolve, Decision, Refresher, Resolution, RETRY_DELAY_SECS};
use std::io::Write;

fn v4(a: u8, b: u8, c: u8, d: u8) -> Addr {
    Addr::V4(u32::from_be_bytes([a, b, c, d]))
}

fn record(start: Addr, end: Addr, as_number: u32, description: &str) -> Record {
    Record {
        range_start: start,
        range_end: end,
        as_number,
        country_code: b"US".to_vec(),
        description: description.as_bytes().to_vec(),
    }
}

fn gzip(text: &[u8]) -> Vec<u8> {
    let mut encoder = flate2::write::GzEncoder::new(Vec::new(), flate2::Compression::default());
    encoder.write_all(text).unwrap();
    encoder.finish().unwrap()
}

#[test]
fn single_record_lookup() {
    let db = load_asns(b"1.0.0.0\t1.0.0.255\t13335\tUS\tCLOUDFLARENET").unwrap();
    let rec = db.get(v4(1, 0, 0, 10)).unwrap();
    assert_eq!(rec.as_number, 13335);
    assert_eq!(rec.country_code, b"US".to_vec());
    assert_eq!(rec.description, b"CLOUDFLARENET".to_vec());
    assert_eq!(rec.range_start, v4(1, 0, 0, 0));
    assert_eq!(rec.range_end, v4(1, 0, 0, 255));
    assert!(db.get(v4(1, 0, 1, 0)).is_none());
}

#[test]
fn empty_dataset_matches_nothing() {
    let db = load_asns(b"").unwrap();
    assert!(db.get(v4(1, 0, 0, 10)).is_none());
    assert!(db.get(Addr::V6(1)).is_none());
    assert!(db.get(v4(0, 0, 0, 0)).is_none());
}

#[test]
fn missing_description_fails() {
    let r = load_asns(b"1.0.0.0\t1.0.0.255\t13335\tUS");
    assert_eq!(r.err(), Some(DatabaseError::MissingASDescription));
}

#[test]
fn each_missing_field_has_its_error() {
    assert_eq!(load_asns(b"\n").err(), Some(DatabaseError::MissingRangeStart));
    assert_eq!(load_asns(b"1.0.0.0").err(), Some(DatabaseError::MissingRangeEnd));
    assert_eq!(load_asns(b"1.0.0.0\t1.0.0.255").err(), Some(DatabaseError::MissingASNumber));
    assert_eq!(load_asns(b"1.0.0.0\t1.0.0.255\t5").err(), Some(DatabaseError::MissingCountryCode));
}

#[test]
fn blank_line_in_the_middle_fails() {
    let text = b"1.0.0.0\t1.0.0.255\t13335\tUS\tA\n\n2.0.0.0\t2.0.0.255\t1\tFR\tB\n";
    assert_eq!(load_asns(text).err(), Some(DatabaseError::MissingRangeStart));
}

#[test]
fn malformed_fields_fail() {
    assert_eq!(load_asns(b"1.0.0\t1.0.0.255\t1\tUS\tX").err(), Some(DatabaseError::AddrParseError));
    assert_eq!(load_asns(b"1.0.0.0\tnope\t1\tUS\tX").err(), Some(DatabaseError::AddrParseError));
    assert_eq!(load_asns(b"1.0.0.0\t1.0.0.255\tAS1\tUS\tX").err(), Some(DatabaseError::ParseIntError));
    assert_eq!(load_asns(b"1.0.0.0\t1.0.0.255\t4294967296\tUS\tX").err(), Some(DatabaseError::ParseIntError));
    assert_eq!(load_asns(b"1.0.0.0\t1.0.0.255\t\tUS\tX").err(), Some(DatabaseError::ParseIntError));
    assert_eq!(load_asns(b"1.0.0.0\t1.0.0.255\t+\tUS\tX").err(), Some(DatabaseError::ParseIntError));
    assert_eq!(load_asns(b"1.0.0.0\t1.0.0.255\t-1\tUS\tX").err(), Some(DatabaseError::ParseIntError));
}

#[test]
fn as_number_forms() {
    let rec = parse_line(b"1.0.0.0\t1.0.0.255\t4294967295\tUS\tX").unwrap();
    assert_eq!(rec.as_number, 4294967295);
    let rec = parse_line(b"1.0.0.0\t1.0.0.255\t+42\tUS\tX").unwrap();
    assert_eq!(rec.as_number, 42);
    let rec = parse_line(b"1.0.0.0\t1.0.0.255\t007\tUS\tX").unwrap();
    assert_eq!(rec.as_number, 7);
}

#[test]
fn description_keeps_tabs() {
    let rec = parse_line(b"1.0.0.0\t1.0.0.255\t0\tNone\tNot\trouted").unwrap();
    assert_eq!(rec.as_number, 0);
    assert_eq!(rec.country_code, b"None".to_vec());
    assert_eq!(rec.description, b"Not\trouted".to_vec());
}

#[test]
fn crlf_line_endings_are_stripped() {
    let db = load_asns(b"1.0.0.0\t1.0.0.255\t13335\tUS\tCLOUDFLARENET\r\n2.0.0.0\t2.0.0.9\t7\tFR\tOTHER\r\n").unwrap();
    assert_eq!(db.get(v4(1, 0, 0, 1)).unwrap().description, b"CLOUDFLARENET".to_vec());
    assert_eq!(db.get(v4(2, 0, 0, 9)).unwrap().description, b"OTHER".to_vec());
}

#[test]
fn ipv6_ranges() {
    let text = b"2001:db8::\t2001:db8::ffff\t64496\tZZ\tDOC\n1.0.0.0\t1.0.0.255\t13335\tUS\tCF\n";
    let db = load_asns(text).unwrap();
    let base: u128 = 0x2001_0db8_0000_0000_0000_0000_0000_0000;
    assert_eq!(db.get(Addr::V6(base + 0x10)).unwrap().as_number, 64496);
    assert_eq!(db.get(Addr::V6(base + 0xffff)).unwrap().as_number, 64496);
    assert!(db.get(Addr::V6(base + 0x1_0000)).is_none());
    assert_eq!(db.get(v4(1, 0, 0, 255)).unwrap().as_number, 13335);
}

#[test]
fn families_never_match_each_other() {
    let db = Database::build(vec![record(Addr::V6(0), Addr::V6(u128::MAX), 1, "ALL6")]);
    assert!(db.get(v4(255, 255, 255, 255)).is_none());
    let db = Database::build(vec![record(v4(0, 0, 0, 0), v4(255, 255, 255, 255), 2, "ALL4")]);
    assert!(db.get(Addr::V6(0)).is_none());
    assert!(addr_le(&v4(255, 255, 255, 255), &Addr::V6(0)));
    assert!(!addr_le(&Addr::V6(0), &v4(0, 0, 0, 0)));
}

#[test]
fn range_ends_are_inclusive() {
    let db = Database::build(vec![
        record(v4(1, 0, 0, 0), v4(1, 0, 0, 255), 1, "A"),
        record(v4(1, 0, 1, 0), v4(1, 0, 1, 127), 2, "B"),
        record(v4(1, 0, 2, 0), v4(1, 0, 2, 0), 3, "C"),
    ]);
    assert_eq!(db.get(v4(1, 0, 0, 0)).unwrap().as_number, 1);
    assert_eq!(db.get(v4(1, 0, 0, 255)).unwrap().as_number, 1);
    assert_eq!(db.get(v4(1, 0, 1, 0)).unwrap().as_number, 2);
    assert_eq!(db.get(v4(1, 0, 1, 127)).unwrap().as_number, 2);
    assert!(db.get(v4(1, 0, 1, 128)).is_none());
    assert_eq!(db.get(v4(1, 0, 2, 0)).unwrap().as_number, 3);
    assert!(db.get(v4(0, 255, 255, 255)).is_none());
    assert!(db.get(v4(1, 0, 2, 1)).is_none());
}

#[test]
fn lookup_finds_the_holding_record_in_unsorted_input() {
    let db = Database::build(vec![
        record(v4(9, 0, 0, 0), v4(9, 0, 0, 9), 9, "I"),
        record(v4(3, 0, 0, 0), v4(3, 0, 0, 9), 3, "C"),
        record(v4(5, 0, 0, 0), v4(5, 0, 0, 9), 5, "E"),
    ]);
    assert_eq!(db.get(v4(3, 0, 0, 4)).unwrap().as_number, 3);
    assert_eq!(db.get(v4(5, 0, 0, 9)).unwrap().as_number, 5);
    assert_eq!(db.get(v4(9, 0, 0, 0)).unwrap().as_number, 9);
    assert!(db.get(v4(4, 0, 0, 0)).is_none());
    assert!(db.get(v4(10, 0, 0, 0)).is_none());
}

#[test]
fn later_duplicate_start_wins() {
    let db = Database::build(vec![
        record(v4(1, 0, 0, 0), v4(1, 0, 0, 255), 1, "FIRST"),
        record(v4(1, 0, 0, 0), v4(1, 0, 0, 15), 2, "SECOND"),
    ]);
    assert_eq!(db.get(v4(1, 0, 0, 3)).unwrap().description, b"SECOND".to_vec());
    assert!(db.get(v4(1, 0, 0, 16)).is_none());

    let text = b"1.0.0.0\t1.0.0.255\t1\tUS\tFIRST\n1.0.0.0\t1.0.0.255\t2\tUS\tSECOND\n";
    let db = load_asns(text).unwrap();
    assert_eq!(db.get(v4(1, 0, 0, 3)).unwrap().as_number, 2);
}

#[test]
fn insert_replaces_same_start() {
    let mut db = Database::new();
    db.insert(record(v4(2, 0, 0, 0), v4(2, 0, 0, 9), 1, "A"));
    db.insert(record(v4(1, 0, 0, 0), v4(1, 0, 0, 9), 2, "B"));
    db.insert(record(v4(2, 0, 0, 0), v4(2, 0, 0, 5), 3, "C"));
    assert_eq!(db.get(v4(2, 0, 0, 5)).unwrap().as_number, 3);
    assert!(db.get(v4(2, 0, 0, 6)).is_none());
    assert_eq!(db.get(v4(1, 0, 0, 0)).unwrap().as_number, 2);
}

#[test]
fn parsing_twice_answers_alike() {
    let text = b"1.0.0.0\t1.0.0.255\t13335\tUS\tCF\n8.8.8.0\t8.8.8.255\t15169\tUS\tGOOGLE\n";
    let first = load_asns(text).unwrap();
    let second = load_asns(text).unwrap();
    for probe in [v4(1, 0, 0, 1), v4(8, 8, 8, 8), v4(8, 8, 9, 0), v4(0, 0, 0, 0), Addr::V6(5)] {
        let a = first.get(probe).map(|r| (r.as_number, r.description.clone()));
        let b = second.get(probe).map(|r| (r.as_number, r.description.clone()));
        assert_eq!(a, b);
    }
}

#[test]
fn compressed_dataset_loads() {
    let bytes = gzip(b"1.0.0.0\t1.0.0.255\t13335\tUS\tCLOUDFLARENET\n");
    assert_eq!(gunzip(&bytes).unwrap(), b"1.0.0.0\t1.0.0.255\t13335\tUS\tCLOUDFLARENET\n".to_vec());
    let db = load_compressed(&bytes).unwrap();
    assert_eq!(db.get(v4(1, 0, 0, 10)).unwrap().as_number, 13335);
}

#[test]
fn corrupt_stream_is_a_decoding_error() {
    assert_eq!(gunzip(b"not gzip at all").err(), Some(DatabaseError::IoError));
    assert_eq!(load_compressed(b"not gzip at all").err(), Some(DatabaseError::IoError));
    let bytes = gzip(b"1.0.0.0\t1.0.0.255\t13335\tUS");
    assert_eq!(load_compressed(&bytes).err(), Some(DatabaseError::MissingASDescription));
}

#[test]
fn not_ready_before_publish() {
    assert!(matches!(resolve(None, v4(1, 0, 0, 10)), Resolution::NotReady));
    let db = load_asns(b"1.0.0.0\t1.0.0.255\t13335\tUS\tCF").unwrap();
    assert!(matches!(resolve(Some(&db), v4(1, 0, 1, 0)), Resolution::NoMatch));
    match resolve(Some(&db), v4(1, 0, 0, 10)) {
        Resolution::Found(rec) => assert_eq!(rec.as_number, 13335),
        _ => panic!("expected a record"),
    }
}

#[test]
fn retry_then_success() {
    let mut loop_state = Refresher::new(3600);
    assert_eq!(loop_state.after_cycle(false), Decision::Retry { delay_secs: RETRY_DELAY_SECS });
    assert_eq!(RETRY_DELAY_SECS, 15);
    assert!(!loop_state.ready);
    assert_eq!(loop_state.after_cycle(false), Decision::Retry { delay_secs: 15 });
    assert!(!loop_state.ready);
    assert_eq!(loop_state.after_cycle(true), Decision::PublishAndWait { delay_secs: 3600 });
    assert!(loop_state.ready);
    assert!(!loop_state.finished);
    assert_eq!(loop_state.after_cycle(false), Decision::Retry { delay_secs: 15 });
    assert!(loop_state.ready);
}

#[test]
fn one_shot_mode_stops_after_success() {
    let mut loop_state = Refresher::new(0);
    assert_eq!(loop_state.after_cycle(false), Decision::Retry { delay_secs: 15 });
    assert!(!loop_state.finished);
    assert_eq!(loop_state.after_cycle(true), Decision::PublishAndStop);
    assert!(loop_state.finished);
    assert!(loop_state.ready);
}
