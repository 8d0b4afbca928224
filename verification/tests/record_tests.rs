use ninja_log::record::{decode_line, decode_record, DecodeError};

#[test]
fn decodes_well_formed_line_exactly() {
    let rec = decode_record(b"100\t150\t1700000000000000000\tfoo.o\tabcde").unwrap();
    assert_eq!(rec.start, 100);
    assert_eq!(rec.end, 150);
    assert_eq!(rec.timestamp, 1_700_000_000_000_000_000);
    assert_eq!(rec.name, b"foo.o".to_vec());
    assert_eq!(rec.hash, b"abcde".to_vec());
}

#[test]
fn record_round_trip() {
    let cases: [(u64, u64, u64, &[u8], &[u8]); 3] = [
        (0, 0, 0, b"a", b"b"),
        (12, 7, 1_700_000_000_000_000_000, b"dir/out.o", b"0123abcd"),
        (u64::MAX, u64::MAX, u64::MAX, b"", b""),
    ];
    for (start, end, timestamp, name, hash) in cases {
        let line = format!(
            "{}\t{}\t{}\t{}\t{}",
            start,
            end,
            timestamp,
            String::from_utf8(name.to_vec()).unwrap(),
            String::from_utf8(hash.to_vec()).unwrap()
        );
        let rec = decode_record(line.as_bytes()).unwrap();
        assert_eq!(rec.start, start);
        assert_eq!(rec.end, end);
        assert_eq!(rec.timestamp, timestamp);
        assert_eq!(rec.name, name.to_vec());
        assert_eq!(rec.hash, hash.to_vec());
    }
}

#[test]
fn end_before_start_is_structurally_valid() {
    let rec = decode_record(b"150\t100\t1\tfoo.o\thash").unwrap();
    assert_eq!(rec.start, 150);
    assert_eq!(rec.end, 100);
    // Duration saturates to zero instead of wrapping or panicking.
    assert_eq!(rec.duration(), 0);
}

#[test]
fn duration_is_end_minus_start() {
    let rec = decode_record(b"100\t150\t1\tfoo.o\thash").unwrap();
    assert_eq!(rec.duration(), 50);
    let same = decode_record(b"7\t7\t1\tx\ty").unwrap();
    assert_eq!(same.duration(), 0);
}

#[test]
fn rejects_wrong_field_count() {
    assert_eq!(
        decode_record(b"1\t2\t3\tname"),
        Err(DecodeError::WrongFieldCount)
    );
    assert_eq!(
        decode_record(b"1\t2\t3\tname\thash\textra"),
        Err(DecodeError::WrongFieldCount)
    );
    assert_eq!(decode_record(b""), Err(DecodeError::WrongFieldCount));
    assert_eq!(decode_record(b"just text"), Err(DecodeError::WrongFieldCount));
}

#[test]
fn rejects_non_numeric_integer_fields() {
    assert_eq!(
        decode_record(b"1a\t2\t3\tname\thash"),
        Err(DecodeError::NonNumeric(0))
    );
    assert_eq!(
        decode_record(b"\t2\t3\tname\thash"),
        Err(DecodeError::NonNumeric(0))
    );
    assert_eq!(
        decode_record(b"1\t-2\t3\tname\thash"),
        Err(DecodeError::NonNumeric(1))
    );
    assert_eq!(
        decode_record(b"1\t2\tx\tname\thash"),
        Err(DecodeError::NonNumeric(2))
    );
}

#[test]
fn rejects_integer_overflow() {
    // One more than u64::MAX.
    assert_eq!(
        decode_record(b"18446744073709551616\t2\t3\tname\thash"),
        Err(DecodeError::Overflow(0))
    );
    assert_eq!(
        decode_record(b"1\t2\t99999999999999999999\tname\thash"),
        Err(DecodeError::Overflow(2))
    );
    // Exactly u64::MAX still fits.
    let rec = decode_record(b"18446744073709551615\t2\t3\tname\thash").unwrap();
    assert_eq!(rec.start, u64::MAX);
}

#[test]
fn empty_name_and_hash_are_fields_too() {
    let rec = decode_record(b"1\t2\t3\t\t").unwrap();
    assert_eq!(rec.name, Vec::<u8>::new());
    assert_eq!(rec.hash, Vec::<u8>::new());
}

#[test]
fn comment_lines_never_produce_a_record() {
    assert!(decode_line(b"#").is_none());
    assert!(decode_line(b"# restart").is_none());
    // Even a comment that would otherwise be a well-formed record is skipped.
    assert!(decode_line(b"#1\t2\t3\tname\thash").is_none());
    assert!(decode_line(b"# 1\t2\t3\tname\thash").is_none());
}

#[test]
fn empty_lines_are_skipped() {
    assert!(decode_line(b"").is_none());
}

#[test]
fn decode_line_passes_ordinary_lines_through() {
    let rec = decode_line(b"1\t2\t3\tname\thash").unwrap().unwrap();
    assert_eq!(rec.start, 1);
    assert_eq!(
        decode_line(b"1\t2\t3\tname"),
        Some(Err(DecodeError::WrongFieldCount))
    );
}
