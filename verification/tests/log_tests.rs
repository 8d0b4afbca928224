use ninja_log::log::{parse_log, LogError};
use ninja_log::record::DecodeError;

#[test]
fn single_record_end_to_end() {
    let input = b"# ninja log v5\n100\t150\t1700000000000000000\tfoo.o\tabcde\n";
    let records = parse_log(input).unwrap();
    assert_eq!(records.len(), 1);
    assert_eq!(records[0].duration(), 50);
    assert_eq!(records[0].name, b"foo.o".to_vec());
    assert_eq!(records[0].timestamp, 1_700_000_000_000_000_000);
}

#[test]
fn unsupported_version_fails_whole_run() {
    let input = b"# ninja log v4\n100\t150\t1700000000000000000\tfoo.o\tabcde\n";
    assert_eq!(parse_log(input), Err(LogError::UnsupportedVersion(4)));
    let v6 = b"# ninja log v6\n";
    assert_eq!(parse_log(v6), Err(LogError::UnsupportedVersion(6)));
}

#[test]
fn comment_between_records_is_skipped() {
    let input =
        b"# ninja log v5\n1\t2\t3\tfirst.o\taaaa\n# restart\n4\t5\t6\tsecond.o\tbbbb\n";
    let records = parse_log(input).unwrap();
    assert_eq!(records.len(), 2);
    assert_eq!(records[0].name, b"first.o".to_vec());
    assert_eq!(records[1].name, b"second.o".to_vec());
}

#[test]
fn malformed_header_fails() {
    assert_eq!(parse_log(b""), Err(LogError::BadHeader));
    assert_eq!(parse_log(b"# ninja log v5"), Err(LogError::BadHeader));
    assert_eq!(parse_log(b"not a header\n1\t2\t3\ta\tb\n"), Err(LogError::BadHeader));
    assert_eq!(parse_log(b"# ninja log v256\n"), Err(LogError::BadHeader));
}

#[test]
fn empty_body_yields_no_records() {
    let records = parse_log(b"# ninja log v5\n").unwrap();
    assert!(records.is_empty());
}

#[test]
fn blank_body_lines_are_skipped() {
    let records = parse_log(b"# ninja log v5\n\n1\t2\t3\ta\tb\n\n").unwrap();
    assert_eq!(records.len(), 1);
}

#[test]
fn last_line_without_newline_is_decoded() {
    let records = parse_log(b"# ninja log v5\n1\t2\t3\ta\tb").unwrap();
    assert_eq!(records.len(), 1);
    assert_eq!(records[0].name, b"a".to_vec());
}

#[test]
fn bad_record_is_reported_with_its_line_number() {
    // Header is line 1; the comment is line 2; the bad line is line 3.
    let input = b"# ninja log v5\n# comment\n1\t2\t3\tonly-four\n";
    assert_eq!(
        parse_log(input),
        Err(LogError::BadRecord(3, DecodeError::WrongFieldCount))
    );
    let overflow = b"# ninja log v5\n1\t18446744073709551616\t3\ta\tb\n";
    assert_eq!(
        parse_log(overflow),
        Err(LogError::BadRecord(2, DecodeError::Overflow(1)))
    );
}

#[test]
fn records_come_back_in_file_order() {
    let input = b"# ninja log v5\n1\t2\t3\ta\tx\n4\t5\t6\tb\ty\n7\t8\t9\ta\tz\n";
    let records = parse_log(input).unwrap();
    assert_eq!(records.len(), 3);
    // Repeated names are kept: the parser does not deduplicate.
    assert_eq!(records[0].name, b"a".to_vec());
    assert_eq!(records[1].name, b"b".to_vec());
    assert_eq!(records[2].name, b"a".to_vec());
    assert_eq!(records[2].start, 7);
}
