//! Whole-file parsing: one header line, then record lines until end of
//! input.
//!
//! Lines are separated by newline bytes. A final line without a trailing
//! newline is still decoded; empty lines and lines whose first byte is `#`
//! are skipped. Decoding aborts at the first malformed record line and
//! reports it with its file line number (the header is line 1, so the first
//! body line is line 2).

use vstd::prelude::*;
use vstd::slice::slice_subrange;
use crate::scan::find_byte;
use crate::header::{spec_parse_header, parse_header, SUPPORTED_VERSION, ASCII_NEWLINE};
use crate::record::{
    LogRecord,
    RecordModel,
    DecodeError,
    decode_line,
    valid_record_line,
    record_of_line,
    line_error,
    is_skipped_line,
};

verus! {

/// Why a whole parse failed.
#[derive(Clone, Copy, Debug, PartialEq, Eq, Structural)]
pub enum LogError {
    /// The first line does not match the header grammar.
    BadHeader,
    /// The header is well formed but declares a version other than the
    /// supported one; carries the declared version.
    UnsupportedVersion(u8),
    /// A body line failed to decode; carries its file line number (the
    /// header is line 1) and the decode failure.
    BadRecord(usize, DecodeError),
}

/// The index of the first newline byte of `s`, or `s.len()` when `s` holds
/// none.
pub open spec fn first_newline(s: Seq<u8>) -> nat
    decreases s.len(),
{
    if s.len() == 0 {
        0
    } else if s[0] == ASCII_NEWLINE {
        0
    } else {
        1 + first_newline(s.drop_first())
    }
}

/// `first_newline` returns the least index holding a newline, or the length
/// when there is none.
pub proof fn lemma_first_newline(s: Seq<u8>)
    ensures
        first_newline(s) <= s.len(),
        first_newline(s) < s.len() ==> s[first_newline(s) as int] == ASCII_NEWLINE,
        forall|k: int| 0 <= k < first_newline(s) ==> s[k] != ASCII_NEWLINE,
    decreases s.len(),
{
    if s.len() > 0 && s[0] != ASCII_NEWLINE {
        lemma_first_newline(s.drop_first());
        assert forall|k: int| 0 <= k < first_newline(s) implies s[k] != ASCII_NEWLINE by {
            if k > 0 {
                assert(s.drop_first()[k - 1] == s[k]);
                assert(k - 1 < first_newline(s.drop_first()));
            }
        }
    }
}

/// The records denoted by the body bytes `s`, whose first line is file line
/// `line_no`, or the first failure: the failing line's number and its
/// decode error. Lines are cut at newline bytes; a last line without a
/// trailing newline counts too; skipped lines still advance the line count.
pub open spec fn spec_decode_body(s: Seq<u8>, line_no: int) -> Result<
    Seq<RecordModel>,
    (int, DecodeError),
>
    decreases s.len(),
{
    if s.len() == 0 {
        Ok(Seq::empty())
    } else {
        let i = first_newline(s);
        let line = if i >= s.len() {
            s
        } else {
            s.subrange(0, i as int)
        };
        let rest = if i >= s.len() {
            Seq::<u8>::empty()
        } else {
            s.subrange(i + 1 as int, s.len() as int)
        };
        if is_skipped_line(line) {
            spec_decode_body(rest, line_no + 1)
        } else if valid_record_line(line) {
            match spec_decode_body(rest, line_no + 1) {
                Ok(tail) => Ok(seq![record_of_line(line)] + tail),
                Err(e) => Err(e),
            }
        } else {
            Err((line_no, line_error(line)))
        }
    }
}

/// `r` with the records `p` put in front of its successful value.
pub open spec fn prepend_records(
    p: Seq<RecordModel>,
    r: Result<Seq<RecordModel>, (int, DecodeError)>,
) -> Result<Seq<RecordModel>, (int, DecodeError)> {
    match r {
        Ok(tail) => Ok(p + tail),
        Err(e) => Err(e),
    }
}

/// The outcome of parsing a whole log: the records of every non-skipped
/// body line, in file order, provided the first line is a well-formed
/// header declaring the supported version; otherwise the first failure.
pub open spec fn spec_parse_log(s: Seq<u8>) -> Result<Seq<RecordModel>, LogError> {
    let i = first_newline(s);
    if i >= s.len() {
        Err(LogError::BadHeader)
    } else {
        match spec_parse_header(s.subrange(0, i + 1 as int)) {
            None => Err(LogError::BadHeader),
            Some(v) => {
                if v != SUPPORTED_VERSION {
                    Err(LogError::UnsupportedVersion(v))
                } else {
                    match spec_decode_body(s.subrange(i + 1 as int, s.len() as int), 2) {
                        Ok(records) => Ok(records),
                        Err(e) => Err(LogError::BadRecord(e.0 as usize, e.1)),
                    }
                }
            },
        }
    }
}

/// Parses a whole log file given as bytes.
///
/// Returns the records of every non-skipped body line, in file order, when
/// the header is well formed, declares the supported version, and every
/// non-skipped body line matches the record grammar. Otherwise returns the
/// first failure: a header failure, the unsupported version, or the first
/// malformed body line with its line number.
#[verifier::loop_isolation(false)]
pub fn parse_log(input: &[u8]) -> (r: Result<Vec<LogRecord>, LogError>)
    ensures
        r is Ok <==> spec_parse_log(input@) is Ok,
        r is Ok ==> r->Ok_0@.map_values(|rec: LogRecord| rec@) == spec_parse_log(input@)->Ok_0,
        r is Err ==> r->Err_0 == spec_parse_log(input@)->Err_0,
{
    let n = input.len();
    proof {
        lemma_first_newline(input@);
    }
    let nl = match find_byte(input, 0, ASCII_NEWLINE) {
        Some(j) => j,
        None => {
            assert(first_newline(input@) >= input@.len());
            return Err(LogError::BadHeader);
        },
    };
    assert(first_newline(input@) == nl);
    let header_line = slice_subrange(input, 0, nl + 1);
    let version = match parse_header(header_line) {
        Some(v) => v,
        None => {
            return Err(LogError::BadHeader);
        },
    };
    if version != SUPPORTED_VERSION {
        return Err(LogError::UnsupportedVersion(version));
    }
    proof {
        assert(crate::header::valid_header(header_line@));
        assert(header_line@.len() >= 15);
    }
    let body_start = nl + 1;
    let ghost body = input@.subrange(body_start as int, input@.len() as int);
    let mut pos: usize = body_start;
    let mut line_no: usize = 2;
    let mut records: Vec<LogRecord> = Vec::new();
    while pos < input.len()
        invariant
            body_start <= pos <= input@.len() <= usize::MAX,
            body_start >= 15,
            2 <= line_no,
            line_no - 2 <= pos - body_start,
            body == input@.subrange(body_start as int, input@.len() as int),
            spec_decode_body(body, 2) == prepend_records(
                records@.map_values(|rec: LogRecord| rec@),
                spec_decode_body(
                    input@.subrange(pos as int, input@.len() as int),
                    line_no as int,
                ),
            ),
        decreases input@.len() - pos,
    {
        let ghost suffix = input@.subrange(pos as int, input@.len() as int);
        proof {
            lemma_first_newline(suffix);
        }
        let (line_end, next_pos) = match find_byte(input, pos, ASCII_NEWLINE) {
            Some(j) => {
                assert(suffix[j - pos] == ASCII_NEWLINE);
                assert(first_newline(suffix) == j - pos);
                (j, j + 1)
            },
            None => {
                assert(forall|k: int| 0 <= k < suffix.len() ==> suffix[k] != ASCII_NEWLINE);
                assert(first_newline(suffix) == suffix.len());
                (input.len(), input.len())
            },
        };
        let ghost i = first_newline(suffix);
        let line = slice_subrange(input, pos, line_end);
        proof {
            if i >= suffix.len() {
                assert(line@ =~= suffix);
                assert(input@.subrange(next_pos as int, input@.len() as int) =~= Seq::<
                    u8,
                >::empty());
            } else {
                assert(line@ =~= suffix.subrange(0, i as int));
                assert(input@.subrange(next_pos as int, input@.len() as int) =~= suffix.subrange(
                    i + 1 as int,
                    suffix.len() as int,
                ));
            }
        }
        match decode_line(line) {
            None => {},
            Some(Ok(rec)) => {
                let ghost old_map = records@.map_values(|rec: LogRecord| rec@);
                records.push(rec);
                proof {
                    assert(records@.map_values(|rec: LogRecord| rec@) =~= old_map + seq![
                        record_of_line(line@),
                    ]);
                    let rest_res = spec_decode_body(
                        input@.subrange(next_pos as int, input@.len() as int),
                        line_no as int + 1,
                    );
                    if rest_res is Ok {
                        let tail = rest_res->Ok_0;
                        assert(old_map + (seq![record_of_line(line@)] + tail) =~= (old_map + seq![
                            record_of_line(line@),
                        ]) + tail);
                    }
                }
            },
            Some(Err(e)) => {
                return Err(LogError::BadRecord(line_no, e));
            },
        }
        pos = next_pos;
        line_no = line_no + 1;
    }
    proof {
        assert(input@.subrange(pos as int, input@.len() as int) =~= Seq::<u8>::empty());
        assert(records@.map_values(|rec: LogRecord| rec@) + Seq::<RecordModel>::empty()
            =~= records@.map_values(|rec: LogRecord| rec@));
    }
    Ok(records)
}

} // verus!
