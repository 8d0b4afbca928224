//! The record grammar: one body line of a log file describing a completed
//! build step.
//!
//! A record line is five fields separated by single tab bytes, in fixed
//! order: start offset, end offset and timestamp (each a nonempty run of
//! ASCII digits whose value fits in a `u64`), then the output name and the
//! content hash (arbitrary tab-free bytes, possibly empty). Callers hand the
//! decoder one line at a time, with the terminating newline already
//! stripped, so a line never contains a newline byte.

use vstd::prelude::*;
use vstd::slice::{slice_subrange, slice_to_vec};
use crate::scan::{all_digits, digits_value, is_u64_field, parse_u64_digits};

verus! {

/// ASCII code of the tab byte that separates record fields.
pub const ASCII_TAB: u8 = 9;

/// ASCII code of `#`, the byte that opens a comment line.
pub const ASCII_HASH: u8 = 35;

/// One decoded build step.
///
/// `end < start` is structurally valid: the decoder checks grammar, not
/// semantics. `duration` is defined for such records too (it saturates).
#[derive(Debug, PartialEq, Eq)]
pub struct LogRecord {
    /// Step begin, milliseconds since the log's own start.
    pub start: u64,
    /// Step end, milliseconds since the log's own start.
    pub end: u64,
    /// Nanoseconds since the Unix epoch, UTC.
    pub timestamp: u64,
    /// The build output's name: arbitrary tab-free, newline-free bytes.
    pub name: Vec<u8>,
    /// Opaque content/command identifier, carried but not interpreted.
    pub hash: Vec<u8>,
}

/// The mathematical image of a `LogRecord`.
pub ghost struct RecordModel {
    pub start: u64,
    pub end: u64,
    pub timestamp: u64,
    pub name: Seq<u8>,
    pub hash: Seq<u8>,
}

impl View for LogRecord {
    type V = RecordModel;

    open spec fn view(&self) -> RecordModel {
        RecordModel {
            start: self.start,
            end: self.end,
            timestamp: self.timestamp,
            name: self.name@,
            hash: self.hash@,
        }
    }
}

/// Why a line failed to decode. The field index, where present, counts the
/// tab-separated fields from zero.
#[derive(Clone, Copy, Debug, PartialEq, Eq, Structural)]
pub enum DecodeError {
    /// The line does not have exactly five tab-separated fields.
    WrongFieldCount,
    /// An integer field is empty or holds a non-digit byte.
    NonNumeric(usize),
    /// An integer field is all digits but its value does not fit in a `u64`.
    Overflow(usize),
}

/// The indices of all tab bytes in `s`, in increasing order.
pub open spec fn tab_positions(s: Seq<u8>) -> Seq<int>
    decreases s.len(),
{
    if s.len() == 0 {
        Seq::empty()
    } else if s.last() == ASCII_TAB {
        tab_positions(s.drop_last()).push(s.len() - 1)
    } else {
        tab_positions(s.drop_last())
    }
}

/// The five tab-separated fields of a record line.
/// Meaningful when `tab_positions(line).len() == 4`.
pub open spec fn record_fields(line: Seq<u8>) -> Seq<Seq<u8>> {
    let t = tab_positions(line);
    seq![
        line.subrange(0, t[0]),
        line.subrange(t[0] + 1, t[1]),
        line.subrange(t[1] + 1, t[2]),
        line.subrange(t[2] + 1, t[3]),
        line.subrange(t[3] + 1, line.len() as int),
    ]
}

/// `line` matches the record grammar: exactly five tab-separated fields,
/// the first three being nonempty digit runs whose values fit in a `u64`.
pub open spec fn valid_record_line(line: Seq<u8>) -> bool {
    &&& tab_positions(line).len() == 4
    &&& is_u64_field(record_fields(line)[0])
    &&& is_u64_field(record_fields(line)[1])
    &&& is_u64_field(record_fields(line)[2])
}

/// The record a valid line denotes. Meaningful when
/// `valid_record_line(line)`.
pub open spec fn record_of_line(line: Seq<u8>) -> RecordModel {
    let f = record_fields(line);
    RecordModel {
        start: digits_value(f[0]) as u64,
        end: digits_value(f[1]) as u64,
        timestamp: digits_value(f[2]) as u64,
        name: f[3],
        hash: f[4],
    }
}

/// `f` is a nonempty run of ASCII digits (its value may still overflow).
pub open spec fn field_is_numeric(f: Seq<u8>) -> bool {
    f.len() > 0 && all_digits(f)
}

/// The error an invalid line decodes to: a field-count mismatch, or the
/// failure of the leftmost bad integer field, non-digit bytes reported
/// before overflow. Meaningful when `!valid_record_line(line)`.
pub open spec fn line_error(line: Seq<u8>) -> DecodeError {
    let f = record_fields(line);
    if tab_positions(line).len() != 4 {
        DecodeError::WrongFieldCount
    } else if !field_is_numeric(f[0]) {
        DecodeError::NonNumeric(0)
    } else if !is_u64_field(f[0]) {
        DecodeError::Overflow(0)
    } else if !field_is_numeric(f[1]) {
        DecodeError::NonNumeric(1)
    } else if !is_u64_field(f[1]) {
        DecodeError::Overflow(1)
    } else if !field_is_numeric(f[2]) {
        DecodeError::NonNumeric(2)
    } else {
        DecodeError::Overflow(2)
    }
}

/// Every tab position is in range and holds a tab, and the positions are
/// strictly increasing.
pub proof fn lemma_tab_positions_props(s: Seq<u8>)
    ensures
        forall|k: int|
            0 <= k < tab_positions(s).len() ==> 0 <= #[trigger] tab_positions(s)[k] < s.len()
                && s[tab_positions(s)[k]] == ASCII_TAB,
        forall|j: int, k: int|
            0 <= j < k < tab_positions(s).len() ==> #[trigger] tab_positions(s)[j]
                < #[trigger] tab_positions(s)[k],
    decreases s.len(),
{
    if s.len() > 0 {
        lemma_tab_positions_props(s.drop_last());
        assert(forall|k: int|
            0 <= k < tab_positions(s.drop_last()).len()
                ==> s[#[trigger] tab_positions(s.drop_last())[k]] == s.drop_last()[tab_positions(
                s.drop_last(),
            )[k]]);
    }
}

/// Decodes one record line (newline already stripped).
///
/// Succeeds exactly on lines matching the record grammar, and then returns
/// the record whose fields are the parsed field values. On any other line it
/// returns the error that `line_error` assigns, never a partial record.
pub fn decode_record(line: &[u8]) -> (r: Result<LogRecord, DecodeError>)
    ensures
        r is Ok <==> valid_record_line(line@),
        r is Ok ==> r->Ok_0@ == record_of_line(line@),
        r is Err ==> r->Err_0 == line_error(line@),
{
    let mut tabs: Vec<usize> = Vec::new();
    let mut i: usize = 0;
    while i < line.len()
        invariant
            0 <= i <= line@.len(),
            tabs@.map_values(|x: usize| x as int) == tab_positions(line@.subrange(0, i as int)),
            forall|k: int| 0 <= k < tabs@.len() ==> #[trigger] tabs@[k] < i,
        decreases line@.len() - i,
    {
        proof {
            assert(line@.subrange(0, i + 1).drop_last() =~= line@.subrange(0, i as int));
        }
        if line[i] == ASCII_TAB {
            tabs.push(i);
            proof {
                assert(tabs@.map_values(|x: usize| x as int) =~= tab_positions(
                    line@.subrange(0, i + 1),
                ));
            }
        } else {
            proof {
                assert(tabs@.map_values(|x: usize| x as int) =~= tab_positions(
                    line@.subrange(0, i + 1),
                ));
            }
        }
        i = i + 1;
    }
    proof {
        assert(line@.subrange(0, line@.len() as int) =~= line@);
    }
    let ghost t = tab_positions(line@);
    if tabs.len() != 4 {
        return Err(DecodeError::WrongFieldCount);
    }
    proof {
        lemma_tab_positions_props(line@);
        assert(tabs@[0] as int == t[0]);
        assert(tabs@[1] as int == t[1]);
        assert(tabs@[2] as int == t[2]);
        assert(tabs@[3] as int == t[3]);
    }
    let t0 = tabs[0];
    let t1 = tabs[1];
    let t2 = tabs[2];
    let t3 = tabs[3];
    let ghost f = record_fields(line@);
    let start = match parse_u64_digits(line, 0, t0) {
        Some(v) => v,
        None => {
            return Err(
                if !field_is_numeric_exec_check(line, 0, t0) {
                    DecodeError::NonNumeric(0)
                } else {
                    DecodeError::Overflow(0)
                },
            );
        },
    };
    let end = match parse_u64_digits(line, t0 + 1, t1) {
        Some(v) => v,
        None => {
            return Err(
                if !field_is_numeric_exec_check(line, t0 + 1, t1) {
                    DecodeError::NonNumeric(1)
                } else {
                    DecodeError::Overflow(1)
                },
            );
        },
    };
    let timestamp = match parse_u64_digits(line, t1 + 1, t2) {
        Some(v) => v,
        None => {
            return Err(
                if !field_is_numeric_exec_check(line, t1 + 1, t2) {
                    DecodeError::NonNumeric(2)
                } else {
                    DecodeError::Overflow(2)
                },
            );
        },
    };
    let name = slice_to_vec(slice_subrange(line, t2 + 1, t3));
    let hash = slice_to_vec(slice_subrange(line, t3 + 1, line.len()));
    Ok(LogRecord { start, end, timestamp, name, hash })
}

/// Whether `s[from..to]` is a nonempty run of ASCII digits, used to tell a
/// non-numeric integer field from one that merely overflows.
fn field_is_numeric_exec_check(s: &[u8], from: usize, to: usize) -> (r: bool)
    requires
        from <= to <= s@.len(),
    ensures
        r == field_is_numeric(s@.subrange(from as int, to as int)),
{
    let ghost d = s@.subrange(from as int, to as int);
    if from == to {
        return false;
    }
    let mut i: usize = from;
    while i < to
        invariant
            from <= i <= to <= s@.len(),
            d == s@.subrange(from as int, to as int),
            forall|k: int| 0 <= k < i - from ==> crate::scan::is_ascii_digit(#[trigger] d[k]),
        decreases to - i,
    {
        let b = s[i];
        if b < crate::scan::ASCII_ZERO || b > crate::scan::ASCII_NINE {
            assert(!crate::scan::is_ascii_digit(d[i - from]));
            return false;
        }
        i = i + 1;
    }
    true
}

/// `line` is a comment: its first byte is `#`.
pub open spec fn is_comment_line(line: Seq<u8>) -> bool {
    line.len() > 0 && line[0] == ASCII_HASH
}

/// `line` yields no record: it is empty or a comment.
pub open spec fn is_skipped_line(line: Seq<u8>) -> bool {
    line.len() == 0 || is_comment_line(line)
}

/// Decodes one body line (newline already stripped), skipping comments.
///
/// A comment line — one whose first byte is `#` — never produces a record,
/// whatever its remaining content; an empty line produces none either. Every
/// other line is decoded by `decode_record`.
pub fn decode_line(line: &[u8]) -> (r: Option<Result<LogRecord, DecodeError>>)
    ensures
        r is None <==> is_skipped_line(line@),
        match r {
            Some(inner) => {
                &&& inner is Ok <==> valid_record_line(line@)
                &&& (inner is Ok ==> inner->Ok_0@ == record_of_line(line@))
                &&& (inner is Err ==> inner->Err_0 == line_error(line@))
            },
            None => true,
        },
{
    if line.len() == 0 {
        return None;
    }
    if line[0] == ASCII_HASH {
        return None;
    }
    Some(decode_record(line))
}

impl LogRecord {
    /// The step's elapsed time, `end - start`, saturating to zero when
    /// `end < start` (a structurally valid but semantically odd record):
    /// duration never panics and never wraps.
    pub fn duration(&self) -> (d: u64)
        ensures
            d == if self.end >= self.start {
                (self.end - self.start) as u64
            } else {
                0u64
            },
    {
        if self.end >= self.start {
            self.end - self.start
        } else {
            0
        }
    }
}

/// No byte of `s` is a tab.
pub open spec fn tab_free(s: Seq<u8>) -> bool {
    forall|i: int| 0 <= i < s.len() ==> s[i] != ASCII_TAB
}

/// The canonical decimal numeral of `n`: no leading zeros, at least one
/// digit.
pub open spec fn dec_digits(n: nat) -> Seq<u8>
    decreases n,
{
    if n < 10 {
        seq![(n + 48) as u8]
    } else {
        dec_digits(n / 10).push((n % 10 + 48) as u8)
    }
}

/// The canonical numeral of `n` is a nonempty digit run whose value is `n`.
pub proof fn lemma_dec_digits(n: nat)
    ensures
        dec_digits(n).len() >= 1,
        all_digits(dec_digits(n)),
        digits_value(dec_digits(n)) == n,
    decreases n,
{
    if n < 10 {
        assert(dec_digits(n).drop_last() =~= Seq::<u8>::empty());
        assert(digits_value(Seq::<u8>::empty()) == 0);
        assert(dec_digits(n).last() == (n + 48) as u8);
        assert(((n + 48) as u8) == n + 48);
    } else {
        lemma_dec_digits(n / 10);
        assert(dec_digits(n).drop_last() =~= dec_digits(n / 10));
        assert(dec_digits(n).last() == (n % 10 + 48) as u8);
        assert(((n % 10 + 48) as u8) == n % 10 + 48);
        assert(n / 10 * 10 + n % 10 == n) by {
            vstd::arithmetic::div_mod::lemma_fundamental_div_mod(n as int, 10);
        };
    }
}

/// A tab-free sequence has no tab positions.
pub proof fn lemma_tab_free_no_positions(s: Seq<u8>)
    requires
        tab_free(s),
    ensures
        tab_positions(s) == Seq::<int>::empty(),
    decreases s.len(),
{
    if s.len() > 0 {
        assert(tab_free(s.drop_last()));
        lemma_tab_free_no_positions(s.drop_last());
    }
}

/// Tab positions distribute over concatenation, the right part's positions
/// shifted by the left part's length.
pub proof fn lemma_tab_positions_concat(a: Seq<u8>, b: Seq<u8>)
    ensures
        tab_positions(a + b) == tab_positions(a) + tab_positions(b).map_values(
            |p: int| p + a.len(),
        ),
    decreases b.len(),
{
    if b.len() == 0 {
        assert(a + b =~= a);
        assert(tab_positions(a) + tab_positions(b).map_values(|p: int| p + a.len())
            =~= tab_positions(a));
    } else {
        lemma_tab_positions_concat(a, b.drop_last());
        assert((a + b).drop_last() =~= a + b.drop_last());
        assert((a + b).last() == b.last());
        if b.last() == ASCII_TAB {
            assert(tab_positions(a + b) == tab_positions(a + b.drop_last()).push(
                a.len() + b.len() - 1,
            ));
            assert(tab_positions(b) == tab_positions(b.drop_last()).push(b.len() - 1));
            assert(tab_positions(a) + tab_positions(b).map_values(|p: int| p + a.len())
                =~= (tab_positions(a) + tab_positions(b.drop_last()).map_values(
                |p: int| p + a.len(),
            )).push(a.len() + b.len() - 1));
        } else {
            assert(tab_positions(a + b) == tab_positions(a + b.drop_last()));
            assert(tab_positions(b) == tab_positions(b.drop_last()));
        }
    }
}

/// Appending a tab and then a tab-free field adds exactly one tab position,
/// at the boundary.
pub proof fn lemma_tab_positions_sep(s: Seq<u8>, f: Seq<u8>)
    requires
        tab_free(f),
    ensures
        tab_positions(s + seq![ASCII_TAB] + f) == tab_positions(s).push(s.len() as int),
{
    lemma_tab_positions_concat(s, seq![ASCII_TAB]);
    assert(seq![ASCII_TAB].drop_last() =~= Seq::<u8>::empty());
    assert(tab_positions(seq![ASCII_TAB].drop_last()) == Seq::<int>::empty());
    assert(tab_positions(seq![ASCII_TAB]) =~= seq![0int]);
    assert(tab_positions(s + seq![ASCII_TAB]) =~= tab_positions(s).push(s.len() as int));
    lemma_tab_free_no_positions(f);
    lemma_tab_positions_concat(s + seq![ASCII_TAB], f);
    assert(tab_positions(s + seq![ASCII_TAB] + f) =~= tab_positions(s + seq![ASCII_TAB]));
}

/// The line that encodes the record `m`: its five fields, the integers as
/// canonical decimal numerals, separated by single tabs.
pub open spec fn encode_record(m: RecordModel) -> Seq<u8> {
    dec_digits(m.start as nat) + seq![ASCII_TAB] + dec_digits(m.end as nat) + seq![ASCII_TAB]
        + dec_digits(m.timestamp as nat) + seq![ASCII_TAB] + m.name + seq![ASCII_TAB] + m.hash
}

/// Round trip: encoding any record as a line and decoding that line yields
/// the record back, fields untouched, for every record whose name and hash
/// are tab-free — `end < start` included, since the grammar is structural.
pub proof fn lemma_record_roundtrip(m: RecordModel)
    requires
        tab_free(m.name),
        tab_free(m.hash),
    ensures
        valid_record_line(encode_record(m)),
        record_of_line(encode_record(m)) == m,
{
    let f0 = dec_digits(m.start as nat);
    let f1 = dec_digits(m.end as nat);
    let f2 = dec_digits(m.timestamp as nat);
    lemma_dec_digits(m.start as nat);
    lemma_dec_digits(m.end as nat);
    lemma_dec_digits(m.timestamp as nat);
    assert(tab_free(f0));
    assert(tab_free(f1));
    assert(tab_free(f2));
    let e1 = f0 + seq![ASCII_TAB] + f1;
    let e2 = e1 + seq![ASCII_TAB] + f2;
    let e3 = e2 + seq![ASCII_TAB] + m.name;
    let enc = e3 + seq![ASCII_TAB] + m.hash;
    assert(enc == encode_record(m));
    lemma_tab_free_no_positions(f0);
    lemma_tab_positions_sep(f0, f1);
    lemma_tab_positions_sep(e1, f2);
    lemma_tab_positions_sep(e2, m.name);
    lemma_tab_positions_sep(e3, m.hash);
    let t = tab_positions(enc);
    assert(t =~= seq![f0.len() as int, e1.len() as int, e2.len() as int, e3.len() as int]);
    assert(enc.subrange(0, t[0]) =~= f0);
    assert(enc.subrange(t[0] + 1, t[1]) =~= f1);
    assert(enc.subrange(t[1] + 1, t[2]) =~= f2);
    assert(enc.subrange(t[2] + 1, t[3]) =~= m.name);
    assert(enc.subrange(t[3] + 1, enc.len() as int) =~= m.hash);
}

} // verus!
