//! The log header grammar: the first line of a log file, which declares the
//! format version.
//!
//! The grammar is byte-exact and ordered: the literal prefix `# ninja log v`,
//! one or more ASCII digits forming a value in `[0, 255]`, a single newline,
//! and nothing after it. Any other input fails to parse.

use vstd::prelude::*;
use crate::scan::{all_digits, digits_value, is_u64_field, parse_u64_digits};

verus! {

/// ASCII code of the newline byte that terminates the header line.
pub const ASCII_NEWLINE: u8 = 10;

/// The only format version this library accepts for record decoding.
pub const SUPPORTED_VERSION: u8 = 5;

/// Length of the literal header prefix `# ninja log v`.
pub const HEADER_PREFIX_LEN: usize = 13;

/// The bytes of the literal header prefix `# ninja log v`.
pub open spec fn header_prefix() -> Seq<u8> {
    seq![35u8, 32u8, 110u8, 105u8, 110u8, 106u8, 97u8, 32u8, 108u8, 111u8, 103u8, 32u8, 118u8]
}

/// The digit run of a header line: the bytes between the literal prefix and
/// the trailing newline. Meaningful when `valid_header(s)`.
pub open spec fn header_digits(s: Seq<u8>) -> Seq<u8> {
    s.subrange(HEADER_PREFIX_LEN as int, s.len() - 1)
}

/// `s` is exactly one well-formed header line: the literal prefix, at least
/// one digit, a value in `[0, 255]`, a closing newline, and nothing more.
pub open spec fn valid_header(s: Seq<u8>) -> bool {
    &&& s.len() >= HEADER_PREFIX_LEN + 2
    &&& s.subrange(0, HEADER_PREFIX_LEN as int) == header_prefix()
    &&& s.last() == ASCII_NEWLINE
    &&& all_digits(header_digits(s))
    &&& digits_value(header_digits(s)) <= 255
}

/// The version a header line declares: `Some(version)` exactly on
/// well-formed header lines, `None` on everything else.
pub open spec fn spec_parse_header(s: Seq<u8>) -> Option<u8> {
    if valid_header(s) {
        Some(digits_value(header_digits(s)) as u8)
    } else {
        None
    }
}

/// The literal header prefix `# ninja log v` as an executable value.
fn header_prefix_bytes() -> (v: Vec<u8>)
    ensures
        v@ == header_prefix(),
{
    let mut v: Vec<u8> = Vec::new();
    v.push(35);
    v.push(32);
    v.push(110);
    v.push(105);
    v.push(110);
    v.push(106);
    v.push(97);
    v.push(32);
    v.push(108);
    v.push(111);
    v.push(103);
    v.push(32);
    v.push(118);
    proof {
        assert(v@ =~= header_prefix());
    }
    v
}

/// Parses a header line, returning the declared format version.
///
/// `input` must be the whole line, trailing newline included. The parse
/// succeeds exactly when the line matches the header grammar; every
/// malformation (wrong prefix, non-digit or out-of-range version, missing
/// newline, trailing bytes) makes it return `None`.
pub fn parse_header(input: &[u8]) -> (r: Option<u8>)
    ensures
        r == spec_parse_header(input@),
{
    if input.len() < HEADER_PREFIX_LEN + 2 {
        return None;
    }
    let prefix = header_prefix_bytes();
    let mut i: usize = 0;
    while i < HEADER_PREFIX_LEN
        invariant
            0 <= i <= HEADER_PREFIX_LEN,
            input@.len() >= HEADER_PREFIX_LEN + 2,
            prefix@ == header_prefix(),
            forall|k: int| 0 <= k < i ==> input@[k] == header_prefix()[k],
        decreases HEADER_PREFIX_LEN - i,
    {
        if input[i] != prefix[i] {
            assert(input@.subrange(0, HEADER_PREFIX_LEN as int) != header_prefix());
            return None;
        }
        i = i + 1;
    }
    proof {
        assert(input@.subrange(0, HEADER_PREFIX_LEN as int) =~= header_prefix());
    }
    let last = input.len() - 1;
    if input[last] != ASCII_NEWLINE {
        return None;
    }
    match parse_u64_digits(input, HEADER_PREFIX_LEN, last) {
        Some(v) => {
            if v <= 255 {
                Some(v as u8)
            } else {
                proof {
                    assert(digits_value(header_digits(input@)) == v);
                }
                None
            }
        },
        None => {
            assert(!is_u64_field(header_digits(input@)));
            assert(!valid_header(input@)) by {
                if all_digits(header_digits(input@)) && digits_value(header_digits(input@))
                    <= 255 {
                    assert(header_digits(input@).len() > 0);
                    assert(is_u64_field(header_digits(input@)));
                }
            }
            None
        },
    }
}

/// Every well-formed header parses to the value of its digit run: a header
/// line assembled from the literal prefix, any digit run whose value is at
/// most 255, and a newline is accepted, and yields exactly that value.
pub proof fn lemma_header_roundtrip(d: Seq<u8>)
    requires
        d.len() >= 1,
        all_digits(d),
        digits_value(d) <= 255,
    ensures
        spec_parse_header(header_prefix() + d + seq![ASCII_NEWLINE]) == Some(
            digits_value(d) as u8,
        ),
{
    let s = header_prefix() + d + seq![ASCII_NEWLINE];
    assert(s.subrange(0, HEADER_PREFIX_LEN as int) =~= header_prefix());
    assert(s.last() == ASCII_NEWLINE);
    assert(header_digits(s) =~= d);
}

/// Every accepted input has the header shape: if the parser yields a
/// version, the input is exactly the literal prefix, a nonempty digit run
/// whose value is that version, and a closing newline. Contrapositively,
/// any input without that shape is rejected.
pub proof fn lemma_header_shape(s: Seq<u8>, v: u8)
    requires
        spec_parse_header(s) == Some(v),
    ensures
        exists|d: Seq<u8>|
            {
                &&& s == header_prefix() + d + seq![ASCII_NEWLINE]
                &&& d.len() >= 1
                &&& all_digits(d)
                &&& digits_value(d) == v as nat
            },
{
    let d = header_digits(s);
    assert(s =~= header_prefix() + d + seq![ASCII_NEWLINE]);
    assert({
        &&& s == header_prefix() + d + seq![ASCII_NEWLINE]
        &&& d.len() >= 1
        &&& all_digits(d)
        &&& digits_value(d) == v as nat
    });
}

} // verus!
