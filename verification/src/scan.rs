//! Byte-level scanning helpers shared by the header and record grammars:
//! decimal digit runs and their numeric value, and locating separator bytes.

use vstd::prelude::*;

verus! {

/// ASCII code of the digit `0`.
pub const ASCII_ZERO: u8 = 48;

/// ASCII code of the digit `9`.
pub const ASCII_NINE: u8 = 57;

/// `b` is an ASCII decimal digit.
pub open spec fn is_ascii_digit(b: u8) -> bool {
    ASCII_ZERO <= b && b <= ASCII_NINE
}

/// Every byte of `s` is an ASCII decimal digit.
pub open spec fn all_digits(s: Seq<u8>) -> bool {
    forall|i: int| 0 <= i < s.len() ==> is_ascii_digit(#[trigger] s[i])
}

/// The value of `s` read as a big-endian decimal numeral.
/// Meaningful when `all_digits(s)`.
pub open spec fn digits_value(s: Seq<u8>) -> nat
    decreases s.len(),
{
    if s.len() == 0 {
        0
    } else {
        digits_value(s.drop_last()) * 10 + ((s.last() - ASCII_ZERO) as nat)
    }
}

/// A nonempty digit run whose value fits in a `u64`.
pub open spec fn is_u64_field(s: Seq<u8>) -> bool {
    s.len() > 0 && all_digits(s) && digits_value(s) <= u64::MAX
}

/// Extending a numeral on the right never decreases its value.
pub proof fn lemma_digits_value_prefix_le(s: Seq<u8>, i: int)
    requires
        0 <= i <= s.len(),
    ensures
        digits_value(s.subrange(0, i)) <= digits_value(s),
    decreases s.len() - i,
{
    if i < s.len() {
        lemma_digits_value_prefix_le(s, i + 1);
        assert(s.subrange(0, i + 1).drop_last() =~= s.subrange(0, i));
        assert(digits_value(s.subrange(0, i)) <= digits_value(s.subrange(0, i + 1)));
    } else {
        assert(s.subrange(0, i) =~= s);
    }
}

/// Parses `s[from..to]` as a decimal `u64`.
///
/// Returns the numeral's value exactly when the range is a nonempty run of
/// ASCII digits whose value fits in a `u64`; returns `None` otherwise.
pub fn parse_u64_digits(s: &[u8], from: usize, to: usize) -> (r: Option<u64>)
    requires
        from <= to <= s@.len(),
    ensures
        r is Some <==> is_u64_field(s@.subrange(from as int, to as int)),
        r is Some ==> r->Some_0 == digits_value(s@.subrange(from as int, to as int)),
{
    let ghost d = s@.subrange(from as int, to as int);
    if from == to {
        return None;
    }
    let mut acc: u64 = 0;
    let mut i: usize = from;
    while i < to
        invariant
            from <= i <= to <= s@.len(),
            d == s@.subrange(from as int, to as int),
            all_digits(d.subrange(0, i - from)),
            acc as nat == digits_value(d.subrange(0, i - from)),
        decreases to - i,
    {
        let b = s[i];
        assert(b == d[i - from]);
        if b < ASCII_ZERO || b > ASCII_NINE {
            assert(!is_ascii_digit(d[i - from]));
            return None;
        }
        let digit = (b - ASCII_ZERO) as u64;
        let wide: u128 = (acc as u128) * 10 + (digit as u128);
        proof {
            assert(d.subrange(0, i + 1 - from).drop_last() =~= d.subrange(0, i - from));
            assert(digits_value(d.subrange(0, i + 1 - from)) == acc as nat * 10 + digit as nat);
        }
        if wide > u64::MAX as u128 {
            proof {
                lemma_digits_value_prefix_le(d, i + 1 - from);
                assert(digits_value(d) > u64::MAX);
            }
            return None;
        }
        acc = wide as u64;
        i = i + 1;
    }
    proof {
        assert(d.subrange(0, to - from) =~= d);
    }
    Some(acc)
}

/// Finds the first occurrence of `b` in `s` at or after `from`.
///
/// Returns the least index `j >= from` with `s[j] == b`, or `None` when no
/// byte of `s[from..]` equals `b`.
pub fn find_byte(s: &[u8], from: usize, b: u8) -> (r: Option<usize>)
    requires
        from <= s@.len(),
    ensures
        match r {
            Some(j) => from <= j < s@.len() && s@[j as int] == b && (forall|k: int|
                from <= k < j ==> s@[k] != b),
            None => forall|k: int| from <= k < s@.len() ==> s@[k] != b,
        },
{
    let mut i: usize = from;
    while i < s.len()
        invariant
            from <= i <= s@.len(),
            forall|k: int| from <= k < i ==> s@[k] != b,
        decreases s@.len() - i,
    {
        if s[i] == b {
            return Some(i);
        }
        i = i + 1;
    }
    None
}

} // verus!
