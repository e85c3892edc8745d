//! The decimal parser: a byte slice of the shape `-?digit+.digit` is read as
//! a signed count of tenths, held in an `i64`. No floating point and no
//! intermediate string is involved; the value is exact.

use vstd::prelude::*;
use vstd::slice::slice_index_get;

verus! {

/// Errors for a record or value that does not match the input format.
/// Offsets are byte positions; `parse_value` reports them relative to the
/// value slice it was given, the segment scanner shifts them to absolute
/// buffer positions.
#[derive(Clone, Copy, Debug, PartialEq, Eq, Structural)]
pub enum ParseError {
    /// A line holds no `;` separator; the offset is the line's first byte.
    MissingSeparator { offset: usize },
    /// A byte that the value grammar does not allow at this position.
    BadByte { offset: usize, byte: u8 },
    /// The value ends before the grammar is complete (e.g. no fractional digit).
    TruncatedValue { offset: usize },
    /// The value is well-formed but its magnitude exceeds `i64::MAX` tenths.
    ValueTooLarge { offset: usize },
}

/// The byte offset an error points at.
pub open spec fn err_offset(e: ParseError) -> int {
    match e {
        ParseError::MissingSeparator { offset } => offset as int,
        ParseError::BadByte { offset, .. } => offset as int,
        ParseError::TruncatedValue { offset } => offset as int,
        ParseError::ValueTooLarge { offset } => offset as int,
    }
}

pub open spec fn is_digit(b: u8) -> bool {
    48 <= b <= 57
}

/// Value of a big-endian sequence of ASCII digits.
pub open spec fn digits_val(s: Seq<u8>) -> int
    decreases s.len(),
{
    if s.len() == 0 {
        0
    } else {
        digits_val(s.drop_last()) * 10 + (s.last() - 48)
    }
}

pub open spec fn all_digits(s: Seq<u8>) -> bool {
    forall|i: int| 0 <= i < s.len() ==> is_digit(s[i])
}

/// The value grammar: an optional `-`, one or more integer digits, `.`,
/// exactly one fractional digit.
pub open spec fn is_plain_decimal(s: Seq<u8>) -> bool {
    let d: int = if s.len() > 0 && s[0] == 45 {
        1
    } else {
        0
    };
    &&& s.len() >= d + 3
    &&& s[s.len() - 2] == 46
    &&& is_digit(s[s.len() - 1])
    &&& forall|i: int| d <= i < s.len() - 2 ==> is_digit(s[i])
}

/// The number of tenths a well-formed decimal denotes.
pub open spec fn dec_tenths(s: Seq<u8>) -> int {
    let d: int = if s.len() > 0 && s[0] == 45 {
        1
    } else {
        0
    };
    let mag = digits_val(s.subrange(d, s.len() - 2)) * 10 + (s[s.len() - 1] - 48);
    if d == 1 {
        -mag
    } else {
        mag
    }
}

/// A magnitude of tenths that the library can hold in an `i64`.
pub open spec fn fits_tenths(t: int) -> bool {
    -(i64::MAX as int) <= t <= i64::MAX as int
}

pub proof fn lemma_digits_val_nonneg(s: Seq<u8>)
    requires
        all_digits(s),
    ensures
        digits_val(s) >= 0,
    decreases s.len(),
{
    if s.len() > 0 {
        assert(all_digits(s.drop_last()));
        lemma_digits_val_nonneg(s.drop_last());
    }
}

/// Parses `-?digit+.digit` into tenths. Succeeds exactly on well-formed
/// input whose magnitude fits in an `i64`; the error says why and where.
pub fn parse_value(buf: &[u8]) -> (r: Result<i64, ParseError>)
    ensures
        r is Ok <==> is_plain_decimal(buf@) && fits_tenths(dec_tenths(buf@)),
        r matches Ok(v) ==> v == dec_tenths(buf@),
        r matches Err(e) ==> (e matches ParseError::ValueTooLarge { .. } <==> is_plain_decimal(
            buf@,
        )),
        r matches Err(ParseError::BadByte { offset, byte }) ==> offset < buf@.len()
            && buf@[offset as int] == byte,
        r matches Err(ParseError::TruncatedValue { offset }) ==> offset == buf@.len(),
        r matches Err(e) ==> !(e matches ParseError::MissingSeparator { .. }),
{
    let len = buf.len();
    let ghost d: int = if buf@.len() > 0 && buf@[0] == 45 {
        1
    } else {
        0
    };
    let mut i: usize = 0;
    let negative = len > 0 && *slice_index_get(buf, 0) == 45;
    if negative {
        i = 1;
    }
    let start = i;
    // Integer digits, accumulated until the dot. Once the running value
    // exceeds i64::MAX it can only grow, so a flag replaces the stale sum.
    let mut acc: u64 = 0;
    let mut too_big = false;
    while i < len && *slice_index_get(buf, i) != 46
        invariant
            start <= i <= len,
            len == buf@.len(),
            start == d,
            d == 1 ==> buf@.len() > 0 && buf@[0] == 45,
            d == 0 ==> !(buf@.len() > 0 && buf@[0] == 45),
            all_digits(buf@.subrange(start as int, i as int)),
            forall|j: int| start <= j < i ==> buf@[j] != 46,
            !too_big ==> acc == digits_val(buf@.subrange(start as int, i as int)) && acc <= i64::MAX,
            too_big ==> digits_val(buf@.subrange(start as int, i as int)) > i64::MAX,
        decreases len - i,
    {
        let b = *slice_index_get(buf, i);
        if !(b >= 48 && b <= 57) {
            return Err(ParseError::BadByte { offset: i, byte: b });
        }
        proof {
            let pre = buf@.subrange(start as int, i as int);
            let post = buf@.subrange(start as int, i as int + 1);
            assert(post.drop_last() =~= pre);
            assert(post.last() == buf@[i as int]);
            lemma_digits_val_nonneg(pre);
        }
        let digit: u64 = (b - 48) as u64;
        if too_big || acc > (i64::MAX as u64 - digit) / 10 {
            too_big = true;
        } else {
            acc = acc * 10 + digit;
        }
        i = i + 1;
    }
    if i == start {
        // No integer digit at all: either the slice ended or a bare dot.
        if i < len {
            return Err(ParseError::BadByte { offset: i, byte: 46 });
        } else {
            return Err(ParseError::TruncatedValue { offset: len });
        }
    }
    if i >= len {
        return Err(ParseError::TruncatedValue { offset: len });
    }
    // buf[i] is the dot.
    let dot = i;
    if len - dot != 2 {
        // Either nothing follows the dot, or more than one byte does.
        if len - dot > 2 {
            let extra = *slice_index_get(buf, dot + 2);
            return Err(ParseError::BadByte { offset: dot + 2, byte: extra });
        } else {
            return Err(ParseError::TruncatedValue { offset: len });
        }
    }
    let fb = *slice_index_get(buf, dot + 1);
    if !(fb >= 48 && fb <= 57) {
        return Err(ParseError::BadByte { offset: dot + 1, byte: fb });
    }
    let frac: u64 = (fb - 48) as u64;
    proof {
        assert(buf@.subrange(d, buf@.len() - 2) =~= buf@.subrange(start as int, dot as int));
        assert forall|j: int| d <= j < buf@.len() - 2 implies is_digit(buf@[j]) by {
            assert(buf@.subrange(start as int, dot as int)[j - d] == buf@[j]);
        }
        assert(is_plain_decimal(buf@));
        lemma_digits_val_nonneg(buf@.subrange(start as int, dot as int));
    }
    if too_big || acc > (i64::MAX as u64 - frac) / 10 {
        return Err(ParseError::ValueTooLarge { offset: 0 });
    }
    let mag: u64 = acc * 10 + frac;
    if negative {
        Ok(-(mag as i64))
    } else {
        Ok(mag as i64)
    }
}

} // verus!
