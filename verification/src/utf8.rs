//! UTF-8 well-formedness: a specification of the encoding and a verified
//! validator for a byte range.

use vstd::prelude::*;

verus! {

/// A UTF-8 continuation byte.
pub open spec fn is_cont(b: u8) -> bool {
    0x80 <= b <= 0xBF
}

/// Whether the bytes of `s` from `i` (inclusive) to `end` (exclusive) are a
/// well-formed UTF-8 sequence: no overlong forms, no surrogates, no code
/// points beyond U+10FFFF, no truncated tail.
pub open spec fn utf8_region(s: Seq<u8>, i: int, end: int) -> bool
    decreases end - i,
{
    if i >= end {
        true
    } else if !(0 <= i && end <= s.len()) {
        false
    } else {
        let b0 = s[i];
        if b0 < 0x80 {
            utf8_region(s, i + 1, end)
        } else if b0 < 0xC2 {
            false
        } else if b0 <= 0xDF {
            i + 2 <= end && is_cont(s[i + 1]) && utf8_region(s, i + 2, end)
        } else if b0 == 0xE0 {
            i + 3 <= end && 0xA0 <= s[i + 1] <= 0xBF && is_cont(s[i + 2]) && utf8_region(
                s,
                i + 3,
                end,
            )
        } else if b0 == 0xED {
            i + 3 <= end && 0x80 <= s[i + 1] <= 0x9F && is_cont(s[i + 2]) && utf8_region(
                s,
                i + 3,
                end,
            )
        } else if b0 <= 0xEF {
            i + 3 <= end && is_cont(s[i + 1]) && is_cont(s[i + 2]) && utf8_region(s, i + 3, end)
        } else if b0 == 0xF0 {
            i + 4 <= end && 0x90 <= s[i + 1] <= 0xBF && is_cont(s[i + 2]) && is_cont(s[i + 3])
                && utf8_region(s, i + 4, end)
        } else if b0 <= 0xF3 {
            i + 4 <= end && is_cont(s[i + 1]) && is_cont(s[i + 2]) && is_cont(s[i + 3])
                && utf8_region(s, i + 4, end)
        } else if b0 == 0xF4 {
            i + 4 <= end && 0x80 <= s[i + 1] <= 0x8F && is_cont(s[i + 2]) && is_cont(s[i + 3])
                && utf8_region(s, i + 4, end)
        } else {
            false
        }
    }
}

/// Checks that `data[start..end]` is well-formed UTF-8.
pub fn utf8_validate_range(data: &Vec<u8>, start: usize, end: usize) -> (r: bool)
    requires
        start <= end <= data@.len(),
    ensures
        r == utf8_region(data@, start as int, end as int),
{
    let mut i = start;
    loop
        invariant
            start <= i <= end <= data@.len(),
            utf8_region(data@, start as int, end as int) == utf8_region(
                data@,
                i as int,
                end as int,
            ),
        decreases end - i,
    {
        if i == end {
            return true;
        }
        let b0 = data[i];
        if b0 < 0x80 {
            i = i + 1;
        } else if b0 < 0xC2 {
            return false;
        } else if b0 <= 0xDF {
            if end - i < 2 || !cont(data[i + 1]) {
                return false;
            }
            i = i + 2;
        } else if b0 <= 0xEF {
            if end - i < 3 || !cont(data[i + 2]) {
                return false;
            }
            let b1 = data[i + 1];
            let ok = if b0 == 0xE0 {
                0xA0 <= b1 && b1 <= 0xBF
            } else if b0 == 0xED {
                0x80 <= b1 && b1 <= 0x9F
            } else {
                cont(b1)
            };
            if !ok {
                return false;
            }
            i = i + 3;
        } else if b0 <= 0xF4 {
            if end - i < 4 || !cont(data[i + 2]) || !cont(data[i + 3]) {
                return false;
            }
            let b1 = data[i + 1];
            let ok = if b0 == 0xF0 {
                0x90 <= b1 && b1 <= 0xBF
            } else if b0 == 0xF4 {
                0x80 <= b1 && b1 <= 0x8F
            } else {
                cont(b1)
            };
            if !ok {
                return false;
            }
            i = i + 4;
        } else {
            return false;
        }
    }
}

/// Continuation-byte test, the executable twin of `is_cont`.
fn cont(b: u8) -> (r: bool)
    ensures
        r == is_cont(b),
{
    0x80 <= b && b <= 0xBF
}

} // verus!
