//! Variable-length integer decoding: unsigned and signed, over a cursor or
//! a plain position, with a mathematical model of the encoding.

use crate::cursor::Cursor;
use crate::errors::IdlError;
use vstd::prelude::*;

verus! {

/// Position just past the variable-length integer starting at `i`, or `None`
/// when no terminating byte (high bit clear) occurs before `end`.
pub open spec fn vint_end(s: Seq<u8>, i: int, end: int) -> Option<int>
    decreases end - i,
{
    if i < 0 || i >= end || end > s.len() {
        None
    } else if s[i] < 128 {
        Some(i + 1)
    } else {
        vint_end(s, i + 1, end)
    }
}

/// The unsigned value of the variable-length integer at `i`: each byte
/// contributes seven low-order data bits, least significant byte first.
pub open spec fn leb_val_at(s: Seq<u8>, i: int, end: int) -> nat
    decreases end - i,
{
    if i < 0 || i >= end || end > s.len() {
        0
    } else if s[i] < 128 {
        s[i] as nat
    } else {
        (s[i] - 128) as nat + 128 * leb_val_at(s, i + 1, end)
    }
}

/// The signed value of the variable-length integer at `i`: as the unsigned
/// form, except that bit 6 of the terminating byte is a sign bit.
pub open spec fn sleb_val_at(s: Seq<u8>, i: int, end: int) -> int
    decreases end - i,
{
    if i < 0 || i >= end || end > s.len() {
        0
    } else if s[i] < 128 {
        if s[i] >= 64 {
            s[i] - 128
        } else {
            s[i] as int
        }
    } else {
        (s[i] - 128) + 128 * sleb_val_at(s, i + 1, end)
    }
}

/// The decoders below read at most five bytes, enough for any 32-bit value.
pub open spec fn vint_fuel() -> int {
    5
}

/// Whether the unsigned decoder accepts the bytes at `i`: terminated within
/// five bytes and a value below 2^32.
pub open spec fn leb_ok(s: Seq<u8>, i: int, end: int) -> bool {
    match vint_end(s, i, end) {
        Some(p) => p <= i + vint_fuel() && leb_val_at(s, i, end) < 0x1_0000_0000,
        None => false,
    }
}

/// Whether the signed decoder accepts the bytes at `i`: terminated within
/// five bytes and a value representable in 32 signed bits.
pub open spec fn sleb_ok(s: Seq<u8>, i: int, end: int) -> bool {
    match vint_end(s, i, end) {
        Some(p) => p <= i + vint_fuel() && -0x8000_0000 <= sleb_val_at(s, i, end)
            && sleb_val_at(s, i, end) <= 0x7FFF_FFFF,
        None => false,
    }
}

/// Position just past the integer at `i`, when one is there; `i` otherwise.
pub open spec fn leb_after(s: Seq<u8>, i: int, end: int) -> int {
    match vint_end(s, i, end) {
        Some(p) => p,
        None => i,
    }
}

/// The category of a failed decode of at most `fuel` bytes at `i`: the
/// buffer ran out before a terminating byte and before `fuel` bytes were
/// seen, or else the integer does not fit (too long, or out of range).
pub open spec fn vint_err(s: Seq<u8>, i: int, end: int, fuel: int) -> IdlError {
    if vint_end(s, i, end) is None && end - i < fuel {
        IdlError::BufferExhausted
    } else {
        IdlError::VarintOverflow
    }
}

/// The category of a failed 32-bit decode at `i`.
pub open spec fn leb_err(s: Seq<u8>, i: int, end: int) -> IdlError {
    vint_err(s, i, end, vint_fuel())
}

/// A terminated variable-length integer spans at least one byte and stays
/// within the bound.
pub proof fn lemma_vint_bounds(s: Seq<u8>, i: int, end: int)
    ensures
        vint_end(s, i, end) matches Some(p) ==> i < p <= end,
    decreases end - i,
{
    if 0 <= i && i < end && end <= s.len() && s[i] >= 128 {
        lemma_vint_bounds(s, i + 1, end);
    }
}

/// Magnitude bound for a signed value decoded from `fuel` bytes.
pub open spec fn vint_mag(fuel: int) -> int
    decreases fuel,
{
    if fuel <= 0 {
        1
    } else {
        128 * vint_mag(fuel - 1)
    }
}

proof fn lemma_vint_mag_values()
    ensures
        vint_mag(0) == 1,
        vint_mag(1) == 128,
        vint_mag(2) == 0x4000,
        vint_mag(3) == 0x20_0000,
        vint_mag(4) == 0x1000_0000,
        vint_mag(5) == 0x8_0000_0000,
{
    reveal_with_fuel(vint_mag, 7);
}

/// Unsigned decode of at most `fuel` bytes starting at `pos`.
fn leb_core(data: &Vec<u8>, pos: usize, end: usize, fuel: u8) -> (r: Result<
    (u32, usize),
    IdlError,
>)
    requires
        pos <= end <= data@.len(),
        1 <= fuel <= 5,
    ensures
        r matches Ok((v, p)) ==> {
            &&& vint_end(data@, pos as int, end as int) == Some(p as int)
            &&& p <= pos + fuel
            &&& v == leb_val_at(data@, pos as int, end as int)
            &&& pos < p <= end
        },
        r is Err ==> !(vint_end(data@, pos as int, end as int) matches Some(p) && p <= pos
            + fuel && leb_val_at(data@, pos as int, end as int) < 0x1_0000_0000),
        r matches Err(e) ==> e == vint_err(data@, pos as int, end as int, fuel as int),
    decreases fuel,
{
    if pos == end {
        return Err(IdlError::BufferExhausted);
    }
    let b = data[pos];
    if b < 0x80 {
        return Ok((b as u32, pos + 1));
    }
    if fuel == 1 {
        proof {
            lemma_vint_bounds(data@, pos + 1, end as int);
        }
        return Err(IdlError::VarintOverflow);
    }
    match leb_core(data, pos + 1, end, fuel - 1) {
        Err(e) => Err(e),
        Ok((v, p)) => {
            if v >= 0x0200_0000 {
                Err(IdlError::VarintOverflow)
            } else {
                Ok((v * 128 + (b - 128) as u32, p))
            }
        },
    }
}

/// Signed decode of at most `fuel` bytes starting at `pos`. The value is
/// returned exactly; the 32-bit range check is the caller's.
fn sleb_core(data: &Vec<u8>, pos: usize, end: usize, fuel: u8) -> (r: Result<
    (i64, usize),
    IdlError,
>)
    requires
        pos <= end <= data@.len(),
        1 <= fuel <= 5,
    ensures
        r matches Ok((v, p)) ==> {
            &&& vint_end(data@, pos as int, end as int) == Some(p as int)
            &&& p <= pos + fuel
            &&& v == sleb_val_at(data@, pos as int, end as int)
            &&& -vint_mag(fuel as int) <= v < vint_mag(fuel as int)
            &&& pos < p <= end
        },
        r is Err ==> !(vint_end(data@, pos as int, end as int) matches Some(p) && p <= pos
            + fuel),
        r matches Err(e) ==> e == vint_err(data@, pos as int, end as int, fuel as int),
    decreases fuel,
{
    proof {
        lemma_vint_mag_values();
    }
    if pos == end {
        return Err(IdlError::BufferExhausted);
    }
    let b = data[pos];
    if b < 0x80 {
        let v: i64 = if b >= 0x40 {
            (b as i64) - 128
        } else {
            b as i64
        };
        return Ok((v, pos + 1));
    }
    if fuel == 1 {
        proof {
            lemma_vint_bounds(data@, pos + 1, end as int);
        }
        return Err(IdlError::VarintOverflow);
    }
    match sleb_core(data, pos + 1, end, fuel - 1) {
        Err(e) => Err(e),
        Ok((v, p)) => {
            proof {
                assert(vint_mag(fuel as int) == 128 * vint_mag(fuel as int - 1));
            }
            Ok(((b - 128) as i64 + 128 * v, p))
        },
    }
}

/// Unsigned decode at a plain position; used by the skipper.
pub(crate) fn leb_at(data: &Vec<u8>, pos: usize, end: usize) -> (r: Result<(u32, usize), IdlError>)
    requires
        pos <= end <= data@.len(),
    ensures
        r is Ok <==> leb_ok(data@, pos as int, end as int),
        r matches Ok((v, p)) ==> {
            &&& v == leb_val_at(data@, pos as int, end as int)
            &&& p as int == leb_after(data@, pos as int, end as int)
            &&& pos < p <= end
        },
        r matches Err(e) ==> e == leb_err(data@, pos as int, end as int),
{
    leb_core(data, pos, end, 5)
}

/// Signed decode at a plain position; used by the skipper.
pub(crate) fn sleb_at(data: &Vec<u8>, pos: usize, end: usize) -> (r: Result<
    (i32, usize),
    IdlError,
>)
    requires
        pos <= end <= data@.len(),
    ensures
        r is Ok <==> sleb_ok(data@, pos as int, end as int),
        r matches Ok((v, p)) ==> {
            &&& v == sleb_val_at(data@, pos as int, end as int)
            &&& p as int == leb_after(data@, pos as int, end as int)
            &&& pos < p <= end
        },
        r matches Err(e) ==> e == leb_err(data@, pos as int, end as int),
{
    match sleb_core(data, pos, end, 5) {
        Err(e) => Err(e),
        Ok((v, p)) => {
            if -0x8000_0000i64 <= v && v <= 0x7FFF_FFFFi64 {
                Ok((v as i32, p))
            } else {
                Err(IdlError::VarintOverflow)
            }
        },
    }
}

/// Skips one variable-length integer without decoding its value; accepts any
/// length, unlike the value decoders.
pub(crate) fn skip_vint_at(data: &Vec<u8>, pos: usize, end: usize) -> (r: Result<usize, IdlError>)
    requires
        pos <= end <= data@.len(),
    ensures
        r is Ok <==> vint_end(data@, pos as int, end as int) is Some,
        r matches Ok(p) ==> vint_end(data@, pos as int, end as int) == Some(p as int) && pos < p
            <= end,
        r matches Err(e) ==> e == IdlError::BufferExhausted,
{
    let mut i = pos;
    loop
        invariant
            pos <= i <= end <= data@.len(),
            vint_end(data@, pos as int, end as int) == vint_end(data@, i as int, end as int),
        decreases end - i,
    {
        if i == end {
            return Err(IdlError::BufferExhausted);
        }
        let b = data[i];
        i = i + 1;
        if b < 0x80 {
            return Ok(i);
        }
    }
}

/// Reads one unsigned variable-length integer through a cursor.
pub fn leb128_decode(data: &Vec<u8>, c: &mut Cursor) -> (r: Result<u32, IdlError>)
    requires
        old(c).wf(data@),
    ensures
        final(c).wf(data@),
        final(c).end == old(c).end,
        old(c).pos <= final(c).pos,
        r is Ok <==> leb_ok(data@, old(c).pos as int, old(c).end as int),
        r matches Ok(v) ==> {
            &&& v == leb_val_at(data@, old(c).pos as int, old(c).end as int)
            &&& final(c).pos as int == leb_after(data@, old(c).pos as int, old(c).end as int)
        },
        r matches Err(e) ==> e == leb_err(data@, old(c).pos as int, old(c).end as int),
{
    match leb_at(data, c.pos, c.end) {
        Err(e) => Err(e),
        Ok((v, p)) => {
            c.pos = p;
            Ok(v)
        },
    }
}

/// Reads one signed variable-length integer through a cursor.
pub fn sleb128_decode(data: &Vec<u8>, c: &mut Cursor) -> (r: Result<i32, IdlError>)
    requires
        old(c).wf(data@),
    ensures
        final(c).wf(data@),
        final(c).end == old(c).end,
        old(c).pos <= final(c).pos,
        r is Ok <==> sleb_ok(data@, old(c).pos as int, old(c).end as int),
        r matches Ok(v) ==> {
            &&& v == sleb_val_at(data@, old(c).pos as int, old(c).end as int)
            &&& final(c).pos as int == leb_after(data@, old(c).pos as int, old(c).end as int)
        },
        r matches Err(e) ==> e == leb_err(data@, old(c).pos as int, old(c).end as int),
{
    match sleb_at(data, c.pos, c.end) {
        Err(e) => Err(e),
        Ok((v, p)) => {
            c.pos = p;
            Ok(v)
        },
    }
}

/// Advances a cursor past one variable-length integer of any length.
pub fn skip_leb128(data: &Vec<u8>, c: &mut Cursor) -> (r: Result<(), IdlError>)
    requires
        old(c).wf(data@),
    ensures
        final(c).wf(data@),
        final(c).end == old(c).end,
        old(c).pos <= final(c).pos,
        r is Ok <==> vint_end(data@, old(c).pos as int, old(c).end as int) is Some,
        r is Ok ==> vint_end(data@, old(c).pos as int, old(c).end as int) == Some(
            final(c).pos as int,
        ),
        r matches Err(e) ==> e == IdlError::BufferExhausted,
{
    match skip_vint_at(data, c.pos, c.end) {
        Err(e) => Err(e),
        Ok(p) => {
            c.pos = p;
            Ok(())
        },
    }
}

} // verus!
