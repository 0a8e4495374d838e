//! The header parser: magic marker, declared type count, type table and
//! main type list, with the grammar they are validated against.

use crate::cursor::Cursor;
use crate::cursor::word_at;
use crate::errors::IdlError;
use crate::varint::leb128_decode;
use crate::varint::leb_after;
use crate::varint::leb_err;
use crate::varint::leb_ok;
use crate::varint::leb_val_at;
use crate::varint::sleb128_decode;
use crate::varint::sleb_ok;
use crate::varint::sleb_val_at;
use vstd::prelude::*;

verus! {

/// The magic marker, the four bytes of the format identifier read as one
/// little-endian 32-bit word.
pub open spec fn magic_word() -> int {
    0x4C44_4944
}

/// A primitive sentinel: one of the fixed small negative constants, or the
/// principal-reference sentinel.
pub open spec fn is_prim_type(t: int) -> bool {
    (-17 <= t <= -1) || t == -24
}

/// A legal type argument: a primitive sentinel or an in-bounds table index.
pub open spec fn is_valid_typearg(t: int, n_types: int) -> bool {
    is_prim_type(t) || (0 <= t < n_types)
}

/// End of a field-descriptor list of `count` remaining (tag, type) pairs at
/// `i`, with `bound` the least tag still allowed. Tags must not decrease
/// below the running bound, and the maximal tag may only come last.
pub open spec fn fields_list(
    s: Seq<u8>,
    i: int,
    end: int,
    n_types: int,
    count: nat,
    bound: nat,
) -> Option<int>
    decreases count,
{
    if count == 0 {
        Some(i)
    } else if !leb_ok(s, i, end) {
        None
    } else {
        let tag = leb_val_at(s, i, end);
        let i1 = leb_after(s, i, end);
        if tag < bound || (tag == 0xFFFF_FFFF && count > 1) {
            None
        } else if !sleb_ok(s, i1, end) {
            None
        } else if !is_valid_typearg(sleb_val_at(s, i1, end), n_types) {
            None
        } else {
            fields_list(s, leb_after(s, i1, end), end, n_types, (count - 1) as nat, (tag + 1) as nat)
        }
    }
}

/// End of a whole field-descriptor body: a count, then that many descriptors.
pub open spec fn fields_body(s: Seq<u8>, i: int, end: int, n_types: int) -> Option<int> {
    if !leb_ok(s, i, end) {
        None
    } else {
        fields_list(s, leb_after(s, i, end), end, n_types, leb_val_at(s, i, end), 0)
    }
}

/// End of a list of `count` bare type arguments at `i`.
pub open spec fn typearg_list(s: Seq<u8>, i: int, end: int, n_types: int, count: nat) -> Option<int>
    decreases count,
{
    if count == 0 {
        Some(i)
    } else if !sleb_ok(s, i, end) {
        None
    } else if !is_valid_typearg(sleb_val_at(s, i, end), n_types) {
        None
    } else {
        typearg_list(s, leb_after(s, i, end), end, n_types, (count - 1) as nat)
    }
}

/// End of a counted type-argument block: a count, then that many arguments.
pub open spec fn typearg_block(s: Seq<u8>, i: int, end: int, n_types: int) -> Option<int> {
    if !leb_ok(s, i, end) {
        None
    } else {
        typearg_list(s, leb_after(s, i, end), end, n_types, leb_val_at(s, i, end))
    }
}

/// End of one bare type argument at `i`.
pub open spec fn one_typearg(s: Seq<u8>, i: int, end: int, n_types: int) -> Option<int> {
    if !sleb_ok(s, i, end) {
        None
    } else if !is_valid_typearg(sleb_val_at(s, i, end), n_types) {
        None
    } else {
        Some(leb_after(s, i, end))
    }
}

/// End of `count` service-method entries at `i`: each a length-prefixed raw
/// name followed by one type argument.
pub open spec fn service_list(s: Seq<u8>, i: int, end: int, n_types: int, count: nat) -> Option<int>
    decreases count,
{
    if count == 0 {
        Some(i)
    } else if !leb_ok(s, i, end) {
        None
    } else {
        let l = leb_val_at(s, i, end);
        let i1 = leb_after(s, i, end);
        if i1 + l > end {
            None
        } else {
            match one_typearg(s, i1 + l, end, n_types) {
                None => None,
                Some(i2) => service_list(s, i2, end, n_types, (count - 1) as nat),
            }
        }
    }
}

/// End of one type-table entry at `i`: a signed constructor tag, then a body
/// per the grammar. Primitive sentinels and unrecognized non-negative tags
/// are forbidden inside the table; the alias constructor is accepted only in
/// extended mode; anything below the known constructors is an unrecognized
/// future constructor carried as a length-prefixed opaque blob.
pub open spec fn type_entry_end(
    s: Seq<u8>,
    i: int,
    end: int,
    n_types: int,
    extended: bool,
) -> Option<int> {
    if !sleb_ok(s, i, end) {
        None
    } else {
        let ty = sleb_val_at(s, i, end);
        let i1 = leb_after(s, i, end);
        if extended && ty == 1 {
            one_typearg(s, i1, end, n_types)
        } else if ty >= 0 {
            None
        } else if is_prim_type(ty) {
            None
        } else if ty == -18 || ty == -19 {
            one_typearg(s, i1, end, n_types)
        } else if ty == -20 || ty == -21 {
            fields_body(s, i1, end, n_types)
        } else if ty == -22 {
            match typearg_block(s, i1, end, n_types) {
                None => None,
                Some(i2) => match typearg_block(s, i2, end, n_types) {
                    None => None,
                    Some(i3) => {
                        if !leb_ok(s, i3, end) {
                            None
                        } else {
                            let c = leb_val_at(s, i3, end);
                            let i4 = leb_after(s, i3, end);
                            if i4 + c > end {
                                None
                            } else {
                                Some(i4 + c)
                            }
                        }
                    },
                },
            }
        } else if ty == -23 {
            if !leb_ok(s, i1, end) {
                None
            } else {
                service_list(s, leb_after(s, i1, end), end, n_types, leb_val_at(s, i1, end))
            }
        } else {
            if !leb_ok(s, i1, end) {
                None
            } else {
                let c = leb_val_at(s, i1, end);
                let i2 = leb_after(s, i1, end);
                if i2 + c > end {
                    None
                } else {
                    Some(i2 + c)
                }
            }
        }
    }
}

/// Parses `count` table entries from `i`, yielding the start position of each
/// entry and the position just past the last.
pub open spec fn table_entries(
    s: Seq<u8>,
    i: int,
    end: int,
    n_types: int,
    count: nat,
    extended: bool,
) -> Option<(Seq<int>, int)>
    decreases count,
{
    if count == 0 {
        Some((Seq::empty(), i))
    } else {
        match type_entry_end(s, i, end, n_types, extended) {
            None => None,
            Some(i1) => match table_entries(s, i1, end, n_types, (count - 1) as nat, extended) {
                None => None,
                Some(r) => Some((seq![i].add(r.0), r.1)),
            },
        }
    }
}

/// The whole header at `i`: magic, declared type count, a plausibility check
/// that each declared type has at least one byte left, the type table, and
/// the main type list. Yields the table-entry positions, the position of the
/// main-type-list count field, and the position just past the header.
pub open spec fn header_spec(s: Seq<u8>, i: int, end: int, extended: bool) -> Option<
    (Seq<int>, int, int),
> {
    if i >= end || i + 4 > end || end > s.len() {
        None
    } else if word_at(s, i) != magic_word() {
        None
    } else if !leb_ok(s, i + 4, end) {
        None
    } else {
        let n = leb_val_at(s, i + 4, end);
        let i2 = leb_after(s, i + 4, end);
        if i2 + n >= end {
            None
        } else {
            match table_entries(s, i2, end, n as int, n, extended) {
                None => None,
                Some(r) => match typearg_block(s, r.1, end, n as int) {
                    None => None,
                    Some(i4) => Some((r.0, r.1, i4)),
                },
            }
        }
    }
}

/// The table positions of a parsed header, as mathematical integers.
pub open spec fn tbl_view(t: Seq<usize>) -> Seq<int> {
    t.map_values(|x: usize| x as int)
}

/// What the value skipper relies on: every table entry parses as a legal
/// constructor (alias admitted) with every type argument in bounds.
pub open spec fn table_wf(s: Seq<u8>, tbl: Seq<int>, end: int) -> bool {
    forall|j: int|
        0 <= j < tbl.len() ==> type_entry_end(s, tbl[j], end, tbl.len() as int, true) is Some
}


/// The failure category of a field-descriptor list that does not validate.
/// Meaningful when `fields_list` is `None`; it names the first failure.
pub open spec fn fields_list_err(
    s: Seq<u8>,
    i: int,
    end: int,
    n_types: int,
    count: nat,
    bound: nat,
) -> IdlError
    decreases count,
{
    if count == 0 {
        IdlError::TagOutOfOrder
    } else if !leb_ok(s, i, end) {
        leb_err(s, i, end)
    } else {
        let tag = leb_val_at(s, i, end);
        let i1 = leb_after(s, i, end);
        if tag < bound || (tag == 0xFFFF_FFFF && count > 1) {
            IdlError::TagOutOfOrder
        } else if !sleb_ok(s, i1, end) {
            leb_err(s, i1, end)
        } else if !is_valid_typearg(sleb_val_at(s, i1, end), n_types) {
            IdlError::InvalidTypeArg
        } else {
            fields_list_err(
                s,
                leb_after(s, i1, end),
                end,
                n_types,
                (count - 1) as nat,
                (tag + 1) as nat,
            )
        }
    }
}

/// The failure category of a whole field-descriptor body.
pub open spec fn fields_body_err(s: Seq<u8>, i: int, end: int, n_types: int) -> IdlError {
    if !leb_ok(s, i, end) {
        leb_err(s, i, end)
    } else {
        fields_list_err(s, leb_after(s, i, end), end, n_types, leb_val_at(s, i, end), 0)
    }
}

/// The failure category of a list of bare type arguments.
pub open spec fn typearg_list_err(
    s: Seq<u8>,
    i: int,
    end: int,
    n_types: int,
    count: nat,
) -> IdlError
    decreases count,
{
    if count == 0 {
        IdlError::InvalidTypeArg
    } else if !sleb_ok(s, i, end) {
        leb_err(s, i, end)
    } else if !is_valid_typearg(sleb_val_at(s, i, end), n_types) {
        IdlError::InvalidTypeArg
    } else {
        typearg_list_err(s, leb_after(s, i, end), end, n_types, (count - 1) as nat)
    }
}

/// The failure category of a counted type-argument block.
pub open spec fn typearg_block_err(s: Seq<u8>, i: int, end: int, n_types: int) -> IdlError {
    if !leb_ok(s, i, end) {
        leb_err(s, i, end)
    } else {
        typearg_list_err(s, leb_after(s, i, end), end, n_types, leb_val_at(s, i, end))
    }
}

/// The failure category of one bare type argument.
pub open spec fn one_typearg_err(s: Seq<u8>, i: int, end: int, n_types: int) -> IdlError {
    if !sleb_ok(s, i, end) {
        leb_err(s, i, end)
    } else {
        IdlError::InvalidTypeArg
    }
}

/// The failure category of a run of service-method entries.
pub open spec fn service_list_err(
    s: Seq<u8>,
    i: int,
    end: int,
    n_types: int,
    count: nat,
) -> IdlError
    decreases count,
{
    if count == 0 {
        IdlError::InvalidTypeArg
    } else if !leb_ok(s, i, end) {
        leb_err(s, i, end)
    } else {
        let l = leb_val_at(s, i, end);
        let i1 = leb_after(s, i, end);
        if i1 + l > end {
            IdlError::BufferExhausted
        } else {
            match one_typearg(s, i1 + l, end, n_types) {
                None => one_typearg_err(s, i1 + l, end, n_types),
                Some(i2) => service_list_err(s, i2, end, n_types, (count - 1) as nat),
            }
        }
    }
}

/// The failure category of one type-table entry that does not validate.
pub open spec fn type_entry_err(
    s: Seq<u8>,
    i: int,
    end: int,
    n_types: int,
    extended: bool,
) -> IdlError {
    if !sleb_ok(s, i, end) {
        leb_err(s, i, end)
    } else {
        let ty = sleb_val_at(s, i, end);
        let i1 = leb_after(s, i, end);
        if extended && ty == 1 {
            one_typearg_err(s, i1, end, n_types)
        } else if ty >= 0 {
            IdlError::IllegalTypeTable
        } else if is_prim_type(ty) {
            IdlError::PrimitiveInTable
        } else if ty == -18 || ty == -19 {
            one_typearg_err(s, i1, end, n_types)
        } else if ty == -20 || ty == -21 {
            fields_body_err(s, i1, end, n_types)
        } else if ty == -22 {
            match typearg_block(s, i1, end, n_types) {
                None => typearg_block_err(s, i1, end, n_types),
                Some(i2) => match typearg_block(s, i2, end, n_types) {
                    None => typearg_block_err(s, i2, end, n_types),
                    Some(i3) => {
                        if !leb_ok(s, i3, end) {
                            leb_err(s, i3, end)
                        } else {
                            IdlError::BufferExhausted
                        }
                    },
                },
            }
        } else if ty == -23 {
            if !leb_ok(s, i1, end) {
                leb_err(s, i1, end)
            } else {
                service_list_err(s, leb_after(s, i1, end), end, n_types, leb_val_at(s, i1, end))
            }
        } else {
            if !leb_ok(s, i1, end) {
                leb_err(s, i1, end)
            } else {
                IdlError::BufferExhausted
            }
        }
    }
}

/// The failure category of the first table entry that does not validate.
pub open spec fn table_entries_err(
    s: Seq<u8>,
    i: int,
    end: int,
    n_types: int,
    count: nat,
    extended: bool,
) -> IdlError
    decreases count,
{
    if count == 0 {
        IdlError::IllegalTypeTable
    } else {
        match type_entry_end(s, i, end, n_types, extended) {
            None => type_entry_err(s, i, end, n_types, extended),
            Some(i1) => table_entries_err(s, i1, end, n_types, (count - 1) as nat, extended),
        }
    }
}

/// The failure category of a header that does not parse: empty input, a bad
/// or truncated magic, an implausible type count, the first invalid table
/// entry, or the first invalid main-list argument.
pub open spec fn header_err(s: Seq<u8>, i: int, end: int, extended: bool) -> IdlError {
    if i >= end {
        IdlError::EmptyInput
    } else if i + 4 > end || end > s.len() {
        IdlError::BufferExhausted
    } else if word_at(s, i) != magic_word() {
        IdlError::MissingMagic
    } else if !leb_ok(s, i + 4, end) {
        leb_err(s, i + 4, end)
    } else {
        let n = leb_val_at(s, i + 4, end);
        let i2 = leb_after(s, i + 4, end);
        if i2 + n >= end {
            IdlError::TooManyTypes
        } else {
            match table_entries(s, i2, end, n as int, n, extended) {
                None => table_entries_err(s, i2, end, n as int, n, extended),
                Some(r) => typearg_block_err(s, r.1, end, n as int),
            }
        }
    }
}

/// Tests whether a type is a primitive sentinel.
pub fn is_primitive_type(ty: i32) -> (r: bool)
    ensures
        r == is_prim_type(ty as int),
{
    ty < 0 && (ty >= -17 || ty == -24)
}

/// Accepts a type argument: a primitive sentinel or an index below `n_types`.
pub fn check_typearg(ty: i32, n_types: u32) -> (r: Result<(), IdlError>)
    ensures
        r is Ok <==> is_valid_typearg(ty as int, n_types as int),
        r matches Err(e) ==> e == IdlError::InvalidTypeArg,
{
    if is_primitive_type(ty) || (ty >= 0 && (ty as u32) < n_types) {
        Ok(())
    } else {
        Err(IdlError::InvalidTypeArg)
    }
}

/// Reads and validates one field-descriptor list: a count, then that many
/// (tag, type) pairs with tags never below the running bound and the maximal
/// tag only in last position.
pub fn parse_fields(data: &Vec<u8>, c: &mut Cursor, n_types: u32) -> (r: Result<(), IdlError>)
    requires
        old(c).wf(data@),
    ensures
        final(c).wf(data@),
        final(c).end == old(c).end,
        old(c).pos <= final(c).pos,
        r is Ok <==> fields_body(data@, old(c).pos as int, old(c).end as int, n_types as int)
            is Some,
        r is Ok ==> fields_body(data@, old(c).pos as int, old(c).end as int, n_types as int)
            == Some(final(c).pos as int),
        r matches Err(e) ==> e == fields_body_err(
            data@,
            old(c).pos as int,
            old(c).end as int,
            n_types as int,
        ),
{
    let ghost s = data@;
    let ghost p0 = old(c).pos as int;
    let ghost e = old(c).end as int;
    let count = match leb128_decode(data, c) {
        Ok(v) => v,
        Err(err) => {
            return Err(err);
        },
    };
    let mut rem: u32 = count;
    let mut bound: u64 = 0;
    while rem > 0
        invariant
            c.wf(s),
            c.end as int == e,
            p0 <= c.pos,
            bound <= 0x1_0000_0000,
            fields_body(s, p0, e, n_types as int) == fields_list(
                s,
                c.pos as int,
                e,
                n_types as int,
                rem as nat,
                bound as nat,
            ),
            fields_body_err(s, p0, e, n_types as int) == fields_list_err(
                s,
                c.pos as int,
                e,
                n_types as int,
                rem as nat,
                bound as nat,
            ),
        decreases rem,
    {
        let tag = match leb128_decode(data, c) {
            Ok(v) => v,
            Err(err) => {
                return Err(err);
            },
        };
        if (tag as u64) < bound || (tag == 0xFFFF_FFFF && rem > 1) {
            return Err(IdlError::TagOutOfOrder);
        }
        let t = match sleb128_decode(data, c) {
            Ok(v) => v,
            Err(err) => {
                return Err(err);
            },
        };
        match check_typearg(t, n_types) {
            Ok(u) => u,
            Err(err) => {
                return Err(err);
            },
        };
        bound = (tag as u64) + 1;
        rem = rem - 1;
    }
    Ok(())
}

/// Reads and validates a counted list of bare type arguments.
fn parse_typearg_list(data: &Vec<u8>, c: &mut Cursor, n_types: u32) -> (r: Result<(), IdlError>)
    requires
        old(c).wf(data@),
    ensures
        final(c).wf(data@),
        final(c).end == old(c).end,
        old(c).pos <= final(c).pos,
        r is Ok <==> typearg_block(data@, old(c).pos as int, old(c).end as int, n_types as int)
            is Some,
        r is Ok ==> typearg_block(data@, old(c).pos as int, old(c).end as int, n_types as int)
            == Some(final(c).pos as int),
        r matches Err(e) ==> e == typearg_block_err(
            data@,
            old(c).pos as int,
            old(c).end as int,
            n_types as int,
        ),
{
    let ghost s = data@;
    let ghost p0 = old(c).pos as int;
    let ghost e = old(c).end as int;
    let count = match leb128_decode(data, c) {
        Ok(v) => v,
        Err(err) => {
            return Err(err);
        },
    };
    let mut rem: u32 = count;
    while rem > 0
        invariant
            c.wf(s),
            c.end as int == e,
            p0 <= c.pos,
            typearg_block(s, p0, e, n_types as int) == typearg_list(
                s,
                c.pos as int,
                e,
                n_types as int,
                rem as nat,
            ),
            typearg_block_err(s, p0, e, n_types as int) == typearg_list_err(
                s,
                c.pos as int,
                e,
                n_types as int,
                rem as nat,
            ),
        decreases rem,
    {
        let t = match sleb128_decode(data, c) {
            Ok(v) => v,
            Err(err) => {
                return Err(err);
            },
        };
        match check_typearg(t, n_types) {
            Ok(u) => u,
            Err(err) => {
                return Err(err);
            },
        };
        rem = rem - 1;
    }
    Ok(())
}

/// Reads and validates one type-table entry: a signed constructor tag and its
/// body per the grammar.
#[verifier::rlimit(60)]
fn parse_type_entry(extended: bool, data: &Vec<u8>, c: &mut Cursor, n_types: u32) -> (r: Result<
    (),
    IdlError,
>)
    requires
        old(c).wf(data@),
    ensures
        final(c).wf(data@),
        final(c).end == old(c).end,
        old(c).pos <= final(c).pos,
        r is Ok <==> type_entry_end(
            data@,
            old(c).pos as int,
            old(c).end as int,
            n_types as int,
            extended,
        ) is Some,
        r is Ok ==> type_entry_end(
            data@,
            old(c).pos as int,
            old(c).end as int,
            n_types as int,
            extended,
        ) == Some(final(c).pos as int),
        r matches Err(e) ==> e == type_entry_err(
            data@,
            old(c).pos as int,
            old(c).end as int,
            n_types as int,
            extended,
        ),
{
    let ghost s = data@;
    let ghost e = old(c).end as int;
    let ty = match sleb128_decode(data, c) {
        Ok(v) => v,
        Err(err) => {
            return Err(err);
        },
    };
    if extended && ty == 1 {
        let t = match sleb128_decode(data, c) {
            Ok(v) => v,
            Err(err) => {
                return Err(err);
            },
        };
        match check_typearg(t, n_types) {
            Ok(u) => u,
            Err(err) => {
                return Err(err);
            },
        };
        Ok(())
    } else if ty >= 0 {
        Err(IdlError::IllegalTypeTable)
    } else if is_primitive_type(ty) {
        Err(IdlError::PrimitiveInTable)
    } else if ty == -18 || ty == -19 {
        let t = match sleb128_decode(data, c) {
            Ok(v) => v,
            Err(err) => {
                return Err(err);
            },
        };
        match check_typearg(t, n_types) {
            Ok(u) => u,
            Err(err) => {
                return Err(err);
            },
        };
        Ok(())
    } else if ty == -20 || ty == -21 {
        match parse_fields(data, c, n_types) {
            Ok(u) => u,
            Err(err) => {
                return Err(err);
            },
        };
        Ok(())
    } else if ty == -22 {
        match parse_typearg_list(data, c, n_types) {
            Ok(u) => u,
            Err(err) => {
                return Err(err);
            },
        };
        match parse_typearg_list(data, c, n_types) {
            Ok(u) => u,
            Err(err) => {
                return Err(err);
            },
        };
        let ann = match leb128_decode(data, c) {
            Ok(v) => v,
            Err(err) => {
                return Err(err);
            },
        };
        match c.advance(data, ann as usize) {
            Ok(u) => u,
            Err(err) => {
                return Err(err);
            },
        };
        Ok(())
    } else if ty == -23 {
        let ghost i1 = c.pos as int;
        let m = match leb128_decode(data, c) {
            Ok(v) => v,
            Err(err) => {
                return Err(err);
            },
        };
        let mut k: u32 = m;
        while k > 0
            invariant
                c.wf(s),
                c.end as int == e,
                old(c).pos <= c.pos,
                service_list(s, leb_after(s, i1, e), e, n_types as int, m as nat) == service_list(
                    s,
                    c.pos as int,
                    e,
                    n_types as int,
                    k as nat,
                ),
                service_list_err(s, leb_after(s, i1, e), e, n_types as int, m as nat)
                    == service_list_err(s, c.pos as int, e, n_types as int, k as nat),
            decreases k,
        {
            let size = match leb128_decode(data, c) {
                Ok(v) => v,
                Err(err) => {
                    return Err(err);
                },
            };
            match c.advance(data, size as usize) {
                Ok(u) => u,
                Err(err) => {
                    return Err(err);
                },
            };
            let t = match sleb128_decode(data, c) {
                Ok(v) => v,
                Err(err) => {
                    return Err(err);
                },
            };
            match check_typearg(t, n_types) {
                Ok(u) => u,
                Err(err) => {
                    return Err(err);
                },
            };
            k = k - 1;
        }
        Ok(())
    } else {
        let len = match leb128_decode(data, c) {
            Ok(v) => v,
            Err(err) => {
                return Err(err);
            },
        };
        match c.advance(data, len as usize) {
            Ok(u) => u,
            Err(err) => {
                return Err(err);
            },
        };
        Ok(())
    }
}

/// Parses the magic header and the whole type description. On success the
/// cursor stands on the first byte after the header, the returned table holds
/// the position of each declared type's encoding, and the returned position
/// is that of the main type list's own count field (callers re-derive the
/// count from it). A failure anywhere rejects the whole message: no partial
/// table is ever returned. After success every type argument anywhere in the
/// message's type structure is known in bounds, which is what the value
/// skipper relies on.
#[verifier::rlimit(60)]
pub fn parse_idl_header(extended: bool, data: &Vec<u8>, c: &mut Cursor) -> (r: Result<
    (Vec<usize>, usize),
    IdlError,
>)
    requires
        old(c).wf(data@),
    ensures
        final(c).wf(data@),
        final(c).end == old(c).end,
        old(c).pos <= final(c).pos,
        r is Ok <==> header_spec(data@, old(c).pos as int, old(c).end as int, extended) is Some,
        r matches Ok((table, main_pos)) ==> {
            &&& header_spec(data@, old(c).pos as int, old(c).end as int, extended) == Some(
                (tbl_view(table@), main_pos as int, final(c).pos as int),
            )
            &&& table_wf(data@, tbl_view(table@), old(c).end as int)
        },
        r matches Err(e) ==> e == header_err(
            data@,
            old(c).pos as int,
            old(c).end as int,
            extended,
        ),
{
    let ghost s = data@;
    let ghost p0 = old(c).pos as int;
    let ghost e = old(c).end as int;
    if c.pos == c.end {
        return Err(IdlError::EmptyInput);
    }
    let w = match c.read_word_le(data) {
        Ok(v) => v,
        Err(err) => {
            return Err(err);
        },
    };
    if w != 0x4C44_4944 {
        return Err(IdlError::MissingMagic);
    }
    let n_types = match leb128_decode(data, c) {
        Ok(v) => v,
        Err(err) => {
            return Err(err);
        },
    };
    if (n_types as usize) >= c.end - c.pos {
        return Err(IdlError::TooManyTypes);
    }
    let ghost tstart = c.pos as int;
    let mut typtbl: Vec<usize> = Vec::new();
    let mut i: u32 = 0;
    while i < n_types
        invariant
            c.wf(s),
            c.end as int == e,
            tstart <= c.pos as int,
            i <= n_types,
            typtbl@.len() == i as int,
            table_entries(s, tstart, e, n_types as int, n_types as nat, extended) == (
            match table_entries(
                s,
                c.pos as int,
                e,
                n_types as int,
                (n_types - i) as nat,
                extended,
            ) {
                None => None::<(Seq<int>, int)>,
                Some(r2) => Some((tbl_view(typtbl@).add(r2.0), r2.1)),
            }),
            forall|j: int|
                0 <= j < i ==> type_entry_end(
                    s,
                    tbl_view(typtbl@)[j],
                    e,
                    n_types as int,
                    extended,
                ) is Some,
            table_entries_err(s, tstart, e, n_types as int, n_types as nat, extended)
                == table_entries_err(s, c.pos as int, e, n_types as int, (n_types - i) as nat, extended),
        decreases n_types - i,
    {
        let ghost entry_start = c.pos as int;
        let ghost old_tbl = typtbl@;
        typtbl.push(c.pos);
        proof {
            assert(tbl_view(typtbl@) =~= tbl_view(old_tbl).push(entry_start));
        }
        match parse_type_entry(extended, data, c, n_types) {
            Ok(u) => u,
            Err(err) => {
                return Err(err);
            },
        };
        proof {
            let r2 = table_entries(
                s,
                c.pos as int,
                e,
                n_types as int,
                (n_types - i - 1) as nat,
                extended,
            );
            if r2 is Some {
                assert(tbl_view(old_tbl).add(seq![entry_start].add(r2->Some_0.0)) =~= tbl_view(
                    typtbl@,
                ).add(r2->Some_0.0));
            }
        }
        i = i + 1;
    }
    let main_pos = c.pos;
    match parse_typearg_list(data, c, n_types) {
        Ok(u) => u,
        Err(err) => {
            return Err(err);
        },
    };
    proof {
        assert(table_entries(s, tstart, e, n_types as int, n_types as nat, extended) == Some(
            (tbl_view(typtbl@), main_pos as int),
        ));
        assert(forall|j: int|
            0 <= j < tbl_view(typtbl@).len() ==> type_entry_end(
                s,
                tbl_view(typtbl@)[j],
                e,
                n_types as int,
                true,
            ) is Some) by {
            assert forall|j: int| 0 <= j < tbl_view(typtbl@).len() implies type_entry_end(
                s,
                tbl_view(typtbl@)[j],
                e,
                n_types as int,
                true,
            ) is Some by {
                lemma_entry_extended(s, tbl_view(typtbl@)[j], e, n_types as int, extended);
            }
        }
    }
    Ok((typtbl, main_pos))
}

/// An entry legal without the extended grammar is legal with it, unchanged.
proof fn lemma_entry_extended(s: Seq<u8>, i: int, end: int, n_types: int, extended: bool)
    ensures
        type_entry_end(s, i, end, n_types, extended) is Some ==> type_entry_end(
            s,
            i,
            end,
            n_types,
            true,
        ) == type_entry_end(s, i, end, n_types, extended),
{
}

} // verus!
