//! The value skipper and field locator: advancing a cursor past one typed
//! value, and sequential search over a field-descriptor list.

use crate::cursor::Cursor;
use crate::errors::IdlError;
use crate::header::is_valid_typearg;
use crate::header::table_wf;
use crate::header::tbl_view;
use crate::header::type_entry_end;
use crate::header::fields_list;
use crate::utf8::utf8_region;
use crate::utf8::utf8_validate_range;
use crate::varint::leb_after;
use crate::varint::leb_at;
use crate::varint::leb_err;
use crate::varint::leb_ok;
use crate::varint::leb_val_at;
use crate::varint::sleb_at;
use crate::varint::sleb_ok;
use crate::varint::sleb_val_at;
use crate::varint::skip_vint_at;
use crate::varint::skip_leb128;
use crate::varint::leb128_decode;
use crate::varint::sleb128_decode;
use crate::varint::vint_end;
use vstd::prelude::*;

verus! {

/// Position after skipping `count` variable-length integers at `i`.
pub open spec fn skip_vints(s: Seq<u8>, i: int, end: int, count: nat) -> Option<int>
    decreases count,
{
    if count == 0 {
        Some(i)
    } else {
        match vint_end(s, i, end) {
            None => None,
            Some(i1) => skip_vints(s, i1, end, (count - 1) as nat),
        }
    }
}

/// Position just past one encoded value of type `t` starting at `v`, or
/// `None` when the value is malformed, inhabits an unskippable type, or
/// nests records deeper than the limit. `t` is a primitive sentinel or an
/// index into `tbl`, whose entries are positions of type definitions within
/// `s`. `depth` counts enclosing record levels only.
pub open spec fn skip_val(s: Seq<u8>, tbl: Seq<int>, t: int, v: int, end: int, depth: int) -> Option<
    int,
>
    decreases end - v, 101 - depth, 1int, 0int,
{
    if !(0 <= v <= end <= s.len()) || depth < 0 {
        None
    } else if depth > 100 {
        None
    } else if t == -1 || t == -16 {
        // null, reserved
        Some(v)
    } else if t == -2 {
        // bool: one byte, 0 or 1
        if v < end && s[v] <= 1 {
            Some(v + 1)
        } else {
            None
        }
    } else if t == -3 || t == -4 {
        // nat, int: one varint of any length
        vint_end(s, v, end)
    } else if t == -5 || t == -9 {
        if v + 1 <= end {
            Some(v + 1)
        } else {
            None
        }
    } else if t == -6 || t == -10 {
        if v + 2 <= end {
            Some(v + 2)
        } else {
            None
        }
    } else if t == -7 || t == -11 || t == -13 {
        if v + 4 <= end {
            Some(v + 4)
        } else {
            None
        }
    } else if t == -8 || t == -12 || t == -14 {
        if v + 8 <= end {
            Some(v + 8)
        } else {
            None
        }
    } else if t == -15 {
        // text: length, then that many bytes of well-formed UTF-8
        if !leb_ok(s, v, end) {
            None
        } else {
            let len = leb_val_at(s, v, end);
            let v1 = leb_after(s, v, end);
            if v1 + len > end {
                None
            } else if !utf8_region(s, v1, v1 + len) {
                None
            } else {
                Some(v1 + len)
            }
        }
    } else if t == -17 {
        // empty: uninhabited
        None
    } else if t == -24 {
        // principal reference: tag byte, then an optional length-prefixed blob
        if !(v < end && s[v] <= 1) {
            None
        } else if s[v] == 0 {
            Some(v + 1)
        } else {
            if !leb_ok(s, v + 1, end) {
                None
            } else {
                let len = leb_val_at(s, v + 1, end);
                let v2 = leb_after(s, v + 1, end);
                if v2 + len > end {
                    None
                } else {
                    Some(v2 + len)
                }
            }
        }
    } else if t < 0 {
        // unknown primitive sentinel
        None
    } else if t >= tbl.len() {
        None
    } else {
        let p = tbl[t];
        if !sleb_ok(s, p, end) {
            None
        } else {
            let tc = sleb_val_at(s, p, end);
            let p1 = leb_after(s, p, end);
            if tc == -18 {
                // option: tag byte, then the payload when the tag is 1
                if !sleb_ok(s, p1, end) {
                    None
                } else {
                    let it = sleb_val_at(s, p1, end);
                    if !(v < end && s[v] <= 1) {
                        None
                    } else if s[v] == 0 {
                        Some(v + 1)
                    } else {
                        skip_val(s, tbl, it, v + 1, end, 0)
                    }
                }
            } else if tc == -19 {
                // vector: element count, then that many elements
                if !sleb_ok(s, p1, end) {
                    None
                } else {
                    let it = sleb_val_at(s, p1, end);
                    if !leb_ok(s, v, end) {
                        None
                    } else {
                        let n = leb_val_at(s, v, end);
                        let v1 = leb_after(s, v, end);
                        if v < v1 <= end {
                            skip_vec(s, tbl, it, v1, end, n)
                        } else {
                            None
                        }
                    }
                }
            } else if tc == -20 {
                // record: one value per field, in field order, depth counted
                if !leb_ok(s, p1, end) {
                    None
                } else {
                    let n = leb_val_at(s, p1, end);
                    let p2 = leb_after(s, p1, end);
                    match skip_fields_val(s, tbl, p2, v, end, n, depth + 1, t) {
                        None => None,
                        Some(r) => Some(r.1),
                    }
                }
            } else if tc == -21 {
                // variant: a selector, then the selected field's value
                if !leb_ok(s, p1, end) {
                    None
                } else {
                    let n = leb_val_at(s, p1, end);
                    let p2 = leb_after(s, p1, end);
                    if !leb_ok(s, v, end) {
                        None
                    } else {
                        let sel = leb_val_at(s, v, end);
                        let v1 = leb_after(s, v, end);
                        if sel >= n {
                            None
                        } else {
                            match skip_vints(s, p2, end, 2 * sel) {
                                None => None,
                                Some(p3) => match vint_end(s, p3, end) {
                                    None => None,
                                    Some(p4) => {
                                        if !sleb_ok(s, p4, end) {
                                            None
                                        } else {
                                            let it = sleb_val_at(s, p4, end);
                                            if v < v1 <= end {
                                                skip_val(s, tbl, it, v1, end, 0)
                                            } else {
                                                None
                                            }
                                        }
                                    },
                                },
                            }
                        }
                    }
                }
            } else if tc == -22 || tc == -23 {
                // func, service: reference values cannot be skipped
                None
            } else if tc == 1 {
                // alias: tag 0 is an inline value behind an 8-byte
                // placeholder, anything else a 4-byte back-reference
                if !sleb_ok(s, p1, end) {
                    None
                } else {
                    let it = sleb_val_at(s, p1, end);
                    if !(v < end && s[v] <= 1) {
                        None
                    } else if s[v] == 0 {
                        if v + 9 <= end {
                            skip_val(s, tbl, it, v + 9, end, 0)
                        } else {
                            None
                        }
                    } else {
                        if v + 5 <= end {
                            Some(v + 5)
                        } else {
                            None
                        }
                    }
                }
            } else {
                // unrecognized future constructor: data length, reference
                // count, raw data; reference-bearing values are refused
                if !leb_ok(s, v, end) {
                    None
                } else {
                    let nd = leb_val_at(s, v, end);
                    let v1 = leb_after(s, v, end);
                    if !leb_ok(s, v1, end) {
                        None
                    } else {
                        let nr = leb_val_at(s, v1, end);
                        let v2 = leb_after(s, v1, end);
                        if v2 + nd > end {
                            None
                        } else if nr > 0 {
                            None
                        } else {
                            Some(v2 + nd)
                        }
                    }
                }
            }
        }
    }
}

/// Position after `count` elements of element type `it` starting at `v`.
pub open spec fn skip_vec(s: Seq<u8>, tbl: Seq<int>, it: int, v: int, end: int, count: nat) -> Option<
    int,
>
    decreases end - v, 102int, 0int, count as int,
{
    if !(0 <= v <= end <= s.len()) {
        None
    } else if count == 0 {
        Some(v)
    } else {
        match skip_val(s, tbl, it, v, end, 0) {
            None => None,
            Some(v1) => if v <= v1 <= end {
                skip_vec(s, tbl, it, v1, end, (count - 1) as nat)
            } else {
                None
            },
        }
    }
}

/// Walks `count` field descriptors at `tp` while skipping the matching
/// values at `v`; yields the positions after both. Children are skipped at
/// depth `cd`; a field whose type argument equals `self_idx` (the enclosing
/// record's own index, or negative for no check) is refused.
pub open spec fn skip_fields_val(
    s: Seq<u8>,
    tbl: Seq<int>,
    tp: int,
    v: int,
    end: int,
    count: nat,
    cd: int,
    self_idx: int,
) -> Option<(int, int)>
    decreases end - v, 102 - cd, 0int, count as int,
{
    if !(0 <= v <= end <= s.len()) || !(0 <= cd <= 101) {
        None
    } else if count == 0 {
        Some((tp, v))
    } else {
        match vint_end(s, tp, end) {
            None => None,
            Some(tp1) => {
                if !sleb_ok(s, tp1, end) {
                    None
                } else {
                    let it = sleb_val_at(s, tp1, end);
                    let tp2 = leb_after(s, tp1, end);
                    if self_idx >= 0 && it == self_idx {
                        None
                    } else {
                        match skip_val(s, tbl, it, v, end, cd) {
                            None => None,
                            Some(v1) => if v <= v1 <= end {
                                skip_fields_val(
                                    s,
                                    tbl,
                                    tp2,
                                    v1,
                                    end,
                                    (count - 1) as nat,
                                    cd,
                                    self_idx,
                                )
                            } else {
                                None
                            },
                        }
                    }
                }
            },
        }
    }
}

/// Sequential search for `tag` over `count` remaining field descriptors at
/// `tp`, skipping the values of lower-tagged fields at `v`. On a hit the
/// result is (true, position of the found field's type argument, position of
/// its value, descriptors left after it); on a miss the type position stands
/// on the first strictly-greater tag (or the end) with its value position
/// and remaining count untouched.
pub open spec fn find_field_spec(
    s: Seq<u8>,
    tbl: Seq<int>,
    tp: int,
    v: int,
    end: int,
    tag: nat,
    count: nat,
) -> Option<(bool, int, int, nat)>
    decreases count,
{
    if count == 0 {
        Some((false, tp, v, 0 as nat))
    } else if !leb_ok(s, tp, end) {
        None
    } else {
        let this_tag = leb_val_at(s, tp, end);
        let tp1 = leb_after(s, tp, end);
        if this_tag < tag {
            if !sleb_ok(s, tp1, end) {
                None
            } else {
                let it = sleb_val_at(s, tp1, end);
                let tp2 = leb_after(s, tp1, end);
                match skip_val(s, tbl, it, v, end, 0) {
                    None => None,
                    Some(v1) => find_field_spec(s, tbl, tp2, v1, end, tag, (count - 1) as nat),
                }
            }
        } else if this_tag == tag {
            Some((true, tp1, v, (count - 1) as nat))
        } else {
            Some((false, tp, v, count))
        }
    }
}

/// The category a byte-tag read fails with: exhaustion at the end, or a
/// byte that is neither 0 nor 1.
pub open spec fn byte_tag_err(s: Seq<u8>, v: int, end: int) -> IdlError {
    if v >= end {
        IdlError::BufferExhausted
    } else {
        IdlError::InvalidByteTag
    }
}

/// The failure category of a skip that does not go through: the first
/// refusal met along `skip_val`'s path. Meaningful when `skip_val` is
/// `None`.
pub open spec fn skip_err(s: Seq<u8>, tbl: Seq<int>, t: int, v: int, end: int, depth: int) -> IdlError
    decreases end - v, 101 - depth, 1int, 0int,
{
    if !(0 <= v <= end <= s.len()) || depth < 0 {
        IdlError::BufferExhausted
    } else if depth > 100 {
        IdlError::TooDeeplyNested
    } else if t == -1 || t == -16 {
        IdlError::BufferExhausted
    } else if t == -2 {
        byte_tag_err(s, v, end)
    } else if t == -3 || t == -4 {
        IdlError::BufferExhausted
    } else if -8 <= t <= -5 || -14 <= t <= -9 {
        IdlError::BufferExhausted
    } else if t == -15 {
        if !leb_ok(s, v, end) {
            leb_err(s, v, end)
        } else {
            let len = leb_val_at(s, v, end);
            let v1 = leb_after(s, v, end);
            if v1 + len > end {
                IdlError::BufferExhausted
            } else {
                IdlError::InvalidUtf8
            }
        }
    } else if t == -17 {
        IdlError::SkipEmpty
    } else if t == -24 {
        if !(v < end && s[v] <= 1) {
            byte_tag_err(s, v, end)
        } else if s[v] == 0 {
            IdlError::BufferExhausted
        } else {
            if !leb_ok(s, v + 1, end) {
                leb_err(s, v + 1, end)
            } else {
                IdlError::BufferExhausted
            }
        }
    } else if t < 0 {
        IdlError::UnknownPrimitive
    } else if t >= tbl.len() {
        IdlError::BufferExhausted
    } else {
        let p = tbl[t];
        if !sleb_ok(s, p, end) {
            leb_err(s, p, end)
        } else {
            let tc = sleb_val_at(s, p, end);
            let p1 = leb_after(s, p, end);
            if tc == -18 {
                if !sleb_ok(s, p1, end) {
                    leb_err(s, p1, end)
                } else {
                    let it = sleb_val_at(s, p1, end);
                    if !(v < end && s[v] <= 1) {
                        byte_tag_err(s, v, end)
                    } else if s[v] == 0 {
                        IdlError::BufferExhausted
                    } else {
                        skip_err(s, tbl, it, v + 1, end, 0)
                    }
                }
            } else if tc == -19 {
                if !sleb_ok(s, p1, end) {
                    leb_err(s, p1, end)
                } else {
                    let it = sleb_val_at(s, p1, end);
                    if !leb_ok(s, v, end) {
                        leb_err(s, v, end)
                    } else {
                        let n = leb_val_at(s, v, end);
                        let v1 = leb_after(s, v, end);
                        if v < v1 <= end {
                            skip_vec_err(s, tbl, it, v1, end, n)
                        } else {
                            IdlError::BufferExhausted
                        }
                    }
                }
            } else if tc == -20 {
                if !leb_ok(s, p1, end) {
                    leb_err(s, p1, end)
                } else {
                    let n = leb_val_at(s, p1, end);
                    let p2 = leb_after(s, p1, end);
                    skip_fields_err(s, tbl, p2, v, end, n, depth + 1, t)
                }
            } else if tc == -21 {
                if !leb_ok(s, p1, end) {
                    leb_err(s, p1, end)
                } else {
                    let n = leb_val_at(s, p1, end);
                    let p2 = leb_after(s, p1, end);
                    if !leb_ok(s, v, end) {
                        leb_err(s, v, end)
                    } else {
                        let sel = leb_val_at(s, v, end);
                        let v1 = leb_after(s, v, end);
                        if sel >= n {
                            IdlError::VariantTagTooLarge
                        } else {
                            match skip_vints(s, p2, end, 2 * sel) {
                                None => IdlError::BufferExhausted,
                                Some(p3) => match vint_end(s, p3, end) {
                                    None => IdlError::BufferExhausted,
                                    Some(p4) => {
                                        if !sleb_ok(s, p4, end) {
                                            leb_err(s, p4, end)
                                        } else {
                                            let it = sleb_val_at(s, p4, end);
                                            if v < v1 <= end {
                                                skip_err(s, tbl, it, v1, end, 0)
                                            } else {
                                                IdlError::BufferExhausted
                                            }
                                        }
                                    },
                                },
                            }
                        }
                    }
                }
            } else if tc == -22 {
                IdlError::SkipFunc
            } else if tc == -23 {
                IdlError::SkipService
            } else if tc == 1 {
                if !sleb_ok(s, p1, end) {
                    leb_err(s, p1, end)
                } else {
                    let it = sleb_val_at(s, p1, end);
                    if !(v < end && s[v] <= 1) {
                        byte_tag_err(s, v, end)
                    } else if s[v] == 0 {
                        if v + 9 <= end {
                            skip_err(s, tbl, it, v + 9, end, 0)
                        } else {
                            IdlError::BufferExhausted
                        }
                    } else {
                        IdlError::BufferExhausted
                    }
                }
            } else {
                if !leb_ok(s, v, end) {
                    leb_err(s, v, end)
                } else {
                    let nd = leb_val_at(s, v, end);
                    let v1 = leb_after(s, v, end);
                    if !leb_ok(s, v1, end) {
                        leb_err(s, v1, end)
                    } else {
                        let nr = leb_val_at(s, v1, end);
                        let v2 = leb_after(s, v1, end);
                        if v2 + nd > end {
                            IdlError::BufferExhausted
                        } else {
                            IdlError::FutureReferences
                        }
                    }
                }
            }
        }
    }
}

/// The failure category of a run of vector elements that does not skip.
pub open spec fn skip_vec_err(
    s: Seq<u8>,
    tbl: Seq<int>,
    it: int,
    v: int,
    end: int,
    count: nat,
) -> IdlError
    decreases end - v, 102int, 0int, count as int,
{
    if !(0 <= v <= end <= s.len()) || count == 0 {
        IdlError::BufferExhausted
    } else {
        match skip_val(s, tbl, it, v, end, 0) {
            None => skip_err(s, tbl, it, v, end, 0),
            Some(v1) => if v <= v1 <= end {
                skip_vec_err(s, tbl, it, v1, end, (count - 1) as nat)
            } else {
                IdlError::BufferExhausted
            },
        }
    }
}

/// The failure category of a run of record or variant fields that does not
/// skip.
pub open spec fn skip_fields_err(
    s: Seq<u8>,
    tbl: Seq<int>,
    tp: int,
    v: int,
    end: int,
    count: nat,
    cd: int,
    self_idx: int,
) -> IdlError
    decreases end - v, 102 - cd, 0int, count as int,
{
    if !(0 <= v <= end <= s.len()) || !(0 <= cd <= 101) || count == 0 {
        IdlError::BufferExhausted
    } else {
        match vint_end(s, tp, end) {
            None => IdlError::BufferExhausted,
            Some(tp1) => {
                if !sleb_ok(s, tp1, end) {
                    leb_err(s, tp1, end)
                } else {
                    let it = sleb_val_at(s, tp1, end);
                    let tp2 = leb_after(s, tp1, end);
                    if self_idx >= 0 && it == self_idx {
                        IdlError::RecursiveRecord
                    } else {
                        match skip_val(s, tbl, it, v, end, cd) {
                            None => skip_err(s, tbl, it, v, end, cd),
                            Some(v1) => if v <= v1 <= end {
                                skip_fields_err(
                                    s,
                                    tbl,
                                    tp2,
                                    v1,
                                    end,
                                    (count - 1) as nat,
                                    cd,
                                    self_idx,
                                )
                            } else {
                                IdlError::BufferExhausted
                            },
                        }
                    }
                }
            },
        }
    }
}

/// The failure category of a field search that does not complete.
pub open spec fn find_field_err(
    s: Seq<u8>,
    tbl: Seq<int>,
    tp: int,
    v: int,
    end: int,
    tag: nat,
    count: nat,
) -> IdlError
    decreases count,
{
    if count == 0 {
        IdlError::BufferExhausted
    } else if !leb_ok(s, tp, end) {
        leb_err(s, tp, end)
    } else {
        let this_tag = leb_val_at(s, tp, end);
        let tp1 = leb_after(s, tp, end);
        if this_tag < tag {
            if !sleb_ok(s, tp1, end) {
                leb_err(s, tp1, end)
            } else {
                let it = sleb_val_at(s, tp1, end);
                let tp2 = leb_after(s, tp1, end);
                match skip_val(s, tbl, it, v, end, 0) {
                    None => skip_err(s, tbl, it, v, end, 0),
                    Some(v1) => find_field_err(s, tbl, tp2, v1, end, tag, (count - 1) as nat),
                }
            }
        } else {
            IdlError::BufferExhausted
        }
    }
}

/// What the field locator needs of a region of `count` field descriptors:
/// each descriptor's tag and type argument decode, and the argument is in
/// bounds. Established for every record and variant by the header parser.
pub open spec fn fields_region_wf(s: Seq<u8>, tp: int, end: int, n_types: int, count: nat) -> bool
    decreases count,
{
    count == 0 || (leb_ok(s, tp, end) && {
        let tp1 = leb_after(s, tp, end);
        &&& sleb_ok(s, tp1, end)
        &&& is_valid_typearg(sleb_val_at(s, tp1, end), n_types)
        &&& fields_region_wf(s, leb_after(s, tp1, end), end, n_types, (count - 1) as nat)
    })
}

/// A validated field list is a well-formed field region.
pub proof fn lemma_fields_list_wf(
    s: Seq<u8>,
    i: int,
    end: int,
    n_types: int,
    count: nat,
    bound: nat,
)
    requires
        fields_list(s, i, end, n_types, count, bound) is Some,
    ensures
        fields_region_wf(s, i, end, n_types, count),
    decreases count,
{
    if count > 0 {
        let tag = leb_val_at(s, i, end);
        let i1 = leb_after(s, i, end);
        lemma_fields_list_wf(
            s,
            leb_after(s, i1, end),
            end,
            n_types,
            (count - 1) as nat,
            (tag + 1) as nat,
        );
    }
}

/// In a validated field list, the type argument of the `k`-th descriptor
/// (reached by skipping `2 k` varints, then the tag) decodes and is in
/// bounds: no type reference inside a record or variant body can escape the
/// declared type count once the header has been parsed.
pub proof fn lemma_fields_nth(
    s: Seq<u8>,
    i: int,
    end: int,
    n_types: int,
    count: nat,
    bound: nat,
    k: nat,
)
    requires
        fields_list(s, i, end, n_types, count, bound) is Some,
        k < count,
    ensures
        skip_vints(s, i, end, 2 * k) is Some,
        vint_end(s, skip_vints(s, i, end, 2 * k)->Some_0, end) is Some,
        sleb_ok(s, vint_end(s, skip_vints(s, i, end, 2 * k)->Some_0, end)->Some_0, end),
        is_valid_typearg(
            sleb_val_at(s, vint_end(s, skip_vints(s, i, end, 2 * k)->Some_0, end)->Some_0, end),
            n_types,
        ),
    decreases k,
{
    let tag = leb_val_at(s, i, end);
    let i1 = leb_after(s, i, end);
    let i2 = leb_after(s, i1, end);
    if k == 0 {
        assert(skip_vints(s, i, end, 0) == Some(i));
    } else {
        lemma_fields_nth(s, i2, end, n_types, (count - 1) as nat, (tag + 1) as nat, (k - 1) as nat);
        assert(skip_vints(s, i, end, 2 * k) == skip_vints(s, i1, end, (2 * k - 1) as nat));
        assert(skip_vints(s, i1, end, (2 * k - 1) as nat) == skip_vints(
            s,
            i2,
            end,
            (2 * (k - 1)) as nat,
        ));
    }
}

/// Reads one byte that must be 0 or 1, at a plain position.
fn byte_tag_at(data: &Vec<u8>, pos: usize, end: usize) -> (r: Result<(u8, usize), IdlError>)
    requires
        pos <= end <= data@.len(),
    ensures
        r is Ok <==> (pos < end && data@[pos as int] <= 1),
        r matches Ok((b, p)) ==> b == data@[pos as int] && p == pos + 1,
        r matches Err(e) ==> e == byte_tag_err(data@, pos as int, end as int),
{
    if pos < end {
        let b = data[pos];
        if b <= 1 {
            Ok((b, pos + 1))
        } else {
            Err(IdlError::InvalidByteTag)
        }
    } else {
        Err(IdlError::BufferExhausted)
    }
}

/// Advances past one encoded value of a primitive type (`t` negative).
fn skip_prim_value(
    data: &Vec<u8>,
    typtbl: &Vec<usize>,
    t: i32,
    pos: usize,
    end: usize,
    depth: i32,
) -> (r: Result<usize, IdlError>)
    requires
        pos <= end <= data@.len(),
        t < 0,
        0 <= depth <= 100,
    ensures
        r is Ok <==> skip_val(
            data@,
            tbl_view(typtbl@),
            t as int,
            pos as int,
            end as int,
            depth as int,
        ) is Some,
        r matches Ok(p) ==> skip_val(
            data@,
            tbl_view(typtbl@),
            t as int,
            pos as int,
            end as int,
            depth as int,
        ) == Some(p as int) && pos <= p <= end,
        r matches Err(e) ==> e == skip_err(
            data@,
            tbl_view(typtbl@),
            t as int,
            pos as int,
            end as int,
            depth as int,
        ),
{
    match t {
        -1 | -16 => Ok(pos),
        -2 => {
            match byte_tag_at(data, pos, end) {
                Ok((_b, p)) => Ok(p),
                Err(err) => Err(err),
            }
        },
        -3 | -4 => {
            match skip_vint_at(data, pos, end) {
                Ok(p) => Ok(p),
                Err(err) => Err(err),
            }
        },
        -5 | -9 => {
            if end - pos >= 1 {
                Ok(pos + 1)
            } else {
                Err(IdlError::BufferExhausted)
            }
        },
        -6 | -10 => {
            if end - pos >= 2 {
                Ok(pos + 2)
            } else {
                Err(IdlError::BufferExhausted)
            }
        },
        -7 | -11 | -13 => {
            if end - pos >= 4 {
                Ok(pos + 4)
            } else {
                Err(IdlError::BufferExhausted)
            }
        },
        -8 | -12 | -14 => {
            if end - pos >= 8 {
                Ok(pos + 8)
            } else {
                Err(IdlError::BufferExhausted)
            }
        },
        -15 => {
            let (len, v1) = match leb_at(data, pos, end) {
                Ok(v) => v,
                Err(err) => {
                    return Err(err);
                },
            };
            if end - v1 < len as usize {
                return Err(IdlError::BufferExhausted);
            }
            let v2 = v1 + len as usize;
            if !utf8_validate_range(data, v1, v2) {
                return Err(IdlError::InvalidUtf8);
            }
            Ok(v2)
        },
        -17 => Err(IdlError::SkipEmpty),
        -24 => {
            let (b, p) = match byte_tag_at(data, pos, end) {
                Ok(v) => v,
                Err(err) => {
                    return Err(err);
                },
            };
            if b == 0 {
                Ok(p)
            } else {
                let (len, v2) = match leb_at(data, p, end) {
                    Ok(v) => v,
                    Err(err) => {
                        return Err(err);
                    },
                };
                if end - v2 < len as usize {
                    Err(IdlError::BufferExhausted)
                } else {
                    Ok(v2 + len as usize)
                }
            }
        },
        _ => Err(IdlError::UnknownPrimitive),
    }
}

/// Advances past `count` vector elements of element type `it` starting at
/// `v`.
fn skip_vec_run(
    data: &Vec<u8>,
    typtbl: &Vec<usize>,
    it: i32,
    v: usize,
    end: usize,
    count: u32,
) -> (r: Result<usize, IdlError>)
    requires
        v <= end <= data@.len(),
        table_wf(data@, tbl_view(typtbl@), end as int),
        it >= 0 ==> (it as int) < typtbl@.len(),
    ensures
        r is Ok <==> skip_vec(
            data@,
            tbl_view(typtbl@),
            it as int,
            v as int,
            end as int,
            count as nat,
        ) is Some,
        r matches Ok(p) ==> skip_vec(
            data@,
            tbl_view(typtbl@),
            it as int,
            v as int,
            end as int,
            count as nat,
        ) == Some(p as int) && v <= p <= end,
        r matches Err(e) ==> e == skip_vec_err(
            data@,
            tbl_view(typtbl@),
            it as int,
            v as int,
            end as int,
            count as nat,
        ),
    decreases end - v, 102int, 0int, count as int,
{
    let ghost s = data@;
    let ghost tbl = tbl_view(typtbl@);
    let ghost e = end as int;
    let mut cur = v;
    let mut j: u32 = 0;
    while j < count
        invariant
            j <= count,
            v <= cur <= end,
            skip_vec(s, tbl, it as int, v as int, e, count as nat) == skip_vec(
                s,
                tbl,
                it as int,
                cur as int,
                e,
                (count - j) as nat,
            ),
            skip_vec_err(s, tbl, it as int, v as int, e, count as nat) == skip_vec_err(
                s,
                tbl,
                it as int,
                cur as int,
                e,
                (count - j) as nat,
            ),
        decreases count - j,
    {
        cur = match skip_value(data, typtbl, it, cur, end, 0) {
            Ok(p) => p,
            Err(err) => {
                return Err(err);
            },
        };
        j = j + 1;
    }
    Ok(cur)
}

/// Walks `count` validated field descriptors at `tp`, skipping each field's
/// value at `v` with child depth `cd`; refuses a field whose type argument
/// equals `self_idx`.
fn skip_fields_run(
    data: &Vec<u8>,
    typtbl: &Vec<usize>,
    tp: usize,
    v: usize,
    end: usize,
    count: u32,
    cd: i32,
    self_idx: i32,
    bound0: Ghost<nat>,
) -> (r: Result<(usize, usize), IdlError>)
    requires
        v <= end <= data@.len(),
        tp <= end,
        table_wf(data@, tbl_view(typtbl@), end as int),
        0 <= cd <= 101,
        fields_list(
            data@,
            tp as int,
            end as int,
            typtbl@.len() as int,
            count as nat,
            bound0@,
        ) is Some,
    ensures
        r is Ok <==> skip_fields_val(
            data@,
            tbl_view(typtbl@),
            tp as int,
            v as int,
            end as int,
            count as nat,
            cd as int,
            self_idx as int,
        ) is Some,
        r matches Ok((tp2, v2)) ==> skip_fields_val(
            data@,
            tbl_view(typtbl@),
            tp as int,
            v as int,
            end as int,
            count as nat,
            cd as int,
            self_idx as int,
        ) == Some((tp2 as int, v2 as int)) && v <= v2 <= end && tp2 <= end,
        r matches Err(e) ==> e == skip_fields_err(
            data@,
            tbl_view(typtbl@),
            tp as int,
            v as int,
            end as int,
            count as nat,
            cd as int,
            self_idx as int,
        ),
    decreases end - v, 102 - cd, 0int, count as int,
{
    let ghost s = data@;
    let ghost tbl = tbl_view(typtbl@);
    let ghost e = end as int;
    let mut tp_cur = tp;
    let mut v_cur = v;
    let mut j: u32 = 0;
    let ghost mut gbound: nat = bound0@;
    while j < count
        invariant
            j <= count,
            v <= v_cur <= end,
            tp_cur <= end,
            fields_list(s, tp_cur as int, e, tbl.len() as int, (count - j) as nat, gbound)
                is Some,
            skip_fields_val(s, tbl, tp as int, v as int, e, count as nat, cd as int, self_idx as int)
                == skip_fields_val(
                s,
                tbl,
                tp_cur as int,
                v_cur as int,
                e,
                (count - j) as nat,
                cd as int,
                self_idx as int,
            ),
            skip_fields_err(s, tbl, tp as int, v as int, e, count as nat, cd as int, self_idx as int)
                == skip_fields_err(
                s,
                tbl,
                tp_cur as int,
                v_cur as int,
                e,
                (count - j) as nat,
                cd as int,
                self_idx as int,
            ),
        decreases count - j,
    {
        let ghost old_tp = tp_cur as int;
        let tp1 = match skip_vint_at(data, tp_cur, end) {
            Ok(p) => p,
            Err(err) => {
                return Err(err);
            },
        };
        let (it, tp2) = match sleb_at(data, tp1, end) {
            Ok(p) => p,
            Err(err) => {
                return Err(err);
            },
        };
        if self_idx >= 0 && it == self_idx {
            return Err(IdlError::RecursiveRecord);
        }
        v_cur = match skip_value(data, typtbl, it, v_cur, end, cd) {
            Ok(p) => p,
            Err(err) => {
                return Err(err);
            },
        };
        tp_cur = tp2;
        proof {
            gbound = (leb_val_at(s, old_tp, e) + 1) as nat;
        }
        j = j + 1;
    }
    Ok((tp_cur, v_cur))
}

/// Advances a type-side position past `count` (tag, type) descriptor pairs.
fn walk_descriptor_pairs(data: &Vec<u8>, tp: usize, end: usize, count: u32) -> (r: Result<
    usize,
    IdlError,
>)
    requires
        tp <= end <= data@.len(),
    ensures
        r is Ok <==> skip_vints(data@, tp as int, end as int, (2 * count) as nat) is Some,
        r matches Ok(p) ==> skip_vints(data@, tp as int, end as int, (2 * count) as nat) == Some(
            p as int,
        ) && p <= end,
        r matches Err(e) ==> e == IdlError::BufferExhausted,
{
    let ghost s = data@;
    let ghost e = end as int;
    let mut tp_cur = tp;
    let mut j: u32 = 0;
    while j < count
        invariant
            j <= count,
            tp_cur <= end,
            skip_vints(s, tp as int, e, (2 * count) as nat) == skip_vints(
                s,
                tp_cur as int,
                e,
                (2 * (count - j)) as nat,
            ),
        decreases count - j,
    {
        let ghost rem = (2 * (count - j)) as nat;
        let a = match skip_vint_at(data, tp_cur, end) {
            Ok(p) => p,
            Err(err) => {
                return Err(err);
            },
        };
        proof {
            assert(skip_vints(s, tp_cur as int, e, rem) == skip_vints(
                s,
                a as int,
                e,
                (rem - 1) as nat,
            ));
        }
        let b2 = match skip_vint_at(data, a, end) {
            Ok(p) => p,
            Err(err) => {
                return Err(err);
            },
        };
        proof {
            assert(skip_vints(s, a as int, e, (rem - 1) as nat) == skip_vints(
                s,
                b2 as int,
                e,
                (rem - 2) as nat,
            ));
        }
        tp_cur = b2;
        j = j + 1;
    }
    Ok(tp_cur)
}

/// Advances past one variant value of table type `t`: a selector from the
/// value bytes, then the selected field's value.
#[verifier::rlimit(100)]
fn skip_variant_value(
    data: &Vec<u8>,
    typtbl: &Vec<usize>,
    t: i32,
    pos: usize,
    end: usize,
    depth: i32,
) -> (r: Result<usize, IdlError>)
    requires
        pos <= end <= data@.len(),
        table_wf(data@, tbl_view(typtbl@), end as int),
        0 <= t,
        (t as int) < typtbl@.len(),
        0 <= depth <= 100,
        sleb_ok(data@, tbl_view(typtbl@)[t as int], end as int),
        sleb_val_at(data@, tbl_view(typtbl@)[t as int], end as int) == -21,
    ensures
        r is Ok <==> skip_val(
            data@,
            tbl_view(typtbl@),
            t as int,
            pos as int,
            end as int,
            depth as int,
        ) is Some,
        r matches Ok(p) ==> skip_val(
            data@,
            tbl_view(typtbl@),
            t as int,
            pos as int,
            end as int,
            depth as int,
        ) == Some(p as int) && pos <= p <= end,
        r matches Err(e) ==> e == skip_err(
            data@,
            tbl_view(typtbl@),
            t as int,
            pos as int,
            end as int,
            depth as int,
        ),
    decreases end - pos, 101 - depth, 0int, 0int,
{
    let ghost s = data@;
    let ghost tbl = tbl_view(typtbl@);
    let ghost e = end as int;
    let tp = typtbl[t as usize];
    proof {
        assert(tbl[t as int] == tp as int);
        assert(type_entry_end(s, tp as int, e, tbl.len() as int, true) is Some);
    }
    let (_tc, p1) = match sleb_at(data, tp, end) {
        Ok(v) => v,
        Err(err) => {
            return Err(err);
        },
    };
    let (nf, p2) = match leb_at(data, p1, end) {
        Ok(v) => v,
        Err(err) => {
            return Err(err);
        },
    };
    let (sel, v1) = match leb_at(data, pos, end) {
        Ok(v) => v,
        Err(err) => {
            return Err(err);
        },
    };
    if sel >= nf {
        return Err(IdlError::VariantTagTooLarge);
    }
    proof {
        lemma_fields_nth(s, p2 as int, e, tbl.len() as int, nf as nat, 0, sel as nat);
    }
    let tp_cur = match walk_descriptor_pairs(data, p2, end, sel) {
        Ok(p) => p,
        Err(err) => {
            return Err(err);
        },
    };
    let p4 = match skip_vint_at(data, tp_cur, end) {
        Ok(p) => p,
        Err(err) => {
            return Err(err);
        },
    };
    let (it, _p5) = match sleb_at(data, p4, end) {
        Ok(v) => v,
        Err(err) => {
            return Err(err);
        },
    };
    skip_value(data, typtbl, it, v1, end, 0)
}

/// Advances past exactly one encoded value of type `t` starting at `pos`,
/// returning the position just past it. Requires a validated type table, on
/// which it relies for every type argument it reads being in bounds.
#[verifier::rlimit(100)]
pub(crate) fn skip_value(
    data: &Vec<u8>,
    typtbl: &Vec<usize>,
    t: i32,
    pos: usize,
    end: usize,
    depth: i32,
) -> (r: Result<usize, IdlError>)
    requires
        pos <= end <= data@.len(),
        table_wf(data@, tbl_view(typtbl@), end as int),
        t >= 0 ==> (t as int) < typtbl@.len(),
        depth >= 0,
    ensures
        r is Ok <==> skip_val(
            data@,
            tbl_view(typtbl@),
            t as int,
            pos as int,
            end as int,
            depth as int,
        ) is Some,
        r matches Ok(p) ==> skip_val(
            data@,
            tbl_view(typtbl@),
            t as int,
            pos as int,
            end as int,
            depth as int,
        ) == Some(p as int) && pos <= p <= end,
        r matches Err(e) ==> e == skip_err(
            data@,
            tbl_view(typtbl@),
            t as int,
            pos as int,
            end as int,
            depth as int,
        ),
    decreases end - pos, 101 - depth, 1int, 0int,
{
    let ghost s = data@;
    let ghost tbl = tbl_view(typtbl@);
    let ghost e = end as int;
    if depth > 100 {
        return Err(IdlError::TooDeeplyNested);
    }
    if t < 0 {
        skip_prim_value(data, typtbl, t, pos, end, depth)
    } else {
        let tp = typtbl[t as usize];
        proof {
            assert(tbl[t as int] == tp as int);
            assert(type_entry_end(s, tp as int, e, tbl.len() as int, true) is Some);
        }
        let (tc, p1) = match sleb_at(data, tp, end) {
            Ok(v) => v,
            Err(err) => {
                return Err(err);
            },
        };
        if tc == -18 {
            let (it, _p2) = match sleb_at(data, p1, end) {
                Ok(v) => v,
                Err(err) => {
                    return Err(err);
                },
            };
            let (b, v1) = match byte_tag_at(data, pos, end) {
                Ok(v) => v,
                Err(err) => {
                    return Err(err);
                },
            };
            if b == 0 {
                Ok(v1)
            } else {
                skip_value(data, typtbl, it, v1, end, 0)
            }
        } else if tc == -19 {
            let (it, _p2) = match sleb_at(data, p1, end) {
                Ok(v) => v,
                Err(err) => {
                    return Err(err);
                },
            };
            let (n, v1) = match leb_at(data, pos, end) {
                Ok(v) => v,
                Err(err) => {
                    return Err(err);
                },
            };
            skip_vec_run(data, typtbl, it, v1, end, n)
        } else if tc == -20 {
            let (nf, p2) = match leb_at(data, p1, end) {
                Ok(v) => v,
                Err(err) => {
                    return Err(err);
                },
            };
            match skip_fields_run(data, typtbl, p2, pos, end, nf, depth + 1, t, Ghost(0)) {
                Ok((_tp2, v2)) => Ok(v2),
                Err(err) => Err(err),
            }
        } else if tc == -21 {
            skip_variant_value(data, typtbl, t, pos, end, depth)
        } else if tc == -22 {
            Err(IdlError::SkipFunc)
        } else if tc == -23 {
            Err(IdlError::SkipService)
        } else if tc == 1 {
            let (it, _p2) = match sleb_at(data, p1, end) {
                Ok(v) => v,
                Err(err) => {
                    return Err(err);
                },
            };
            let (b, v1) = match byte_tag_at(data, pos, end) {
                Ok(v) => v,
                Err(err) => {
                    return Err(err);
                },
            };
            if b == 0 {
                if end - v1 < 8 {
                    return Err(IdlError::BufferExhausted);
                }
                skip_value(data, typtbl, it, v1 + 8, end, 0)
            } else {
                if end - v1 < 4 {
                    Err(IdlError::BufferExhausted)
                } else {
                    Ok(v1 + 4)
                }
            }
        } else {
            let (nd, v1) = match leb_at(data, pos, end) {
                Ok(v) => v,
                Err(err) => {
                    return Err(err);
                },
            };
            let (nr, v2) = match leb_at(data, v1, end) {
                Ok(v) => v,
                Err(err) => {
                    return Err(err);
                },
            };
            if end - v2 < nd as usize {
                return Err(IdlError::BufferExhausted);
            }
            if nr > 0 {
                return Err(IdlError::FutureReferences);
            }
            Ok(v2 + nd as usize)
        }
    }
}

/// Advances the value cursor past exactly one encoded value of type `t`,
/// recursing through the type table for composite types. `depth` counts
/// enclosing record levels; past 100 the value is refused.
pub fn skip_any(data: &Vec<u8>, buf: &mut Cursor, typtbl: &Vec<usize>, t: i32, depth: i32) -> (r:
    Result<(), IdlError>)
    requires
        old(buf).wf(data@),
        table_wf(data@, tbl_view(typtbl@), old(buf).end as int),
        t >= 0 ==> (t as int) < typtbl@.len(),
        depth >= 0,
    ensures
        final(buf).wf(data@),
        final(buf).end == old(buf).end,
        old(buf).pos <= final(buf).pos,
        r is Ok <==> skip_val(
            data@,
            tbl_view(typtbl@),
            t as int,
            old(buf).pos as int,
            old(buf).end as int,
            depth as int,
        ) is Some,
        r is Ok ==> skip_val(
            data@,
            tbl_view(typtbl@),
            t as int,
            old(buf).pos as int,
            old(buf).end as int,
            depth as int,
        ) == Some(final(buf).pos as int),
        r matches Err(e) ==> e == skip_err(
            data@,
            tbl_view(typtbl@),
            t as int,
            old(buf).pos as int,
            old(buf).end as int,
            depth as int,
        ),
{
    match skip_value(data, typtbl, t, buf.pos, buf.end, depth) {
        Err(err) => Err(err),
        Ok(p) => {
            buf.pos = p;
            Ok(())
        },
    }
}

/// Reads one byte which must be 0 or 1, as option and reference encodings
/// require.
pub fn read_byte_tag(data: &Vec<u8>, c: &mut Cursor) -> (r: Result<u8, IdlError>)
    requires
        old(c).wf(data@),
    ensures
        final(c).wf(data@),
        final(c).end == old(c).end,
        r is Ok <==> old(c).pos < old(c).end && data@[old(c).pos as int] <= 1,
        r matches Ok(b) ==> b == data@[old(c).pos as int] && final(c).pos == old(c).pos + 1,
        r is Err ==> *final(c) == *old(c),
        r matches Err(e) ==> e == byte_tag_err(data@, old(c).pos as int, old(c).end as int),
{
    match byte_tag_at(data, c.pos, c.end) {
        Err(err) => Err(err),
        Ok((b, p)) => {
            c.pos = p;
            Ok(b)
        },
    }
}

/// Sequential search for the field with tag `tag` among the `*n` remaining
/// field descriptors at `tb`, skipping the values of lower-tagged fields.
///
/// Found: returns true; `tb` stands at the found field's type argument,
/// `buf` at its value, `*n` counts the fields after it. Absent: returns
/// false; `tb` stands at the first strictly-greater tag (rewound before it),
/// `buf` at that field's value, `*n` still counts that field — a missing
/// field is a normal outcome, not an error.
pub fn find_field(
    data: &Vec<u8>,
    tb: &mut Cursor,
    buf: &mut Cursor,
    typtbl: &Vec<usize>,
    tag: u32,
    n: &mut u8,
) -> (r: Result<bool, IdlError>)
    requires
        old(tb).wf(data@),
        old(buf).wf(data@),
        old(tb).end == old(buf).end,
        table_wf(data@, tbl_view(typtbl@), old(buf).end as int),
        fields_region_wf(
            data@,
            old(tb).pos as int,
            old(buf).end as int,
            typtbl@.len() as int,
            *old(n) as nat,
        ),
    ensures
        final(tb).wf(data@),
        final(buf).wf(data@),
        final(tb).end == old(tb).end,
        final(buf).end == old(buf).end,
        old(buf).pos <= final(buf).pos,
        r is Ok <==> find_field_spec(
            data@,
            tbl_view(typtbl@),
            old(tb).pos as int,
            old(buf).pos as int,
            old(buf).end as int,
            tag as nat,
            *old(n) as nat,
        ) is Some,
        r matches Ok(found) ==> find_field_spec(
            data@,
            tbl_view(typtbl@),
            old(tb).pos as int,
            old(buf).pos as int,
            old(buf).end as int,
            tag as nat,
            *old(n) as nat,
        ) == Some((found, final(tb).pos as int, final(buf).pos as int, *final(n) as nat)),
        r matches Err(e) ==> e == find_field_err(
            data@,
            tbl_view(typtbl@),
            old(tb).pos as int,
            old(buf).pos as int,
            old(buf).end as int,
            tag as nat,
            *old(n) as nat,
        ),
{
    let ghost s = data@;
    let ghost tbl = tbl_view(typtbl@);
    let ghost e = old(buf).end as int;
    while *n > 0
        invariant
            tb.wf(s),
            buf.wf(s),
            tb.end == old(tb).end,
            buf.end == old(buf).end,
            old(buf).pos <= buf.pos,
            fields_region_wf(s, tb.pos as int, e, tbl.len() as int, *n as nat),
            find_field_spec(
                s,
                tbl,
                old(tb).pos as int,
                old(buf).pos as int,
                e,
                tag as nat,
                *old(n) as nat,
            ) == find_field_spec(s, tbl, tb.pos as int, buf.pos as int, e, tag as nat, *n as nat),
            find_field_err(
                s,
                tbl,
                old(tb).pos as int,
                old(buf).pos as int,
                e,
                tag as nat,
                *old(n) as nat,
            ) == find_field_err(s, tbl, tb.pos as int, buf.pos as int, e, tag as nat, *n as nat),
        decreases *n,
    {
        let last_p = tb.pos;
        let this_tag = match leb128_decode(data, tb) {
            Ok(v) => v,
            Err(err) => {
                return Err(err);
            },
        };
        if this_tag < tag {
            let it = match sleb128_decode(data, tb) {
                Ok(v) => v,
                Err(err) => {
                    return Err(err);
                },
            };
            match skip_any(data, buf, typtbl, it, 0) {
                Ok(u) => u,
                Err(err) => {
                    return Err(err);
                },
            };
            *n = *n - 1;
        } else if this_tag == tag {
            *n = *n - 1;
            return Ok(true);
        } else {
            tb.pos = last_p;
            return Ok(false);
        }
    }
    Ok(false)
}

/// Drains all `*n` remaining field descriptors at `tb`, skipping each
/// field's value at `buf`; used to discard the rest of a record or variant.
pub fn skip_fields(
    data: &Vec<u8>,
    tb: &mut Cursor,
    buf: &mut Cursor,
    typtbl: &Vec<usize>,
    n: &mut u8,
) -> (r: Result<(), IdlError>)
    requires
        old(tb).wf(data@),
        old(buf).wf(data@),
        old(tb).end == old(buf).end,
        table_wf(data@, tbl_view(typtbl@), old(buf).end as int),
        fields_region_wf(
            data@,
            old(tb).pos as int,
            old(buf).end as int,
            typtbl@.len() as int,
            *old(n) as nat,
        ),
    ensures
        final(tb).wf(data@),
        final(buf).wf(data@),
        final(tb).end == old(tb).end,
        final(buf).end == old(buf).end,
        old(buf).pos <= final(buf).pos,
        r is Ok <==> skip_fields_val(
            data@,
            tbl_view(typtbl@),
            old(tb).pos as int,
            old(buf).pos as int,
            old(buf).end as int,
            *old(n) as nat,
            0,
            -1,
        ) is Some,
        r is Ok ==> skip_fields_val(
            data@,
            tbl_view(typtbl@),
            old(tb).pos as int,
            old(buf).pos as int,
            old(buf).end as int,
            *old(n) as nat,
            0,
            -1,
        ) == Some((final(tb).pos as int, final(buf).pos as int)) && *final(n) == 0,
        r matches Err(e) ==> e == skip_fields_err(
            data@,
            tbl_view(typtbl@),
            old(tb).pos as int,
            old(buf).pos as int,
            old(buf).end as int,
            *old(n) as nat,
            0,
            -1,
        ),
{
    let ghost s = data@;
    let ghost tbl = tbl_view(typtbl@);
    let ghost e = old(buf).end as int;
    while *n > 0
        invariant
            tb.wf(s),
            buf.wf(s),
            tb.end == old(tb).end,
            buf.end == old(buf).end,
            old(buf).pos <= buf.pos,
            fields_region_wf(s, tb.pos as int, e, tbl.len() as int, *n as nat),
            skip_fields_val(
                s,
                tbl,
                old(tb).pos as int,
                old(buf).pos as int,
                e,
                *old(n) as nat,
                0,
                -1,
            ) == skip_fields_val(s, tbl, tb.pos as int, buf.pos as int, e, *n as nat, 0, -1),
            skip_fields_err(
                s,
                tbl,
                old(tb).pos as int,
                old(buf).pos as int,
                e,
                *old(n) as nat,
                0,
                -1,
            ) == skip_fields_err(s, tbl, tb.pos as int, buf.pos as int, e, *n as nat, 0, -1),
        decreases *n,
    {
        match skip_leb128(data, tb) {
            Ok(u) => u,
            Err(err) => {
                return Err(err);
            },
        };
        let it = match sleb128_decode(data, tb) {
            Ok(v) => v,
            Err(err) => {
                return Err(err);
            },
        };
        match skip_any(data, buf, typtbl, it, 0) {
            Ok(u) => u,
            Err(err) => {
                return Err(err);
            },
        };
        *n = *n - 1;
    }
    Ok(())
}

} // verus!
