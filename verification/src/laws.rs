//! Properties of the decoder stated and proved over its models: in-bounds
//! type arguments, strictly ascending field tags, the recursion-depth limit,
//! and the exactness of the skipper's advance.

use crate::header::fields_list;
use crate::header::is_valid_typearg;
use crate::header::typearg_list;
use crate::skip::skip_fields_val;
use crate::skip::skip_val;
use crate::skip::skip_vec;
use crate::skip::skip_vints;
use crate::varint::leb_after;
use crate::varint::leb_ok;
use crate::varint::leb_val_at;
use crate::varint::lemma_vint_bounds;
use crate::varint::sleb_ok;
use crate::varint::sleb_val_at;
use crate::varint::vint_end;
use vstd::prelude::*;

verus! {

/// The tag of the `k`-th descriptor of a field list at `i`: each descriptor
/// is two varints, so the `k`-th starts after `2 k` of them.
pub open spec fn nth_field_tag(s: Seq<u8>, i: int, end: int, k: nat) -> nat {
    match skip_vints(s, i, end, 2 * k) {
        Some(p) => leb_val_at(s, p, end),
        None => 0,
    }
}

/// Tags of a validated field list strictly ascend: within one record or
/// variant, every descriptor's tag is at least the running bound, and each
/// is strictly below its successor's. An out-of-order or duplicate tag never
/// survives validation.
pub proof fn lemma_fields_tags_ascend(
    s: Seq<u8>,
    i: int,
    end: int,
    n_types: int,
    count: nat,
    bound: nat,
    k: nat,
)
    requires
        fields_list(s, i, end, n_types, count, bound) is Some,
        k < count,
    ensures
        nth_field_tag(s, i, end, k) >= bound,
        k + 1 < count ==> nth_field_tag(s, i, end, k) < nth_field_tag(s, i, end, k + 1),
    decreases count,
{
    let tag = leb_val_at(s, i, end);
    let i1 = leb_after(s, i, end);
    let i2 = leb_after(s, i1, end);
    if k == 0 {
        assert(skip_vints(s, i, end, 0) == Some(i));
        if count > 1 {
            lemma_fields_tags_ascend(
                s,
                i2,
                end,
                n_types,
                (count - 1) as nat,
                (tag + 1) as nat,
                0,
            );
            lemma_vints_shift(s, i, end, 1);
        }
    } else {
        lemma_fields_tags_ascend(
            s,
            i2,
            end,
            n_types,
            (count - 1) as nat,
            (tag + 1) as nat,
            (k - 1) as nat,
        );
        lemma_vints_shift(s, i, end, k);
        if k + 1 < count {
            lemma_vints_shift(s, i, end, (k + 1) as nat);
        }
    }
}

/// Skipping `2 k` varints from the head of a decodable descriptor pair is
/// skipping `2 (k - 1)` from past that pair.
proof fn lemma_vints_shift(s: Seq<u8>, i: int, end: int, k: nat)
    requires
        k >= 1,
        leb_ok(s, i, end),
        sleb_ok(s, leb_after(s, i, end), end),
    ensures
        skip_vints(s, i, end, 2 * k) == skip_vints(
            s,
            leb_after(s, leb_after(s, i, end), end),
            end,
            (2 * (k - 1)) as nat,
        ),
{
    let i1 = leb_after(s, i, end);
    let i2 = leb_after(s, i1, end);
    assert(skip_vints(s, i, end, 2 * k) == skip_vints(s, i1, end, (2 * k - 1) as nat));
    assert(skip_vints(s, i1, end, (2 * k - 1) as nat) == skip_vints(s, i2, end, (2 * (k - 1)) as nat));
}

/// The maximal tag is permitted only as the final descriptor of a list.
pub proof fn lemma_max_tag_last(
    s: Seq<u8>,
    i: int,
    end: int,
    n_types: int,
    count: nat,
    bound: nat,
    k: nat,
)
    requires
        fields_list(s, i, end, n_types, count, bound) is Some,
        k < count,
        nth_field_tag(s, i, end, k) == 0xFFFF_FFFF,
    ensures
        k == count - 1,
    decreases k,
{
    let tag = leb_val_at(s, i, end);
    let i1 = leb_after(s, i, end);
    let i2 = leb_after(s, i1, end);
    if k == 0 {
        assert(skip_vints(s, i, end, 0) == Some(i));
    } else {
        lemma_vints_shift(s, i, end, k);
        lemma_max_tag_last(s, i2, end, n_types, (count - 1) as nat, (tag + 1) as nat, (k - 1) as nat);
    }
}

/// Every type argument of a validated bare type-argument list (a function
/// signature or the main type list) is in bounds: the `k`-th argument, one
/// varint each, decodes to a primitive sentinel or an index below the
/// declared type count.
pub proof fn lemma_typeargs_valid(
    s: Seq<u8>,
    i: int,
    end: int,
    n_types: int,
    count: nat,
    k: nat,
)
    requires
        typearg_list(s, i, end, n_types, count) is Some,
        k < count,
    ensures
        skip_vints(s, i, end, k) is Some,
        sleb_ok(s, skip_vints(s, i, end, k)->Some_0, end),
        is_valid_typearg(sleb_val_at(s, skip_vints(s, i, end, k)->Some_0, end), n_types),
    decreases k,
{
    if k == 0 {
        assert(skip_vints(s, i, end, 0) == Some(i));
    } else {
        let i1 = leb_after(s, i, end);
        lemma_typeargs_valid(s, i1, end, n_types, (count - 1) as nat, (k - 1) as nat);
        assert(skip_vints(s, i, end, k) == skip_vints(s, i1, end, (k - 1) as nat));
    }
}

/// The depth limit is absolute: at any recursion depth beyond 100, no value
/// of any type and any size is skippable.
pub proof fn lemma_depth_limit(s: Seq<u8>, tbl: Seq<int>, t: int, v: int, end: int, depth: int)
    requires
        depth > 100,
    ensures
        skip_val(s, tbl, t, v, end, depth) is None,
{
}

/// The skipper's advance is exact and bounded: when a value of type `t` at
/// `v` is skippable, the position after it lies between `v` and `end` — the
/// skipper consumes the value's own bytes and never reads past the end.
pub proof fn lemma_skip_val_bounds(s: Seq<u8>, tbl: Seq<int>, t: int, v: int, end: int, depth: int)
    ensures
        skip_val(s, tbl, t, v, end, depth) matches Some(p) ==> v <= p <= end,
    decreases end - v, 101 - depth, 1int, 0int,
{
    lemma_vint_bounds(s, v, end);
    lemma_vint_bounds(s, leb_after(s, v, end), end);
    if 0 <= v <= end <= s.len() && 0 <= depth <= 100 {
        if t == -24 {
            lemma_vint_bounds(s, v + 1, end);
        }
        if 0 <= t < tbl.len() {
            let p = tbl[t];
            if sleb_ok(s, p, end) {
                let tc = sleb_val_at(s, p, end);
                let p1 = leb_after(s, p, end);
                if tc == -18 && sleb_ok(s, p1, end) && v < end && s[v] != 0 && s[v] <= 1 {
                    lemma_skip_val_bounds(s, tbl, sleb_val_at(s, p1, end), v + 1, end, 0);
                } else if tc == -19 && sleb_ok(s, p1, end) && leb_ok(s, v, end) {
                    let it = sleb_val_at(s, p1, end);
                    let n = leb_val_at(s, v, end);
                    let v1 = leb_after(s, v, end);
                    if v < v1 <= end {
                        lemma_skip_vec_bounds(s, tbl, it, v1, end, n);
                    }
                } else if tc == -20 && leb_ok(s, p1, end) {
                    let n = leb_val_at(s, p1, end);
                    let p2 = leb_after(s, p1, end);
                    lemma_skip_fields_bounds(s, tbl, p2, v, end, n, depth + 1, t);
                } else if tc == -21 && leb_ok(s, p1, end) && leb_ok(s, v, end) {
                    let p2 = leb_after(s, p1, end);
                    let sel = leb_val_at(s, v, end);
                    let v1 = leb_after(s, v, end);
                    if sel < leb_val_at(s, p1, end) && v < v1 <= end {
                        match skip_vints(s, p2, end, 2 * sel) {
                            Some(p3) => match vint_end(s, p3, end) {
                                Some(p4) => {
                                    if sleb_ok(s, p4, end) {
                                        lemma_skip_val_bounds(
                                            s,
                                            tbl,
                                            sleb_val_at(s, p4, end),
                                            v1,
                                            end,
                                            0,
                                        );
                                    }
                                },
                                None => {},
                            },
                            None => {},
                        }
                    }
                } else if tc == 1 && sleb_ok(s, p1, end) && v < end && s[v] == 0 && v + 9 <= end {
                    lemma_skip_val_bounds(s, tbl, sleb_val_at(s, p1, end), v + 9, end, 0);
                }
            }
        }
    }
}

/// As `lemma_skip_val_bounds`, for a run of vector elements.
pub proof fn lemma_skip_vec_bounds(
    s: Seq<u8>,
    tbl: Seq<int>,
    it: int,
    v: int,
    end: int,
    count: nat,
)
    ensures
        skip_vec(s, tbl, it, v, end, count) matches Some(p) ==> v <= p <= end,
    decreases end - v, 102int, 0int, count as int,
{
    if 0 <= v <= end <= s.len() && count > 0 {
        match skip_val(s, tbl, it, v, end, 0) {
            Some(v1) => {
                if v <= v1 <= end {
                    lemma_skip_vec_bounds(s, tbl, it, v1, end, (count - 1) as nat);
                }
            },
            None => {},
        }
    }
}

/// As `lemma_skip_val_bounds`, for a run of record or variant fields.
pub proof fn lemma_skip_fields_bounds(
    s: Seq<u8>,
    tbl: Seq<int>,
    tp: int,
    v: int,
    end: int,
    count: nat,
    cd: int,
    self_idx: int,
)
    ensures
        skip_fields_val(s, tbl, tp, v, end, count, cd, self_idx) matches Some(r) ==> v <= r.1
            <= end,
    decreases end - v, 102 - cd, 0int, count as int,
{
    if 0 <= v <= end <= s.len() && 0 <= cd <= 101 && count > 0 {
        match vint_end(s, tp, end) {
            Some(tp1) => {
                if sleb_ok(s, tp1, end) {
                    let it = sleb_val_at(s, tp1, end);
                    let tp2 = leb_after(s, tp1, end);
                    if !(self_idx >= 0 && it == self_idx) {
                        match skip_val(s, tbl, it, v, end, cd) {
                            Some(v1) => {
                                if v <= v1 <= end {
                                    lemma_skip_fields_bounds(
                                        s,
                                        tbl,
                                        tp2,
                                        v1,
                                        end,
                                        (count - 1) as nat,
                                        cd,
                                        self_idx,
                                    );
                                }
                            },
                            None => {},
                        }
                    }
                }
            },
            None => {},
        }
    }
}

} // verus!
