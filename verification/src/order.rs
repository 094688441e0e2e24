use vstd::prelude::*;
use crate::types::{Scalar, ScalarV, Datum, DatumV, TypeTag};
use crate::text::{chars_le, lemma_chars_le_total, lemma_chars_le_trans, chars_vec_le};

verus! {

/// Scalars the engine can order: everything but opaque binary payloads.
pub open spec fn scalar_sortable(s: ScalarV) -> bool {
    !(s is Bin)
}

/// Cells the engine can order: non-list, non-binary payloads, or null.
pub open spec fn cell_sortable(c: Option<DatumV>) -> bool {
    match c {
        None => true,
        Some(DatumV::Sc(s)) => scalar_sortable(s),
        Some(DatumV::Items(_)) => false,
    }
}

/// A column type whose cells the engine can order.
pub open spec fn sortable_dtype(t: TypeTag) -> bool {
    t != TypeTag::List && t != TypeTag::Object
}

pub open spec fn scalar_rank(s: ScalarV) -> int {
    match s {
        ScalarV::Int(_) => 0,
        ScalarV::UInt(_) => 1,
        ScalarV::Bool(_) => 2,
        ScalarV::Str(_) => 3,
        ScalarV::Bin(_) => 4,
    }
}

/// Total order on sortable scalars: payloads of the same kind compare
/// naturally (numerically, false before true, lexicographically), different
/// kinds compare by a fixed rank.
pub open spec fn scalar_le(a: ScalarV, b: ScalarV) -> bool {
    if scalar_rank(a) != scalar_rank(b) {
        scalar_rank(a) < scalar_rank(b)
    } else {
        match (a, b) {
            (ScalarV::Int(x), ScalarV::Int(y)) => x <= y,
            (ScalarV::UInt(x), ScalarV::UInt(y)) => x <= y,
            (ScalarV::Bool(x), ScalarV::Bool(y)) => !x || y,
            (ScalarV::Str(x), ScalarV::Str(y)) => chars_le(x, y),
            _ => true,
        }
    }
}

/// Order on cells with the engine's fixed null policy: null sorts after
/// every value, whatever the direction; among values, ascending order or
/// its reverse.
pub open spec fn cell_le(desc: bool, a: Option<DatumV>, b: Option<DatumV>) -> bool {
    match (a, b) {
        (None, _) => b is None,
        (_, None) => true,
        (Some(DatumV::Sc(x)), Some(DatumV::Sc(y))) => if desc {
            scalar_le(y, x)
        } else {
            scalar_le(x, y)
        },
        _ => true,
    }
}

pub proof fn lemma_scalar_le_total(a: ScalarV, b: ScalarV)
    requires
        scalar_sortable(a),
        scalar_sortable(b),
    ensures
        scalar_le(a, b) || scalar_le(b, a),
        (scalar_le(a, b) && scalar_le(b, a)) ==> a == b,
{
    if scalar_rank(a) == scalar_rank(b) {
        match (a, b) {
            (ScalarV::Str(x), ScalarV::Str(y)) => {
                lemma_chars_le_total(x, y);
            },
            _ => {},
        }
    }
}

pub proof fn lemma_scalar_le_trans(a: ScalarV, b: ScalarV, c: ScalarV)
    requires
        scalar_le(a, b),
        scalar_le(b, c),
    ensures
        scalar_le(a, c),
{
    match (a, b, c) {
        (ScalarV::Str(x), ScalarV::Str(y), ScalarV::Str(z)) => {
            lemma_chars_le_trans(x, y, z);
        },
        _ => {},
    }
}

pub proof fn lemma_cell_le_total(desc: bool, a: Option<DatumV>, b: Option<DatumV>)
    requires
        cell_sortable(a),
        cell_sortable(b),
    ensures
        cell_le(desc, a, b) || cell_le(desc, b, a),
        (cell_le(desc, a, b) && cell_le(desc, b, a)) ==> a == b,
{
    match (a, b) {
        (Some(DatumV::Sc(x)), Some(DatumV::Sc(y))) => {
            lemma_scalar_le_total(x, y);
            lemma_scalar_le_total(y, x);
        },
        _ => {},
    }
}

pub proof fn lemma_cell_le_trans(desc: bool, a: Option<DatumV>, b: Option<DatumV>, c: Option<
    DatumV,
>)
    requires
        cell_sortable(a),
        cell_sortable(b),
        cell_sortable(c),
        cell_le(desc, a, b),
        cell_le(desc, b, c),
    ensures
        cell_le(desc, a, c),
{
    match a {
        Some(DatumV::Sc(x)) => match b {
            Some(DatumV::Sc(y)) => match c {
                Some(DatumV::Sc(z)) => {
                    if desc {
                        lemma_scalar_le_trans(z, y, x);
                    } else {
                        lemma_scalar_le_trans(x, y, z);
                    }
                },
                _ => {},
            },
            _ => {},
        },
        _ => {},
    }
}

/// Executable comparison agreeing with `scalar_le`; binary payloads are
/// refused by the callers, so both sides are sortable here.
pub fn scalar_le_exec(a: &Scalar, b: &Scalar) -> (r: bool)
    requires
        scalar_sortable(a@),
        scalar_sortable(b@),
    ensures
        r == scalar_le(a@, b@),
{
    match a {
        Scalar::Int(x) => match b {
            Scalar::Int(y) => *x <= *y,
            _ => true,
        },
        Scalar::UInt(x) => match b {
            Scalar::Int(_) => false,
            Scalar::UInt(y) => *x <= *y,
            _ => true,
        },
        Scalar::Bool(x) => match b {
            Scalar::Int(_) => false,
            Scalar::UInt(_) => false,
            Scalar::Bool(y) => !*x || *y,
            _ => true,
        },
        Scalar::Str(x) => match b {
            Scalar::Str(y) => {
                let xv = crate::text::chars_of(x.as_str());
                let yv = crate::text::chars_of(y.as_str());
                chars_vec_le(&xv, &yv)
            },
            Scalar::Bin(_) => true,
            _ => false,
        },
        Scalar::Bin(_) => {
            proof {
                assert(false);
            }
            true
        },
    }
}

/// Executable comparison agreeing with `cell_le`.
pub fn cell_le_exec(desc: bool, a: &Option<Datum>, b: &Option<Datum>) -> (r: bool)
    requires
        cell_sortable(crate::types::cell_view(*a)),
        cell_sortable(crate::types::cell_view(*b)),
    ensures
        r == cell_le(desc, crate::types::cell_view(*a), crate::types::cell_view(*b)),
{
    match a {
        None => b.is_none(),
        Some(x) => match b {
            None => true,
            Some(y) => match x {
                Datum::Sc(xs) => match y {
                    Datum::Sc(ys) => if desc {
                        scalar_le_exec(ys, xs)
                    } else {
                        scalar_le_exec(xs, ys)
                    },
                    Datum::Items(_) => {
                        proof {
                            assert(false);
                        }
                        true
                    },
                },
                Datum::Items(_) => {
                    proof {
                        assert(false);
                    }
                    true
                },
            },
        },
    }
}

} // verus!
