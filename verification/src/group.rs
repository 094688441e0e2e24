use vstd::prelude::*;
use vstd::string::StringExecFns;
use crate::types::{TypeTag, Datum, DatumV, ScalarV, Scalar, cell_view, spec_cell_fits};
use crate::column::{Column, ColumnV, sum_of, count_valid, distinct_cells, sorted_cells};
use crate::table::{Table, spec_height, row_key, key_first_occurrence};
use crate::EngineError;

verus! {

/// The reducers the group engine applies to each non-key column per group.
#[derive(Clone, Copy, Debug, PartialEq, Eq, Structural)]
pub enum GroupAgg {
    Min,
    Max,
    Mean,
    First,
    Last,
    Sum,
    Count,
    NUnique,
    Median,
    AggList,
    Groups,
    Std,
    Var,
}

/// The reducer an aggregator name selects; `None` for an unknown name.
pub open spec fn spec_agg_of_name(s: Seq<char>) -> Option<GroupAgg> {
    if s == "min"@ { Some(GroupAgg::Min) }
    else if s == "max"@ { Some(GroupAgg::Max) }
    else if s == "mean"@ { Some(GroupAgg::Mean) }
    else if s == "first"@ { Some(GroupAgg::First) }
    else if s == "last"@ { Some(GroupAgg::Last) }
    else if s == "sum"@ { Some(GroupAgg::Sum) }
    else if s == "count"@ { Some(GroupAgg::Count) }
    else if s == "n_unique"@ { Some(GroupAgg::NUnique) }
    else if s == "median"@ { Some(GroupAgg::Median) }
    else if s == "agg_list"@ { Some(GroupAgg::AggList) }
    else if s == "groups"@ { Some(GroupAgg::Groups) }
    else if s == "std"@ { Some(GroupAgg::Std) }
    else if s == "var"@ { Some(GroupAgg::Var) }
    else { None }
}

/// Parses an aggregator name.
pub fn agg_of_name(s: &str) -> (r: Option<GroupAgg>)
    ensures
        r == spec_agg_of_name(s@),
{
    let owned = s.to_owned();
    if owned.eq(&String::from_str("min")) { Some(GroupAgg::Min) }
    else if owned.eq(&String::from_str("max")) { Some(GroupAgg::Max) }
    else if owned.eq(&String::from_str("mean")) { Some(GroupAgg::Mean) }
    else if owned.eq(&String::from_str("first")) { Some(GroupAgg::First) }
    else if owned.eq(&String::from_str("last")) { Some(GroupAgg::Last) }
    else if owned.eq(&String::from_str("sum")) { Some(GroupAgg::Sum) }
    else if owned.eq(&String::from_str("count")) { Some(GroupAgg::Count) }
    else if owned.eq(&String::from_str("n_unique")) { Some(GroupAgg::NUnique) }
    else if owned.eq(&String::from_str("median")) { Some(GroupAgg::Median) }
    else if owned.eq(&String::from_str("agg_list")) { Some(GroupAgg::AggList) }
    else if owned.eq(&String::from_str("groups")) { Some(GroupAgg::Groups) }
    else if owned.eq(&String::from_str("std")) { Some(GroupAgg::Std) }
    else if owned.eq(&String::from_str("var")) { Some(GroupAgg::Var) }
    else { None }
}

/// The first-occurrence rows (group leaders) among the first `upto` rows,
/// in order of first appearance.
pub open spec fn lead_rows(cols: Seq<ColumnV>, sel: Seq<int>, upto: int) -> Seq<int>
    decreases upto,
{
    if upto <= 0 {
        Seq::empty()
    } else {
        let rest = lead_rows(cols, sel, upto - 1);
        if key_first_occurrence(cols, sel, upto - 1) {
            rest.push(upto - 1)
        } else {
            rest
        }
    }
}

/// The rows among the first `upto` whose key equals the key of `lead`, in
/// row order.
pub open spec fn member_rows(cols: Seq<ColumnV>, sel: Seq<int>, lead: int, upto: int) -> Seq<int>
    decreases upto,
{
    if upto <= 0 {
        Seq::empty()
    } else {
        let rest = member_rows(cols, sel, lead, upto - 1);
        if row_key(cols, sel, upto - 1) == row_key(cols, sel, lead) {
            rest.push(upto - 1)
        } else {
            rest
        }
    }
}

/// The cells of one column at the given rows, in that order.
pub open spec fn cells_at(cells: Seq<Option<DatumV>>, rows: Seq<int>) -> Seq<Option<DatumV>> {
    Seq::new(rows.len(), |k: int| cells[rows[k]])
}

/// What one reducer owes at one output cell, given the member cells `mc` of
/// the group and the member row positions `rows`. Reducers whose exact
/// value needs a real number (mean, variance, its square root) floor the
/// exact value; the engine holds no floating point.
pub open spec fn agg_cell_ok(
    agg: GroupAgg,
    mc: Seq<Option<DatumV>>,
    rows: Seq<int>,
    cell: Option<DatumV>,
    src_dtype: TypeTag,
) -> bool {
    match agg {
        GroupAgg::Count => cell == Some(DatumV::Sc(ScalarV::UInt(mc.len() as int))),
        GroupAgg::First => cell == (if mc.len() > 0 { mc[0] } else { None }),
        GroupAgg::Last => cell == (if mc.len() > 0 { mc[mc.len() - 1] } else { None }),
        GroupAgg::Sum => {
            if count_valid(mc) == 0 {
                cell is None
            } else {
                cell == Some(DatumV::Sc(crate::arith::mk_num(
                    crate::arith::promote(src_dtype, src_dtype),
                    sum_of(mc),
                )))
            }
        },
        GroupAgg::Mean => {
            if count_valid(mc) == 0 {
                cell is None
            } else {
                cell == Some(DatumV::Sc(crate::arith::mk_num(
                    crate::arith::promote(src_dtype, src_dtype),
                    sum_of(mc) / count_valid(mc),
                )))
            }
        },
        GroupAgg::Min => {
            if count_valid(mc) == 0 {
                cell is None
            } else {
                cell matches Some(v) && mc.contains(Some(v))
                    && forall|k: int| 0 <= k < mc.len()
                        ==> crate::order::cell_le(false, Some(v), #[trigger] mc[k])
            }
        },
        GroupAgg::Max => {
            if count_valid(mc) == 0 {
                cell is None
            } else {
                cell matches Some(v) && mc.contains(Some(v))
                    && forall|k: int| 0 <= k < mc.len()
                        ==> crate::order::cell_le(true, Some(v), #[trigger] mc[k])
            }
        },
        GroupAgg::NUnique => cell == Some(DatumV::Sc(ScalarV::UInt(
            distinct_cells(mc).len() as int,
        ))),
        GroupAgg::Median => {
            if count_valid(mc) == 0 {
                cell is None
            } else {
                exists|s: Seq<Option<DatumV>>| {
                    &&& #[trigger] sorted_cells(false, s)
                    &&& s.to_multiset() == crate::column::keep_nonnull(mc).to_multiset()
                    &&& cell == s[(s.len() - 1) as int / 2]
                }
            }
        },
        GroupAgg::AggList => cell matches Some(v) && v matches DatumV::Items(items)
            && items == scalars_of(mc),
        GroupAgg::Groups => cell matches Some(v) && v matches DatumV::Items(items)
            && items == rows.map_values(|r: int| ScalarV::UInt(r)),
        GroupAgg::Var => {
            if count_valid(mc) < 2 {
                cell is None
            } else {
                cell == Some(DatumV::Sc(ScalarV::UInt(var_floor(mc))))
            }
        },
        GroupAgg::Std => {
            if count_valid(mc) < 2 {
                cell is None
            } else {
                cell matches Some(DatumV::Sc(ScalarV::UInt(r)))
                    && r * r <= var_floor(mc) && var_floor(mc) < (r + 1) * (r + 1)
            }
        },
    }
}

/// The non-null scalar payloads of the cells, in order.
pub open spec fn scalars_of(mc: Seq<Option<DatumV>>) -> Seq<ScalarV>
    decreases mc.len(),
{
    if mc.len() == 0 {
        Seq::empty()
    } else {
        let rest = scalars_of(mc.drop_last());
        match mc.last() {
            Some(DatumV::Sc(s)) => rest.push(s),
            _ => rest,
        }
    }
}

/// The sum of squared payloads of the non-null cells.
pub open spec fn sum_sq_of(mc: Seq<Option<DatumV>>) -> int
    decreases mc.len(),
{
    if mc.len() == 0 {
        0
    } else {
        sum_sq_of(mc.drop_last()) + match mc.last() {
            Some(DatumV::Sc(s)) => crate::arith::num_val(s) * crate::arith::num_val(s),
            _ => 0,
        }
    }
}

/// The floor of the exact sample variance of the non-null cells.
pub open spec fn var_floor(mc: Seq<Option<DatumV>>) -> int {
    let n = count_valid(mc);
    (n * sum_sq_of(mc) - sum_of(mc) * sum_of(mc)) / (n * (n - 1))
}

/// Whether a reducer can work a column of the given type: the numeric
/// reducers need numeric payloads, the ordering ones orderable cells, the
/// rest work on anything.
pub open spec fn agg_applicable(agg: GroupAgg, src: TypeTag) -> bool {
    match agg {
        GroupAgg::Sum => crate::arith::numeric_dtype(src),
        GroupAgg::Mean => crate::arith::numeric_dtype(src),
        GroupAgg::Var => crate::arith::numeric_dtype(src),
        GroupAgg::Std => crate::arith::numeric_dtype(src),
        GroupAgg::Min => crate::order::sortable_dtype(src),
        GroupAgg::Max => crate::order::sortable_dtype(src),
        GroupAgg::Median => crate::order::sortable_dtype(src),
        _ => true,
    }
}

/// The column type each reducer produces from a source column type.
pub open spec fn agg_dtype(agg: GroupAgg, src: TypeTag) -> TypeTag {
    match agg {
        GroupAgg::Count => TypeTag::UInt64,
        GroupAgg::NUnique => TypeTag::UInt64,
        GroupAgg::Sum => crate::arith::promote(src, src),
        GroupAgg::Mean => crate::arith::promote(src, src),
        GroupAgg::Min => src,
        GroupAgg::Max => src,
        GroupAgg::First => src,
        GroupAgg::Last => src,
        GroupAgg::Median => src,
        GroupAgg::AggList => TypeTag::List,
        GroupAgg::Groups => TypeTag::List,
        GroupAgg::Var => TypeTag::UInt64,
        GroupAgg::Std => TypeTag::UInt64,
    }
}


/// No row before `r` has its key.
pub proof fn lemma_member_rows_of_first_pub(cols: Seq<ColumnV>, sel: Seq<int>, r: int, upto: int)
    requires
        key_first_occurrence(cols, sel, r),
        0 <= upto <= r,
    ensures
        member_rows(cols, sel, r, upto) == Seq::<int>::empty(),
{
    lemma_member_rows_of_first(cols, sel, r, upto);
}

/// No row before `r` has its key.
proof fn lemma_member_rows_of_first(cols: Seq<ColumnV>, sel: Seq<int>, r: int, upto: int)
    requires
        key_first_occurrence(cols, sel, r),
        0 <= upto <= r,
    ensures
        member_rows(cols, sel, r, upto) == Seq::<int>::empty(),
    decreases upto,
{
    if upto > 0 {
        lemma_member_rows_of_first(cols, sel, r, upto - 1);
        assert(row_key(cols, sel, upto - 1) != row_key(cols, sel, r));
    }
}

/// One reducer applied to the member rows of one group, the member cells
/// given as the column `sub` (the source column taken at the member rows).
fn apply_agg(
    agg: GroupAgg,
    sub: &Column,
    rows: &Vec<usize>,
) -> (r: Result<Option<Datum>, EngineError>)
    requires
        sub.wf(),
        sub@.cells.len() == rows@.len(),
    ensures
        match r {
            Ok(c) => agg_cell_ok(
                agg,
                sub@.cells,
                rows@.map_values(|u: usize| u as int),
                cell_view(c),
                sub@.dtype,
            ) && spec_cell_fits(agg_dtype(agg, sub@.dtype), cell_view(c)),
            Err(e) => {
                ||| (e == EngineError::TypeMismatch && !agg_applicable(agg, sub@.dtype))
                ||| (e == EngineError::CastError && (agg == GroupAgg::Sum
                    || agg == GroupAgg::Mean || agg == GroupAgg::Var || agg == GroupAgg::Std))
            },
        },
{
    proof {
        crate::column::lemma_wf_cells_fit(*sub);
    }
    let n = sub.len();
    match agg {
        GroupAgg::Count => {
            Ok(Some(Datum::Sc(Scalar::UInt(n as u64))))
        },
        GroupAgg::First => {
            if n == 0 {
                Ok(None)
            } else {
                match sub.get(0) {
                    Ok(c) => Ok(c),
                    Err(_) => {
                        proof {
                            assert(false);
                        }
                        Err(EngineError::CastError)
                    },
                }
            }
        },
        GroupAgg::Last => {
            if n == 0 {
                Ok(None)
            } else {
                match sub.get(n - 1) {
                    Ok(c) => Ok(c),
                    Err(_) => {
                        proof {
                            assert(false);
                        }
                        Err(EngineError::CastError)
                    },
                }
            }
        },
        GroupAgg::Sum => {
            match sub.sum() {
                Ok(c) => Ok(c),
                Err(e) => Err(e),
            }
        },
        GroupAgg::Mean => {
            match sub.mean() {
                Ok(None) => Ok(None),
                Ok(Some(m)) => {
                    let q = floor_div_i128(m.num, m.den);
                    let uint_src = matches!(sub.dtype(), TypeTag::UInt8 | TypeTag::UInt16
                        | TypeTag::UInt32 | TypeTag::UInt64);
                    proof {
                        assert(crate::arith::promote(sub@.dtype, sub@.dtype)
                            == if uint_src { TypeTag::UInt64 } else { TypeTag::Int64 });
                    }
                    if uint_src {
                        if q < 0 || q > u64::MAX as i128 {
                            return Err(EngineError::CastError);
                        }
                        Ok(Some(Datum::Sc(Scalar::UInt(q as u64))))
                    } else {
                        if q < i64::MIN as i128 || q > i64::MAX as i128 {
                            return Err(EngineError::CastError);
                        }
                        Ok(Some(Datum::Sc(Scalar::Int(q as i64))))
                    }
                },
                Err(e) => Err(e),
            }
        },
        GroupAgg::Min => {
            match sub.extremum(false) {
                Ok(c) => {
                    proof {
                        lemma_contained_cell_fits(sub@.dtype, sub@.cells, cell_view(c));
                    }
                    Ok(c)
                },
                Err(e) => Err(e),
            }
        },
        GroupAgg::Max => {
            match sub.extremum(true) {
                Ok(c) => {
                    proof {
                        lemma_contained_cell_fits(sub@.dtype, sub@.cells, cell_view(c));
                    }
                    Ok(c)
                },
                Err(e) => Err(e),
            }
        },
        GroupAgg::NUnique => {
            let u = sub.unique();
            Ok(Some(Datum::Sc(Scalar::UInt(u.len() as u64))))
        },
        GroupAgg::Median => {
            let nn = sub.drop_nulls();
            proof {
                crate::column::lemma_keep_nonnull_len(sub@.cells);
            }
            if nn.len() == 0 {
                Ok(None)
            } else {
                match nn.sort(false) {
                    Ok(sorted) => {
                        proof {
                            sorted@.cells.to_multiset_ensures();
                            nn@.cells.to_multiset_ensures();
                            assert(sorted@.cells.len() == nn@.cells.len());
                        }
                        let mid = (nn.len() - 1) / 2;
                        match sorted.get(mid) {
                            Ok(c) => {
                                proof {
                                    crate::column::lemma_wf_cells_fit(sorted);
                                    let s = sorted@.cells;
                                    assert(sorted_cells(false, s));
                                    assert(s.to_multiset()
                                        == crate::column::keep_nonnull(sub@.cells).to_multiset());
                                    s.to_multiset_ensures();
                                    crate::column::keep_nonnull(sub@.cells)
                                        .to_multiset_ensures();
                                    assert(s.len()
                                        == crate::column::keep_nonnull(sub@.cells).len());
                                    assert(cell_view(c) == s[(s.len() - 1) as int / 2]);
                                }
                                Ok(c)
                            },
                            Err(_) => {
                                proof {
                                    assert(false);
                                }
                                Err(EngineError::CastError)
                            },
                        }
                    },
                    Err(_) => Err(EngineError::TypeMismatch),
                }
            }
        },
        GroupAgg::AggList => {
            let cs = sub.cells();
            let mut items: Vec<Scalar> = Vec::new();
            let mut i: usize = 0;
            proof {
                assert(sub@.cells.subrange(0, 0) =~= Seq::<Option<DatumV>>::empty());
            }
            while i < cs.len()
                invariant
                    i <= cs@.len(),
                    cs@.len() == sub@.cells.len(),
                    forall|j: int| 0 <= j < cs@.len()
                        ==> cell_view(#[trigger] cs@[j]) == sub@.cells[j],
                    items@.map_values(|s: Scalar| s@)
                        == scalars_of(sub@.cells.subrange(0, i as int)),
                decreases cs@.len() - i,
            {
                proof {
                    assert(sub@.cells.subrange(0, i + 1).drop_last()
                        =~= sub@.cells.subrange(0, i as int));
                    assert(sub@.cells.subrange(0, i + 1).last() == sub@.cells[i as int]);
                }
                match &cs[i] {
                    Some(Datum::Sc(x)) => {
                        items.push(x.duplicate());
                        proof {
                            assert(items@.map_values(|s: Scalar| s@)
                                =~= scalars_of(sub@.cells.subrange(0, i + 1)));
                        }
                    },
                    _ => {
                        proof {
                            assert(items@.map_values(|s: Scalar| s@)
                                =~= scalars_of(sub@.cells.subrange(0, i + 1)));
                        }
                    },
                }
                i = i + 1;
            }
            proof {
                assert(sub@.cells.subrange(0, cs@.len() as int) =~= sub@.cells);
            }
            Ok(Some(Datum::Items(items)))
        },
        GroupAgg::Groups => {
            let mut items: Vec<Scalar> = Vec::new();
            let mut i: usize = 0;
            while i < rows.len()
                invariant
                    i <= rows@.len(),
                    items@.len() == i,
                    forall|j: int| 0 <= j < i
                        ==> (#[trigger] items@[j])@ == ScalarV::UInt(rows@[j] as int),
                decreases rows@.len() - i,
            {
                items.push(Scalar::UInt(rows[i] as u64));
                i = i + 1;
            }
            proof {
                assert(items@.map_values(|s: Scalar| s@)
                    =~= rows@.map_values(|u: usize| u as int).map_values(
                        |r2: int| ScalarV::UInt(r2),
                    ));
            }
            Ok(Some(Datum::Items(items)))
        },
        GroupAgg::Var => {
            match var_floor_exec(sub) {
                Ok(None) => Ok(None),
                Ok(Some(v)) => Ok(Some(Datum::Sc(Scalar::UInt(v)))),
                Err(e) => Err(e),
            }
        },
        GroupAgg::Std => {
            match var_floor_exec(sub) {
                Ok(None) => Ok(None),
                Ok(Some(v)) => {
                    let r = isqrt_u64(v);
                    Ok(Some(Datum::Sc(Scalar::UInt(r))))
                },
                Err(e) => Err(e),
            }
        },
    }
}

/// A cell drawn from cells that all fit a type fits it too.
proof fn lemma_contained_cell_fits(
    t: TypeTag,
    cells: Seq<Option<DatumV>>,
    c: Option<DatumV>,
)
    requires
        forall|i: int| 0 <= i < cells.len() ==> spec_cell_fits(t, #[trigger] cells[i]),
        c is Some ==> cells.contains(c),
    ensures
        spec_cell_fits(t, c),
{
    if c is Some {
        let i = choose|i: int| 0 <= i < cells.len() && cells[i] == c;
        assert(spec_cell_fits(t, cells[i]));
    }
}

/// The floor of `num / den` for a positive divisor.
fn floor_div_i128(num: i128, den: u64) -> (q: i128)
    requires
        den > 0,
    ensures
        q as int == num as int / den as int,
{
    if num >= 0 {
        let m = (num as u128) / (den as u128);
        proof {
            assert(m <= num as u128);
        }
        m as i128
    } else if num == i128::MIN && den == 1 {
        proof {
            assert(num as int / 1int == num as int);
        }
        i128::MIN
    } else {
        // floor of a negative ratio is the negated ceiling of the magnitude
        let mag: u128 = ((-(num + 1)) as u128) + 1;
        let qm = mag / (den as u128);
        let rem = mag % (den as u128);
        proof {
            assert(mag as int == -(num as int));
            assert(qm as int == mag as int / den as int);
            assert(rem as int == mag as int % den as int);
            lemma_neg_floor(num as int, den as int, mag as int, qm as int, rem as int);
            assert(qm <= mag);
            assert(qm <= i128::MAX as u128) by (nonlinear_arith)
                requires
                    qm == mag as int / den as int,
                    mag as int <= i128::MAX as int + 1,
                    den as int >= 1,
                    den as int >= 2 || mag as int <= i128::MAX as int,
            ;
        }
        if rem != 0 {
            -(qm as i128) - 1
        } else {
            -(qm as i128)
        }
    }
}

/// Euclidean division of a negative number by a positive one is the negated
/// ceiling of the magnitudes.
proof fn lemma_neg_floor(num: int, den: int, mag: int, qm: int, rem: int)
    requires
        den > 0,
        num < 0,
        mag == -num,
        qm == mag / den,
        rem == mag % den,
    ensures
        rem != 0 ==> num / den == -qm - 1,
        rem == 0 ==> num / den == -qm,
{
    assert(mag == qm * den + rem && 0 <= rem < den) by (nonlinear_arith)
        requires den > 0, mag >= 0, qm == mag / den, rem == mag % den,
    ;
    if rem != 0 {
        assert(num == (-qm - 1) * den + (den - rem)) by (nonlinear_arith)
            requires num == -(qm * den + rem),
        ;
        assert(num / den == -qm - 1) by (nonlinear_arith)
            requires den > 0, num == (-qm - 1) * den + (den - rem), 0 < den - rem < den,
        ;
    } else {
        assert(num == (-qm) * den) by (nonlinear_arith)
            requires num == -(qm * den + rem), rem == 0,
        ;
        assert(num / den == -qm) by (nonlinear_arith)
            requires den > 0, num == (-qm) * den,
        ;
    }
}

/// The floor of the sample variance of the column's non-null payloads;
/// `None` with fewer than two of them. `TypeMismatch` for a non-numeric
/// column; `CastError` when the exact computation cannot be carried in the
/// engine's integer widths.
fn var_floor_exec(sub: &Column) -> (r: Result<Option<u64>, EngineError>)
    requires
        sub.wf(),
    ensures
        match r {
            Ok(c) => {
                &&& crate::arith::numeric_dtype(sub@.dtype)
                &&& (c is None <==> count_valid(sub@.cells) < 2)
                &&& (c matches Some(v) ==> v as int == var_floor(sub@.cells))
            },
            Err(e) => {
                ||| (e == EngineError::TypeMismatch
                    && !crate::arith::numeric_dtype(sub@.dtype))
                ||| e == EngineError::CastError
            },
        },
{
    if !crate::arith::numeric_dtype_exec(sub.dtype()) {
        return Err(EngineError::TypeMismatch);
    }
    let cs = sub.cells();
    let mut sum: i128 = 0;
    let mut sumsq: i128 = 0;
    let mut cnt: usize = 0;
    let mut i: usize = 0;
    proof {
        assert(sub@.cells.subrange(0, 0) =~= Seq::<Option<DatumV>>::empty());
        crate::column::lemma_count_nulls_bound(sub@.cells);
    }
    while i < cs.len()
        invariant
            i <= cs@.len(),
            cs@.len() == sub@.cells.len(),
            crate::arith::numeric_dtype(sub@.dtype),
            forall|j: int| 0 <= j < cs@.len()
                ==> cell_view(#[trigger] cs@[j]) == sub@.cells[j],
            forall|j: int| 0 <= j < cs@.len()
                ==> spec_cell_fits(sub@.dtype, cell_view(#[trigger] cs@[j])),
            sum as int == sum_of(sub@.cells.subrange(0, i as int)),
            sumsq as int == sum_sq_of(sub@.cells.subrange(0, i as int)),
            cnt as int == count_valid(sub@.cells.subrange(0, i as int)),
            cnt <= i,
        decreases cs@.len() - i,
    {
        proof {
            assert(sub@.cells.subrange(0, i + 1).drop_last()
                =~= sub@.cells.subrange(0, i as int));
            assert(sub@.cells.subrange(0, i + 1).last() == sub@.cells[i as int]);
            crate::column::lemma_count_nulls_bound(sub@.cells.subrange(0, i + 1));
            crate::column::lemma_count_nulls_bound(sub@.cells.subrange(0, i as int));
        }
        match &cs[i] {
            Some(Datum::Sc(x)) => {
                proof {
                    assert(spec_cell_fits(sub@.dtype, cell_view(cs@[i as int])));
                }
                let v: i128 = match x {
                    Scalar::Int(y) => *y as i128,
                    Scalar::UInt(y) => *y as i128,
                    _ => {
                        proof {
                            assert(false);
                        }
                        0
                    },
                };
                match sum.checked_add(v) {
                    Some(s2) => {
                        sum = s2;
                    },
                    None => {
                        return Err(EngineError::CastError);
                    },
                }
                match v.checked_mul(v) {
                    Some(vv) => {
                        match sumsq.checked_add(vv) {
                            Some(s2) => {
                                sumsq = s2;
                            },
                            None => {
                                return Err(EngineError::CastError);
                            },
                        }
                    },
                    None => {
                        return Err(EngineError::CastError);
                    },
                }
                cnt = cnt + 1;
            },
            _ => {},
        }
        i = i + 1;
    }
    proof {
        assert(sub@.cells.subrange(0, cs@.len() as int) =~= sub@.cells);
    }
    if cnt < 2 {
        return Ok(None);
    }
    let n = cnt as i128;
    let nq = match n.checked_mul(sumsq) {
        Some(v) => v,
        None => {
            return Err(EngineError::CastError);
        },
    };
    let ss = match sum.checked_mul(sum) {
        Some(v) => v,
        None => {
            return Err(EngineError::CastError);
        },
    };
    let numer = match nq.checked_sub(ss) {
        Some(v) => v,
        None => {
            return Err(EngineError::CastError);
        },
    };
    if numer < 0 {
        // the exact variance is never negative; unreachable, kept as a guard
        return Err(EngineError::CastError);
    }
    proof {
        assert((cnt as int) * ((cnt - 1) as int) <= u128::MAX) by (nonlinear_arith)
            requires 2 <= cnt as int <= u64::MAX as int,
        ;
    }
    let denom = (cnt as u128) * ((cnt - 1) as u128);
    proof {
        assert(denom > 0) by (nonlinear_arith)
            requires denom == (cnt as int) * ((cnt - 1) as int), cnt >= 2,
        ;
    }
    let q = (numer as u128) / denom;
    proof {
        assert(q <= numer as u128);
    }
    if q > u64::MAX as u128 {
        return Err(EngineError::CastError);
    }
    Ok(Some(q as u64))
}

/// The floor of the square root.
fn isqrt_u64(v: u64) -> (r: u64)
    ensures
        (r as int) * (r as int) <= v as int,
        (v as int) < (((r + 1) as int) * ((r + 1) as int)),
{
    let mut lo: u64 = 0;
    let mut hi: u64 = 4294967296;
    // invariant: lo*lo <= v < hi*hi
    proof {
        assert((4294967296int) * (4294967296int) > u64::MAX as int) by (nonlinear_arith);
    }
    while lo + 1 < hi
        invariant
            lo < hi,
            hi <= 4294967296,
            (lo as int) * (lo as int) <= v as int,
            (hi as int) * (hi as int) > v as int,
        decreases hi - lo,
    {
        let mid = lo + (hi - lo) / 2;
        proof {
            assert(lo < mid < hi);
            assert((mid as int) * (mid as int) <= (4294967296int) * (4294967296int))
                by (nonlinear_arith)
                requires 0 <= mid <= 4294967296int,
            ;
        }
        let sq = (mid as u128) * (mid as u128);
        if sq <= v as u128 {
            lo = mid;
        } else {
            hi = mid;
        }
    }
    proof {
        assert(((lo + 1) as int) * ((lo + 1) as int) > v as int) by {
            assert(lo + 1 >= hi);
            assert(lo + 1 == hi);
        }
    }
    lo
}


/// The name suffix each reducer appends to an aggregated column.
pub open spec fn spec_agg_suffix(agg: GroupAgg) -> Seq<char> {
    match agg {
        GroupAgg::Min => "_min"@,
        GroupAgg::Max => "_max"@,
        GroupAgg::Mean => "_mean"@,
        GroupAgg::First => "_first"@,
        GroupAgg::Last => "_last"@,
        GroupAgg::Sum => "_sum"@,
        GroupAgg::Count => "_count"@,
        GroupAgg::NUnique => "_n_unique"@,
        GroupAgg::Median => "_median"@,
        GroupAgg::AggList => "_agg_list"@,
        GroupAgg::Groups => "_groups"@,
        GroupAgg::Std => "_std"@,
        GroupAgg::Var => "_var"@,
    }
}

fn agg_suffix(agg: GroupAgg) -> (r: &'static str)
    ensures
        r@ == spec_agg_suffix(agg),
{
    match agg {
        GroupAgg::Min => "_min",
        GroupAgg::Max => "_max",
        GroupAgg::Mean => "_mean",
        GroupAgg::First => "_first",
        GroupAgg::Last => "_last",
        GroupAgg::Sum => "_sum",
        GroupAgg::Count => "_count",
        GroupAgg::NUnique => "_n_unique",
        GroupAgg::Median => "_median",
        GroupAgg::AggList => "_agg_list",
        GroupAgg::Groups => "_groups",
        GroupAgg::Std => "_std",
        GroupAgg::Var => "_var",
    }
}

/// Whether an output column correctly aggregates a source column over the
/// groups led by `leads`.
pub open spec fn agg_col_ok(
    sv: Seq<ColumnV>,
    bysel: Seq<int>,
    leads: Seq<int>,
    src: ColumnV,
    out: ColumnV,
    agg: GroupAgg,
) -> bool {
    let h = spec_height(sv);
    &&& out.name == src.name + spec_agg_suffix(agg)
    &&& out.dtype == agg_dtype(agg, src.dtype)
    &&& out.cells.len() == leads.len()
    &&& forall|g: int| 0 <= g < leads.len()
        ==> agg_cell_ok(
            agg,
            cells_at(src.cells, member_rows(sv, bysel, leads[g], h)),
            member_rows(sv, bysel, leads[g], h),
            #[trigger] out.cells[g],
            src.dtype,
        )
}

/// Whether an output column repeats a key column at the group leaders.
pub open spec fn key_col_ok(
    sv: Seq<ColumnV>,
    leads: Seq<int>,
    src: ColumnV,
    out: ColumnV,
) -> bool {
    &&& out.name == src.name
    &&& out.dtype == src.dtype
    &&& out.cells.len() == leads.len()
    &&& forall|g: int| 0 <= g < leads.len()
        ==> #[trigger] out.cells[g] == src.cells[leads[g]]
}

impl Table {
    /// Whether rows `a` and `b` carry the same key over the selected
    /// columns; two null cells agree.
    fn rows_key_equal(
        &self,
        mats: &Vec<Vec<Option<Datum>>>,
        sel: &Vec<usize>,
        a: usize,
        b: usize,
    ) -> (r: bool)
        requires
            self.wf(),
            a < spec_height(self@),
            b < spec_height(self@),
            mats@.len() == sel@.len(),
            forall|k: int| 0 <= k < sel@.len() ==> #[trigger] sel@[k] < self@.len(),
            forall|k: int| 0 <= k < sel@.len()
                ==> (#[trigger] mats@[k])@.len() == spec_height(self@),
            forall|k: int, j: int| 0 <= k < sel@.len() && 0 <= j < spec_height(self@)
                ==> cell_view(#[trigger] mats@[k]@[j]) == self@[sel@[k] as int].cells[j],
        ensures
            r == (row_key(self@, sel@.map_values(|u: usize| u as int), a as int)
                == row_key(self@, sel@.map_values(|u: usize| u as int), b as int)),
    {
        let ghost selv = sel@.map_values(|u: usize| u as int);
        let mut eq = true;
        let mut k: usize = 0;
        while k < mats.len()
            invariant
                self.wf(),
                a < spec_height(self@),
                b < spec_height(self@),
                selv == sel@.map_values(|u: usize| u as int),
                mats@.len() == sel@.len(),
                forall|t: int| 0 <= t < sel@.len() ==> #[trigger] sel@[t] < self@.len(),
                forall|t: int| 0 <= t < sel@.len()
                    ==> (#[trigger] mats@[t])@.len() == spec_height(self@),
                forall|t: int, j: int| 0 <= t < sel@.len() && 0 <= j < spec_height(self@)
                    ==> cell_view(#[trigger] mats@[t]@[j]) == self@[sel@[t] as int].cells[j],
                k <= mats@.len(),
                eq == (forall|t: int| 0 <= t < k
                    ==> row_key(self@, selv, a as int)[t] == row_key(self@, selv, b as int)[t]),
            decreases mats@.len() - k,
        {
            if !crate::types::cell_eq(&mats[k][a], &mats[k][b], true) {
                proof {
                    assert(row_key(self@, selv, a as int)[k as int]
                        != row_key(self@, selv, b as int)[k as int]);
                }
                eq = false;
            }
            proof {
                if eq {
                    assert(row_key(self@, selv, a as int)[k as int]
                        == row_key(self@, selv, b as int)[k as int]);
                }
            }
            k = k + 1;
        }
        proof {
            if eq {
                assert(row_key(self@, selv, a as int) =~= row_key(self@, selv, b as int));
            }
        }
        eq
    }

    /// Partitions the rows by their key over the selected columns: the
    /// group leaders (first rows of each distinct key, in order of first
    /// appearance) and, aligned with them, each group's member rows in row
    /// order.
    #[verifier::rlimit(80)]
    fn group_rows(&self, bysel: &Vec<usize>) -> (r: (Vec<usize>, Vec<Vec<usize>>))
        requires
            self.wf(),
            forall|k: int| 0 <= k < bysel@.len() ==> #[trigger] bysel@[k] < self@.len(),
        ensures
            ({
                let selv = bysel@.map_values(|u: usize| u as int);
                let h = spec_height(self@);
                &&& r.0@.map_values(|u: usize| u as int) == lead_rows(self@, selv, h)
                &&& r.1@.len() == r.0@.len()
                &&& forall|g: int| 0 <= g < r.0@.len()
                    ==> (#[trigger] r.1@[g])@.map_values(|u: usize| u as int)
                        == member_rows(self@, selv, r.0@[g] as int, h)
                &&& forall|g: int| 0 <= g < r.0@.len() ==> (#[trigger] r.0@[g]) < h
            }),
    {
        let ghost selv = bysel@.map_values(|u: usize| u as int);
        let mats = self.selected_cells(bysel);
        let h = self.height();
        let mut leaders: Vec<usize> = Vec::new();
        let mut members: Vec<Vec<usize>> = Vec::new();
        let mut r: usize = 0;
        while r < h
            invariant
                self.wf(),
                h == spec_height(self@),
                selv == bysel@.map_values(|u: usize| u as int),
                mats@.len() == bysel@.len(),
                forall|k: int| 0 <= k < bysel@.len() ==> #[trigger] bysel@[k] < self@.len(),
                forall|k: int| 0 <= k < bysel@.len()
                    ==> (#[trigger] mats@[k])@.len() == spec_height(self@),
                forall|k: int, j: int| 0 <= k < bysel@.len() && 0 <= j < spec_height(self@)
                    ==> cell_view(#[trigger] mats@[k]@[j]) == self@[bysel@[k] as int].cells[j],
                r <= h,
                leaders@.map_values(|u: usize| u as int) == lead_rows(self@, selv, r as int),
                members@.len() == leaders@.len(),
                forall|g: int| 0 <= g < leaders@.len() ==> (#[trigger] leaders@[g]) < r,
                forall|g: int| 0 <= g < leaders@.len()
                    ==> (#[trigger] members@[g])@.map_values(|u: usize| u as int)
                        == member_rows(self@, selv, leaders@[g] as int, r as int),
                // leaders carry pairwise different keys
                forall|g1: int, g2: int| 0 <= g1 < g2 < leaders@.len()
                    ==> row_key(self@, selv, #[trigger] leaders@[g1] as int)
                        != row_key(self@, selv, #[trigger] leaders@[g2] as int),
                // every earlier row's key is some leader's key
                forall|p: int| #![trigger row_key(self@, selv, p)] 0 <= p < r
                    ==> exists|g: int| 0 <= g < leaders@.len()
                        && row_key(self@, selv, p)
                            == row_key(self@, selv, #[trigger] leaders@[g] as int),
            decreases h - r,
        {
            let mut found: Option<usize> = None;
            let mut g: usize = 0;
            while g < leaders.len()
                invariant
                    self.wf(),
                    h == spec_height(self@),
                    selv == bysel@.map_values(|u: usize| u as int),
                    mats@.len() == bysel@.len(),
                    forall|k: int| 0 <= k < bysel@.len() ==> #[trigger] bysel@[k] < self@.len(),
                    forall|k: int| 0 <= k < bysel@.len()
                        ==> (#[trigger] mats@[k])@.len() == spec_height(self@),
                    forall|k: int, j: int| 0 <= k < bysel@.len() && 0 <= j < spec_height(self@)
                        ==> cell_view(#[trigger] mats@[k]@[j])
                            == self@[bysel@[k] as int].cells[j],
                    r < h,
                    g <= leaders@.len(),
                    forall|t: int| 0 <= t < leaders@.len() ==> (#[trigger] leaders@[t]) < r,
                    match found {
                        Some(gi) => gi < leaders@.len()
                            && row_key(self@, selv, leaders@[gi as int] as int)
                                == row_key(self@, selv, r as int),
                        None => forall|t: int| 0 <= t < g
                            ==> row_key(self@, selv, #[trigger] leaders@[t] as int)
                                != row_key(self@, selv, r as int),
                    },
                decreases leaders@.len() - g,
            {
                if found.is_none() {
                    if self.rows_key_equal(&mats, bysel, leaders[g], r) {
                        found = Some(g);
                    }
                }
                g = g + 1;
            }
            let ghost old_leaders = leaders@;
            let ghost old_members = members@;
            match found {
                Some(gi) => {
                    let mut grp = members.remove(gi);
                    grp.push(r);
                    members.insert(gi, grp);
                    proof {
                        assert(!key_first_occurrence(self@, selv, r as int)) by {
                            assert(row_key(self@, selv, old_leaders[gi as int] as int)
                                == row_key(self@, selv, r as int));
                        }
                        assert(lead_rows(self@, selv, r + 1)
                            == lead_rows(self@, selv, r as int));
                        assert(members@.len() == old_members.len());
                        assert forall|g2: int| 0 <= g2 < leaders@.len()
                            implies (#[trigger] members@[g2])@.map_values(|u: usize| u as int)
                                == member_rows(self@, selv, leaders@[g2] as int, r + 1) by {
                            if g2 == gi {
                                assert(members@[g2]@
                                    =~= old_members[g2]@.push(r as usize));
                                assert(members@[g2]@.map_values(|u: usize| u as int)
                                    =~= old_members[g2]@.map_values(|u: usize| u as int)
                                        .push(r as int));
                            } else {
                                assert(members@[g2] == old_members[g2]);
                                assert(row_key(self@, selv, r as int)
                                    != row_key(self@, selv, leaders@[g2] as int)) by {
                                    if g2 < gi {
                                        assert(row_key(self@, selv, leaders@[g2] as int)
                                            != row_key(self@, selv, leaders@[gi as int] as int));
                                    } else {
                                        assert(row_key(self@, selv, leaders@[gi as int] as int)
                                            != row_key(self@, selv, leaders@[g2] as int));
                                    }
                                }
                            }
                        }
                        assert forall|p: int| #![trigger row_key(self@, selv, p)]
                            0 <= p < r + 1
                            implies exists|g2: int| 0 <= g2 < leaders@.len()
                                && row_key(self@, selv, p)
                                    == row_key(self@, selv, #[trigger] leaders@[g2] as int) by {
                            if p < r {
                                let g2 = choose|g2: int| 0 <= g2 < old_leaders.len()
                                    && row_key(self@, selv, p)
                                        == row_key(self@, selv, old_leaders[g2] as int);
                                assert(row_key(self@, selv, p)
                                    == row_key(self@, selv, leaders@[g2] as int));
                            } else {
                                assert(row_key(self@, selv, p)
                                    == row_key(self@, selv, leaders@[gi as int] as int));
                            }
                        }
                    }
                },
                None => {
                    proof {
                        assert(key_first_occurrence(self@, selv, r as int)) by {
                            if !key_first_occurrence(self@, selv, r as int) {
                                let p = choose|p: int| 0 <= p < r
                                    && row_key(self@, selv, p)
                                        == row_key(self@, selv, r as int);
                                let g2 = choose|g2: int| 0 <= g2 < old_leaders.len()
                                    && row_key(self@, selv, p)
                                        == row_key(self@, selv, old_leaders[g2] as int);
                                assert(row_key(self@, selv, old_leaders[g2] as int)
                                    == row_key(self@, selv, r as int));
                            }
                        }
                        lemma_member_rows_of_first(self@, selv, r as int, r as int);
                    }
                    leaders.push(r);
                    let mut grp: Vec<usize> = Vec::new();
                    grp.push(r);
                    members.push(grp);
                    proof {
                        assert(leaders@.map_values(|u: usize| u as int)
                            =~= lead_rows(self@, selv, r + 1));
                        assert forall|g2: int| 0 <= g2 < leaders@.len()
                            implies (#[trigger] members@[g2])@.map_values(|u: usize| u as int)
                                == member_rows(self@, selv, leaders@[g2] as int, r + 1) by {
                            if g2 < old_leaders.len() {
                                assert(members@[g2] == old_members[g2]);
                                assert(leaders@[g2] == old_leaders[g2]);
                                assert(row_key(self@, selv, r as int)
                                    != row_key(self@, selv, leaders@[g2] as int));
                            } else {
                                assert(leaders@[g2] == r as usize);
                                assert(members@[g2]@.map_values(|u: usize| u as int)
                                    =~= member_rows(self@, selv, r as int, r as int)
                                        .push(r as int));
                            }
                        }
                        assert forall|p: int| #![trigger row_key(self@, selv, p)]
                            0 <= p < r + 1
                            implies exists|g2: int| 0 <= g2 < leaders@.len()
                                && row_key(self@, selv, p)
                                    == row_key(self@, selv, #[trigger] leaders@[g2] as int) by {
                            if p < r {
                                let g2 = choose|g2: int| 0 <= g2 < old_leaders.len()
                                    && row_key(self@, selv, p)
                                        == row_key(self@, selv, old_leaders[g2] as int);
                                assert(leaders@[g2] == old_leaders[g2]);
                                assert(row_key(self@, selv, p)
                                    == row_key(self@, selv, leaders@[g2] as int));
                            } else {
                                let g2 = leaders@.len() - 1;
                                assert(row_key(self@, selv, p)
                                    == row_key(self@, selv, leaders@[g2] as int));
                            }
                        }
                    }
                },
            }
            r = r + 1;
        }
        (leaders, members)
    }
}


/// The views of a list of names.
pub open spec fn names_views(names: Seq<String>) -> Seq<Seq<char>> {
    names.map_values(|s: String| s@)
}

/// The positions among the first `upto` that are not key positions, in
/// order.
pub open spec fn nonkey_positions(bysel: Seq<int>, upto: int) -> Seq<int>
    decreases upto,
{
    if upto <= 0 {
        Seq::empty()
    } else {
        let rest = nonkey_positions(bysel, upto - 1);
        if bysel.contains(upto - 1) {
            rest
        } else {
            rest.push(upto - 1)
        }
    }
}

/// Whether `aggsel` is the set of aggregated positions the caller asked
/// for: the named columns, or every non-key column without a selection.
pub open spec fn agg_target_ok(
    sv: Seq<ColumnV>,
    sel: Option<Vec<String>>,
    bysel: Seq<int>,
    aggsel: Seq<int>,
) -> bool {
    match sel {
        Some(names) => crate::table::sel_positions(sv, names_views(names@), aggsel),
        None => aggsel == nonkey_positions(bysel, sv.len() as int),
    }
}

/// Whether an output table groups the source by the key positions and
/// aggregates the selected positions with one reducer.
pub open spec fn grouped_output_ok(
    sv: Seq<ColumnV>,
    tv: Seq<ColumnV>,
    bysel: Seq<int>,
    aggsel: Seq<int>,
    agg: GroupAgg,
) -> bool {
    let leads = lead_rows(sv, bysel, spec_height(sv));
    &&& tv.len() == bysel.len() + aggsel.len()
    &&& forall|k: int| 0 <= k < bysel.len()
        ==> key_col_ok(sv, leads, sv[bysel[k]], #[trigger] tv[k])
    &&& forall|k: int| 0 <= k < aggsel.len()
        ==> agg_col_ok(sv, bysel, leads, sv[aggsel[k]], #[trigger] tv[bysel.len() + k], agg)
}

/// The names a grouping produces: the key names, then each aggregated
/// column's name with the reducer's suffix.
pub open spec fn groupby_names(
    sv: Seq<ColumnV>,
    bysel: Seq<int>,
    aggsel: Seq<int>,
    agg: GroupAgg,
) -> Seq<Seq<char>> {
    Seq::new(
        (bysel.len() + aggsel.len()) as nat,
        |k: int| if k < bysel.len() {
            sv[bysel[k]].name
        } else {
            sv[aggsel[k - bysel.len()]].name + spec_agg_suffix(agg)
        },
    )
}

impl Table {
    /// The group keys at the leaders followed by each selected column
    /// reduced per group.
    fn grouped_columns(
        &self,
        bysel: &Vec<usize>,
        aggsel: &Vec<usize>,
        agg: GroupAgg,
    ) -> (r: Result<Vec<Column>, EngineError>)
        requires
            self.wf(),
            forall|k: int| 0 <= k < bysel@.len() ==> #[trigger] bysel@[k] < self@.len(),
            forall|k: int| 0 <= k < aggsel@.len() ==> #[trigger] aggsel@[k] < self@.len(),
        ensures
            match r {
                Ok(cols) => {
                    &&& forall|i: int| 0 <= i < cols@.len() ==> (#[trigger] cols@[i]).wf()
                    &&& grouped_output_ok(
                        self@,
                        cols@.map_values(|c: Column| c@),
                        bysel@.map_values(|u: usize| u as int),
                        aggsel@.map_values(|u: usize| u as int),
                        agg,
                    )
                },
                Err(e) => {
                    ||| (e == EngineError::TypeMismatch
                        && exists|i: int| 0 <= i < self@.len()
                            && !agg_applicable(agg, (#[trigger] self@[i]).dtype))
                    ||| (e == EngineError::CastError && (agg == GroupAgg::Sum
                        || agg == GroupAgg::Mean || agg == GroupAgg::Var
                        || agg == GroupAgg::Std))
                },
            },
    {
        let ghost byselv = bysel@.map_values(|u: usize| u as int);
        let ghost aggselv = aggsel@.map_values(|u: usize| u as int);
        let ghost leads = lead_rows(self@, byselv, spec_height(self@));
        let (leaders, members) = self.group_rows(bysel);
        let mut out: Vec<Column> = Vec::new();
        let mut k: usize = 0;
        while k < bysel.len()
            invariant
                self.wf(),
                byselv == bysel@.map_values(|u: usize| u as int),
                leads == lead_rows(self@, byselv, spec_height(self@)),
                leaders@.map_values(|u: usize| u as int) == leads,
                forall|g: int| 0 <= g < leaders@.len()
                    ==> (#[trigger] leaders@[g]) < spec_height(self@),
                forall|t: int| 0 <= t < bysel@.len() ==> #[trigger] bysel@[t] < self@.len(),
                k <= bysel@.len(),
                out@.len() == k,
                forall|t: int| 0 <= t < k ==> (#[trigger] out@[t]).wf(),
                forall|t: int| 0 <= t < k
                    ==> key_col_ok(self@, leads, self@[byselv[t]], (#[trigger] out@[t])@),
            decreases bysel@.len() - k,
        {
            let src = match self.select_at_idx(bysel[k]) {
                Some(c) => c,
                None => {
                    proof {
                        assert(false);
                    }
                    return Err(EngineError::TypeMismatch);
                },
            };
            match src.take(&leaders) {
                Ok(c) => {
                    proof {
                        assert(key_col_ok(self@, leads, self@[byselv[k as int]], c@));
                    }
                    out.push(c);
                },
                Err(_) => {
                    proof {
                        assert(false);
                    }
                    return Err(EngineError::TypeMismatch);
                },
            }
            k = k + 1;
        }
        let mut a: usize = 0;
        while a < aggsel.len()
            invariant
                self.wf(),
                byselv == bysel@.map_values(|u: usize| u as int),
                aggselv == aggsel@.map_values(|u: usize| u as int),
                leads == lead_rows(self@, byselv, spec_height(self@)),
                leaders@.map_values(|u: usize| u as int) == leads,
                members@.len() == leaders@.len(),
                forall|g: int| 0 <= g < leaders@.len()
                    ==> (#[trigger] leaders@[g]) < spec_height(self@),
                forall|g: int| 0 <= g < leaders@.len()
                    ==> (#[trigger] members@[g])@.map_values(|u: usize| u as int)
                        == member_rows(self@, byselv, leaders@[g] as int, spec_height(self@)),
                forall|t: int| 0 <= t < aggsel@.len() ==> #[trigger] aggsel@[t] < self@.len(),
                a <= aggsel@.len(),
                out@.len() == bysel@.len() + a,
                forall|t: int| 0 <= t < out@.len() ==> (#[trigger] out@[t]).wf(),
                forall|t: int| 0 <= t < bysel@.len()
                    ==> key_col_ok(self@, leads, self@[byselv[t]], (#[trigger] out@[t])@),
                forall|t: int| 0 <= t < a
                    ==> agg_col_ok(
                        self@,
                        byselv,
                        leads,
                        self@[aggselv[t]],
                        (#[trigger] out@[bysel@.len() + t])@,
                        agg,
                    ),
            decreases aggsel@.len() - a,
        {
            let src = match self.select_at_idx(aggsel[a]) {
                Some(c) => c,
                None => {
                    proof {
                        assert(false);
                    }
                    return Err(EngineError::TypeMismatch);
                },
            };
            let mut cells: Vec<Option<Datum>> = Vec::new();
            let mut g: usize = 0;
            while g < leaders.len()
                invariant
                    self.wf(),
                    src.wf(),
                    src@ == self@[aggselv[a as int]],
                    a < aggsel@.len(),
                    byselv == bysel@.map_values(|u: usize| u as int),
                    aggselv == aggsel@.map_values(|u: usize| u as int),
                    forall|t: int| 0 <= t < aggsel@.len() ==> #[trigger] aggsel@[t] < self@.len(),
                    leads == lead_rows(self@, byselv, spec_height(self@)),
                    leaders@.map_values(|u: usize| u as int) == leads,
                    members@.len() == leaders@.len(),
                    forall|g2: int| 0 <= g2 < leaders@.len()
                        ==> (#[trigger] leaders@[g2]) < spec_height(self@),
                    forall|g2: int| 0 <= g2 < leaders@.len()
                        ==> (#[trigger] members@[g2])@.map_values(|u: usize| u as int)
                            == member_rows(
                            self@,
                            byselv,
                            leaders@[g2] as int,
                            spec_height(self@),
                        ),
                    g <= leaders@.len(),
                    cells@.len() == g,
                    forall|g2: int| 0 <= g2 < g
                        ==> agg_cell_ok(
                            agg,
                            cells_at(
                                self@[aggselv[a as int]].cells,
                                member_rows(self@, byselv, leads[g2], spec_height(self@)),
                            ),
                            member_rows(self@, byselv, leads[g2], spec_height(self@)),
                            cell_view(#[trigger] cells@[g2]),
                            self@[aggselv[a as int]].dtype,
                        ),
                    forall|g2: int| 0 <= g2 < g
                        ==> spec_cell_fits(
                            agg_dtype(agg, self@[aggselv[a as int]].dtype),
                            cell_view(#[trigger] cells@[g2]),
                        ),
                decreases leaders@.len() - g,
            {
                proof {
                    assert((#[trigger] members@[g as int])@.map_values(|u: usize| u as int)
                        == member_rows(
                        self@,
                        byselv,
                        leaders@[g as int] as int,
                        spec_height(self@),
                    ));
                    lemma_member_rows_in_range(
                        self@,
                        byselv,
                        leaders@[g as int] as int,
                        spec_height(self@),
                    );
                    assert(self@[aggselv[a as int]].cells.len() == spec_height(self@)) by {
                        assert(crate::table::heights_equal(self@));
                    }
                    let mrows = member_rows(
                        self@, byselv, leaders@[g as int] as int, spec_height(self@),
                    );
                    assert forall|j: int| 0 <= j < members@[g as int]@.len()
                        implies (#[trigger] members@[g as int]@[j]) < src@.cells.len() by {
                        assert(members@[g as int]@.map_values(|u: usize| u as int)[j]
                            == mrows[j]);
                    }
                }
                let sub = match src.take(&members[g]) {
                    Ok(c) => c,
                    Err(_) => {
                        proof {
                            assert(false);
                        }
                        return Err(EngineError::TypeMismatch);
                    },
                };
                proof {
                    assert(sub@.cells =~= cells_at(
                        self@[aggselv[a as int]].cells,
                        member_rows(self@, byselv, leads[g as int], spec_height(self@)),
                    ));
                }
                match apply_agg(agg, &sub, &members[g]) {
                    Ok(c) => {
                        cells.push(c);
                    },
                    Err(e) => {
                        proof {
                            if e == EngineError::TypeMismatch {
                                assert(!agg_applicable(
                                    agg,
                                    (#[trigger] self@[aggselv[a as int]]).dtype,
                                ));
                            }
                        }
                        return Err(e);
                    },
                }
                g = g + 1;
            }
            let name = src.name().to_owned().concat(agg_suffix(agg));
            let dt = agg_dtype_exec(agg, src.dtype());
            match Column::new(name, dt, cells) {
                Ok(c) => {
                    proof {
                        assert(agg_col_ok(self@, byselv, leads, self@[aggselv[a as int]], c@, agg));
                    }
                    out.push(c);
                },
                Err(_) => {
                    proof {
                        assert(false);
                    }
                    return Err(EngineError::TypeMismatch);
                },
            }
            a = a + 1;
        }
        proof {
            assert(grouped_output_ok(
                self@,
                out@.map_values(|c: Column| c@),
                byselv,
                aggselv,
                agg,
            ));
        }
        Ok(out)
    }

    /// Groups the rows by the `by` columns and reduces the selected
    /// columns (every non-key column when no selection is given) with the
    /// named aggregator, groups in order of first appearance.
    /// `UnsupportedAggregator` exactly for an unknown aggregator name,
    /// `NotFound` for a missing column name, `InvalidArgument` when the
    /// generated column names collide, `TypeMismatch`/`CastError` when the
    /// reducer cannot work a selected column.
    pub fn groupby(&self, by: &Vec<String>, sel: &Option<Vec<String>>, agg_name: &str) -> (r:
        Result<Table, EngineError>)
        requires
            self.wf(),
        ensures
            match r {
                Ok(t) => {
                    &&& t.wf()
                    &&& spec_agg_of_name(agg_name@) is Some
                    &&& exists|bysel: Seq<int>, aggsel: Seq<int>| {
                        &&& #[trigger] crate::table::sel_positions(
                            self@,
                            names_views(by@),
                            bysel,
                        )
                        &&& #[trigger] agg_target_ok(self@, *sel, bysel, aggsel)
                        &&& grouped_output_ok(
                            self@,
                            t@,
                            bysel,
                            aggsel,
                            spec_agg_of_name(agg_name@)->0,
                        )
                    }
                },
                Err(e) => {
                    ||| (e == EngineError::UnsupportedAggregator
                        && spec_agg_of_name(agg_name@) is None)
                    ||| (e == EngineError::NotFound
                        && (crate::table::some_name_missing(self@, by@)
                            || ((*sel) matches Some(ns)
                                && crate::table::some_name_missing(self@, ns@))))
                    ||| (e == EngineError::InvalidArgument
                        && exists|bysel: Seq<int>, aggsel: Seq<int>| {
                            &&& #[trigger] crate::table::sel_positions(
                                self@,
                                names_views(by@),
                                bysel,
                            )
                            &&& #[trigger] agg_target_ok(self@, *sel, bysel, aggsel)
                            &&& !crate::table::texts_unique(groupby_names(
                                self@,
                                bysel,
                                aggsel,
                                spec_agg_of_name(agg_name@)->0,
                            ))
                        })
                    ||| (e == EngineError::TypeMismatch
                        && spec_agg_of_name(agg_name@) is Some
                        && exists|i: int| 0 <= i < self@.len()
                            && !agg_applicable(
                                spec_agg_of_name(agg_name@)->0,
                                (#[trigger] self@[i]).dtype,
                            ))
                    ||| (e == EngineError::CastError
                        && (spec_agg_of_name(agg_name@) == Some(GroupAgg::Sum)
                            || spec_agg_of_name(agg_name@) == Some(GroupAgg::Mean)
                            || spec_agg_of_name(agg_name@) == Some(GroupAgg::Var)
                            || spec_agg_of_name(agg_name@) == Some(GroupAgg::Std)))
                },
            },
    {
        let agg = match agg_of_name(agg_name) {
            Some(a) => a,
            None => {
                return Err(EngineError::UnsupportedAggregator);
            },
        };
        let by_clone = clone_names(by);
        let bysel = match self.resolve_subset(&Some(by_clone)) {
            Ok(s) => s,
            Err(_) => {
                proof {
                    lemma_missing_name_transfers(self@, by_clone@, by@);
                }
                return Err(EngineError::NotFound);
            },
        };
        let aggsel: Vec<usize> = match sel {
            Some(names) => {
                let sel_clone = clone_names(names);
                match self.resolve_subset(&Some(sel_clone)) {
                    Ok(s) => s,
                    Err(_) => {
                        proof {
                            lemma_missing_name_transfers(self@, sel_clone@, names@);
                        }
                        return Err(EngineError::NotFound);
                    },
                }
            },
            None => {
                let mut ns: Vec<usize> = Vec::new();
                let mut i: usize = 0;
                let ghost byselv = bysel@.map_values(|u: usize| u as int);
                while i < self.width()
                    invariant
                        self.wf(),
                        byselv == bysel@.map_values(|u: usize| u as int),
                        i <= self@.len(),
                        forall|t: int| 0 <= t < ns@.len() ==> #[trigger] ns@[t] < self@.len(),
                        ns@.map_values(|u: usize| u as int)
                            == nonkey_positions(byselv, i as int),
                    decreases self@.len() - i,
                {
                    let mut iskey = false;
                    let mut b: usize = 0;
                    while b < bysel.len()
                        invariant
                            byselv == bysel@.map_values(|u: usize| u as int),
                            b <= bysel@.len(),
                            iskey == exists|t: int| 0 <= t < b
                                && #[trigger] bysel@[t] == i,
                        decreases bysel@.len() - b,
                    {
                        if bysel[b] == i {
                            iskey = true;
                        }
                        b = b + 1;
                    }
                    proof {
                        assert(iskey == byselv.contains(i as int)) by {
                            if iskey {
                                let t = choose|t: int| 0 <= t < bysel@.len()
                                    && bysel@[t] == i;
                                assert(byselv[t] == i as int);
                            } else {
                                if byselv.contains(i as int) {
                                    let t = choose|t: int| 0 <= t < byselv.len()
                                        && byselv[t] == i as int;
                                    assert(bysel@[t] == i);
                                }
                            }
                        }
                    }
                    if !iskey {
                        ns.push(i);
                    }
                    proof {
                        assert(ns@.map_values(|u: usize| u as int)
                            =~= nonkey_positions(byselv, i + 1));
                    }
                    i = i + 1;
                }
                ns
            },
        };
        let cols = match self.grouped_columns(&bysel, &aggsel, agg) {
            Ok(c) => c,
            Err(e) => {
                return Err(e);
            },
        };
        let ghost colsv = cols@.map_values(|c: Column| c@);
        let ghost byselv = bysel@.map_values(|u: usize| u as int);
        let ghost aggselv = aggsel@.map_values(|u: usize| u as int);
        proof {
            assert(crate::table::sel_positions(self@, names_views(by@), byselv));
            assert(agg_target_ok(self@, *sel, byselv, aggselv)) by {
                match sel {
                    Some(names) => {
                        assert(crate::table::sel_positions(
                            self@, names_views(names@), aggselv,
                        ));
                    },
                    None => {},
                }
            }
            // the produced columns are all one height with the known names
            let leads = lead_rows(self@, byselv, spec_height(self@));
            assert forall|j: int| 0 <= j < colsv.len()
                implies (#[trigger] colsv[j].cells.len())
                    == crate::table::spec_height(colsv) by {
                if colsv.len() > 0 {
                    if 0 < byselv.len() {
                        assert(key_col_ok(self@, leads, self@[byselv[0]], colsv[0]));
                    } else {
                        assert(agg_col_ok(self@, byselv, leads, self@[aggselv[0]],
                            colsv[byselv.len() as int + 0], agg));
                    }
                }
                if j < byselv.len() {
                    assert(key_col_ok(self@, leads, self@[byselv[j]], colsv[j]));
                } else {
                    let t = j - byselv.len();
                    assert(agg_col_ok(self@, byselv, leads,
                        self@[aggselv[t]], colsv[byselv.len() as int + t], agg));
                }
            }
            assert(crate::table::heights_equal(colsv));
            assert forall|j: int| 0 <= j < colsv.len()
                implies (#[trigger] colsv[j].name)
                    == groupby_names(self@, byselv, aggselv, agg)[j] by {
                let leads2 = lead_rows(self@, byselv, spec_height(self@));
                if j < byselv.len() {
                    assert(key_col_ok(self@, leads2, self@[byselv[j]], colsv[j]));
                } else {
                    let t = j - byselv.len();
                    assert(agg_col_ok(self@, byselv, leads2,
                        self@[aggselv[t]], colsv[byselv.len() as int + t], agg));
                }
            }
        }
        match Table::new(cols) {
            Ok(t) => {
                proof {
                    assert(t@ == colsv);
                    assert(grouped_output_ok(self@, t@, byselv, aggselv, agg));
                }
                Ok(t)
            },
            Err(e) => {
                proof {
                    assert(e == EngineError::InvalidArgument
                        && !crate::table::names_unique(colsv));
                    let gn = groupby_names(self@, byselv, aggselv, agg);
                    let (p, q) = choose|p: int, q: int| 0 <= p < q < colsv.len()
                        && (#[trigger] colsv[p].name) == (#[trigger] colsv[q].name);
                    assert(gn[p] == gn[q]);
                    assert(!crate::table::texts_unique(gn));
                }
                Err(EngineError::InvalidArgument)
            },
        }
    }
}

/// A missing name among fresh copies of a name list is missing among the
/// originals.
pub(crate) proof fn lemma_missing_name_transfers(
    cols: Seq<ColumnV>,
    copies: Seq<String>,
    names: Seq<String>,
)
    requires
        copies.len() == names.len(),
        forall|i: int| 0 <= i < names.len()
            ==> (#[trigger] copies[i])@ == (#[trigger] names[i])@,
        crate::table::some_name_missing(cols, copies),
    ensures
        crate::table::some_name_missing(cols, names),
{
    let k = choose|k: int| 0 <= k < copies.len()
        && crate::table::name_missing(cols, (#[trigger] copies[k])@);
    assert(crate::table::name_missing(cols, (names[k])@));
    assert(0 <= k < names.len());
    assert(crate::table::some_name_missing(cols, names));
}

/// Member rows lie below `upto`.
proof fn lemma_member_rows_in_range(cols: Seq<ColumnV>, sel: Seq<int>, lead: int, upto: int)
    ensures
        forall|k: int| 0 <= k < member_rows(cols, sel, lead, upto).len()
            ==> 0 <= #[trigger] member_rows(cols, sel, lead, upto)[k] < upto,
    decreases upto,
{
    if upto > 0 {
        lemma_member_rows_in_range(cols, sel, lead, upto - 1);
        let m = member_rows(cols, sel, lead, upto);
        let rest = member_rows(cols, sel, lead, upto - 1);
        assert forall|k: int| 0 <= k < m.len() implies 0 <= #[trigger] m[k] < upto by {
            if row_key(cols, sel, upto - 1) == row_key(cols, sel, lead) {
                assert(m == rest.push(upto - 1));
                if k < rest.len() {
                    assert(m[k] == rest[k]);
                } else {
                    assert(m[k] == upto - 1);
                }
            } else {
                assert(m == rest);
            }
        }
    }
}

/// Fresh copies of a list of names.
pub(crate) fn clone_names(names: &Vec<String>) -> (r: Vec<String>)
    ensures
        r@.len() == names@.len(),
        forall|i: int| 0 <= i < names@.len() ==> (#[trigger] r@[i])@ == names@[i]@,
{
    let mut out: Vec<String> = Vec::new();
    let mut i: usize = 0;
    while i < names.len()
        invariant
            i <= names@.len(),
            out@.len() == i,
            forall|j: int| 0 <= j < i ==> (#[trigger] out@[j])@ == names@[j]@,
        decreases names@.len() - i,
    {
        out.push(names[i].clone());
        i = i + 1;
    }
    out
}

fn agg_dtype_exec(agg: GroupAgg, src: TypeTag) -> (r: TypeTag)
    ensures
        r == agg_dtype(agg, src),
{
    match agg {
        GroupAgg::Count => TypeTag::UInt64,
        GroupAgg::NUnique => TypeTag::UInt64,
        GroupAgg::Sum => {
            if matches!(src, TypeTag::UInt8 | TypeTag::UInt16 | TypeTag::UInt32 | TypeTag::UInt64) {
                TypeTag::UInt64
            } else {
                TypeTag::Int64
            }
        },
        GroupAgg::Mean => {
            if matches!(src, TypeTag::UInt8 | TypeTag::UInt16 | TypeTag::UInt32 | TypeTag::UInt64) {
                TypeTag::UInt64
            } else {
                TypeTag::Int64
            }
        },
        GroupAgg::Min => src,
        GroupAgg::Max => src,
        GroupAgg::First => src,
        GroupAgg::Last => src,
        GroupAgg::Median => src,
        GroupAgg::AggList => TypeTag::List,
        GroupAgg::Groups => TypeTag::List,
        GroupAgg::Var => TypeTag::UInt64,
        GroupAgg::Std => TypeTag::UInt64,
    }
}


/// The reducers a pivot accepts.
pub open spec fn spec_pivot_agg_of(s: Seq<char>) -> Option<GroupAgg> {
    match spec_agg_of_name(s) {
        Some(a) => {
            if a == GroupAgg::First || a == GroupAgg::Min || a == GroupAgg::Max
                || a == GroupAgg::Mean || a == GroupAgg::Median || a == GroupAgg::Sum
                || a == GroupAgg::Count {
                Some(a)
            } else {
                None
            }
        },
        None => None,
    }
}

/// The distinct non-null cells' payloads, in order of first appearance.
pub open spec fn distinct_nonnull(cells: Seq<Option<DatumV>>) -> Seq<DatumV>
    decreases cells.len(),
{
    if cells.len() == 0 {
        Seq::empty()
    } else {
        let rest = distinct_nonnull(cells.drop_last());
        match cells.last() {
            None => rest,
            Some(v) => if rest.contains(v) {
                rest
            } else {
                rest.push(v)
            },
        }
    }
}

/// The rows among the first `upto` whose key equals the key of `lead` and
/// whose pivot cell holds `v`, in row order.
pub open spec fn member_rows_with(
    cols: Seq<ColumnV>,
    sel: Seq<int>,
    lead: int,
    pvci: int,
    v: DatumV,
    upto: int,
) -> Seq<int>
    decreases upto,
{
    if upto <= 0 {
        Seq::empty()
    } else {
        let rest = member_rows_with(cols, sel, lead, pvci, v, upto - 1);
        if row_key(cols, sel, upto - 1) == row_key(cols, sel, lead)
            && cols[pvci].cells[upto - 1] == Some(v) {
            rest.push(upto - 1)
        } else {
            rest
        }
    }
}

/// The text a pivot value names its column with: its cast to text.
pub open spec fn pivot_value_text(v: DatumV) -> Seq<char> {
    match v {
        DatumV::Sc(s) => match crate::arith::cast_scalar(TypeTag::Utf8, s) {
            Some(ScalarV::Str(t)) => t,
            _ => Seq::empty(),
        },
        _ => Seq::empty(),
    }
}

/// Whether one output column spreads one pivot value: per group, the
/// aggregate of the values column over the rows matching the group's key
/// and that pivot value, null when no row matches.
pub open spec fn pivot_col_ok(
    sv: Seq<ColumnV>,
    bysel: Seq<int>,
    pvci: int,
    vci: int,
    leads: Seq<int>,
    v: DatumV,
    out: ColumnV,
    agg: GroupAgg,
) -> bool {
    &&& out.name == pivot_value_text(v)
    &&& out.dtype == agg_dtype(agg, sv[vci].dtype)
    &&& out.cells.len() == leads.len()
    &&& forall|g: int| 0 <= g < leads.len()
        ==> ({
            let mrw = member_rows_with(sv, bysel, leads[g], pvci, v, spec_height(sv));
            if mrw.len() == 0 {
                (#[trigger] out.cells[g]) is None
            } else {
                agg_cell_ok(agg, cells_at(sv[vci].cells, mrw), mrw, out.cells[g], sv[vci].dtype)
            }
        })
}

/// Whether an output table pivots the source: the group keys at the
/// leaders, then one column per distinct non-null pivot value.
pub open spec fn pivot_output_ok(
    sv: Seq<ColumnV>,
    tv: Seq<ColumnV>,
    bysel: Seq<int>,
    pvci: int,
    vci: int,
    agg: GroupAgg,
) -> bool {
    let leads = lead_rows(sv, bysel, spec_height(sv));
    let pvals = distinct_nonnull(sv[pvci].cells);
    &&& tv.len() == bysel.len() + pvals.len()
    &&& forall|k: int| 0 <= k < bysel.len()
        ==> key_col_ok(sv, leads, sv[bysel[k]], #[trigger] tv[k])
    &&& forall|k: int| 0 <= k < pvals.len()
        ==> pivot_col_ok(sv, bysel, pvci, vci, leads, pvals[k],
            #[trigger] tv[bysel.len() + k], agg)
}

/// The names a pivot produces: the key names, then the pivot values' texts.
pub open spec fn pivot_names(sv: Seq<ColumnV>, bysel: Seq<int>, pvci: int) -> Seq<Seq<char>> {
    let pvals = distinct_nonnull(sv[pvci].cells);
    Seq::new(
        (bysel.len() + pvals.len()) as nat,
        |k: int| if k < bysel.len() {
            sv[bysel[k]].name
        } else {
            pivot_value_text(pvals[k - bysel.len()])
        },
    )
}

impl Table {
    /// Groups the rows by the `by` columns, then spreads the pivot
    /// column's distinct non-null values into one output column each, every
    /// cell the named reducer applied to the values column over the rows
    /// matching that key and pivot value; a combination with no matching
    /// row is null. `UnsupportedAggregator` exactly when the name is not
    /// one of first, min, max, mean, median, sum or count; `NotFound` when
    /// a named column is missing; `TypeMismatch` when the pivot column's
    /// values cannot name columns or the reducer cannot work the values
    /// column.
    pub fn pivot(
        &self,
        by: &Vec<String>,
        pivot_column: &str,
        values_column: &str,
        agg_name: &str,
    ) -> (r: Result<Table, EngineError>)
        requires
            self.wf(),
        ensures
            match r {
                Ok(t) => {
                    &&& t.wf()
                    &&& spec_pivot_agg_of(agg_name@) is Some
                    &&& exists|bysel: Seq<int>, pvci: int, vci: int| {
                        &&& #[trigger] crate::table::sel_positions(
                            self@,
                            names_views(by@),
                            bysel,
                        )
                        &&& 0 <= pvci < self@.len()
                            && (#[trigger] self@[pvci]).name == pivot_column@
                        &&& 0 <= vci < self@.len()
                            && (#[trigger] self@[vci]).name == values_column@
                        &&& pivot_output_ok(self@, t@, bysel, pvci, vci,
                            spec_pivot_agg_of(agg_name@)->0)
                    }
                },
                Err(e) => {
                    ||| (e == EngineError::UnsupportedAggregator
                        && spec_pivot_agg_of(agg_name@) is None)
                    ||| (e == EngineError::NotFound
                        && (crate::table::some_name_missing(self@, by@)
                            || crate::table::name_missing(self@, pivot_column@)
                            || crate::table::name_missing(self@, values_column@)))
                    ||| (e == EngineError::TypeMismatch
                        && exists|i: int| 0 <= i < self@.len()
                            && (((#[trigger] self@[i]).name == pivot_column@
                                    && !crate::order::sortable_dtype(self@[i].dtype))
                                || (self@[i].name == values_column@
                                    && (spec_pivot_agg_of(agg_name@) matches Some(a)
                                        && !agg_applicable(a, self@[i].dtype)))))
                    ||| (e == EngineError::CastError
                        && (spec_pivot_agg_of(agg_name@) == Some(GroupAgg::Sum)
                            || spec_pivot_agg_of(agg_name@) == Some(GroupAgg::Mean)))
                    ||| (e == EngineError::InvalidArgument
                        && exists|bysel: Seq<int>, pvci: int| {
                            &&& #[trigger] crate::table::sel_positions(
                                self@,
                                names_views(by@),
                                bysel,
                            )
                            &&& 0 <= pvci < self@.len()
                                && (#[trigger] self@[pvci]).name == pivot_column@
                            &&& !crate::table::texts_unique(pivot_names(self@, bysel, pvci))
                        })
                },
            },
    {
        let agg = match agg_of_name(agg_name) {
            Some(a) => {
                if matches!(a, GroupAgg::First | GroupAgg::Min | GroupAgg::Max | GroupAgg::Mean
                    | GroupAgg::Median | GroupAgg::Sum | GroupAgg::Count) {
                    a
                } else {
                    return Err(EngineError::UnsupportedAggregator);
                }
            },
            None => {
                return Err(EngineError::UnsupportedAggregator);
            },
        };
        let by_clone = clone_names(by);
        let bysel = match self.resolve_subset(&Some(by_clone)) {
            Ok(s) => s,
            Err(_) => {
                proof {
                    lemma_missing_name_transfers(self@, by_clone@, by@);
                }
                return Err(EngineError::NotFound);
            },
        };
        let pvci = match self.find_idx_by_name(pivot_column) {
            Some(i) => i,
            None => {
                return Err(EngineError::NotFound);
            },
        };
        let vci = match self.find_idx_by_name(values_column) {
            Some(i) => i,
            None => {
                return Err(EngineError::NotFound);
            },
        };
        let pv_col = match self.select_at_idx(pvci) {
            Some(c) => c,
            None => {
                proof {
                    assert(false);
                }
                return Err(EngineError::NotFound);
            },
        };
        let values_col = match self.select_at_idx(vci) {
            Some(c) => c,
            None => {
                proof {
                    assert(false);
                }
                return Err(EngineError::NotFound);
            },
        };
        if matches!(pv_col.dtype(), TypeTag::List) || matches!(pv_col.dtype(), TypeTag::Object) {
            return Err(EngineError::TypeMismatch);
        }
        let applicable = match agg {
            GroupAgg::Sum => crate::arith::numeric_dtype_exec(values_col.dtype()),
            GroupAgg::Mean => crate::arith::numeric_dtype_exec(values_col.dtype()),
            GroupAgg::Min => !matches!(values_col.dtype(), TypeTag::List | TypeTag::Object),
            GroupAgg::Max => !matches!(values_col.dtype(), TypeTag::List | TypeTag::Object),
            GroupAgg::Median => !matches!(values_col.dtype(), TypeTag::List | TypeTag::Object),
            _ => true,
        };
        if !applicable {
            proof {
                assert(!agg_applicable(agg, self@[vci as int].dtype));
            }
            return Err(EngineError::TypeMismatch);
        }
        proof {
            crate::column::lemma_wf_cells_fit(pv_col);
        }
        let ghost byselv = bysel@.map_values(|u: usize| u as int);
        let ghost leads = lead_rows(self@, byselv, spec_height(self@));
        let ghost pvalsv = distinct_nonnull(self@[pvci as int].cells);
        let (leaders, _members) = self.group_rows(&bysel);
        let bymats = self.selected_cells(&bysel);
        let pv_cells = pv_col.cells();
        let h = self.height();

        // the distinct non-null pivot values, first appearance first
        let mut pvals: Vec<Datum> = Vec::new();
        let mut i: usize = 0;
        proof {
            assert(self@[pvci as int].cells.subrange(0, 0) =~= Seq::<Option<DatumV>>::empty());
        }
        while i < pv_cells.len()
            invariant
                pv_col.wf(),
                pv_col@ == self@[pvci as int],
                i <= pv_cells@.len(),
                pv_cells@.len() == self@[pvci as int].cells.len(),
                forall|j: int| 0 <= j < pv_cells@.len()
                    ==> cell_view(#[trigger] pv_cells@[j]) == self@[pvci as int].cells[j],
                forall|j: int| 0 <= j < pv_cells@.len()
                    ==> spec_cell_fits(self@[pvci as int].dtype,
                        cell_view(#[trigger] pv_cells@[j])),
                crate::order::sortable_dtype(self@[pvci as int].dtype),
                pvals@.map_values(|d: Datum| d@)
                    == distinct_nonnull(self@[pvci as int].cells.subrange(0, i as int)),
                forall|t: int| 0 <= t < pvals@.len()
                    ==> crate::types::spec_value_fits(self@[pvci as int].dtype, (#[trigger] pvals@[t])@),
            decreases pv_cells@.len() - i,
        {
            proof {
                assert(self@[pvci as int].cells.subrange(0, i + 1).drop_last()
                    =~= self@[pvci as int].cells.subrange(0, i as int));
                assert(self@[pvci as int].cells.subrange(0, i + 1).last()
                    == self@[pvci as int].cells[i as int]);
            }
            match &pv_cells[i] {
                Some(v) => {
                    let mut seen = false;
                    let mut k: usize = 0;
                    while k < pvals.len()
                        invariant
                            k <= pvals@.len(),
                            i < pv_cells@.len(),
                            cell_view(pv_cells@[i as int]) == self@[pvci as int].cells[i as int],
                            pv_cells@[i as int] matches Some(vv) && vv@ == v@,
                            seen == exists|t: int| 0 <= t < k
                                && (#[trigger] pvals@[t])@ == v@,
                        decreases pvals@.len() - k,
                    {
                        if pvals[k].eq_value(v) {
                            seen = true;
                        }
                        k = k + 1;
                    }
                    proof {
                        let dn = distinct_nonnull(
                            self@[pvci as int].cells.subrange(0, i as int),
                        );
                        assert(seen == dn.contains(v@)) by {
                            if seen {
                                let t = choose|t: int| 0 <= t < pvals@.len()
                                    && (#[trigger] pvals@[t])@ == v@;
                                assert(dn[t] == v@);
                            } else {
                                if dn.contains(v@) {
                                    let t = choose|t: int| 0 <= t < dn.len() && dn[t] == v@;
                                    assert((pvals@[t])@ == v@);
                                }
                            }
                        }
                    }
                    if !seen {
                        pvals.push(v.duplicate());
                        proof {
                            assert(pvals@.map_values(|d: Datum| d@)
                                =~= distinct_nonnull(
                                self@[pvci as int].cells.subrange(0, i + 1),
                            ));
                        }
                    } else {
                        proof {
                            assert(pvals@.map_values(|d: Datum| d@)
                                =~= distinct_nonnull(
                                self@[pvci as int].cells.subrange(0, i + 1),
                            ));
                        }
                    }
                },
                None => {
                    proof {
                        assert(pvals@.map_values(|d: Datum| d@)
                            =~= distinct_nonnull(
                            self@[pvci as int].cells.subrange(0, i + 1),
                        ));
                    }
                },
            }
            i = i + 1;
        }
        proof {
            assert(self@[pvci as int].cells.subrange(0, pv_cells@.len() as int)
                =~= self@[pvci as int].cells);
            assert(pvals@.map_values(|d: Datum| d@) == pvalsv);
        }

        // the key columns at the leaders
        let mut out: Vec<Column> = Vec::new();
        let mut k: usize = 0;
        while k < bysel.len()
            invariant
                self.wf(),
                byselv == bysel@.map_values(|u: usize| u as int),
                leads == lead_rows(self@, byselv, spec_height(self@)),
                leaders@.map_values(|u: usize| u as int) == leads,
                forall|g: int| 0 <= g < leaders@.len()
                    ==> (#[trigger] leaders@[g]) < spec_height(self@),
                forall|t: int| 0 <= t < bysel@.len() ==> #[trigger] bysel@[t] < self@.len(),
                k <= bysel@.len(),
                out@.len() == k,
                forall|t: int| 0 <= t < k ==> (#[trigger] out@[t]).wf(),
                forall|t: int| 0 <= t < k
                    ==> key_col_ok(self@, leads, self@[byselv[t]], (#[trigger] out@[t])@),
            decreases bysel@.len() - k,
        {
            let src = match self.select_at_idx(bysel[k]) {
                Some(c) => c,
                None => {
                    proof {
                        assert(false);
                    }
                    return Err(EngineError::NotFound);
                },
            };
            match src.take(&leaders) {
                Ok(c) => {
                    proof {
                        assert(key_col_ok(self@, leads, self@[byselv[k as int]], c@));
                    }
                    out.push(c);
                },
                Err(_) => {
                    proof {
                        assert(false);
                    }
                    return Err(EngineError::NotFound);
                },
            }
            k = k + 1;
        }

        // one column per distinct pivot value
        let mut pi: usize = 0;
        while pi < pvals.len()
            invariant
                self.wf(),
                values_col.wf(),
                values_col@ == self@[vci as int],
                pv_col.wf(),
                pv_col@ == self@[pvci as int],
                vci < self@.len(),
                pvci < self@.len(),
                agg_applicable(agg, self@[vci as int].dtype),
                spec_pivot_agg_of(agg_name@) == Some(agg),
                agg == GroupAgg::First || agg == GroupAgg::Min || agg == GroupAgg::Max
                    || agg == GroupAgg::Mean || agg == GroupAgg::Median
                    || agg == GroupAgg::Sum || agg == GroupAgg::Count,
                crate::order::sortable_dtype(self@[pvci as int].dtype),
                forall|t: int| 0 <= t < pvals@.len()
                    ==> crate::types::spec_value_fits(self@[pvci as int].dtype,
                        (#[trigger] pvals@[t])@),
                h == spec_height(self@),
                byselv == bysel@.map_values(|u: usize| u as int),
                forall|t: int| 0 <= t < bysel@.len() ==> #[trigger] bysel@[t] < self@.len(),
                leads == lead_rows(self@, byselv, spec_height(self@)),
                leaders@.map_values(|u: usize| u as int) == leads,
                forall|g: int| 0 <= g < leaders@.len()
                    ==> (#[trigger] leaders@[g]) < spec_height(self@),
                bymats@.len() == bysel@.len(),
                forall|t: int| 0 <= t < bysel@.len()
                    ==> (#[trigger] bymats@[t])@.len() == spec_height(self@),
                forall|t: int, j: int| 0 <= t < bysel@.len() && 0 <= j < spec_height(self@)
                    ==> cell_view(#[trigger] bymats@[t]@[j]) == self@[bysel@[t] as int].cells[j],
                pv_cells@.len() == spec_height(self@),
                self@[pvci as int].cells.len() == spec_height(self@),
                forall|j: int| 0 <= j < pv_cells@.len()
                    ==> cell_view(#[trigger] pv_cells@[j]) == self@[pvci as int].cells[j],
                pvals@.map_values(|d: Datum| d@) == pvalsv,
                pi <= pvals@.len(),
                out@.len() == bysel@.len() + pi,
                forall|t: int| 0 <= t < out@.len() ==> (#[trigger] out@[t]).wf(),
                forall|t: int| 0 <= t < bysel@.len()
                    ==> key_col_ok(self@, leads, self@[byselv[t]], (#[trigger] out@[t])@),
                forall|t: int| 0 <= t < pi
                    ==> pivot_col_ok(self@, byselv, pvci as int, vci as int, leads, pvalsv[t],
                        (#[trigger] out@[bysel@.len() + t])@, agg),
            decreases pvals@.len() - pi,
        {
            let ghost v = pvalsv[pi as int];
            let mut cells: Vec<Option<Datum>> = Vec::new();
            let mut g: usize = 0;
            while g < leaders.len()
                invariant
                    self.wf(),
                    values_col.wf(),
                    values_col@ == self@[vci as int],
                    vci < self@.len(),
                    pvci < self@.len(),
                    agg_applicable(agg, self@[vci as int].dtype),
                    spec_pivot_agg_of(agg_name@) == Some(agg),
                    agg == GroupAgg::First || agg == GroupAgg::Min || agg == GroupAgg::Max
                        || agg == GroupAgg::Mean || agg == GroupAgg::Median
                        || agg == GroupAgg::Sum || agg == GroupAgg::Count,
                    h == spec_height(self@),
                    byselv == bysel@.map_values(|u: usize| u as int),
                    forall|t: int| 0 <= t < bysel@.len() ==> #[trigger] bysel@[t] < self@.len(),
                    leads == lead_rows(self@, byselv, spec_height(self@)),
                    leaders@.map_values(|u: usize| u as int) == leads,
                    forall|g2: int| 0 <= g2 < leaders@.len()
                        ==> (#[trigger] leaders@[g2]) < spec_height(self@),
                    bymats@.len() == bysel@.len(),
                    forall|t: int| 0 <= t < bysel@.len()
                        ==> (#[trigger] bymats@[t])@.len() == spec_height(self@),
                    forall|t: int, j: int| 0 <= t < bysel@.len() && 0 <= j < spec_height(self@)
                        ==> cell_view(#[trigger] bymats@[t]@[j])
                            == self@[bysel@[t] as int].cells[j],
                    pv_cells@.len() == spec_height(self@),
                    self@[pvci as int].cells.len() == spec_height(self@),
                    forall|j: int| 0 <= j < pv_cells@.len()
                        ==> cell_view(#[trigger] pv_cells@[j]) == self@[pvci as int].cells[j],
                    pi < pvals@.len(),
                    (pvals@[pi as int])@ == v,
                    g <= leaders@.len(),
                    cells@.len() == g,
                    forall|g2: int| 0 <= g2 < g
                        ==> ({
                            let mrw = member_rows_with(self@, byselv, leads[g2], pvci as int, v,
                                spec_height(self@));
                            if mrw.len() == 0 {
                                cell_view(#[trigger] cells@[g2]) is None
                            } else {
                                agg_cell_ok(agg, cells_at(self@[vci as int].cells, mrw), mrw,
                                    cell_view(cells@[g2]), self@[vci as int].dtype)
                            }
                        }),
                    forall|g2: int| 0 <= g2 < cells@.len()
                        ==> spec_cell_fits(agg_dtype(agg, self@[vci as int].dtype),
                            cell_view(#[trigger] cells@[g2])),
                decreases leaders@.len() - g,
            {
                // the rows of this group carrying this pivot value
                let mut rows: Vec<usize> = Vec::new();
                let mut r: usize = 0;
                proof {
                    assert(member_rows_with(self@, byselv, leads[g as int], pvci as int, v, 0)
                        =~= Seq::<int>::empty());
                }
                while r < h
                    invariant
                        self.wf(),
                        h == spec_height(self@),
                        byselv == bysel@.map_values(|u: usize| u as int),
                        forall|t: int| 0 <= t < bysel@.len()
                            ==> #[trigger] bysel@[t] < self@.len(),
                        bymats@.len() == bysel@.len(),
                        forall|t: int| 0 <= t < bysel@.len()
                            ==> (#[trigger] bymats@[t])@.len() == spec_height(self@),
                        forall|t: int, j: int| 0 <= t < bysel@.len()
                            && 0 <= j < spec_height(self@)
                            ==> cell_view(#[trigger] bymats@[t]@[j])
                                == self@[bysel@[t] as int].cells[j],
                        pv_cells@.len() == spec_height(self@),
                        self@[pvci as int].cells.len() == spec_height(self@),
                        forall|j: int| 0 <= j < pv_cells@.len()
                            ==> cell_view(#[trigger] pv_cells@[j])
                                == self@[pvci as int].cells[j],
                        pi < pvals@.len(),
                        (pvals@[pi as int])@ == v,
                        g < leaders@.len(),
                        leaders@[g as int] < spec_height(self@),
                        leaders@.map_values(|u: usize| u as int) == leads,
                        r <= h,
                        rows@.map_values(|u: usize| u as int)
                            == member_rows_with(self@, byselv, leads[g as int], pvci as int, v,
                                r as int),
                        forall|t: int| 0 <= t < rows@.len()
                            ==> (#[trigger] rows@[t]) < spec_height(self@),
                    decreases h - r,
                {
                    let key_hit = self.rows_key_equal(&bymats, &bysel, r, leaders[g]);
                    let pv_hit = match &pv_cells[r] {
                        Some(x) => x.eq_value(&pvals[pi]),
                        None => false,
                    };
                    proof {
                        assert(key_hit == (row_key(self@, byselv, r as int)
                            == row_key(self@, byselv, leads[g as int])));
                        assert(pv_hit == (self@[pvci as int].cells[r as int] == Some(v)));
                    }
                    if key_hit && pv_hit {
                        rows.push(r);
                        proof {
                            assert(rows@.map_values(|u: usize| u as int)
                                =~= member_rows_with(self@, byselv, leads[g as int],
                                    pvci as int, v, r + 1));
                        }
                    } else {
                        proof {
                            assert(member_rows_with(self@, byselv, leads[g as int],
                                pvci as int, v, r + 1)
                                == member_rows_with(self@, byselv, leads[g as int],
                                    pvci as int, v, r as int));
                        }
                    }
                    r = r + 1;
                }
                if rows.len() == 0 {
                    cells.push(None);
                } else {
                    let sub = match values_col.take(&rows) {
                        Ok(c) => c,
                        Err(_) => {
                            proof {
                                assert(false);
                            }
                            return Err(EngineError::NotFound);
                        },
                    };
                    proof {
                        assert(sub@.cells =~= cells_at(
                            self@[vci as int].cells,
                            member_rows_with(self@, byselv, leads[g as int], pvci as int, v,
                                spec_height(self@)),
                        ));
                    }
                    match apply_agg(agg, &sub, &rows) {
                        Ok(c) => {
                            cells.push(c);
                        },
                        Err(e) => {
                            proof {
                                if e == EngineError::TypeMismatch {
                                    assert(false);
                                }
                            }
                            return Err(e);
                        },
                    }
                }
                g = g + 1;
            }
            let name: String = match &pvals[pi] {
                Datum::Sc(sc) => {
                    match crate::arith::cast_scalar_exec(TypeTag::Utf8, sc) {
                        Some(Scalar::Str(txt)) => txt,
                        _ => {
                            proof {
                                assert(false);
                            }
                            return Err(EngineError::TypeMismatch);
                        },
                    }
                },
                Datum::Items(_) => {
                    proof {
                        assert(false);
                    }
                    return Err(EngineError::TypeMismatch);
                },
            };
            proof {
                assert(name@ == pivot_value_text(v));
            }
            let dt = agg_dtype_exec(agg, values_col.dtype());
            match Column::new(name, dt, cells) {
                Ok(c) => {
                    proof {
                        assert(pivot_col_ok(self@, byselv, pvci as int, vci as int, leads, v,
                            c@, agg));
                    }
                    out.push(c);
                },
                Err(_) => {
                    proof {
                        assert(false);
                    }
                    return Err(EngineError::TypeMismatch);
                },
            }
            pi = pi + 1;
        }
        let ghost colsv = out@.map_values(|c2: Column| c2@);
        proof {
            assert forall|j: int| 0 <= j < colsv.len()
                implies (#[trigger] colsv[j].cells.len())
                    == crate::table::spec_height(colsv) by {
                if colsv.len() > 0 {
                    if 0 < byselv.len() {
                        assert(key_col_ok(self@, leads, self@[byselv[0]], colsv[0]));
                    } else {
                        assert(pivot_col_ok(self@, byselv, pvci as int, vci as int, leads,
                            pvalsv[0], colsv[byselv.len() as int + 0], agg));
                    }
                }
                if j < byselv.len() {
                    assert(key_col_ok(self@, leads, self@[byselv[j]], colsv[j]));
                } else {
                    let t = j - byselv.len();
                    assert(pivot_col_ok(self@, byselv, pvci as int, vci as int, leads,
                        pvalsv[t], colsv[byselv.len() as int + t], agg));
                }
            }
            assert(crate::table::heights_equal(colsv));
            assert forall|j: int| 0 <= j < colsv.len()
                implies (#[trigger] colsv[j].name)
                    == pivot_names(self@, byselv, pvci as int)[j] by {
                if j < byselv.len() {
                    assert(key_col_ok(self@, leads, self@[byselv[j]], colsv[j]));
                } else {
                    let t = j - byselv.len();
                    assert(pivot_col_ok(self@, byselv, pvci as int, vci as int, leads,
                        pvalsv[t], colsv[byselv.len() as int + t], agg));
                }
            }
        }
        match Table::new(out) {
            Ok(t) => {
                proof {
                    assert(crate::table::sel_positions(self@, names_views(by@), byselv));
                    assert(pivot_output_ok(self@, t@, byselv, pvci as int, vci as int, agg));
                }
                Ok(t)
            },
            Err(e) => {
                proof {
                    assert(crate::table::sel_positions(self@, names_views(by@), byselv));
                    assert(e == EngineError::InvalidArgument
                        && !crate::table::names_unique(colsv));
                    let pn = pivot_names(self@, byselv, pvci as int);
                    let (p, q) = choose|p: int, q: int| 0 <= p < q < colsv.len()
                        && (#[trigger] colsv[p].name) == (#[trigger] colsv[q].name);
                    assert(pn[p] == pn[q]);
                    assert(!crate::table::texts_unique(pn));
                }
                Err(EngineError::InvalidArgument)
            },
        }
    }
}

} // verus!
