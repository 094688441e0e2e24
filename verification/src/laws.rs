use vstd::prelude::*;
use crate::types::{TypeTag, DatumV, ScalarV, spec_cell_fits, spec_scalar_fits};
use crate::column::{ColumnV, mask_keep};
use crate::table::{row_key, key_first_occurrence, dedup_mask, heights_equal};
use crate::arith::{cast_scalar, mk_same_kind, num_val, range_within, numeric_dtype, is_num};
use crate::join::{JoinKind, join_pairs, left_pairs, matches_of, joined_col_ok};
use crate::group::{lead_rows, member_rows};
use crate::table::spec_height;

verus! {

/// Filtering with an all-true mask keeps every cell: the filtered column
/// is value-equal to the original.
pub proof fn lemma_filter_all_true(cells: Seq<Option<DatumV>>, mask: Seq<Option<DatumV>>)
    requires
        mask.len() == cells.len(),
        forall|i: int| 0 <= i < mask.len()
            ==> #[trigger] mask[i] == Some(DatumV::Sc(ScalarV::Bool(true))),
    ensures
        mask_keep(cells, mask) == cells,
    decreases cells.len(),
{
    if cells.len() > 0 {
        lemma_filter_all_true(cells.drop_last(), mask.drop_last());
        assert(mask[cells.len() - 1] == Some(DatumV::Sc(ScalarV::Bool(true))));
        assert(mask_keep(cells, mask) =~= cells);
    } else {
        assert(mask_keep(cells, mask) =~= cells);
    }
}

/// Casting to a type whose range covers the source's and back is the
/// identity on every cell: with `b` the cast of `a` to `t` and `c` the
/// cast of `b` back to `a`'s type, `c` holds exactly `a`'s cells.
pub proof fn lemma_cast_round_trip(a: ColumnV, b: ColumnV, c: ColumnV, t: TypeTag)
    requires
        numeric_dtype(a.dtype),
        numeric_dtype(t),
        t != a.dtype,
        range_within(a.dtype, t),
        forall|i: int| 0 <= i < a.cells.len()
            ==> spec_cell_fits(a.dtype, #[trigger] a.cells[i]),
        // the forward cast, as `Column::cast` ensures it
        b.dtype == t,
        b.cells.len() == a.cells.len(),
        forall|i: int| 0 <= i < a.cells.len()
            ==> #[trigger] b.cells[i] == match a.cells[i] {
                Some(DatumV::Sc(s)) => match cast_scalar(t, s) {
                    Some(s2) => Some(DatumV::Sc(s2)),
                    None => None,
                },
                _ => None,
            },
        // the backward cast
        c.dtype == a.dtype,
        c.cells.len() == b.cells.len(),
        forall|i: int| 0 <= i < b.cells.len()
            ==> #[trigger] c.cells[i] == match b.cells[i] {
                Some(DatumV::Sc(s)) => match cast_scalar(a.dtype, s) {
                    Some(s2) => Some(DatumV::Sc(s2)),
                    None => None,
                },
                _ => None,
            },
    ensures
        c.cells == a.cells,
        // the forward cast loses nothing along the way
        forall|i: int| 0 <= i < a.cells.len()
            ==> ((#[trigger] a.cells[i]) matches Some(DatumV::Sc(s))
                ==> cast_scalar(t, s) is Some),
{
    assert forall|i: int| 0 <= i < a.cells.len()
        implies #[trigger] c.cells[i] == a.cells[i] by {
        match a.cells[i] {
            Some(DatumV::Sc(s)) => {
                assert(spec_scalar_fits(a.dtype, s));
                assert(is_num(s));
                let x = num_val(s);
                assert(spec_scalar_fits(t, mk_same_kind(t, x)));
                assert(cast_scalar(t, s) == Some(mk_same_kind(t, x)));
                let s2 = mk_same_kind(t, x);
                assert(num_val(s2) == x);
                assert(mk_same_kind(a.dtype, x) == s);
                assert(cast_scalar(a.dtype, s2) == Some(s));
            },
            _ => {},
        }
    }
    assert(c.cells =~= a.cells);
    assert forall|i: int| 0 <= i < a.cells.len()
        implies ((#[trigger] a.cells[i]) matches Some(DatumV::Sc(s))
            ==> cast_scalar(t, s) is Some) by {
        match a.cells[i] {
            Some(DatumV::Sc(s)) => {
                assert(spec_scalar_fits(a.dtype, s));
                assert(spec_scalar_fits(t, mk_same_kind(t, num_val(s))));
            },
            _ => {},
        }
    }
}

/// The common widening pairs lose nothing: every narrower signed width
/// fits in a wider one, and every narrower unsigned width in a wider
/// unsigned or in a wide-enough signed one.
pub proof fn lemma_widening_ranges()
    ensures
        range_within(TypeTag::Int8, TypeTag::Int16),
        range_within(TypeTag::Int8, TypeTag::Int32),
        range_within(TypeTag::Int8, TypeTag::Int64),
        range_within(TypeTag::Int16, TypeTag::Int32),
        range_within(TypeTag::Int16, TypeTag::Int64),
        range_within(TypeTag::Int32, TypeTag::Int64),
        range_within(TypeTag::UInt8, TypeTag::UInt16),
        range_within(TypeTag::UInt8, TypeTag::UInt32),
        range_within(TypeTag::UInt8, TypeTag::UInt64),
        range_within(TypeTag::UInt16, TypeTag::UInt32),
        range_within(TypeTag::UInt16, TypeTag::UInt64),
        range_within(TypeTag::UInt32, TypeTag::UInt64),
        range_within(TypeTag::UInt8, TypeTag::Int16),
        range_within(TypeTag::UInt16, TypeTag::Int32),
        range_within(TypeTag::UInt32, TypeTag::Int64),
        range_within(TypeTag::Date32, TypeTag::Int64),
        range_within(TypeTag::Int32, TypeTag::Date32),
        range_within(TypeTag::Date32, TypeTag::Int32),
{
}

/// How many (left, right) row pairs carry matching keys below the given
/// left bound.
pub open spec fn match_pair_count(
    lv: Seq<ColumnV>,
    lsel: Seq<int>,
    rv: Seq<ColumnV>,
    rsel: Seq<int>,
    upto: int,
) -> int
    decreases upto,
{
    if upto <= 0 {
        0
    } else {
        match_pair_count(lv, lsel, rv, rsel, upto - 1)
            + matches_of(lv, lsel, rv, rsel, upto - 1, spec_height(rv)).len()
    }
}

/// An inner join has exactly one output row per matching key pair.
pub proof fn lemma_inner_join_count(
    lv: Seq<ColumnV>,
    lsel: Seq<int>,
    rv: Seq<ColumnV>,
    rsel: Seq<int>,
)
    ensures
        join_pairs(JoinKind::Inner, lv, lsel, rv, rsel).len()
            == match_pair_count(lv, lsel, rv, rsel, spec_height(lv)),
{
    lemma_left_pairs_len(lv, lsel, rv, rsel, spec_height(lv));
}

proof fn lemma_left_pairs_len(
    lv: Seq<ColumnV>,
    lsel: Seq<int>,
    rv: Seq<ColumnV>,
    rsel: Seq<int>,
    upto: int,
)
    ensures
        left_pairs(JoinKind::Inner, lv, lsel, rv, rsel, upto).len()
            == match_pair_count(lv, lsel, rv, rsel, upto),
        left_pairs(JoinKind::Left, lv, lsel, rv, rsel, upto).len() >= upto,
        left_pairs(JoinKind::Outer, lv, lsel, rv, rsel, upto).len() >= upto,
    decreases upto,
{
    if upto > 0 {
        lemma_left_pairs_len(lv, lsel, rv, rsel, upto - 1);
    }
}

/// A left or outer join keeps at least one output row per left row, and an
/// unmatched left row's pair carries the missing-right marker, so its right
/// cells come out null.
pub proof fn lemma_left_join_at_least(
    lv: Seq<ColumnV>,
    lsel: Seq<int>,
    rv: Seq<ColumnV>,
    rsel: Seq<int>,
)
    ensures
        join_pairs(JoinKind::Left, lv, lsel, rv, rsel).len() >= spec_height(lv),
        join_pairs(JoinKind::Outer, lv, lsel, rv, rsel).len() >= spec_height(lv),
        forall|p: int| 0 <= p < join_pairs(JoinKind::Left, lv, lsel, rv, rsel).len()
            ==> ({
                let pr = #[trigger] join_pairs(JoinKind::Left, lv, lsel, rv, rsel)[p];
                pr.1 < 0 ==> forall|src: ColumnV, out: ColumnV|
                    joined_col_ok(src, out, join_pairs(JoinKind::Left, lv, lsel, rv, rsel), false)
                        ==> out.cells[p] is None
            }),
{
    lemma_left_pairs_len(lv, lsel, rv, rsel, spec_height(lv));
}


/// The positions a mask keeps, ascending.
pub open spec fn kept_indices(mask: Seq<Option<DatumV>>) -> Seq<int>
    decreases mask.len(),
{
    if mask.len() == 0 {
        Seq::empty()
    } else {
        let rest = kept_indices(mask.drop_last());
        if mask.last() == Some(DatumV::Sc(ScalarV::Bool(true))) {
            rest.push(mask.len() - 1)
        } else {
            rest
        }
    }
}

/// A filtered column holds exactly the cells at the kept positions, in
/// order.
pub proof fn lemma_mask_keep_indices(cells: Seq<Option<DatumV>>, mask: Seq<Option<DatumV>>)
    requires
        cells.len() == mask.len(),
    ensures
        mask_keep(cells, mask).len() == kept_indices(mask).len(),
        forall|g: int| 0 <= g < kept_indices(mask).len()
            ==> 0 <= #[trigger] kept_indices(mask)[g] < mask.len()
                && mask_keep(cells, mask)[g] == cells[kept_indices(mask)[g]],
        forall|g1: int, g2: int| 0 <= g1 < g2 < kept_indices(mask).len()
            ==> #[trigger] kept_indices(mask)[g1] < #[trigger] kept_indices(mask)[g2],
    decreases cells.len(),
{
    if cells.len() > 0 {
        lemma_mask_keep_indices(cells.drop_last(), mask.drop_last());
        let mk = mask_keep(cells, mask);
        let ki = kept_indices(mask);
        let mk0 = mask_keep(cells.drop_last(), mask.drop_last());
        let ki0 = kept_indices(mask.drop_last());
        if mask.last() == Some(DatumV::Sc(ScalarV::Bool(true))) {
            assert(mk == mk0.push(cells.last()));
            assert(ki == ki0.push(cells.len() - 1));
            assert forall|g: int| 0 <= g < ki.len()
                implies 0 <= #[trigger] ki[g] < mask.len()
                    && mk[g] == cells[ki[g]] by {
                if g < ki0.len() {
                    assert(ki[g] == ki0[g]);
                    assert(mk[g] == mk0[g]);
                    assert(cells.drop_last()[ki0[g]] == cells[ki0[g]]);
                } else {
                    assert(ki[g] == cells.len() - 1);
                }
            }
        } else {
            assert(mk == mk0);
            assert(ki == ki0);
            assert forall|g: int| 0 <= g < ki.len()
                implies 0 <= #[trigger] ki[g] < mask.len()
                    && mk[g] == cells[ki[g]] by {
                assert(cells.drop_last()[ki0[g]] == cells[ki0[g]]);
            }
        }
    }
}

/// The kept positions of a first-occurrence mask are first-occurrence rows.
pub proof fn lemma_dedup_mask_kept_first(cols: Seq<ColumnV>, sel: Seq<int>, g: int)
    requires
        0 <= g < kept_indices(dedup_mask(cols, sel)).len(),
        kept_indices(dedup_mask(cols, sel))[g] < spec_height(cols),
    ensures
        key_first_occurrence(cols, sel, kept_indices(dedup_mask(cols, sel))[g]),
{
    let m = dedup_mask(cols, sel);
    let r = kept_indices(m)[g];
    lemma_kept_index_true(m, g);
    assert(m[r] == Some(DatumV::Sc(ScalarV::Bool(key_first_occurrence(cols, sel, r)))));
}

/// Every kept position carries a true mask cell.
proof fn lemma_kept_index_true(mask: Seq<Option<DatumV>>, g: int)
    requires
        0 <= g < kept_indices(mask).len(),
    ensures
        0 <= kept_indices(mask)[g] < mask.len(),
        mask[kept_indices(mask)[g]] == Some(DatumV::Sc(ScalarV::Bool(true))),
    decreases mask.len(),
{
    if mask.len() > 0 {
        let ki0 = kept_indices(mask.drop_last());
        if mask.last() == Some(DatumV::Sc(ScalarV::Bool(true))) {
            if g < ki0.len() {
                lemma_kept_index_true(mask.drop_last(), g);
                assert(mask.drop_last()[ki0[g]] == mask[ki0[g]]);
            }
        } else {
            lemma_kept_index_true(mask.drop_last(), g);
            assert(mask.drop_last()[ki0[g]] == mask[ki0[g]]);
        }
    }
}

/// Removing duplicate rows twice is the same as removing them once: every
/// row of the deduplicated table carries its key for the first time, so
/// the second pass keeps everything.
pub proof fn lemma_drop_duplicates_idempotent(
    cols: Seq<ColumnV>,
    cols2: Seq<ColumnV>,
    sel: Seq<int>,
)
    requires
        heights_equal(cols),
        cols.len() > 0,
        forall|k: int| 0 <= k < sel.len() ==> 0 <= #[trigger] sel[k] < cols.len(),
        cols2.len() == cols.len(),
        forall|i: int| 0 <= i < cols.len()
            ==> #[trigger] cols2[i] == (ColumnV {
                cells: mask_keep(cols[i].cells, dedup_mask(cols, sel)),
                ..cols[i]
            }),
    ensures
        forall|i: int| 0 <= i < cols2.len()
            ==> mask_keep((#[trigger] cols2[i]).cells, dedup_mask(cols2, sel))
                == cols2[i].cells,
{
    let m = dedup_mask(cols, sel);
    let ki = kept_indices(m);
    let h = spec_height(cols);
    assert(m.len() == h);
    assert forall|i: int| 0 <= i < cols.len()
        implies (#[trigger] cols2[i]).cells.len() == ki.len() by {
        lemma_mask_keep_indices(cols[i].cells, m);
    }
    assert(spec_height(cols2) == ki.len());
    // every row of the deduplicated table is a first occurrence there
    assert forall|g: int| 0 <= g < spec_height(cols2)
        implies key_first_occurrence(cols2, sel, g) by {
        assert forall|p: int| 0 <= p < g
            implies row_key(cols2, sel, p) != row_key(cols2, sel, g) by {
            lemma_mask_keep_indices(cols[0].cells, m);
            assert(ki[p] < ki[g] < h);
            lemma_dedup_mask_kept_first(cols, sel, g);
            // the keys carry over from the source rows
            assert(row_key(cols2, sel, p) =~= row_key(cols, sel, ki[p])) by {
                assert forall|k: int| 0 <= k < sel.len()
                    implies row_key(cols2, sel, p)[k]
                        == row_key(cols, sel, ki[p])[k] by {
                    lemma_mask_keep_indices(cols[sel[k]].cells, m);
                }
            }
            assert(row_key(cols2, sel, g) =~= row_key(cols, sel, ki[g])) by {
                assert forall|k: int| 0 <= k < sel.len()
                    implies row_key(cols2, sel, g)[k]
                        == row_key(cols, sel, ki[g])[k] by {
                    lemma_mask_keep_indices(cols[sel[k]].cells, m);
                }
            }
            assert(key_first_occurrence(cols, sel, ki[g]));
            assert(row_key(cols, sel, ki[p]) != row_key(cols, sel, ki[g]));
        }
    }
    // so the second pass's mask holds true everywhere, keeping every cell
    assert forall|i: int| 0 <= i < cols2.len()
        implies mask_keep((#[trigger] cols2[i]).cells, dedup_mask(cols2, sel))
            == cols2[i].cells by {
        let m2 = dedup_mask(cols2, sel);
        assert forall|r: int| 0 <= r < m2.len()
            implies #[trigger] m2[r] == Some(DatumV::Sc(ScalarV::Bool(true))) by {
            assert(key_first_occurrence(cols2, sel, r));
        }
        lemma_filter_all_true(cols2[i].cells, m2);
    }
}


/// The sizes of the groups led by `leads`, counting rows below `upto`,
/// summed.
pub open spec fn group_sizes_sum(
    cols: Seq<ColumnV>,
    sel: Seq<int>,
    leads: Seq<int>,
    upto: int,
) -> int
    decreases leads.len(),
{
    if leads.len() == 0 {
        0
    } else {
        group_sizes_sum(cols, sel, leads.drop_last(), upto)
            + member_rows(cols, sel, leads.last(), upto).len()
    }
}

/// Group leaders are earlier rows.
proof fn lemma_lead_rows_range(cols: Seq<ColumnV>, sel: Seq<int>, upto: int)
    ensures
        forall|k: int| 0 <= k < lead_rows(cols, sel, upto).len()
            ==> 0 <= #[trigger] lead_rows(cols, sel, upto)[k] < upto,
    decreases upto,
{
    if upto > 0 {
        lemma_lead_rows_range(cols, sel, upto - 1);
        let l = lead_rows(cols, sel, upto);
        let l0 = lead_rows(cols, sel, upto - 1);
        assert forall|k: int| 0 <= k < l.len() implies 0 <= #[trigger] l[k] < upto by {
            if key_first_occurrence(cols, sel, upto - 1) {
                assert(l == l0.push(upto - 1));
                if k < l0.len() {
                    assert(l[k] == l0[k]);
                }
            } else {
                assert(l == l0);
            }
        }
    }
}

/// Every row below the bound carries the key of some leader.
proof fn lemma_lead_cover(cols: Seq<ColumnV>, sel: Seq<int>, upto: int)
    ensures
        forall|p: int| #![trigger row_key(cols, sel, p)] 0 <= p < upto
            ==> exists|k: int| 0 <= k < lead_rows(cols, sel, upto).len()
                && row_key(cols, sel, #[trigger] lead_rows(cols, sel, upto)[k])
                    == row_key(cols, sel, p),
    decreases upto,
{
    if upto > 0 {
        lemma_lead_cover(cols, sel, upto - 1);
        let l = lead_rows(cols, sel, upto);
        let l0 = lead_rows(cols, sel, upto - 1);
        assert forall|p: int| #![trigger row_key(cols, sel, p)] 0 <= p < upto
            implies exists|k: int| 0 <= k < l.len()
                && row_key(cols, sel, #[trigger] l[k]) == row_key(cols, sel, p) by {
            if p < upto - 1 {
                let k = choose|k: int| 0 <= k < l0.len()
                    && row_key(cols, sel, #[trigger] l0[k]) == row_key(cols, sel, p);
                if key_first_occurrence(cols, sel, upto - 1) {
                    assert(l == l0.push(upto - 1));
                    assert(l[k] == l0[k]);
                } else {
                    assert(l == l0);
                }
                assert(row_key(cols, sel, l[k]) == row_key(cols, sel, p));
            } else {
                if key_first_occurrence(cols, sel, upto - 1) {
                    assert(l == l0.push(upto - 1));
                    assert(l[l.len() - 1] == upto - 1);
                } else {
                    let q = choose|q: int| 0 <= q < upto - 1
                        && #[trigger] row_key(cols, sel, q) == row_key(cols, sel, upto - 1);
                    let k = choose|k: int| 0 <= k < l0.len()
                        && row_key(cols, sel, #[trigger] l0[k]) == row_key(cols, sel, q);
                    assert(l == l0);
                    assert(row_key(cols, sel, l[k]) == row_key(cols, sel, p));
                }
            }
        }
    }
}

/// Leaders carry pairwise different keys.
proof fn lemma_lead_distinct(cols: Seq<ColumnV>, sel: Seq<int>, upto: int)
    ensures
        forall|k1: int, k2: int| 0 <= k1 < k2 < lead_rows(cols, sel, upto).len()
            ==> row_key(cols, sel, #[trigger] lead_rows(cols, sel, upto)[k1])
                != row_key(cols, sel, #[trigger] lead_rows(cols, sel, upto)[k2]),
    decreases upto,
{
    if upto > 0 {
        lemma_lead_distinct(cols, sel, upto - 1);
        lemma_lead_rows_range(cols, sel, upto - 1);
        let l = lead_rows(cols, sel, upto);
        let l0 = lead_rows(cols, sel, upto - 1);
        assert forall|k1: int, k2: int| 0 <= k1 < k2 < l.len()
            implies row_key(cols, sel, #[trigger] l[k1])
                != row_key(cols, sel, #[trigger] l[k2]) by {
            if key_first_occurrence(cols, sel, upto - 1) {
                assert(l == l0.push(upto - 1));
                if k2 < l0.len() {
                    assert(l[k1] == l0[k1] && l[k2] == l0[k2]);
                } else {
                    assert(l[k2] == upto - 1);
                    assert(l[k1] == l0[k1]);
                    assert(0 <= l0[k1] < upto - 1);
                }
            } else {
                assert(l == l0);
            }
        }
    }
}

/// When no listed leader carries the new row's key, the group sizes are
/// unchanged by the new row.
proof fn lemma_sizes_unchanged(cols: Seq<ColumnV>, sel: Seq<int>, leads: Seq<int>, u: int)
    requires
        0 <= u,
        forall|k: int| 0 <= k < leads.len()
            ==> row_key(cols, sel, #[trigger] leads[k]) != row_key(cols, sel, u),
    ensures
        group_sizes_sum(cols, sel, leads, u + 1) == group_sizes_sum(cols, sel, leads, u),
    decreases leads.len(),
{
    if leads.len() > 0 {
        assert(forall|k: int| 0 <= k < leads.drop_last().len()
            ==> row_key(cols, sel, #[trigger] leads.drop_last()[k])
                != row_key(cols, sel, u));
        lemma_sizes_unchanged(cols, sel, leads.drop_last(), u);
        assert(row_key(cols, sel, leads.last()) != row_key(cols, sel, u));
        assert(member_rows(cols, sel, leads.last(), u + 1)
            == member_rows(cols, sel, leads.last(), u));
    }
}

/// When exactly one listed leader carries the new row's key, the summed
/// group sizes grow by one.
proof fn lemma_sizes_one_more(cols: Seq<ColumnV>, sel: Seq<int>, leads: Seq<int>, u: int)
    requires
        0 <= u,
        forall|k1: int, k2: int| 0 <= k1 < k2 < leads.len()
            ==> row_key(cols, sel, #[trigger] leads[k1])
                != row_key(cols, sel, #[trigger] leads[k2]),
        exists|k: int| 0 <= k < leads.len()
            && row_key(cols, sel, #[trigger] leads[k]) == row_key(cols, sel, u),
    ensures
        group_sizes_sum(cols, sel, leads, u + 1) == group_sizes_sum(cols, sel, leads, u) + 1,
    decreases leads.len(),
{
    let k = choose|k: int| 0 <= k < leads.len()
        && row_key(cols, sel, #[trigger] leads[k]) == row_key(cols, sel, u);
    if k == leads.len() - 1 {
        assert(leads.last() == leads[k]);
        assert(row_key(cols, sel, u) == row_key(cols, sel, leads.last()));
        assert(member_rows(cols, sel, leads.last(), u + 1)
            == member_rows(cols, sel, leads.last(), u).push(u));
        assert forall|k2: int| 0 <= k2 < leads.drop_last().len()
            implies row_key(cols, sel, #[trigger] leads.drop_last()[k2])
                != row_key(cols, sel, u) by {
            assert(leads.drop_last()[k2] == leads[k2]);
            assert(row_key(cols, sel, leads[k2]) != row_key(cols, sel, leads[k]));
        }
        lemma_sizes_unchanged(cols, sel, leads.drop_last(), u);
    } else {
        assert(row_key(cols, sel, leads.last()) != row_key(cols, sel, leads[k]));
        assert(member_rows(cols, sel, leads.last(), u + 1)
            == member_rows(cols, sel, leads.last(), u));
        assert(leads.drop_last()[k] == leads[k]);
        assert(forall|k1: int, k2: int| 0 <= k1 < k2 < leads.drop_last().len()
            ==> row_key(cols, sel, #[trigger] leads.drop_last()[k1])
                != row_key(cols, sel, #[trigger] leads.drop_last()[k2]));
        lemma_sizes_one_more(cols, sel, leads.drop_last(), u);
    }
}

/// The groups partition the rows: the group sizes sum to the row count.
#[verifier::rlimit(60)]
pub proof fn lemma_groups_partition(cols: Seq<ColumnV>, sel: Seq<int>, upto: int)
    requires
        0 <= upto,
    ensures
        group_sizes_sum(cols, sel, lead_rows(cols, sel, upto), upto) == upto,
    decreases upto,
{
    if upto > 0 {
        lemma_groups_partition(cols, sel, upto - 1);
        lemma_lead_rows_range(cols, sel, upto - 1);
        lemma_lead_distinct(cols, sel, upto - 1);
        lemma_lead_cover(cols, sel, upto - 1);
        let l0 = lead_rows(cols, sel, upto - 1);
        let u = upto - 1;
        if key_first_occurrence(cols, sel, u) {
            let l = l0.push(u);
            assert(lead_rows(cols, sel, upto) == l);
            // old groups do not change: their leaders' keys all differ from
            // the new first-occurrence key
            assert forall|k: int| 0 <= k < l0.len()
                implies row_key(cols, sel, #[trigger] l0[k]) != row_key(cols, sel, u) by {
                assert(0 <= l0[k] < u);
            }
            lemma_sizes_unchanged(cols, sel, l0, u);
            // the new group holds exactly its leader
            crate::group::lemma_member_rows_of_first_pub(cols, sel, u, u);
            assert(member_rows(cols, sel, u, u + 1)
                == member_rows(cols, sel, u, u).push(u));
            assert(l.drop_last() =~= l0);
            assert(group_sizes_sum(cols, sel, l, upto)
                == group_sizes_sum(cols, sel, l0, upto) + 1);
        } else {
            assert(lead_rows(cols, sel, upto) == l0);
            // the repeated key belongs to exactly one existing leader
            let p = choose|p: int| 0 <= p < u
                && #[trigger] row_key(cols, sel, p) == row_key(cols, sel, u);
            let k = choose|k: int| 0 <= k < l0.len()
                && row_key(cols, sel, #[trigger] l0[k]) == row_key(cols, sel, p);
            assert(row_key(cols, sel, l0[k]) == row_key(cols, sel, u));
            lemma_sizes_one_more(cols, sel, l0, u);
        }
    }
}

/// A grouped count column's cells sum to the source's height: with every
/// cell the size of its group (`agg_cell_ok` for the count reducer), the
/// group sizes partition the rows.
pub proof fn lemma_count_column_total(
    sv: Seq<ColumnV>,
    sel: Seq<int>,
    cells: Seq<Option<DatumV>>,
)
    requires
        cells.len() == lead_rows(sv, sel, spec_height(sv)).len(),
        forall|g: int| 0 <= g < cells.len()
            ==> #[trigger] cells[g] == Some(DatumV::Sc(ScalarV::UInt(
                member_rows(sv, sel, lead_rows(sv, sel, spec_height(sv))[g],
                    spec_height(sv)).len() as int,
            ))),
    ensures
        crate::column::sum_of(cells) == spec_height(sv),
{
    lemma_groups_partition(sv, sel, spec_height(sv));
    lemma_count_cells_sum(sv, sel, cells, lead_rows(sv, sel, spec_height(sv)));
}

/// Cells that each hold their group's size sum like the group sizes.
proof fn lemma_count_cells_sum(
    sv: Seq<ColumnV>,
    sel: Seq<int>,
    cells: Seq<Option<DatumV>>,
    leads: Seq<int>,
)
    requires
        cells.len() == leads.len(),
        forall|g: int| 0 <= g < cells.len()
            ==> #[trigger] cells[g] == Some(DatumV::Sc(ScalarV::UInt(
                member_rows(sv, sel, leads[g], spec_height(sv)).len() as int,
            ))),
    ensures
        crate::column::sum_of(cells)
            == group_sizes_sum(sv, sel, leads, spec_height(sv)),
    decreases cells.len(),
{
    if cells.len() > 0 {
        assert(forall|g: int| 0 <= g < cells.drop_last().len()
            ==> #[trigger] cells.drop_last()[g] == Some(DatumV::Sc(ScalarV::UInt(
                member_rows(sv, sel, leads.drop_last()[g], spec_height(sv)).len() as int,
            ))));
        lemma_count_cells_sum(sv, sel, cells.drop_last(), leads.drop_last());
        assert(cells.last() == Some(DatumV::Sc(ScalarV::UInt(
            member_rows(sv, sel, leads.last(), spec_height(sv)).len() as int,
        ))));
    }
}

} // verus!
