use vstd::prelude::*;
use crate::types::{TypeTag, Datum, DatumV, cell_view, spec_cell_fits};
use crate::column::{Column, ColumnV};
use crate::table::{Table, spec_height, row_key, sel_positions};
use crate::group::nonkey_positions;
use crate::EngineError;

verus! {

/// The join kinds the engine computes.
#[derive(Clone, Copy, Debug, PartialEq, Eq, Structural)]
pub enum JoinKind {
    Inner,
    Left,
    Outer,
}

pub open spec fn spec_join_kind_of(s: Seq<char>) -> Option<JoinKind> {
    if s == "inner"@ { Some(JoinKind::Inner) }
    else if s == "left"@ { Some(JoinKind::Left) }
    else if s == "outer"@ { Some(JoinKind::Outer) }
    else { None }
}

pub fn join_kind_of(s: &str) -> (r: Option<JoinKind>)
    ensures
        r == spec_join_kind_of(s@),
{
    let owned = s.to_owned();
    if owned.eq(&String::from_str("inner")) { Some(JoinKind::Inner) }
    else if owned.eq(&String::from_str("left")) { Some(JoinKind::Left) }
    else if owned.eq(&String::from_str("outer")) { Some(JoinKind::Outer) }
    else { None }
}

/// Whether left row `i` and right row `j` match: equal keys with no null
/// in them. A null key matches nothing, a second null included.
pub open spec fn keys_match(
    lv: Seq<ColumnV>,
    lsel: Seq<int>,
    rv: Seq<ColumnV>,
    rsel: Seq<int>,
    i: int,
    j: int,
) -> bool {
    &&& row_key(lv, lsel, i) == row_key(rv, rsel, j)
    &&& forall|k: int| 0 <= k < lsel.len() ==> (#[trigger] lv[lsel[k]].cells[i]) is Some
}

/// The right rows below `upto` matching left row `i`, in row order.
pub open spec fn matches_of(
    lv: Seq<ColumnV>,
    lsel: Seq<int>,
    rv: Seq<ColumnV>,
    rsel: Seq<int>,
    i: int,
    upto: int,
) -> Seq<int>
    decreases upto,
{
    if upto <= 0 {
        Seq::empty()
    } else {
        let rest = matches_of(lv, lsel, rv, rsel, i, upto - 1);
        if keys_match(lv, lsel, rv, rsel, i, upto - 1) {
            rest.push(upto - 1)
        } else {
            rest
        }
    }
}

/// The output row list of a join, as pairs of source rows; `-1` stands for
/// the missing side. Every matched pair appears, fanned out, left rows in
/// order and their matches in right-row order; a left join keeps unmatched
/// left rows with a missing right side; an outer join appends the unmatched
/// right rows in order.
pub open spec fn join_pairs(
    kind: JoinKind,
    lv: Seq<ColumnV>,
    lsel: Seq<int>,
    rv: Seq<ColumnV>,
    rsel: Seq<int>,
) -> Seq<(int, int)> {
    let base = left_pairs(kind, lv, lsel, rv, rsel, spec_height(lv));
    if kind == JoinKind::Outer {
        base + unmatched_right(lv, lsel, rv, rsel, spec_height(rv))
    } else {
        base
    }
}

pub open spec fn left_pairs(
    kind: JoinKind,
    lv: Seq<ColumnV>,
    lsel: Seq<int>,
    rv: Seq<ColumnV>,
    rsel: Seq<int>,
    upto: int,
) -> Seq<(int, int)>
    decreases upto,
{
    if upto <= 0 {
        Seq::empty()
    } else {
        let rest = left_pairs(kind, lv, lsel, rv, rsel, upto - 1);
        let ms = matches_of(lv, lsel, rv, rsel, upto - 1, spec_height(rv));
        if ms.len() == 0 {
            if kind == JoinKind::Inner {
                rest
            } else {
                rest.push((upto - 1, -1))
            }
        } else {
            rest + ms.map_values(|j: int| (upto - 1, j))
        }
    }
}

/// The right rows below `upto` with no matching left row, paired with a
/// missing left side.
pub open spec fn unmatched_right(
    lv: Seq<ColumnV>,
    lsel: Seq<int>,
    rv: Seq<ColumnV>,
    rsel: Seq<int>,
    upto: int,
) -> Seq<(int, int)>
    decreases upto,
{
    if upto <= 0 {
        Seq::empty()
    } else {
        let rest = unmatched_right(lv, lsel, rv, rsel, upto - 1);
        if exists|i: int| 0 <= i < spec_height(lv)
            && #[trigger] keys_match(lv, lsel, rv, rsel, i, upto - 1) {
            rest
        } else {
            rest.push((-1, upto - 1))
        }
    }
}

/// Whether an output column carries the cells of a source column at the
/// pair positions of one side, null where that side is missing.
pub open spec fn joined_col_ok(
    src: ColumnV,
    out: ColumnV,
    pairs: Seq<(int, int)>,
    left_side: bool,
) -> bool {
    &&& out.name == src.name
    &&& out.dtype == src.dtype
    &&& out.cells.len() == pairs.len()
    &&& forall|p: int| 0 <= p < pairs.len()
        ==> #[trigger] out.cells[p] == {
            let s = if left_side { pairs[p].0 } else { pairs[p].1 };
            if s >= 0 {
                src.cells[s]
            } else {
                None
            }
        }
}

/// The names a join produces: every left name, then the right non-key
/// names.
pub open spec fn join_names(lv: Seq<ColumnV>, rv: Seq<ColumnV>, rsel: Seq<int>) -> Seq<Seq<char>> {
    let rkeep = nonkey_positions(rsel, rv.len() as int);
    Seq::new(
        (lv.len() + rkeep.len()) as nat,
        |k: int| if k < lv.len() {
            lv[k].name
        } else {
            rv[rkeep[k - lv.len()]].name
        },
    )
}

impl Table {
    /// The equi-join of two tables on matching key columns.
    ///
    /// The output holds every left column, then every right column that is
    /// not a right key; inner keeps only matched pairs (one output row per
    /// match), left keeps every left row with null right cells when
    /// unmatched, outer appends the unmatched right rows with null left
    /// cells. A null key never matches. `InvalidArgument` when the key name
    /// lists differ in length or a name repeats in the output,
    /// `NotFound` when a key name is missing, `UnsupportedJoinKind` never
    /// (the kind is typed here; the string form is parsed by the caller).
    pub fn join(&self, other: &Table, left_on: &Vec<String>, right_on: &Vec<String>, kind:
        JoinKind) -> (r: Result<Table, EngineError>)
        requires
            self.wf(),
            other.wf(),
        ensures
            match r {
                Ok(t) => {
                    &&& t.wf()
                    &&& left_on@.len() == right_on@.len()
                    &&& exists|lsel: Seq<int>, rsel: Seq<int>| {
                        &&& #[trigger] sel_positions(self@, crate::group::names_views(left_on@), lsel)
                        &&& #[trigger] sel_positions(other@, crate::group::names_views(right_on@), rsel)
                        &&& {
                            let pairs = join_pairs(kind, self@, lsel, other@, rsel);
                            let rkeep = nonkey_positions(rsel, other@.len() as int);
                            &&& t@.len() == self@.len() + rkeep.len()
                            &&& (forall|k: int| 0 <= k < self@.len()
                                ==> joined_col_ok(self@[k], #[trigger] t@[k], pairs, true))
                            &&& (forall|k: int| 0 <= k < rkeep.len()
                                ==> joined_col_ok(
                                    other@[rkeep[k]],
                                    #[trigger] t@[self@.len() + k],
                                    pairs,
                                    false,
                                ))
                        }
                    }
                },
                Err(e) => {
                    ||| (e == EngineError::InvalidArgument
                        && (left_on@.len() != right_on@.len()
                            || exists|lsel: Seq<int>, rsel: Seq<int>| {
                                &&& #[trigger] sel_positions(
                                    self@,
                                    crate::group::names_views(left_on@),
                                    lsel,
                                )
                                &&& #[trigger] sel_positions(
                                    other@,
                                    crate::group::names_views(right_on@),
                                    rsel,
                                )
                                &&& !crate::table::texts_unique(join_names(self@, other@, rsel))
                            }))
                    ||| (e == EngineError::NotFound
                        && left_on@.len() == right_on@.len()
                        && (crate::table::some_name_missing(self@, left_on@)
                            || crate::table::some_name_missing(other@, right_on@)))
                },
            },
    {
        if left_on.len() != right_on.len() {
            return Err(EngineError::InvalidArgument);
        }
        let left_clone = crate::group::clone_names(left_on);
        let lsel = match self.resolve_subset(&Some(left_clone)) {
            Ok(s) => s,
            Err(_) => {
                proof {
                    crate::group::lemma_missing_name_transfers(self@, left_clone@, left_on@);
                }
                return Err(EngineError::NotFound);
            },
        };
        let right_clone = crate::group::clone_names(right_on);
        let rsel = match other.resolve_subset(&Some(right_clone)) {
            Ok(s) => s,
            Err(_) => {
                proof {
                    crate::group::lemma_missing_name_transfers(other@, right_clone@, right_on@);
                }
                return Err(EngineError::NotFound);
            },
        };
        let ghost lselv = lsel@.map_values(|u: usize| u as int);
        let ghost rselv = rsel@.map_values(|u: usize| u as int);
        let lmats = self.selected_cells(&lsel);
        let rmats = other.selected_cells(&rsel);
        let lh = self.height();
        let rh = other.height();

        // the pair list, a missing side carried as None
        let mut lefts: Vec<Option<usize>> = Vec::new();
        let mut rights: Vec<Option<usize>> = Vec::new();
        let ghost target = join_pairs(kind, self@, lselv, other@, rselv);
        let mut i: usize = 0;
        while i < lh
            invariant
                self.wf(),
                other.wf(),
                lh == spec_height(self@),
                rh == spec_height(other@),
                lselv == lsel@.map_values(|u: usize| u as int),
                rselv == rsel@.map_values(|u: usize| u as int),
                lsel@.len() == rsel@.len(),
                lmats@.len() == lsel@.len(),
                rmats@.len() == rsel@.len(),
                forall|k: int| 0 <= k < lsel@.len() ==> #[trigger] lsel@[k] < self@.len(),
                forall|k: int| 0 <= k < rsel@.len() ==> #[trigger] rsel@[k] < other@.len(),
                forall|k: int| 0 <= k < lsel@.len()
                    ==> (#[trigger] lmats@[k])@.len() == spec_height(self@),
                forall|k: int| 0 <= k < rsel@.len()
                    ==> (#[trigger] rmats@[k])@.len() == spec_height(other@),
                forall|k: int, j: int| 0 <= k < lsel@.len() && 0 <= j < spec_height(self@)
                    ==> cell_view(#[trigger] lmats@[k]@[j]) == self@[lsel@[k] as int].cells[j],
                forall|k: int, j: int| 0 <= k < rsel@.len() && 0 <= j < spec_height(other@)
                    ==> cell_view(#[trigger] rmats@[k]@[j]) == other@[rsel@[k] as int].cells[j],
                i <= lh,
                lefts@.len() == rights@.len(),
                pair_views(lefts@, rights@)
                    == left_pairs(kind, self@, lselv, other@, rselv, i as int),
                forall|p: int| 0 <= p < lefts@.len()
                    ==> ((#[trigger] lefts@[p]) matches Some(u) ==> u < lh),
                forall|p: int| 0 <= p < rights@.len()
                    ==> ((#[trigger] rights@[p]) matches Some(u) ==> u < rh),
            decreases lh - i,
        {
            let ghost old_lefts = lefts@;
            let ghost old_rights = rights@;
            let mut any = false;
            let mut j: usize = 0;
            while j < rh
                invariant
                    self.wf(),
                    other.wf(),
                    lh == spec_height(self@),
                    rh == spec_height(other@),
                    lselv == lsel@.map_values(|u: usize| u as int),
                    rselv == rsel@.map_values(|u: usize| u as int),
                    lsel@.len() == rsel@.len(),
                    lmats@.len() == lsel@.len(),
                    rmats@.len() == rsel@.len(),
                    forall|k: int| 0 <= k < lsel@.len() ==> #[trigger] lsel@[k] < self@.len(),
                    forall|k: int| 0 <= k < rsel@.len() ==> #[trigger] rsel@[k] < other@.len(),
                    forall|k: int| 0 <= k < lsel@.len()
                        ==> (#[trigger] lmats@[k])@.len() == spec_height(self@),
                    forall|k: int| 0 <= k < rsel@.len()
                        ==> (#[trigger] rmats@[k])@.len() == spec_height(other@),
                    forall|k: int, j2: int| 0 <= k < lsel@.len() && 0 <= j2 < spec_height(self@)
                        ==> cell_view(#[trigger] lmats@[k]@[j2])
                            == self@[lsel@[k] as int].cells[j2],
                    forall|k: int, j2: int| 0 <= k < rsel@.len() && 0 <= j2 < spec_height(other@)
                        ==> cell_view(#[trigger] rmats@[k]@[j2])
                            == other@[rsel@[k] as int].cells[j2],
                    i < lh,
                    j <= rh,
                    lefts@.len() == rights@.len(),
                    pair_views(lefts@, rights@) == left_pairs(
                        kind, self@, lselv, other@, rselv, i as int,
                    ) + matches_of(self@, lselv, other@, rselv, i as int, j as int)
                        .map_values(|j2: int| (i as int, j2)),
                    any == (matches_of(self@, lselv, other@, rselv, i as int, j as int).len()
                        > 0),
                    forall|p: int| 0 <= p < lefts@.len()
                        ==> ((#[trigger] lefts@[p]) matches Some(u) ==> u < lh),
                    forall|p: int| 0 <= p < rights@.len()
                        ==> ((#[trigger] rights@[p]) matches Some(u) ==> u < rh),
                decreases rh - j,
            {
                let ghost pre_l = lefts@;
                let ghost pre_r = rights@;
                if cross_match(&lmats, &rmats, i, j, Ghost(self@), Ghost(lselv), Ghost(other@),
                    Ghost(rselv)) {
                    lefts.push(Some(i));
                    rights.push(Some(j));
                    any = true;
                    proof {
                        let msj = matches_of(self@, lselv, other@, rselv, i as int, j as int);
                        let msj1 = matches_of(self@, lselv, other@, rselv, i as int, j + 1);
                        assert(msj1 == msj.push(j as int));
                        assert(msj1.map_values(|j2: int| (i as int, j2))
                            =~= msj.map_values(|j2: int| (i as int, j2))
                                .push((i as int, j as int)));
                        assert(pair_views(lefts@, rights@)
                            =~= pair_views(pre_l, pre_r).push((i as int, j as int)));
                        assert(pair_views(pre_l, pre_r).push((i as int, j as int))
                            =~= left_pairs(kind, self@, lselv, other@, rselv, i as int)
                                + msj1.map_values(|j2: int| (i as int, j2)));
                        assert(pair_views(lefts@, rights@)
                            =~= left_pairs(kind, self@, lselv, other@, rselv, i as int)
                                + msj1.map_values(|j2: int| (i as int, j2)));
                    }
                } else {
                    proof {
                        assert(matches_of(self@, lselv, other@, rselv, i as int, j + 1)
                            == matches_of(self@, lselv, other@, rselv, i as int, j as int));
                    }
                }
                j = j + 1;
            }
            if !any && !matches!(kind, JoinKind::Inner) {
                lefts.push(Some(i));
                rights.push(None);
            }
            proof {
                let ms = matches_of(self@, lselv, other@, rselv, i as int, rh as int);
                if ms.len() == 0 {
                    if kind == JoinKind::Inner {
                        assert(pair_views(lefts@, rights@)
                            =~= left_pairs(kind, self@, lselv, other@, rselv, i + 1));
                    } else {
                        assert(pair_views(lefts@, rights@)
                            =~= left_pairs(kind, self@, lselv, other@, rselv, i + 1));
                    }
                } else {
                    assert(pair_views(lefts@, rights@)
                        =~= left_pairs(kind, self@, lselv, other@, rselv, i + 1));
                }
            }
            i = i + 1;
        }
        if matches!(kind, JoinKind::Outer) {
            let mut j: usize = 0;
            while j < rh
                invariant
                    self.wf(),
                    other.wf(),
                    lh == spec_height(self@),
                    rh == spec_height(other@),
                    lselv == lsel@.map_values(|u: usize| u as int),
                    rselv == rsel@.map_values(|u: usize| u as int),
                    lsel@.len() == rsel@.len(),
                    lmats@.len() == lsel@.len(),
                    rmats@.len() == rsel@.len(),
                    forall|k: int| 0 <= k < lsel@.len() ==> #[trigger] lsel@[k] < self@.len(),
                    forall|k: int| 0 <= k < rsel@.len() ==> #[trigger] rsel@[k] < other@.len(),
                    forall|k: int| 0 <= k < lsel@.len()
                        ==> (#[trigger] lmats@[k])@.len() == spec_height(self@),
                    forall|k: int| 0 <= k < rsel@.len()
                        ==> (#[trigger] rmats@[k])@.len() == spec_height(other@),
                    forall|k: int, j2: int| 0 <= k < lsel@.len() && 0 <= j2 < spec_height(self@)
                        ==> cell_view(#[trigger] lmats@[k]@[j2])
                            == self@[lsel@[k] as int].cells[j2],
                    forall|k: int, j2: int| 0 <= k < rsel@.len() && 0 <= j2 < spec_height(other@)
                        ==> cell_view(#[trigger] rmats@[k]@[j2])
                            == other@[rsel@[k] as int].cells[j2],
                    kind == JoinKind::Outer,
                    j <= rh,
                    lefts@.len() == rights@.len(),
                    pair_views(lefts@, rights@) == left_pairs(
                        kind, self@, lselv, other@, rselv, lh as int,
                    ) + unmatched_right(self@, lselv, other@, rselv, j as int),
                    forall|p: int| 0 <= p < lefts@.len()
                        ==> ((#[trigger] lefts@[p]) matches Some(u) ==> u < lh),
                    forall|p: int| 0 <= p < rights@.len()
                        ==> ((#[trigger] rights@[p]) matches Some(u) ==> u < rh),
                decreases rh - j,
            {
                let mut matched = false;
                let mut i2: usize = 0;
                while i2 < lh
                    invariant
                        self.wf(),
                        other.wf(),
                        lh == spec_height(self@),
                        rh == spec_height(other@),
                        lselv == lsel@.map_values(|u: usize| u as int),
                        rselv == rsel@.map_values(|u: usize| u as int),
                        lsel@.len() == rsel@.len(),
                        lmats@.len() == lsel@.len(),
                        rmats@.len() == rsel@.len(),
                        forall|k: int| 0 <= k < lsel@.len() ==> #[trigger] lsel@[k] < self@.len(),
                        forall|k: int| 0 <= k < rsel@.len()
                            ==> #[trigger] rsel@[k] < other@.len(),
                        forall|k: int| 0 <= k < lsel@.len()
                            ==> (#[trigger] lmats@[k])@.len() == spec_height(self@),
                        forall|k: int| 0 <= k < rsel@.len()
                            ==> (#[trigger] rmats@[k])@.len() == spec_height(other@),
                        forall|k: int, j2: int| 0 <= k < lsel@.len()
                            && 0 <= j2 < spec_height(self@)
                            ==> cell_view(#[trigger] lmats@[k]@[j2])
                                == self@[lsel@[k] as int].cells[j2],
                        forall|k: int, j2: int| 0 <= k < rsel@.len()
                            && 0 <= j2 < spec_height(other@)
                            ==> cell_view(#[trigger] rmats@[k]@[j2])
                                == other@[rsel@[k] as int].cells[j2],
                        j < rh,
                        i2 <= lh,
                        matched == exists|i3: int| 0 <= i3 < i2
                            && keys_match(self@, lselv, other@, rselv, i3, j as int),
                    decreases lh - i2,
                {
                    if !matched {
                        if cross_match(&lmats, &rmats, i2, j, Ghost(self@), Ghost(lselv),
                            Ghost(other@), Ghost(rselv)) {
                            matched = true;
                        }
                    }
                    i2 = i2 + 1;
                }
                if !matched {
                    let ghost pre_l = lefts@;
                    let ghost pre_r = rights@;
                    lefts.push(None);
                    rights.push(Some(j));
                    proof {
                        assert(!(exists|i3: int| 0 <= i3 < spec_height(self@)
                            && #[trigger] keys_match(
                                self@, lselv, other@, rselv, i3, j as int,
                            )));
                        assert(unmatched_right(self@, lselv, other@, rselv, j + 1)
                            == unmatched_right(self@, lselv, other@, rselv, j as int)
                                .push((-1, j as int)));
                        assert(pair_views(lefts@, rights@)
                            =~= pair_views(pre_l, pre_r).push((-1, j as int)));
                        assert(pair_views(pre_l, pre_r).push((-1, j as int))
                            =~= left_pairs(kind, self@, lselv, other@, rselv, lh as int)
                                + unmatched_right(self@, lselv, other@, rselv, j + 1));
                        assert(pair_views(lefts@, rights@)
                            =~= left_pairs(kind, self@, lselv, other@, rselv, lh as int)
                                + unmatched_right(self@, lselv, other@, rselv, j + 1));
                    }
                } else {
                    proof {
                        assert(unmatched_right(self@, lselv, other@, rselv, j + 1)
                            == unmatched_right(self@, lselv, other@, rselv, j as int));
                    }
                }
                j = j + 1;
            }
        }
        proof {
            assert(pair_views(lefts@, rights@) == target);
        }

        // assemble: all left columns, then the right non-key columns
        let mut out: Vec<Column> = Vec::new();
        let mut k: usize = 0;
        while k < self.width()
            invariant
                self.wf(),
                other.wf(),
                lh == spec_height(self@),
                rh == spec_height(other@),
                target == join_pairs(kind, self@, lselv, other@, rselv),
                pair_views(lefts@, rights@) == target,
                lefts@.len() == rights@.len(),
                forall|p: int| 0 <= p < lefts@.len()
                    ==> ((#[trigger] lefts@[p]) matches Some(u) ==> u < lh),
                forall|p: int| 0 <= p < rights@.len()
                    ==> ((#[trigger] rights@[p]) matches Some(u) ==> u < rh),
                k <= self@.len(),
                out@.len() == k,
                forall|t: int| 0 <= t < k ==> (#[trigger] out@[t]).wf(),
                forall|t: int| 0 <= t < k
                    ==> joined_col_ok(self@[t], (#[trigger] out@[t])@, target, true),
            decreases self@.len() - k,
        {
            let src = match self.select_at_idx(k) {
                Some(c) => c,
                None => {
                    proof {
                        assert(false);
                    }
                    return Err(EngineError::InvalidArgument);
                },
            };
            proof {
                assert(crate::table::heights_equal(self@));
                assert(src@.cells.len() == spec_height(self@));
            }
            let c = gather_side(&src, &lefts, Ghost(target), Ghost(true));
            out.push(c);
            k = k + 1;
        }
        let ghost rkeep = nonkey_positions(rselv, other@.len() as int);
        let mut rk: usize = 0;
        let mut picked: usize = 0;
        while rk < other.width()
            invariant
                self.wf(),
                other.wf(),
                lh == spec_height(self@),
                rh == spec_height(other@),
                rselv == rsel@.map_values(|u: usize| u as int),
                target == join_pairs(kind, self@, lselv, other@, rselv),
                pair_views(lefts@, rights@) == target,
                lefts@.len() == rights@.len(),
                forall|p: int| 0 <= p < lefts@.len()
                    ==> ((#[trigger] lefts@[p]) matches Some(u) ==> u < lh),
                forall|p: int| 0 <= p < rights@.len()
                    ==> ((#[trigger] rights@[p]) matches Some(u) ==> u < rh),
                rk <= other@.len(),
                picked <= rk,
                picked == nonkey_positions(rselv, rk as int).len(),
                out@.len() == self@.len() + picked,
                forall|t: int| 0 <= t < out@.len() ==> (#[trigger] out@[t]).wf(),
                forall|t: int| 0 <= t < self@.len()
                    ==> joined_col_ok(self@[t], (#[trigger] out@[t])@, target, true),
                forall|t: int| 0 <= t < picked
                    ==> joined_col_ok(
                        other@[nonkey_positions(rselv, rk as int)[t]],
                        (#[trigger] out@[self@.len() + t])@,
                        target,
                        false,
                    ),
            decreases other@.len() - rk,
        {
            let mut iskey = false;
            let mut b: usize = 0;
            while b < rsel.len()
                invariant
                    rselv == rsel@.map_values(|u: usize| u as int),
                    b <= rsel@.len(),
                    iskey == exists|t: int| 0 <= t < b && #[trigger] rsel@[t] == rk,
                decreases rsel@.len() - b,
            {
                if rsel[b] == rk {
                    iskey = true;
                }
                b = b + 1;
            }
            proof {
                assert(iskey == rselv.contains(rk as int)) by {
                    if iskey {
                        let t = choose|t: int| 0 <= t < rsel@.len() && rsel@[t] == rk;
                        assert(rselv[t] == rk as int);
                    } else {
                        if rselv.contains(rk as int) {
                            let t = choose|t: int| 0 <= t < rselv.len()
                                && rselv[t] == rk as int;
                            assert(rsel@[t] == rk);
                        }
                    }
                }
            }
            if !iskey {
                let src = match other.select_at_idx(rk) {
                    Some(c) => c,
                    None => {
                        proof {
                            assert(false);
                        }
                        return Err(EngineError::InvalidArgument);
                    },
                };
                proof {
                    assert(crate::table::heights_equal(other@));
                    assert(src@.cells.len() == spec_height(other@));
                }
                let c = gather_side(&src, &rights, Ghost(target), Ghost(false));
                out.push(c);
                picked = picked + 1;
                proof {
                    assert(nonkey_positions(rselv, rk + 1)
                        =~= nonkey_positions(rselv, rk as int).push(rk as int));
                }
            } else {
                proof {
                    assert(nonkey_positions(rselv, rk + 1)
                        == nonkey_positions(rselv, rk as int));
                }
            }
            rk = rk + 1;
        }
        let ghost outv = out@.map_values(|c2: Column| c2@);
        proof {
            assert(sel_positions(self@, crate::group::names_views(left_on@), lselv));
            assert(sel_positions(other@, crate::group::names_views(right_on@), rselv));
            let rkeep2 = nonkey_positions(rselv, other@.len() as int);
            // every produced column is as long as the pair list and carries
            // the join's name at its position
            assert forall|j: int| 0 <= j < outv.len()
                implies (#[trigger] outv[j].cells.len())
                    == crate::table::spec_height(outv) by {
                if outv.len() > 0 {
                    if 0 < self@.len() {
                        assert(joined_col_ok(self@[0], outv[0], target, true));
                    } else {
                        assert(joined_col_ok(other@[rkeep2[0]], outv[self@.len() as int + 0],
                            target, false));
                    }
                }
                if j < self@.len() {
                    assert(joined_col_ok(self@[j], outv[j], target, true));
                } else {
                    let t2 = j - self@.len();
                    assert(joined_col_ok(other@[rkeep2[t2]], outv[self@.len() as int + t2],
                        target, false));
                }
            }
            assert(crate::table::heights_equal(outv));
            assert forall|j: int| 0 <= j < outv.len()
                implies (#[trigger] outv[j].name)
                    == join_names(self@, other@, rselv)[j] by {
                if j < self@.len() {
                    assert(joined_col_ok(self@[j], outv[j], target, true));
                } else {
                    let t2 = j - self@.len();
                    assert(joined_col_ok(other@[rkeep2[t2]], outv[self@.len() as int + t2],
                        target, false));
                }
            }
        }
        match Table::new(out) {
            Ok(t) => Ok(t),
            Err(e) => {
                proof {
                    assert(e == EngineError::InvalidArgument
                        && !crate::table::names_unique(outv));
                    let jn = join_names(self@, other@, rselv);
                    let (p, q) = choose|p: int, q: int| 0 <= p < q < outv.len()
                        && (#[trigger] outv[p].name) == (#[trigger] outv[q].name);
                    assert(jn[p] == jn[q]);
                    assert(!crate::table::texts_unique(jn));
                }
                Err(EngineError::InvalidArgument)
            },
        }
    }
}

/// The pair list two option-index vectors stand for, a missing side as -1.
pub open spec fn pair_views(lefts: Seq<Option<usize>>, rights: Seq<Option<usize>>) -> Seq<
    (int, int),
> {
    Seq::new(
        lefts.len(),
        |p: int| (
            match lefts[p] { Some(u) => u as int, None => -1 },
            match rights[p] { Some(u) => u as int, None => -1 },
        ),
    )
}

/// Whether one left row and one right row carry equal, fully non-null keys.
fn cross_match(
    lmats: &Vec<Vec<Option<Datum>>>,
    rmats: &Vec<Vec<Option<Datum>>>,
    i: usize,
    j: usize,
    Ghost(lv): Ghost<Seq<ColumnV>>,
    Ghost(lselv): Ghost<Seq<int>>,
    Ghost(rv): Ghost<Seq<ColumnV>>,
    Ghost(rselv): Ghost<Seq<int>>,
) -> (r: bool)
    requires
        lmats@.len() == lselv.len(),
        rmats@.len() == rselv.len(),
        lselv.len() == rselv.len(),
        i < spec_height(lv),
        j < spec_height(rv),
        forall|k: int| 0 <= k < lselv.len() ==> 0 <= #[trigger] lselv[k] < lv.len(),
        forall|k: int| 0 <= k < rselv.len() ==> 0 <= #[trigger] rselv[k] < rv.len(),
        forall|k: int| 0 <= k < lselv.len()
            ==> (#[trigger] lmats@[k])@.len() == spec_height(lv),
        forall|k: int| 0 <= k < rselv.len()
            ==> (#[trigger] rmats@[k])@.len() == spec_height(rv),
        forall|k: int, j2: int| 0 <= k < lselv.len() && 0 <= j2 < spec_height(lv)
            ==> cell_view(#[trigger] lmats@[k]@[j2]) == lv[lselv[k]].cells[j2],
        forall|k: int, j2: int| 0 <= k < rselv.len() && 0 <= j2 < spec_height(rv)
            ==> cell_view(#[trigger] rmats@[k]@[j2]) == rv[rselv[k]].cells[j2],
    ensures
        r == keys_match(lv, lselv, rv, rselv, i as int, j as int),
{
    let mut k: usize = 0;
    let mut good = true;
    while k < lmats.len()
        invariant
            lmats@.len() == lselv.len(),
            rmats@.len() == rselv.len(),
            lselv.len() == rselv.len(),
            i < spec_height(lv),
            j < spec_height(rv),
            forall|t: int| 0 <= t < lselv.len() ==> 0 <= #[trigger] lselv[t] < lv.len(),
            forall|t: int| 0 <= t < rselv.len() ==> 0 <= #[trigger] rselv[t] < rv.len(),
            forall|t: int| 0 <= t < lselv.len()
                ==> (#[trigger] lmats@[t])@.len() == spec_height(lv),
            forall|t: int| 0 <= t < rselv.len()
                ==> (#[trigger] rmats@[t])@.len() == spec_height(rv),
            forall|t: int, j2: int| 0 <= t < lselv.len() && 0 <= j2 < spec_height(lv)
                ==> cell_view(#[trigger] lmats@[t]@[j2]) == lv[lselv[t]].cells[j2],
            forall|t: int, j2: int| 0 <= t < rselv.len() && 0 <= j2 < spec_height(rv)
                ==> cell_view(#[trigger] rmats@[t]@[j2]) == rv[rselv[t]].cells[j2],
            k <= lselv.len(),
            good == (forall|t: int| 0 <= t < k
                ==> row_key(lv, lselv, i as int)[t] == row_key(rv, rselv, j as int)[t]
                    && (#[trigger] lv[lselv[t]].cells[i as int]) is Some),
        decreases lmats@.len() - k,
    {
        let cell_ok = match (&lmats[k][i], &rmats[k][j]) {
            (Some(a), Some(b)) => a.eq_value(b),
            _ => false,
        };
        if !cell_ok {
            proof {
                if (lv[lselv[k as int]].cells[i as int]) is Some
                    && row_key(lv, lselv, i as int)[k as int]
                        == row_key(rv, rselv, j as int)[k as int] {
                    assert(cell_view(lmats@[k as int]@[i as int])
                        == lv[lselv[k as int]].cells[i as int]);
                    assert(cell_view(rmats@[k as int]@[j as int])
                        == rv[rselv[k as int]].cells[j as int]);
                    assert(false);
                }
            }
            good = false;
        }
        proof {
            if good {
                assert(row_key(lv, lselv, i as int)[k as int]
                    == row_key(rv, rselv, j as int)[k as int]);
                assert((lv[lselv[k as int]].cells[i as int]) is Some);
            }
        }
        k = k + 1;
    }
    proof {
        if good {
            assert(row_key(lv, lselv, i as int) =~= row_key(rv, rselv, j as int));
        } else {
            if keys_match(lv, lselv, rv, rselv, i as int, j as int) {
                assert(false);
            }
        }
    }
    good
}

/// One output column of a join: the source cells gathered at one side of
/// the pair list, null where that side is missing.
fn gather_side(
    src: &Column,
    picks: &Vec<Option<usize>>,
    Ghost(pairs): Ghost<Seq<(int, int)>>,
    Ghost(left_side): Ghost<bool>,
) -> (r: Column)
    requires
        src.wf(),
        picks@.len() == pairs.len(),
        forall|p: int| 0 <= p < picks@.len()
            ==> match #[trigger] picks@[p] {
                Some(u) => (u as int) == (if left_side { pairs[p].0 } else { pairs[p].1 })
                    && u < src@.cells.len(),
                None => (if left_side { pairs[p].0 } else { pairs[p].1 }) < 0,
            },
    ensures
        r.wf(),
        joined_col_ok(src@, r@, pairs, left_side),
{
    let cs = src.cells();
    let mut cells: Vec<Option<Datum>> = Vec::new();
    let mut p: usize = 0;
    while p < picks.len()
        invariant
            src.wf(),
            picks@.len() == pairs.len(),
            cs@.len() == src@.cells.len(),
            forall|t: int| 0 <= t < cs@.len()
                ==> cell_view(#[trigger] cs@[t]) == src@.cells[t],
            forall|t: int| 0 <= t < cs@.len()
                ==> spec_cell_fits(src@.dtype, cell_view(#[trigger] cs@[t])),
            forall|t: int| 0 <= t < picks@.len()
                ==> match #[trigger] picks@[t] {
                    Some(u) => (u as int) == (if left_side { pairs[t].0 } else { pairs[t].1 })
                        && u < src@.cells.len(),
                    None => (if left_side { pairs[t].0 } else { pairs[t].1 }) < 0,
                },
            p <= picks@.len(),
            cells@.len() == p,
            forall|t: int| 0 <= t < p
                ==> cell_view(#[trigger] cells@[t]) == {
                    let s = if left_side { pairs[t].0 } else { pairs[t].1 };
                    if s >= 0 {
                        src@.cells[s]
                    } else {
                        None
                    }
                },
            forall|t: int| 0 <= t < cells@.len()
                ==> spec_cell_fits(src@.dtype, cell_view(#[trigger] cells@[t])),
        decreases picks@.len() - p,
    {
        match &picks[p] {
            Some(u) => {
                cells.push(crate::types::duplicate_cell(&cs[*u]));
            },
            None => {
                cells.push(None);
            },
        }
        p = p + 1;
    }
    let c = Column::build(src.name().to_owned(), src.dtype(), cells);
    c
}

} // verus!
