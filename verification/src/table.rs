use vstd::prelude::*;
use crate::types::{TypeTag, Datum, DatumV, cell_view, spec_cell_fits, spec_tag_code};
use crate::column::{Column, ColumnV, mask_keep, shifted, ident_indices, argsort_ordered};
use crate::EngineError;

verus! {

/// No two columns share a name.
pub open spec fn names_unique(cols: Seq<ColumnV>) -> bool {
    forall|p: int, q: int| 0 <= p < q < cols.len()
        ==> (#[trigger] cols[p].name) != (#[trigger] cols[q].name)
}

/// The shared row count: zero for a table without columns.
pub open spec fn spec_height(cols: Seq<ColumnV>) -> int {
    if cols.len() == 0 {
        0
    } else {
        cols[0].cells.len() as int
    }
}

/// Every column holds exactly one cell per row.
pub open spec fn heights_equal(cols: Seq<ColumnV>) -> bool {
    forall|i: int| 0 <= i < cols.len()
        ==> (#[trigger] cols[i].cells.len()) == spec_height(cols)
}

/// No column carries this name.
pub open spec fn name_missing(cols: Seq<ColumnV>, name: Seq<char>) -> bool {
    forall|i: int| 0 <= i < cols.len() ==> (#[trigger] cols[i].name) != name
}

/// Some name in the list matches no column.
pub open spec fn some_name_missing(cols: Seq<ColumnV>, names: Seq<String>) -> bool {
    exists|k: int| 0 <= k < names.len() && name_missing(cols, (#[trigger] names[k])@)
}

/// No two texts of the list are equal.
pub open spec fn texts_unique(names: Seq<Seq<char>>) -> bool {
    forall|p: int, q: int| 0 <= p < q < names.len()
        ==> (#[trigger] names[p]) != (#[trigger] names[q])
}

/// One of the table's columns equals `c` and carries `name`.
pub open spec fn has_col(sv: Seq<ColumnV>, c: ColumnV, name: Seq<char>) -> bool {
    exists|j: int| 0 <= j < sv.len() && sv[j] == c && c.name == name
}

/// An ordered collection of equally long, uniquely named columns. The view
/// is the sequence of column views in display order.
pub struct Table {
    cols: Vec<Column>,
}

impl Table {
    pub closed spec fn cols_wf(self) -> bool {
        forall|i: int| 0 <= i < self.cols@.len() ==> (#[trigger] self.cols@[i]).wf()
    }

    /// Every operation requires and preserves this shape: well-formed
    /// columns of one length with unique names.
    pub open spec fn wf(self) -> bool {
        &&& self.cols_wf()
        &&& names_unique(self@)
        &&& heights_equal(self@)
    }
}

impl View for Table {
    type V = Seq<ColumnV>;

    closed spec fn view(&self) -> Seq<ColumnV> {
        self.cols@.map_values(|c: Column| c@)
    }
}

impl Table {
    /// A table from columns; `LengthMismatch` when the columns' lengths
    /// differ, `InvalidArgument` when two share a name.
    pub fn new(cols: Vec<Column>) -> (r: Result<Table, EngineError>)
        requires
            forall|i: int| 0 <= i < cols@.len() ==> (#[trigger] cols@[i]).wf(),
        ensures
            match r {
                Ok(t) => {
                    &&& t.wf()
                    &&& t@ == cols@.map_values(|c: Column| c@)
                },
                Err(e) => {
                    ||| (e == EngineError::LengthMismatch
                        && !heights_equal(cols@.map_values(|c: Column| c@)))
                    ||| (e == EngineError::InvalidArgument
                        && !names_unique(cols@.map_values(|c: Column| c@)))
                },
            },
    {
        let ghost cv = cols@.map_values(|c: Column| c@);
        let mut i: usize = 0;
        while i < cols.len()
            invariant
                i <= cols@.len(),
                cv == cols@.map_values(|c: Column| c@),
                forall|j: int| 0 <= j < cols@.len() ==> (#[trigger] cols@[j]).wf(),
                forall|j: int| 0 <= j < i
                    ==> (#[trigger] cv[j].cells.len()) == spec_height(cv),
            decreases cols@.len() - i,
        {
            if i > 0 {
                if cols[i].len() != cols[0].len() {
                    proof {
                        assert(cv[i as int].cells.len() != spec_height(cv));
                    }
                    return Err(EngineError::LengthMismatch);
                }
            }
            i = i + 1;
        }
        let mut p: usize = 0;
        while p < cols.len()
            invariant
                p <= cols@.len(),
                cv == cols@.map_values(|c: Column| c@),
                forall|j: int| 0 <= j < cols@.len() ==> (#[trigger] cols@[j]).wf(),
                forall|a: int, b: int| 0 <= a < b < cols@.len() && a < p
                    ==> (#[trigger] cv[a].name) != (#[trigger] cv[b].name),
            decreases cols@.len() - p,
        {
            let mut q: usize = p + 1;
            while q < cols.len()
                invariant
                    p < q <= cols@.len() || (p >= cols@.len() && q == p + 1),
                    p < cols@.len(),
                    cv == cols@.map_values(|c: Column| c@),
                    forall|j: int| 0 <= j < cols@.len() ==> (#[trigger] cols@[j]).wf(),
                    forall|b: int| p < b < q ==> cv[p as int].name != (#[trigger] cv[b].name),
                decreases cols@.len() - q,
            {
                let a = cols[p].name();
                let b = cols[q].name();
                if a.to_owned().eq(&b.to_owned()) {
                    proof {
                        assert(cv[p as int].name == cv[q as int].name);
                        assert(!names_unique(cv));
                    }
                    return Err(EngineError::InvalidArgument);
                }
                q = q + 1;
            }
            p = p + 1;
        }
        let t = Table { cols };
        Ok(t)
    }

    /// The row count.
    pub fn height(&self) -> (r: usize)
        requires
            self.wf(),
        ensures
            r == spec_height(self@),
    {
        if self.cols.len() == 0 {
            0
        } else {
            self.cols[0].len()
        }
    }

    /// The column count.
    pub fn width(&self) -> (r: usize)
        ensures
            r == self@.len(),
    {
        self.cols.len()
    }

    /// Rows and columns.
    pub fn shape(&self) -> (r: (usize, usize))
        requires
            self.wf(),
        ensures
            r.0 == spec_height(self@),
            r.1 == self@.len(),
    {
        (self.height(), self.width())
    }

    /// The column names in display order.
    pub fn columns(&self) -> (r: Vec<String>)
        ensures
            r@.len() == self@.len(),
            forall|i: int| 0 <= i < self@.len() ==> (#[trigger] r@[i])@ == self@[i].name,
    {
        let mut out: Vec<String> = Vec::new();
        let mut i: usize = 0;
        while i < self.cols.len()
            invariant
                i <= self.cols@.len(),
                self@.len() == self.cols@.len(),
                out@.len() == i,
                forall|j: int| 0 <= j < i ==> (#[trigger] out@[j])@ == self@[j].name,
            decreases self.cols@.len() - i,
        {
            out.push(self.cols[i].name().to_owned());
            i = i + 1;
        }
        out
    }

    /// The wire numbers of the column types, in display order.
    pub fn dtypes(&self) -> (r: Vec<u8>)
        ensures
            r@.len() == self@.len(),
            forall|i: int| 0 <= i < self@.len()
                ==> #[trigger] r@[i] == spec_tag_code(self@[i].dtype),
    {
        let mut out: Vec<u8> = Vec::new();
        let mut i: usize = 0;
        while i < self.cols.len()
            invariant
                i <= self.cols@.len(),
                self@.len() == self.cols@.len(),
                out@.len() == i,
                forall|j: int| 0 <= j < i ==> #[trigger] out@[j] == spec_tag_code(self@[j].dtype),
            decreases self.cols@.len() - i,
        {
            out.push(self.cols[i].dtype_code());
            i = i + 1;
        }
        out
    }

    /// The chunk count of the column at one position.
    pub closed spec fn spec_col_chunks(self, i: int) -> int {
        self.cols@[i].spec_n_chunks()
    }

    /// The number of chunks backing the first column; zero without one.
    pub fn n_chunks(&self) -> (r: usize)
        ensures
            self@.len() == 0 ==> r == 0,
            self@.len() > 0 ==> r == self.spec_col_chunks(0),
    {
        if self.cols.len() == 0 {
            0
        } else {
            self.cols[0].n_chunks()
        }
    }

    /// Deep copies of all columns, in display order.
    pub fn get_columns(&self) -> (r: Vec<Column>)
        requires
            self.wf(),
        ensures
            r@.len() == self@.len(),
            forall|i: int| 0 <= i < self@.len() ==> (#[trigger] r@[i])@ == self@[i],
            forall|i: int| 0 <= i < self@.len() ==> (#[trigger] r@[i]).wf(),
    {
        let mut out: Vec<Column> = Vec::new();
        let mut i: usize = 0;
        while i < self.cols.len()
            invariant
                self.wf(),
                i <= self.cols@.len(),
                self@.len() == self.cols@.len(),
                out@.len() == i,
                forall|j: int| 0 <= j < i ==> (#[trigger] out@[j])@ == self@[j],
                forall|j: int| 0 <= j < i ==> (#[trigger] out@[j]).wf(),
            decreases self.cols@.len() - i,
        {
            proof {
                assert(self.cols@[i as int].wf());
            }
            out.push(self.cols[i].duplicate());
            i = i + 1;
        }
        out
    }

    /// A deep copy of the whole table.
    pub fn duplicate(&self) -> (r: Table)
        requires
            self.wf(),
        ensures
            r.wf(),
            r@ == self@,
    {
        let cols = self.get_columns();
        let r = Table { cols };
        proof {
            assert(r@ =~= self@);
        }
        r
    }

    /// The position of the named column; the names are unique, so there is
    /// at most one.
    pub fn find_idx_by_name(&self, name: &str) -> (r: Option<usize>)
        requires
            self.wf(),
        ensures
            match r {
                Some(i) => i < self@.len() && self@[i as int].name == name@,
                None => forall|i: int| 0 <= i < self@.len()
                    ==> (#[trigger] self@[i].name) != name@,
            },
    {
        let mut i: usize = 0;
        while i < self.cols.len()
            invariant
                i <= self.cols@.len(),
                self@.len() == self.cols@.len(),
                forall|j: int| 0 <= j < i ==> (#[trigger] self@[j].name) != name@,
            decreases self.cols@.len() - i,
        {
            if self.cols[i].name().to_owned().eq(&name.to_owned()) {
                return Some(i);
            }
            i = i + 1;
        }
        None
    }

    /// A deep copy of the column at a position, if there is one.
    pub fn select_at_idx(&self, idx: usize) -> (r: Option<Column>)
        requires
            self.wf(),
        ensures
            match r {
                Some(c) => idx < self@.len() && c@ == self@[idx as int] && c.wf(),
                None => idx >= self@.len(),
            },
    {
        if idx >= self.cols.len() {
            return None;
        }
        proof {
            assert(self.cols@[idx as int].wf());
        }
        Some(self.cols[idx].duplicate())
    }

    /// A deep copy of the named column; `NotFound` exactly when no column
    /// carries the name.
    pub fn column(&self, name: &str) -> (r: Result<Column, EngineError>)
        requires
            self.wf(),
        ensures
            match r {
                Ok(c) => {
                    &&& c.wf()
                    &&& exists|i: int| 0 <= i < self@.len() && #[trigger] self@[i] == c@
                    &&& c@.name == name@
                },
                Err(e) => {
                    &&& e == EngineError::NotFound
                    &&& forall|i: int| 0 <= i < self@.len()
                        ==> (#[trigger] self@[i].name) != name@
                },
            },
    {
        match self.find_idx_by_name(name) {
            Some(i) => {
                proof {
                    assert(self.cols@[i as int].wf());
                }
                Ok(self.cols[i].duplicate())
            },
            None => Err(EngineError::NotFound),
        }
    }

    /// The named columns, deep-copied in the requested order;
    /// `NotFound` when a requested name is missing, `InvalidArgument` when
    /// a name is requested twice.
    pub fn select(&self, names: &Vec<String>) -> (r: Result<Table, EngineError>)
        requires
            self.wf(),
        ensures
            match r {
                Ok(t) => {
                    &&& t.wf()
                    &&& t@.len() == names@.len()
                    &&& forall|i: int| 0 <= i < names@.len()
                        ==> has_col(self@, #[trigger] t@[i], names@[i]@)
                },
                Err(e) => {
                    ||| (e == EngineError::NotFound
                        && exists|i: int| 0 <= i < names@.len()
                            && forall|j: int| 0 <= j < self@.len()
                                ==> (#[trigger] self@[j].name) != (#[trigger] names@[i])@)
                    ||| (e == EngineError::InvalidArgument
                        && exists|p: int, q: int| 0 <= p < q < names@.len()
                            && (#[trigger] names@[p])@ == (#[trigger] names@[q])@)
                },
            },
    {
        let mut out: Vec<Column> = Vec::new();
        let mut i: usize = 0;
        while i < names.len()
            invariant
                self.wf(),
                i <= names@.len(),
                out@.len() == i,
                forall|j: int| 0 <= j < i ==> (#[trigger] out@[j]).wf(),
                forall|j: int| 0 <= j < i
                    ==> has_col(self@, (#[trigger] out@[j])@, names@[j]@),
            decreases names@.len() - i,
        {
            match self.column(names[i].as_str()) {
                Ok(c) => {
                    proof {
                        assert(has_col(self@, c@, names@[i as int]@));
                    }
                    out.push(c);
                },
                Err(_) => {
                    return Err(EngineError::NotFound);
                },
            }
            i = i + 1;
        }
        let ghost outv = out@;
        proof {
            let colsv = outv.map_values(|c: Column| c@);
            assert forall|j: int| 0 <= j < colsv.len()
                implies (#[trigger] colsv[j].cells.len()) == spec_height(colsv) by {
                let k0 = choose|k: int| 0 <= k < self@.len() && outv[0]@ == self@[k]
                    && self@[k].name == names@[0]@;
                let kj = choose|k: int| 0 <= k < self@.len() && outv[j]@ == self@[k]
                    && self@[k].name == names@[j]@;
                assert(heights_equal(self@));
            }
        }
        match Table::new(out) {
            Ok(t) => {
                proof {
                    assert forall|j: int| 0 <= j < names@.len()
                        implies has_col(self@, #[trigger] t@[j], names@[j]@) by {
                        assert(t@[j] == outv[j]@);
                        assert(has_col(self@, outv[j]@, names@[j]@));
                    }
                }
                Ok(t)
            },
            Err(e) => {
                proof {
                    let colsv = outv.map_values(|c: Column| c@);
                    assert(e == EngineError::InvalidArgument && !names_unique(colsv));
                    let (p, q) = choose|p: int, q: int| 0 <= p < q < colsv.len()
                        && (#[trigger] colsv[p].name) == (#[trigger] colsv[q].name);
                    assert(colsv[p].name == names@[p]@);
                    assert(colsv[q].name == names@[q]@);
                    assert((names@[p])@ == (names@[q])@);
                }
                Err(EngineError::InvalidArgument)
            },
        }
    }

    /// The table without the named column; `NotFound` exactly when no
    /// column carries the name.
    pub fn drop(&self, name: &str) -> (r: Result<Table, EngineError>)
        requires
            self.wf(),
        ensures
            match r {
                Ok(t) => {
                    &&& t.wf()
                    &&& exists|i: int| 0 <= i < self@.len()
                        && #[trigger] self@[i].name == name@
                        && t@ == self@.remove(i)
                },
                Err(e) => {
                    &&& e == EngineError::NotFound
                    &&& forall|i: int| 0 <= i < self@.len()
                        ==> (#[trigger] self@[i].name) != name@
                },
            },
    {
        let idx = match self.find_idx_by_name(name) {
            Some(i) => i,
            None => {
                return Err(EngineError::NotFound);
            },
        };
        let mut out: Vec<Column> = self.get_columns();
        out.remove(idx);
        let t = Table { cols: out };
        proof {
            assert(t@ =~= self@.remove(idx as int));
            assert forall|i: int| 0 <= i < t@.len()
                implies (#[trigger] t@[i].cells.len()) == spec_height(t@) by {
                assert(heights_equal(self@));
            }
            assert(names_unique(t@)) by {
                assert(names_unique(self@));
                assert forall|p: int, q: int| 0 <= p < q < t@.len()
                    implies (#[trigger] t@[p].name) != (#[trigger] t@[q].name) by {
                    let p2: int = if p < idx { p } else { p + 1 };
                    let q2: int = if q < idx { q } else { q + 1 };
                    assert(t@[p] == self@[p2]);
                    assert(t@[q] == self@[q2]);
                }
            }
        }
        Ok(t)
    }

    /// Removes the named column from this table and hands it back;
    /// `NotFound` exactly when no column carries the name, the table then
    /// unchanged.
    pub fn drop_in_place(&mut self, name: &str) -> (r: Result<Column, EngineError>)
        requires
            old(self).wf(),
        ensures
            final(self).wf(),
            match r {
                Ok(c) => {
                    &&& c.wf()
                    &&& exists|i: int| 0 <= i < old(self)@.len()
                        && #[trigger] old(self)@[i].name == name@
                        && c@ == old(self)@[i]
                        && final(self)@ == old(self)@.remove(i)
                },
                Err(e) => {
                    &&& e == EngineError::NotFound
                    &&& final(self)@ == old(self)@
                    &&& forall|i: int| 0 <= i < old(self)@.len()
                        ==> (#[trigger] old(self)@[i].name) != name@
                },
            },
    {
        let idx = match self.find_idx_by_name(name) {
            Some(i) => i,
            None => {
                return Err(EngineError::NotFound);
            },
        };
        let c = self.cols.remove(idx);
        proof {
            assert(final(self)@ =~= old(self)@.remove(idx as int));
            assert forall|i: int| 0 <= i < final(self)@.len()
                implies (#[trigger] final(self)@[i].cells.len()) == spec_height(final(self)@) by {
                assert(heights_equal(old(self)@));
            }
            assert(names_unique(final(self)@)) by {
                assert forall|p: int, q: int| 0 <= p < q < final(self)@.len()
                    implies (#[trigger] final(self)@[p].name)
                        != (#[trigger] final(self)@[q].name) by {
                    let p2: int = if p < idx { p } else { p + 1 };
                    let q2: int = if q < idx { q } else { q + 1 };
                    assert(final(self)@[p] == old(self)@[p2]);
                    assert(final(self)@[q] == old(self)@[q2]);
                    assert(names_unique(old(self)@));
                }
            }
            assert(old(self).cols@[idx as int].wf());
        }
        Ok(c)
    }
}


/// How many rows a boolean mask keeps.
pub open spec fn count_keep(mask: Seq<Option<DatumV>>) -> int
    decreases mask.len(),
{
    if mask.len() == 0 {
        0
    } else {
        count_keep(mask.drop_last()) + if mask.last()
            == Some(DatumV::Sc(crate::types::ScalarV::Bool(true))) {
            1int
        } else {
            0int
        }
    }
}

/// A mask keeps the same number of rows from every equally long column.
pub proof fn lemma_mask_keep_len(cells: Seq<Option<DatumV>>, mask: Seq<Option<DatumV>>)
    requires
        cells.len() == mask.len(),
    ensures
        mask_keep(cells, mask).len() == count_keep(mask),
    decreases cells.len(),
{
    if cells.len() > 0 {
        lemma_mask_keep_len(cells.drop_last(), mask.drop_last());
    }
}

impl Table {
    /// Builds a table from already well-formed columns whose shape facts
    /// the caller has established.
    pub(crate) fn assemble(cols: Vec<Column>) -> (r: Table)
        requires
            forall|i: int| 0 <= i < cols@.len() ==> (#[trigger] cols@[i]).wf(),
            names_unique(cols@.map_values(|c: Column| c@)),
            heights_equal(cols@.map_values(|c: Column| c@)),
        ensures
            r.wf(),
            r@ == cols@.map_values(|c: Column| c@),
    {
        Table { cols }
    }

    /// The rows where `mask` holds true, in every column. `TypeMismatch`
    /// when the mask is not boolean, `LengthMismatch` when its length is
    /// not the table's height.
    pub fn filter(&self, mask: &Column) -> (r: Result<Table, EngineError>)
        requires
            self.wf(),
            mask.wf(),
        ensures
            match r {
                Ok(t) => {
                    &&& mask@.dtype == TypeTag::Bool
                    &&& mask@.cells.len() == spec_height(self@)
                    &&& t.wf()
                    &&& t@.len() == self@.len()
                    &&& forall|i: int| 0 <= i < self@.len()
                        ==> #[trigger] t@[i] == (ColumnV {
                            cells: mask_keep(self@[i].cells, mask@.cells),
                            ..self@[i]
                        })
                },
                Err(e) => {
                    ||| (e == EngineError::TypeMismatch && mask@.dtype != TypeTag::Bool)
                    ||| (e == EngineError::LengthMismatch && mask@.dtype == TypeTag::Bool
                        && mask@.cells.len() != spec_height(self@))
                },
            },
    {
        if !matches!(mask.dtype(), TypeTag::Bool) {
            return Err(EngineError::TypeMismatch);
        }
        if mask.len() != self.height() {
            return Err(EngineError::LengthMismatch);
        }
        let mut out: Vec<Column> = Vec::new();
        let mut i: usize = 0;
        while i < self.cols.len()
            invariant
                self.wf(),
                mask.wf(),
                mask@.dtype == TypeTag::Bool,
                mask@.cells.len() == spec_height(self@),
                i <= self.cols@.len(),
                self@.len() == self.cols@.len(),
                out@.len() == i,
                forall|j: int| 0 <= j < i ==> (#[trigger] out@[j]).wf(),
                forall|j: int| 0 <= j < i
                    ==> (#[trigger] out@[j])@ == (ColumnV {
                        cells: mask_keep(self@[j].cells, mask@.cells),
                        ..self@[j]
                    }),
            decreases self.cols@.len() - i,
        {
            proof {
                assert(self.cols@[i as int].wf());
                assert(self@[i as int].cells.len() == spec_height(self@));
            }
            match self.cols[i].filter(mask) {
                Ok(c) => {
                    out.push(c);
                },
                Err(_) => {
                    proof {
                        assert(false);
                    }
                    return Err(EngineError::InternalError);
                },
            }
            i = i + 1;
        }
        let ghost outv = out@.map_values(|c: Column| c@);
        proof {
            assert forall|j: int| 0 <= j < outv.len()
                implies (#[trigger] outv[j].cells.len()) == spec_height(outv) by {
                lemma_mask_keep_len(self@[j].cells, mask@.cells);
                if outv.len() > 0 {
                    lemma_mask_keep_len(self@[0].cells, mask@.cells);
                }
            }
            assert(names_unique(outv)) by {
                assert forall|p: int, q: int| 0 <= p < q < outv.len()
                    implies (#[trigger] outv[p].name) != (#[trigger] outv[q].name) by {
                    assert(names_unique(self@));
                    assert(self@[p].name != self@[q].name);
                }
            }
        }
        Ok(Table::assemble(out))
    }

    /// The rows at the given positions, in that order, in every column;
    /// `IndexOutOfBounds` exactly when an index is past the height.
    pub fn take(&self, indices: &Vec<usize>) -> (r: Result<Table, EngineError>)
        requires
            self.wf(),
        ensures
            match r {
                Ok(t) => {
                    &&& t.wf()
                    &&& t@.len() == self@.len()
                    &&& forall|i: int| 0 <= i < indices@.len()
                        ==> #[trigger] indices@[i] < spec_height(self@)
                    &&& forall|i: int| 0 <= i < self@.len()
                        ==> (#[trigger] t@[i]).name == self@[i].name
                            && t@[i].dtype == self@[i].dtype
                            && t@[i].cells.len() == indices@.len()
                            && forall|k: int| 0 <= k < indices@.len()
                                ==> #[trigger] t@[i].cells[k]
                                    == self@[i].cells[indices@[k] as int]
                },
                Err(e) => {
                    &&& e == EngineError::IndexOutOfBounds
                    &&& exists|i: int| 0 <= i < indices@.len()
                        && #[trigger] indices@[i] >= spec_height(self@)
                },
            },
    {
        // validate against the height once; every column has that length
        let h = self.height();
        let mut k: usize = 0;
        while k < indices.len()
            invariant
                k <= indices@.len(),
                h == spec_height(self@),
                forall|j: int| 0 <= j < k ==> #[trigger] indices@[j] < spec_height(self@),
            decreases indices@.len() - k,
        {
            if indices[k] >= h {
                return Err(EngineError::IndexOutOfBounds);
            }
            k = k + 1;
        }
        let mut out: Vec<Column> = Vec::new();
        let mut i: usize = 0;
        while i < self.cols.len()
            invariant
                self.wf(),
                i <= self.cols@.len(),
                self@.len() == self.cols@.len(),
                forall|j: int| 0 <= j < indices@.len()
                    ==> #[trigger] indices@[j] < spec_height(self@),
                out@.len() == i,
                forall|j: int| 0 <= j < i ==> (#[trigger] out@[j]).wf(),
                forall|j: int| 0 <= j < i
                    ==> (#[trigger] out@[j])@.name == self@[j].name
                        && out@[j]@.dtype == self@[j].dtype
                        && out@[j]@.cells.len() == indices@.len()
                        && forall|k2: int| 0 <= k2 < indices@.len()
                            ==> #[trigger] out@[j]@.cells[k2]
                                == self@[j].cells[indices@[k2] as int],
            decreases self.cols@.len() - i,
        {
            proof {
                assert(self.cols@[i as int].wf());
                assert(self@[i as int].cells.len() == spec_height(self@));
            }
            match self.cols[i].take(indices) {
                Ok(c) => {
                    out.push(c);
                },
                Err(_) => {
                    proof {
                        assert(false);
                    }
                    return Err(EngineError::InternalError);
                },
            }
            i = i + 1;
        }
        let ghost outv = out@.map_values(|c: Column| c@);
        proof {
            assert forall|j: int| 0 <= j < outv.len()
                implies (#[trigger] outv[j].cells.len()) == spec_height(outv) by {}
            assert(names_unique(outv)) by {
                assert forall|p: int, q: int| 0 <= p < q < outv.len()
                    implies (#[trigger] outv[p].name) != (#[trigger] outv[q].name) by {
                    assert(names_unique(self@));
                    assert(self@[p].name != self@[q].name);
                }
            }
        }
        Ok(Table::assemble(out))
    }

    /// The contiguous rows `[offset, offset + length)` of every column;
    /// `IndexOutOfBounds` exactly when the range leaves the table.
    pub fn slice(&self, offset: usize, length: usize) -> (r: Result<Table, EngineError>)
        requires
            self.wf(),
        ensures
            match r {
                Ok(t) => {
                    &&& offset + length <= spec_height(self@)
                    &&& t.wf()
                    &&& t@.len() == self@.len()
                    &&& forall|i: int| 0 <= i < self@.len()
                        ==> #[trigger] t@[i] == (ColumnV {
                            cells: self@[i].cells.subrange(offset as int, offset + length),
                            ..self@[i]
                        })
                },
                Err(e) => {
                    &&& e == EngineError::IndexOutOfBounds
                    &&& offset + length > spec_height(self@)
                },
            },
    {
        let h = self.height();
        if offset > h || length > h - offset {
            return Err(EngineError::IndexOutOfBounds);
        }
        let mut out: Vec<Column> = Vec::new();
        let mut i: usize = 0;
        while i < self.cols.len()
            invariant
                self.wf(),
                i <= self.cols@.len(),
                self@.len() == self.cols@.len(),
                offset + length <= spec_height(self@),
                out@.len() == i,
                forall|j: int| 0 <= j < i ==> (#[trigger] out@[j]).wf(),
                forall|j: int| 0 <= j < i
                    ==> (#[trigger] out@[j])@ == (ColumnV {
                        cells: self@[j].cells.subrange(offset as int, offset + length),
                        ..self@[j]
                    }),
            decreases self.cols@.len() - i,
        {
            proof {
                assert(self.cols@[i as int].wf());
                assert(self@[i as int].cells.len() == spec_height(self@));
            }
            match self.cols[i].slice(offset, length) {
                Ok(c) => {
                    out.push(c);
                },
                Err(_) => {
                    proof {
                        assert(false);
                    }
                    return Err(EngineError::InternalError);
                },
            }
            i = i + 1;
        }
        let ghost outv = out@.map_values(|c: Column| c@);
        proof {
            assert forall|j: int| 0 <= j < outv.len()
                implies (#[trigger] outv[j].cells.len()) == spec_height(outv) by {}
            assert(names_unique(outv)) by {
                assert forall|p: int, q: int| 0 <= p < q < outv.len()
                    implies (#[trigger] outv[p].name) != (#[trigger] outv[q].name) by {
                    assert(names_unique(self@));
                    assert(self@[p].name != self@[q].name);
                }
            }
        }
        Ok(Table::assemble(out))
    }

    /// The first rows of the table, ten when no count is given.
    pub fn head(&self, n: Option<usize>) -> (r: Table)
        requires
            self.wf(),
        ensures
            r.wf(),
            r@.len() == self@.len(),
            forall|i: int| 0 <= i < self@.len()
                ==> #[trigger] r@[i] == (ColumnV {
                    cells: self@[i].cells.subrange(
                        0,
                        crate::column::spec_min(
                            match n { Some(k) => k as int, None => 10 },
                            spec_height(self@),
                        ),
                    ),
                    ..self@[i]
                }),
    {
        let k = match n {
            Some(k) => k,
            None => 10,
        };
        let h = self.height();
        let take_n = if k < h { k } else { h };
        match self.slice(0, take_n) {
            Ok(t) => t,
            Err(_) => {
                proof {
                    assert(false);
                }
                self.duplicate()
            },
        }
    }

    /// The last rows of the table, ten when no count is given.
    pub fn tail(&self, n: Option<usize>) -> (r: Table)
        requires
            self.wf(),
        ensures
            r.wf(),
            r@.len() == self@.len(),
            forall|i: int| 0 <= i < self@.len()
                ==> #[trigger] r@[i] == (ColumnV {
                    cells: self@[i].cells.subrange(
                        spec_height(self@) - crate::column::spec_min(
                            match n { Some(k) => k as int, None => 10 },
                            spec_height(self@),
                        ),
                        spec_height(self@),
                    ),
                    ..self@[i]
                }),
    {
        let k = match n {
            Some(k) => k,
            None => 10,
        };
        let h = self.height();
        let take_n = if k < h { k } else { h };
        match self.slice(h - take_n, take_n) {
            Ok(t) => t,
            Err(_) => {
                proof {
                    assert(false);
                }
                self.duplicate()
            },
        }
    }

    /// Every column's cells moved by `periods`, vacated slots null.
    pub fn shift(&self, periods: i64) -> (r: Table)
        requires
            self.wf(),
        ensures
            r.wf(),
            r@.len() == self@.len(),
            forall|i: int| 0 <= i < self@.len()
                ==> #[trigger] r@[i] == (ColumnV {
                    cells: shifted(self@[i].cells, periods as int),
                    ..self@[i]
                }),
    {
        let mut out: Vec<Column> = Vec::new();
        let mut i: usize = 0;
        while i < self.cols.len()
            invariant
                self.wf(),
                i <= self.cols@.len(),
                self@.len() == self.cols@.len(),
                out@.len() == i,
                forall|j: int| 0 <= j < i ==> (#[trigger] out@[j]).wf(),
                forall|j: int| 0 <= j < i
                    ==> (#[trigger] out@[j])@ == (ColumnV {
                        cells: shifted(self@[j].cells, periods as int),
                        ..self@[j]
                    }),
            decreases self.cols@.len() - i,
        {
            proof {
                assert(self.cols@[i as int].wf());
            }
            out.push(self.cols[i].shift(periods));
            i = i + 1;
        }
        let ghost outv = out@.map_values(|c: Column| c@);
        proof {
            assert forall|j: int| 0 <= j < outv.len()
                implies (#[trigger] outv[j].cells.len()) == spec_height(outv) by {
                assert(heights_equal(self@));
            }
            assert(names_unique(outv)) by {
                assert forall|p: int, q: int| 0 <= p < q < outv.len()
                    implies (#[trigger] outv[p].name) != (#[trigger] outv[q].name) by {
                    assert(names_unique(self@));
                    assert(self@[p].name != self@[q].name);
                }
            }
        }
        Table::assemble(out)
    }

    /// The table with the given columns appended; `LengthMismatch` when a
    /// new column's length is not the table's height, `InvalidArgument`
    /// when a name would repeat.
    pub fn hstack(&self, new_cols: &Vec<Column>) -> (r: Result<Table, EngineError>)
        requires
            self.wf(),
            forall|i: int| 0 <= i < new_cols@.len() ==> (#[trigger] new_cols@[i]).wf(),
        ensures
            match r {
                Ok(t) => {
                    &&& t.wf()
                    &&& t@ == self@ + new_cols@.map_values(|c: Column| c@)
                },
                Err(e) => {
                    ||| (e == EngineError::LengthMismatch
                        && !heights_equal(self@ + new_cols@.map_values(|c: Column| c@)))
                    ||| (e == EngineError::InvalidArgument
                        && !names_unique(self@ + new_cols@.map_values(|c: Column| c@)))
                },
            },
    {
        let h = self.height();
        let mut out: Vec<Column> = self.get_columns();
        let mut i: usize = 0;
        while i < new_cols.len()
            invariant
                self.wf(),
                i <= new_cols@.len(),
                h == spec_height(self@),
                out@.len() == self@.len() + i,
                forall|j: int| 0 <= j < new_cols@.len() ==> (#[trigger] new_cols@[j]).wf(),
                forall|j: int| 0 <= j < out@.len() ==> (#[trigger] out@[j]).wf(),
                forall|j: int| 0 <= j < self@.len() ==> (#[trigger] out@[j])@ == self@[j],
                forall|j: int| 0 <= j < i
                    ==> (#[trigger] out@[self@.len() + j])@ == new_cols@[j]@,
            decreases new_cols@.len() - i,
        {
            if self.cols.len() > 0 && new_cols[i].len() != h {
                proof {
                    let comb = self@ + new_cols@.map_values(|c: Column| c@);
                    assert(comb[0] == self@[0]);
                    assert(spec_height(comb) == spec_height(self@));
                    assert(comb[self@.len() + i].cells.len() != spec_height(comb));
                }
                return Err(EngineError::LengthMismatch);
            }
            out.push(new_cols[i].duplicate());
            i = i + 1;
        }
        proof {
            assert forall|j: int| 0 <= j < out@.len()
                implies (#[trigger] out@[j])@
                    == (self@ + new_cols@.map_values(|c: Column| c@))[j] by {
                if j >= self@.len() {
                    let k = j - self@.len();
                    assert(out@[self@.len() + k]@ == new_cols@[k]@);
                }
            }
            assert(out@.map_values(|c: Column| c@)
                =~= self@ + new_cols@.map_values(|c: Column| c@));
        }
        match Table::new(out) {
            Ok(t) => Ok(t),
            Err(e) => {
                if matches!(e, EngineError::LengthMismatch) {
                    Err(EngineError::LengthMismatch)
                } else {
                    Err(EngineError::InvalidArgument)
                }
            },
        }
    }

    /// Appends the given columns to this table in place; on error the
    /// table is unchanged.
    pub fn hstack_mut(&mut self, new_cols: &Vec<Column>) -> (r: Result<(), EngineError>)
        requires
            old(self).wf(),
            forall|i: int| 0 <= i < new_cols@.len() ==> (#[trigger] new_cols@[i]).wf(),
        ensures
            final(self).wf(),
            match r {
                Ok(()) => final(self)@ == old(self)@ + new_cols@.map_values(|c: Column| c@),
                Err(e) => {
                    &&& final(self)@ == old(self)@
                    &&& ({
                        ||| (e == EngineError::LengthMismatch
                            && !heights_equal(
                                old(self)@ + new_cols@.map_values(|c: Column| c@),
                            ))
                        ||| (e == EngineError::InvalidArgument
                            && !names_unique(
                                old(self)@ + new_cols@.map_values(|c: Column| c@),
                            ))
                    })
                },
            },
    {
        match self.hstack(new_cols) {
            Ok(t) => {
                *self = t;
                Ok(())
            },
            Err(e) => Err(e),
        }
    }

    /// The rows of `other` appended to this table in place: the schemas
    /// (names, types, order) must agree exactly, else `SchemaMismatch` and
    /// the table is unchanged.
    pub fn vstack_mut(&mut self, other: &Table) -> (r: Result<(), EngineError>)
        requires
            old(self).wf(),
            other.wf(),
        ensures
            final(self).wf(),
            match r {
                Ok(()) => {
                    &&& final(self)@.len() == old(self)@.len()
                    &&& old(self)@.len() == other@.len()
                    &&& forall|i: int| 0 <= i < old(self)@.len()
                        ==> #[trigger] final(self)@[i] == (ColumnV {
                            cells: old(self)@[i].cells + other@[i].cells,
                            ..old(self)@[i]
                        })
                    &&& forall|i: int| 0 <= i < old(self)@.len()
                        ==> (#[trigger] other@[i]).name == old(self)@[i].name
                            && other@[i].dtype == old(self)@[i].dtype
                },
                Err(e) => {
                    &&& e == EngineError::SchemaMismatch
                    &&& final(self)@ == old(self)@
                    &&& !(other@.len() == old(self)@.len()
                        && forall|i: int| 0 <= i < old(self)@.len()
                            ==> (#[trigger] other@[i]).name == old(self)@[i].name
                                && other@[i].dtype == old(self)@[i].dtype)
                },
            },
    {
        proof {
            crate::types::lemma_tag_code_bijective();
        }
        if self.cols.len() != other.cols.len() {
            return Err(EngineError::SchemaMismatch);
        }
        let mut i: usize = 0;
        while i < self.cols.len()
            invariant
                self.wf(),
                other.wf(),
                self == old(self),
                i <= self.cols@.len(),
                self@.len() == self.cols@.len(),
                other@.len() == other.cols@.len(),
                self@.len() == other@.len(),
                forall|j: int| 0 <= j < i
                    ==> (#[trigger] other@[j]).name == self@[j].name
                        && other@[j].dtype == self@[j].dtype,
            decreases self.cols@.len() - i,
        {
            proof {
                crate::types::lemma_tag_code_bijective();
            }
            let an = self.cols[i].name().to_owned();
            let bn = other.cols[i].name().to_owned();
            if !an.eq(&bn) || self.cols[i].dtype_code() != other.cols[i].dtype_code() {
                proof {
                    assert((#[trigger] other@[i as int]).name != self@[i as int].name
                        || other@[i as int].dtype != self@[i as int].dtype);
                }
                return Err(EngineError::SchemaMismatch);
            }
            i = i + 1;
        }
        let mut out: Vec<Column> = Vec::new();
        let mut k: usize = 0;
        while k < self.cols.len()
            invariant
                self.wf(),
                other.wf(),
                self == old(self),
                k <= self.cols@.len(),
                self@.len() == self.cols@.len(),
                other@.len() == other.cols@.len(),
                self@.len() == other@.len(),
                forall|j: int| 0 <= j < self@.len()
                    ==> (#[trigger] other@[j]).name == self@[j].name
                        && other@[j].dtype == self@[j].dtype,
                out@.len() == k,
                forall|j: int| 0 <= j < k ==> (#[trigger] out@[j]).wf(),
                forall|j: int| 0 <= j < k
                    ==> (#[trigger] out@[j])@ == (ColumnV {
                        cells: self@[j].cells + other@[j].cells,
                        ..self@[j]
                    }),
            decreases self.cols@.len() - k,
        {
            proof {
                assert(self.cols@[k as int].wf());
                assert(other.cols@[k as int].wf());
                assert((#[trigger] other@[k as int]).dtype == self@[k as int].dtype);
            }
            match self.cols[k].append(&other.cols[k]) {
                Ok(c) => {
                    out.push(c);
                },
                Err(_) => {
                    proof {
                        assert(false);
                    }
                    return Err(EngineError::SchemaMismatch);
                },
            }
            k = k + 1;
        }
        let ghost outv = out@.map_values(|c: Column| c@);
        proof {
            assert forall|j: int| 0 <= j < outv.len()
                implies (#[trigger] outv[j].cells.len()) == spec_height(outv) by {
                assert(heights_equal(self@));
                assert(heights_equal(other@));
            }
            assert(names_unique(outv)) by {
                assert forall|p: int, q: int| 0 <= p < q < outv.len()
                    implies (#[trigger] outv[p].name) != (#[trigger] outv[q].name) by {
                    assert(names_unique(self@));
                    assert(self@[p].name != self@[q].name);
                }
            }
        }
        *self = Table::assemble(out);
        Ok(())
    }

    /// A new table with `other`'s rows appended; both inputs untouched.
    pub fn vstack(&self, other: &Table) -> (r: Result<Table, EngineError>)
        requires
            self.wf(),
            other.wf(),
        ensures
            match r {
                Ok(t) => {
                    &&& t.wf()
                    &&& t@.len() == self@.len()
                    &&& self@.len() == other@.len()
                    &&& forall|i: int| 0 <= i < self@.len()
                        ==> #[trigger] t@[i] == (ColumnV {
                            cells: self@[i].cells + other@[i].cells,
                            ..self@[i]
                        })
                },
                Err(e) => {
                    &&& e == EngineError::SchemaMismatch
                    &&& !(other@.len() == self@.len()
                        && forall|i: int| 0 <= i < self@.len()
                            ==> (#[trigger] other@[i]).name == self@[i].name
                                && other@[i].dtype == self@[i].dtype)
                },
            },
    {
        let mut copy = self.duplicate();
        match copy.vstack_mut(other) {
            Ok(()) => Ok(copy),
            Err(e) => Err(e),
        }
    }
}


/// One permutation `idx`, ordered stably on the cells of the key column
/// `ci` with nulls last, carries the source table to the sorted one, every
/// column alike.
pub open spec fn sorted_permutation_of(
    sv: Seq<ColumnV>,
    tv: Seq<ColumnV>,
    ci: int,
    reverse: bool,
    idx: Seq<usize>,
) -> bool {
    &&& 0 <= ci < sv.len()
    &&& tv.len() == sv.len()
    &&& idx.len() == spec_height(sv)
    &&& (forall|k: int| 0 <= k < idx.len() ==> #[trigger] idx[k] < spec_height(sv))
    &&& idx.to_multiset() == ident_indices(spec_height(sv)).to_multiset()
    &&& argsort_ordered(reverse, sv[ci].cells, idx)
    &&& forall|i: int| 0 <= i < sv.len()
        ==> (#[trigger] tv[i]).name == sv[i].name
            && tv[i].dtype == sv[i].dtype
            && tv[i].cells.len() == idx.len()
            && forall|k: int| 0 <= k < idx.len()
                ==> #[trigger] tv[i].cells[k] == sv[i].cells[idx[k] as int]
}

/// Whether two tables agree in column order, names, types and cells.
pub open spec fn frames_match(av: Seq<ColumnV>, bv: Seq<ColumnV>, null_equal: bool) -> bool {
    &&& av.len() == bv.len()
    &&& forall|i: int| 0 <= i < av.len()
        ==> (#[trigger] av[i]).name == bv[i].name
            && av[i].dtype == bv[i].dtype
            && av[i].cells.len() == bv[i].cells.len()
            && forall|k: int| 0 <= k < av[i].cells.len()
                ==> crate::types::spec_cell_eq(
                    #[trigger] av[i].cells[k],
                    bv[i].cells[k],
                    null_equal,
                )
}

/// The key of row `r` over the selected column positions.
pub open spec fn row_key(cols: Seq<ColumnV>, sel: Seq<int>, r: int) -> Seq<Option<DatumV>> {
    Seq::new(sel.len(), |k: int| cols[sel[k]].cells[r])
}

/// Row `r` is the first row carrying its key over the selected columns.
pub open spec fn key_first_occurrence(cols: Seq<ColumnV>, sel: Seq<int>, r: int) -> bool {
    forall|p: int| 0 <= p < r ==> row_key(cols, sel, p) != row_key(cols, sel, r)
}

/// The positions of the selected column names, in order.
pub open spec fn sel_positions(cols: Seq<ColumnV>, names: Seq<Seq<char>>, sel: Seq<int>) -> bool {
    &&& sel.len() == names.len()
    &&& forall|k: int| 0 <= k < sel.len()
        ==> 0 <= #[trigger] sel[k] < cols.len() && cols[sel[k]].name == names[k]
}

impl Table {
    /// Replaces the column at a position, keeping the old name;
    /// `IndexOutOfBounds` when the position is past the width,
    /// `LengthMismatch` when the new column's length is not the height. On
    /// error the table is unchanged.
    pub fn replace_at_idx(&mut self, idx: usize, new_col: &Column) -> (r: Result<
        (),
        EngineError,
    >)
        requires
            old(self).wf(),
            new_col.wf(),
        ensures
            final(self).wf(),
            match r {
                Ok(()) => {
                    &&& idx < old(self)@.len()
                    &&& new_col@.cells.len() == spec_height(old(self)@)
                    &&& final(self)@ == old(self)@.update(idx as int, ColumnV {
                        name: old(self)@[idx as int].name,
                        dtype: new_col@.dtype,
                        cells: new_col@.cells,
                    })
                },
                Err(e) => {
                    &&& final(self)@ == old(self)@
                    &&& ({
                        ||| (e == EngineError::IndexOutOfBounds && idx >= old(self)@.len())
                        ||| (e == EngineError::LengthMismatch && idx < old(self)@.len()
                            && new_col@.cells.len() != spec_height(old(self)@))
                    })
                },
            },
    {
        if idx >= self.cols.len() {
            return Err(EngineError::IndexOutOfBounds);
        }
        if new_col.len() != self.height() {
            return Err(EngineError::LengthMismatch);
        }
        let name = self.cols[idx].name().to_owned();
        let renamed = new_col.rename(name);
        let ghost oldv = self@;
        self.cols.remove(idx);
        self.cols.insert(idx, renamed);
        proof {
            assert(final(self)@ =~= oldv.update(idx as int, ColumnV {
                name: oldv[idx as int].name,
                dtype: new_col@.dtype,
                cells: new_col@.cells,
            }));
            assert forall|i: int| 0 <= i < final(self)@.len()
                implies (#[trigger] final(self)@[i].cells.len()) == spec_height(final(self)@) by {
                assert(heights_equal(oldv));
                assert(oldv[0].cells.len() == spec_height(oldv));
            }
            assert(names_unique(final(self)@)) by {
                assert forall|p: int, q: int| 0 <= p < q < final(self)@.len()
                    implies (#[trigger] final(self)@[p].name)
                        != (#[trigger] final(self)@[q].name) by {
                    assert(names_unique(oldv));
                    assert(oldv[p].name != oldv[q].name);
                }
            }
        }
        Ok(())
    }

    /// Replaces the named column, keeping the name; `NotFound` when the
    /// name is missing, `LengthMismatch` when the new column's length is
    /// not the height. On error the table is unchanged.
    pub fn replace(&mut self, name: &str, new_col: &Column) -> (r: Result<(), EngineError>)
        requires
            old(self).wf(),
            new_col.wf(),
        ensures
            final(self).wf(),
            match r {
                Ok(()) => exists|i: int| {
                    &&& 0 <= i < old(self)@.len()
                    &&& #[trigger] old(self)@[i].name == name@
                    &&& new_col@.cells.len() == spec_height(old(self)@)
                    &&& final(self)@ == old(self)@.update(i, ColumnV {
                        name: old(self)@[i].name,
                        dtype: new_col@.dtype,
                        cells: new_col@.cells,
                    })
                },
                Err(e) => {
                    &&& final(self)@ == old(self)@
                    &&& ({
                        ||| (e == EngineError::NotFound
                            && forall|i: int| 0 <= i < old(self)@.len()
                                ==> (#[trigger] old(self)@[i].name) != name@)
                        ||| (e == EngineError::LengthMismatch
                            && new_col@.cells.len() != spec_height(old(self)@))
                    })
                },
            },
    {
        let idx = match self.find_idx_by_name(name) {
            Some(i) => i,
            None => {
                return Err(EngineError::NotFound);
            },
        };
        match self.replace_at_idx(idx, new_col) {
            Ok(()) => Ok(()),
            Err(e) => {
                if matches!(e, EngineError::LengthMismatch) {
                    Err(EngineError::LengthMismatch)
                } else {
                    proof {
                        assert(false);
                    }
                    Err(EngineError::InternalError)
                }
            },
        }
    }

    /// Inserts a column at a position; `IndexOutOfBounds` when the position
    /// is past one-past-the-end, `LengthMismatch` when the column's length
    /// is not the height, `InvalidArgument` when the name already exists.
    /// On error the table is unchanged.
    pub fn insert_at_idx(&mut self, idx: usize, new_col: &Column) -> (r: Result<
        (),
        EngineError,
    >)
        requires
            old(self).wf(),
            new_col.wf(),
        ensures
            final(self).wf(),
            match r {
                Ok(()) => {
                    &&& idx <= old(self)@.len()
                    &&& (old(self)@.len() > 0 ==> new_col@.cells.len()
                        == spec_height(old(self)@))
                    &&& final(self)@ == old(self)@.insert(idx as int, new_col@)
                },
                Err(e) => {
                    &&& final(self)@ == old(self)@
                    &&& ({
                        ||| (e == EngineError::IndexOutOfBounds && idx > old(self)@.len())
                        ||| (e == EngineError::LengthMismatch && old(self)@.len() > 0
                            && new_col@.cells.len() != spec_height(old(self)@))
                        ||| (e == EngineError::InvalidArgument
                            && exists|i: int| 0 <= i < old(self)@.len()
                                && (#[trigger] old(self)@[i]).name == new_col@.name)
                    })
                },
            },
    {
        if idx > self.cols.len() {
            return Err(EngineError::IndexOutOfBounds);
        }
        if self.cols.len() > 0 && new_col.len() != self.height() {
            return Err(EngineError::LengthMismatch);
        }
        if self.find_idx_by_name(new_col.name()).is_some() {
            return Err(EngineError::InvalidArgument);
        }
        let ghost oldv = self@;
        self.cols.insert(idx, new_col.duplicate());
        proof {
            assert(final(self)@ =~= oldv.insert(idx as int, new_col@));
            assert forall|i: int| 0 <= i < final(self)@.len()
                implies (#[trigger] final(self)@[i].cells.len()) == spec_height(final(self)@) by {
                assert(heights_equal(oldv));
                if oldv.len() > 0 {
                    assert(oldv[0].cells.len() == spec_height(oldv));
                }
            }
            assert(names_unique(final(self)@)) by {
                assert forall|p: int, q: int| 0 <= p < q < final(self)@.len()
                    implies (#[trigger] final(self)@[p].name)
                        != (#[trigger] final(self)@[q].name) by {
                    assert(names_unique(oldv));
                    let p2: int = if p < idx { p } else { p - 1 };
                    let q2: int = if q < idx { q } else { q - 1 };
                    if p != idx && q != idx {
                        assert(final(self)@[p] == oldv[p2]);
                        assert(final(self)@[q] == oldv[q2]);
                        assert(oldv[p2].name != oldv[q2].name);
                    } else if p == idx {
                        assert(final(self)@[p] == new_col@);
                        assert(final(self)@[q] == oldv[q2]);
                        assert(oldv[q2].name != new_col@.name);
                    } else {
                        assert(final(self)@[q] == new_col@);
                        assert(final(self)@[p] == oldv[p2]);
                        assert(oldv[p2].name != new_col@.name);
                    }
                }
            }
        }
        Ok(())
    }

    /// Renames all columns at once; `LengthMismatch` when the number of
    /// names differs from the width, `InvalidArgument` when two names
    /// repeat. On error the table is unchanged.
    pub fn set_column_names(&mut self, names: &Vec<String>) -> (r: Result<(), EngineError>)
        requires
            old(self).wf(),
        ensures
            final(self).wf(),
            match r {
                Ok(()) => {
                    &&& names@.len() == old(self)@.len()
                    &&& final(self)@.len() == old(self)@.len()
                    &&& forall|i: int| 0 <= i < old(self)@.len()
                        ==> #[trigger] final(self)@[i] == (ColumnV {
                            name: names@[i]@,
                            ..old(self)@[i]
                        })
                },
                Err(e) => {
                    &&& final(self)@ == old(self)@
                    &&& ({
                        ||| (e == EngineError::LengthMismatch
                            && names@.len() != old(self)@.len())
                        ||| (e == EngineError::InvalidArgument
                            && exists|p: int, q: int| 0 <= p < q < names@.len()
                                && (#[trigger] names@[p])@ == (#[trigger] names@[q])@)
                    })
                },
            },
    {
        if names.len() != self.cols.len() {
            return Err(EngineError::LengthMismatch);
        }
        let mut out: Vec<Column> = Vec::new();
        let mut i: usize = 0;
        while i < self.cols.len()
            invariant
                self.wf(),
                self == old(self),
                i <= self.cols@.len(),
                self@.len() == self.cols@.len(),
                names@.len() == self@.len(),
                out@.len() == i,
                forall|j: int| 0 <= j < i ==> (#[trigger] out@[j]).wf(),
                forall|j: int| 0 <= j < i
                    ==> (#[trigger] out@[j])@ == (ColumnV { name: names@[j]@, ..self@[j] }),
            decreases self.cols@.len() - i,
        {
            proof {
                assert(self.cols@[i as int].wf());
            }
            out.push(self.cols[i].rename(names[i].clone()));
            i = i + 1;
        }
        let ghost outv = out@.map_values(|c: Column| c@);
        // the new names must be pairwise distinct
        let mut p: usize = 0;
        while p < names.len()
            invariant
                self.wf(),
                self == old(self),
                p <= names@.len(),
                forall|a: int, b: int| 0 <= a < b < names@.len() && a < p
                    ==> (#[trigger] names@[a])@ != (#[trigger] names@[b])@,
            decreases names@.len() - p,
        {
            let mut q: usize = p + 1;
            while q < names.len()
                invariant
                    self.wf(),
                    self == old(self),
                    p < names@.len(),
                    p < q <= names@.len() || q == p + 1,
                    forall|b: int| p < b < q ==> names@[p as int]@ != (#[trigger] names@[b])@,
                decreases names@.len() - q,
            {
                if names[p].eq(&names[q]) {
                    return Err(EngineError::InvalidArgument);
                }
                q = q + 1;
            }
            p = p + 1;
        }
        proof {
            assert forall|j: int| 0 <= j < outv.len()
                implies (#[trigger] outv[j].cells.len()) == spec_height(outv) by {
                assert(heights_equal(self@));
                if outv.len() > 0 {
                    assert(self@[0].cells.len() == spec_height(self@));
                }
            }
            assert(names_unique(outv)) by {
                assert forall|a: int, b: int| 0 <= a < b < outv.len()
                    implies (#[trigger] outv[a].name) != (#[trigger] outv[b].name) by {
                    assert(names@[a]@ != names@[b]@);
                }
            }
        }
        *self = Table::assemble(out);
        Ok(())
    }

    /// Merges every column's chunks into one; the content is unchanged.
    pub fn rechunk(&mut self)
        requires
            old(self).wf(),
        ensures
            final(self).wf(),
            final(self)@ == old(self)@,
    {
        let mut out: Vec<Column> = Vec::new();
        let mut i: usize = 0;
        while i < self.cols.len()
            invariant
                self.wf(),
                self == old(self),
                i <= self.cols@.len(),
                self@.len() == self.cols@.len(),
                out@.len() == i,
                forall|j: int| 0 <= j < i ==> (#[trigger] out@[j]).wf(),
                forall|j: int| 0 <= j < i ==> (#[trigger] out@[j])@ == self@[j],
            decreases self.cols@.len() - i,
        {
            proof {
                assert(self.cols@[i as int].wf());
            }
            out.push(self.cols[i].rechunk());
            i = i + 1;
        }
        let ghost outv = out@.map_values(|c: Column| c@);
        proof {
            assert(outv =~= self@);
        }
        *self = Table::assemble(out);
    }

    /// Whether two tables agree in column order, names, types and cells;
    /// `null_equal` decides whether a null cell equals a null cell.
    pub fn frame_equal(&self, other: &Table, null_equal: bool) -> (r: bool)
        requires
            self.wf(),
            other.wf(),
        ensures
            r == frames_match(self@, other@, null_equal),
    {
        if self.cols.len() != other.cols.len() {
            return false;
        }
        let mut i: usize = 0;
        while i < self.cols.len()
            invariant
                self.wf(),
                other.wf(),
                i <= self.cols@.len(),
                self@.len() == self.cols@.len(),
                other@.len() == other.cols@.len(),
                self@.len() == other@.len(),
                forall|j: int| 0 <= j < i
                    ==> (#[trigger] self@[j]).name == other@[j].name
                        && self@[j].dtype == other@[j].dtype
                        && self@[j].cells.len() == other@[j].cells.len()
                        && forall|k: int| 0 <= k < self@[j].cells.len()
                            ==> crate::types::spec_cell_eq(
                                #[trigger] self@[j].cells[k],
                                other@[j].cells[k],
                                null_equal,
                            ),
            decreases self.cols@.len() - i,
        {
            proof {
                assert(self.cols@[i as int].wf());
                assert(other.cols@[i as int].wf());
            }
            let an = self.cols[i].name().to_owned();
            let bn = other.cols[i].name().to_owned();
            if !an.eq(&bn) {
                proof {
                    assert((#[trigger] self@[i as int]).name != other@[i as int].name);
                }
                return false;
            }
            if !self.cols[i].series_equal(&other.cols[i], null_equal) {
                proof {
                    assert(!((#[trigger] self@[i as int]).name == other@[i as int].name
                        && self@[i as int].dtype == other@[i as int].dtype
                        && self@[i as int].cells.len() == other@[i as int].cells.len()
                        && forall|k: int| 0 <= k < self@[i as int].cells.len()
                            ==> crate::types::spec_cell_eq(
                                #[trigger] self@[i as int].cells[k],
                                other@[i as int].cells[k],
                                null_equal,
                            )));
                }
                return false;
            }
            i = i + 1;
        }
        true
    }

    /// The table's rows sorted stably by the named column: nulls last in
    /// either direction, ties keeping their original order, every column
    /// permuted the same way. `NotFound` when the name is missing,
    /// `TypeMismatch` when the key column's cells cannot be ordered.
    pub fn sort(&self, by_column: &str, reverse: bool) -> (r: Result<Table, EngineError>)
        requires
            self.wf(),
        ensures
            match r {
                Ok(t) => {
                    &&& t.wf()
                    &&& t@.len() == self@.len()
                    &&& exists|ci: int, idx: Seq<usize>|
                        #[trigger] sorted_permutation_of(self@, t@, ci, reverse, idx)
                            && 0 <= ci < self@.len() && self@[ci].name == by_column@
                },
                Err(e) => {
                    ||| (e == EngineError::NotFound
                        && forall|i: int| 0 <= i < self@.len()
                            ==> (#[trigger] self@[i].name) != by_column@)
                    ||| (e == EngineError::TypeMismatch
                        && exists|i: int| 0 <= i < self@.len()
                            && (#[trigger] self@[i]).name == by_column@
                            && !crate::order::sortable_dtype(self@[i].dtype))
                },
            },
    {
        let ci = match self.find_idx_by_name(by_column) {
            Some(i) => i,
            None => {
                return Err(EngineError::NotFound);
            },
        };
        proof {
            assert(self.cols@[ci as int].wf());
            assert(self@[ci as int].cells.len() == spec_height(self@));
        }
        let idx = match self.cols[ci].argsort(reverse) {
            Ok(idx) => idx,
            Err(_) => {
                proof {
                    assert((#[trigger] self@[ci as int]).name == by_column@
                        && !crate::order::sortable_dtype(self@[ci as int].dtype));
                }
                return Err(EngineError::TypeMismatch);
            },
        };
        match self.take(&idx) {
            Ok(t) => {
                proof {
                    assert(sorted_permutation_of(self@, t@, ci as int, reverse, idx@));
                }
                Ok(t)
            },
            Err(_) => {
                proof {
                    assert(false);
                }
                Err(EngineError::InternalError)
            },
        }
    }

    /// Sorts the table in place, exactly as `sort` does; on error the
    /// table is unchanged, never torn.
    pub fn sort_in_place(&mut self, by_column: &str, reverse: bool) -> (r: Result<
        (),
        EngineError,
    >)
        requires
            old(self).wf(),
        ensures
            final(self).wf(),
            match r {
                Ok(()) => {
                    &&& final(self)@.len() == old(self)@.len()
                    &&& exists|ci: int, idx: Seq<usize>|
                        #[trigger] sorted_permutation_of(
                            old(self)@,
                            final(self)@,
                            ci,
                            reverse,
                            idx,
                        ) && 0 <= ci < old(self)@.len()
                            && old(self)@[ci].name == by_column@
                },
                Err(e) => {
                    &&& final(self)@ == old(self)@
                    &&& ({
                        ||| (e == EngineError::NotFound
                            && forall|i: int| 0 <= i < old(self)@.len()
                                ==> (#[trigger] old(self)@[i].name) != by_column@)
                        ||| (e == EngineError::TypeMismatch
                            && exists|i: int| 0 <= i < old(self)@.len()
                                && (#[trigger] old(self)@[i]).name == by_column@
                                && !crate::order::sortable_dtype(old(self)@[i].dtype))
                    })
                },
            },
    {
        match self.sort(by_column, reverse) {
            Ok(t) => {
                *self = t;
                Ok(())
            },
            Err(e) => Err(e),
        }
    }
}


/// The mask keeping the rows whose key over `sel` appears for the first
/// time.
pub open spec fn dedup_mask(cols: Seq<ColumnV>, sel: Seq<int>) -> Seq<Option<DatumV>> {
    Seq::new(
        spec_height(cols) as nat,
        |r: int| Some(DatumV::Sc(crate::types::ScalarV::Bool(key_first_occurrence(cols, sel, r)))),
    )
}

/// The mask keeping the rows with no null in the selected columns.
pub open spec fn nonnull_mask(cols: Seq<ColumnV>, sel: Seq<int>) -> Seq<Option<DatumV>> {
    Seq::new(
        spec_height(cols) as nat,
        |r: int| Some(DatumV::Sc(crate::types::ScalarV::Bool(
            forall|k: int| 0 <= k < sel.len() ==> (#[trigger] cols[sel[k]].cells[r]) is Some,
        ))),
    )
}

impl Table {
    /// The cells of the selected columns, row-aligned.
    pub(crate) fn selected_cells(&self, sel: &Vec<usize>) -> (r: Vec<Vec<Option<Datum>>>)
        requires
            self.wf(),
            forall|k: int| 0 <= k < sel@.len() ==> #[trigger] sel@[k] < self@.len(),
        ensures
            r@.len() == sel@.len(),
            forall|k: int| 0 <= k < sel@.len()
                ==> (#[trigger] r@[k])@.len() == spec_height(self@),
            forall|k: int, j: int| 0 <= k < sel@.len() && 0 <= j < spec_height(self@)
                ==> cell_view(#[trigger] r@[k]@[j]) == self@[sel@[k] as int].cells[j],
    {
        let mut out: Vec<Vec<Option<Datum>>> = Vec::new();
        let mut k: usize = 0;
        while k < sel.len()
            invariant
                self.wf(),
                k <= sel@.len(),
                forall|t: int| 0 <= t < sel@.len() ==> #[trigger] sel@[t] < self@.len(),
                out@.len() == k,
                forall|t: int| 0 <= t < k
                    ==> (#[trigger] out@[t])@.len() == spec_height(self@),
                forall|t: int, j: int| 0 <= t < k && 0 <= j < spec_height(self@)
                    ==> cell_view(#[trigger] out@[t]@[j]) == self@[sel@[t] as int].cells[j],
            decreases sel@.len() - k,
        {
            let ci = sel[k];
            proof {
                assert(self.cols@[ci as int].wf());
                assert(self@[ci as int].cells.len() == spec_height(self@));
            }
            let cs = self.cols[ci].cells();
            out.push(cs);
            k = k + 1;
        }
        out
    }

    /// Resolves column names to positions; `NotFound` when a name is
    /// missing. Without names, all positions in order.
    pub(crate) fn resolve_subset(&self, subset: &Option<Vec<String>>) -> (r: Result<Vec<usize>, EngineError>)
        requires
            self.wf(),
        ensures
            match r {
                Ok(sel) => {
                    &&& forall|k: int| 0 <= k < sel@.len() ==> #[trigger] sel@[k] < self@.len()
                    &&& match subset {
                        Some(names) => {
                            &&& sel@.len() == names@.len()
                            &&& forall|k: int| 0 <= k < sel@.len()
                                ==> self@[#[trigger] sel@[k] as int].name == names@[k]@
                        },
                        None => sel@.map_values(|u: usize| u as int)
                            =~= Seq::new(self@.len(), |i: int| i),
                    }
                },
                Err(e) => {
                    &&& e == EngineError::NotFound
                    &&& (*subset) matches Some(ns) && some_name_missing(self@, ns@)
                },
            },
    {
        match subset {
            Some(names) => {
                let mut sel: Vec<usize> = Vec::new();
                let mut k: usize = 0;
                while k < names.len()
                    invariant
                        self.wf(),
                        *subset == Some(*names),
                        k <= names@.len(),
                        sel@.len() == k,
                        forall|t: int| 0 <= t < k ==> #[trigger] sel@[t] < self@.len(),
                        forall|t: int| 0 <= t < k
                            ==> self@[#[trigger] sel@[t] as int].name == names@[t]@,
                    decreases names@.len() - k,
                {
                    match self.find_idx_by_name(names[k].as_str()) {
                        Some(i) => {
                            sel.push(i);
                        },
                        None => {
                            proof {
                                assert(*subset == Some(*names));
                                assert(name_missing(self@, (names@[k as int])@));
                                assert(some_name_missing(self@, names@));
                            }
                            return Err(EngineError::NotFound);
                        },
                    }
                    k = k + 1;
                }
                Ok(sel)
            },
            None => {
                let mut sel: Vec<usize> = Vec::new();
                let mut k: usize = 0;
                while k < self.cols.len()
                    invariant
                        self.wf(),
                        k <= self.cols@.len(),
                        self@.len() == self.cols@.len(),
                        sel@.len() == k,
                        forall|t: int| 0 <= t < k ==> #[trigger] sel@[t] == t,
                    decreases self.cols@.len() - k,
                {
                    sel.push(k);
                    k = k + 1;
                }
                proof {
                    assert(sel@.map_values(|u: usize| u as int)
                        =~= Seq::new(self@.len(), |i: int| i));
                }
                Ok(sel)
            },
        }
    }

    /// The boolean mask marking each row whose key over `sel` appears for
    /// the first time.
    fn first_occurrence_mask(&self, sel: &Vec<usize>) -> (r: Column)
        requires
            self.wf(),
            forall|k: int| 0 <= k < sel@.len() ==> #[trigger] sel@[k] < self@.len(),
        ensures
            r.wf(),
            r@.dtype == TypeTag::Bool,
            r@.cells == dedup_mask(self@, sel@.map_values(|u: usize| u as int)),
    {
        let ghost selv = sel@.map_values(|u: usize| u as int);
        let mats = self.selected_cells(sel);
        let h = self.height();
        let mut mask: Vec<Option<Datum>> = Vec::new();
        let mut r: usize = 0;
        while r < h
            invariant
                self.wf(),
                h == spec_height(self@),
                selv == sel@.map_values(|u: usize| u as int),
                forall|k: int| 0 <= k < sel@.len() ==> #[trigger] sel@[k] < self@.len(),
                mats@.len() == sel@.len(),
                forall|k: int| 0 <= k < sel@.len()
                    ==> (#[trigger] mats@[k])@.len() == spec_height(self@),
                forall|k: int, j: int| 0 <= k < sel@.len() && 0 <= j < spec_height(self@)
                    ==> cell_view(#[trigger] mats@[k]@[j]) == self@[sel@[k] as int].cells[j],
                r <= h,
                mask@.len() == r,
                forall|j: int| 0 <= j < r
                    ==> cell_view(#[trigger] mask@[j]) == Some(DatumV::Sc(
                        crate::types::ScalarV::Bool(key_first_occurrence(self@, selv, j)),
                    )),
            decreases h - r,
        {
            let mut first = true;
            let mut p: usize = 0;
            while p < r
                invariant
                    self.wf(),
                    h == spec_height(self@),
                    selv == sel@.map_values(|u: usize| u as int),
                    forall|k: int| 0 <= k < sel@.len() ==> #[trigger] sel@[k] < self@.len(),
                    mats@.len() == sel@.len(),
                    forall|k: int| 0 <= k < sel@.len()
                        ==> (#[trigger] mats@[k])@.len() == spec_height(self@),
                    forall|k: int, j: int| 0 <= k < sel@.len() && 0 <= j < spec_height(self@)
                        ==> cell_view(#[trigger] mats@[k]@[j]) == self@[sel@[k] as int].cells[j],
                    p <= r,
                    r < h,
                    first == (forall|q: int| 0 <= q < p
                        ==> row_key(self@, selv, q) != row_key(self@, selv, r as int)),
                decreases r - p,
            {
                let mut eq = true;
                let mut k: usize = 0;
                while k < mats.len()
                    invariant
                        self.wf(),
                        h == spec_height(self@),
                        selv == sel@.map_values(|u: usize| u as int),
                        forall|t: int| 0 <= t < sel@.len() ==> #[trigger] sel@[t] < self@.len(),
                        mats@.len() == sel@.len(),
                        forall|t: int| 0 <= t < sel@.len()
                            ==> (#[trigger] mats@[t])@.len() == spec_height(self@),
                        forall|t: int, j: int| 0 <= t < sel@.len() && 0 <= j < spec_height(self@)
                            ==> cell_view(#[trigger] mats@[t]@[j])
                                == self@[sel@[t] as int].cells[j],
                        p < r < h,
                        k <= mats@.len(),
                        eq == (forall|t: int| 0 <= t < k
                            ==> row_key(self@, selv, p as int)[t]
                                == row_key(self@, selv, r as int)[t]),
                    decreases mats@.len() - k,
                {
                    if !crate::types::cell_eq(&mats[k][p], &mats[k][r], true) {
                        proof {
                            assert(row_key(self@, selv, p as int)[k as int]
                                != row_key(self@, selv, r as int)[k as int]);
                        }
                        eq = false;
                    }
                    proof {
                        if eq {
                            assert(row_key(self@, selv, p as int)[k as int]
                                == row_key(self@, selv, r as int)[k as int]);
                        }
                    }
                    k = k + 1;
                }
                proof {
                    if eq {
                        assert(row_key(self@, selv, p as int)
                            =~= row_key(self@, selv, r as int));
                    }
                }
                if eq {
                    first = false;
                }
                p = p + 1;
            }
            mask.push(Some(Datum::Sc(crate::types::Scalar::Bool(first))));
            r = r + 1;
        }
        let c = Column::build(
            crate::text::string_from_chars(&Vec::new()),
            TypeTag::Bool,
            mask,
        );
        proof {
            assert(c@.cells =~= dedup_mask(self@, selv));
        }
        c
    }

    /// The rows whose key over `subset` (all columns when absent) appears
    /// for the first time, in original order; the second application
    /// changes nothing. `NotFound` when a subset name is missing. The
    /// `maintain_order` flag is accepted for compatibility; this engine
    /// always keeps the original order.
    pub fn drop_duplicates(&self, maintain_order: bool, subset: &Option<Vec<String>>) -> (r:
        Result<Table, EngineError>)
        requires
            self.wf(),
        ensures
            match r {
                Ok(t) => {
                    &&& t.wf()
                    &&& t@.len() == self@.len()
                    &&& exists|sel: Seq<int>| {
                        &&& #[trigger] subset_selects(self@, *subset, sel)
                        &&& forall|i: int| 0 <= i < self@.len()
                            ==> #[trigger] t@[i] == (ColumnV {
                                cells: mask_keep(self@[i].cells, dedup_mask(self@, sel)),
                                ..self@[i]
                            })
                    }
                },
                Err(e) => {
                    &&& e == EngineError::NotFound
                    &&& (*subset) matches Some(ns) && some_name_missing(self@, ns@)
                },
            },
    {
        let sel = match self.resolve_subset(subset) {
            Ok(sel) => sel,
            Err(e) => {
                return Err(e);
            },
        };
        let mask = self.first_occurrence_mask(&sel);
        match self.filter(&mask) {
            Ok(t) => {
                proof {
                    let selv = sel@.map_values(|u: usize| u as int);
                    assert(subset_selects(self@, *subset, selv)) by {
                        match subset {
                            Some(names) => {},
                            None => {},
                        }
                    }
                }
                Ok(t)
            },
            Err(_) => {
                proof {
                    assert(false);
                }
                Err(EngineError::InternalError)
            },
        }
    }

    /// The rows with no null in the `subset` columns (all columns when
    /// absent); `NotFound` when a subset name is missing.
    pub fn drop_nulls(&self, subset: &Option<Vec<String>>) -> (r: Result<Table, EngineError>)
        requires
            self.wf(),
        ensures
            match r {
                Ok(t) => {
                    &&& t.wf()
                    &&& t@.len() == self@.len()
                    &&& exists|sel: Seq<int>| {
                        &&& #[trigger] subset_selects(self@, *subset, sel)
                        &&& forall|i: int| 0 <= i < self@.len()
                            ==> #[trigger] t@[i] == (ColumnV {
                                cells: mask_keep(self@[i].cells, nonnull_mask(self@, sel)),
                                ..self@[i]
                            })
                    }
                },
                Err(e) => {
                    &&& e == EngineError::NotFound
                    &&& (*subset) matches Some(ns) && some_name_missing(self@, ns@)
                },
            },
    {
        let sel = match self.resolve_subset(subset) {
            Ok(sel) => sel,
            Err(e) => {
                return Err(e);
            },
        };
        let ghost selv = sel@.map_values(|u: usize| u as int);
        let mats = self.selected_cells(&sel);
        let h = self.height();
        let mut mask: Vec<Option<Datum>> = Vec::new();
        let mut r: usize = 0;
        while r < h
            invariant
                self.wf(),
                h == spec_height(self@),
                selv == sel@.map_values(|u: usize| u as int),
                forall|k: int| 0 <= k < sel@.len() ==> #[trigger] sel@[k] < self@.len(),
                mats@.len() == sel@.len(),
                forall|k: int| 0 <= k < sel@.len()
                    ==> (#[trigger] mats@[k])@.len() == spec_height(self@),
                forall|k: int, j: int| 0 <= k < sel@.len() && 0 <= j < spec_height(self@)
                    ==> cell_view(#[trigger] mats@[k]@[j]) == self@[sel@[k] as int].cells[j],
                r <= h,
                mask@.len() == r,
                forall|j: int| 0 <= j < r
                    ==> cell_view(#[trigger] mask@[j]) == nonnull_mask(self@, selv)[j],
            decreases h - r,
        {
            let mut ok = true;
            let mut k: usize = 0;
            while k < mats.len()
                invariant
                    self.wf(),
                    h == spec_height(self@),
                    selv == sel@.map_values(|u: usize| u as int),
                    forall|t: int| 0 <= t < sel@.len() ==> #[trigger] sel@[t] < self@.len(),
                    mats@.len() == sel@.len(),
                    forall|t: int| 0 <= t < sel@.len()
                        ==> (#[trigger] mats@[t])@.len() == spec_height(self@),
                    forall|t: int, j: int| 0 <= t < sel@.len() && 0 <= j < spec_height(self@)
                        ==> cell_view(#[trigger] mats@[t]@[j]) == self@[sel@[t] as int].cells[j],
                    r < h,
                    k <= mats@.len(),
                    ok == (forall|t: int| 0 <= t < k
                        ==> (#[trigger] self@[selv[t]].cells[r as int]) is Some),
                decreases mats@.len() - k,
            {
                if mats[k][r].is_none() {
                    proof {
                        assert(!((#[trigger] self@[selv[k as int]].cells[r as int]) is Some));
                    }
                    ok = false;
                }
                k = k + 1;
            }
            mask.push(Some(Datum::Sc(crate::types::Scalar::Bool(ok))));
            r = r + 1;
        }
        let mask_col = Column::build(
            crate::text::string_from_chars(&Vec::new()),
            TypeTag::Bool,
            mask,
        );
        proof {
            assert(mask_col@.cells =~= nonnull_mask(self@, selv));
        }
        match self.filter(&mask_col) {
            Ok(t) => {
                proof {
                    assert(subset_selects(self@, *subset, selv));
                }
                Ok(t)
            },
            Err(_) => {
                proof {
                    assert(false);
                }
                Err(EngineError::InternalError)
            },
        }
    }
}

/// `sel` holds the positions the subset names at (every position when no
/// subset is given).
pub open spec fn subset_selects(
    cols: Seq<ColumnV>,
    subset: Option<Vec<String>>,
    sel: Seq<int>,
) -> bool {
    match subset {
        Some(names) => {
            &&& sel.len() == names@.len()
            &&& forall|k: int| 0 <= k < sel.len()
                ==> 0 <= #[trigger] sel[k] < cols.len()
                    && cols[sel[k]].name == names@[k]@
        },
        None => sel == Seq::new(cols.len(), |i: int| i),
    }
}


/// Every cell of a well-formed table fits its column's type.
pub proof fn lemma_table_cells_fit(t: &Table)
    requires
        t.wf(),
    ensures
        forall|i: int, j: int| 0 <= i < t@.len() && 0 <= j < t@[i].cells.len()
            ==> crate::types::spec_cell_fits(t@[i].dtype, #[trigger] t@[i].cells[j]),
{
    assert forall|i: int, j: int| 0 <= i < t@.len() && 0 <= j < t@[i].cells.len()
        implies crate::types::spec_cell_fits(t@[i].dtype, #[trigger] t@[i].cells[j]) by {
        assert(t.cols@[i].wf());
        crate::column::lemma_wf_cells_fit(t.cols@[i]);
        assert(t@[i] == t.cols@[i]@);
    }
}

} // verus!
