use vstd::prelude::*;
use vstd::multiset::Multiset;
use crate::types::{TypeTag, Datum, DatumV, ScalarV, cell_view, spec_cell_fits,
    duplicate_cell, spec_tag_code};
use crate::EngineError;

verus! {

broadcast use vstd::seq::Seq::lemma_flatten_push;

/// The mathematical shadow of a column: its name, element type, and the
/// sequence of cells, a null cell being `None`.
pub struct ColumnV {
    pub name: Seq<char>,
    pub dtype: TypeTag,
    pub cells: Seq<Option<DatumV>>,
}

/// A named, typed, chunked, nullable vector of cells. The chunk layout and
/// the backing values stored beneath null slots are storage details that the
/// view hides.
pub struct Column {
    name: String,
    dtype: TypeTag,
    chunks: Vec<Vec<Datum>>,
    validity: Option<Vec<bool>>,
    length: usize,
}

impl Column {
    /// The backing values of all chunks, in logical order.
    pub closed spec fn spec_vals(self) -> Seq<DatumV> {
        self.chunks@.map_values(|ch: Vec<Datum>| ch@.map_values(|v: Datum| v@)).flatten()
    }

    /// Whether the slot at a logical position holds a value (true) or is
    /// null (false).
    pub closed spec fn spec_valid_at(self, i: int) -> bool {
        match self.validity {
            Some(v) => v@[i],
            None => true,
        }
    }

    pub closed spec fn spec_cells(self) -> Seq<Option<DatumV>> {
        Seq::new(
            self.spec_vals().len(),
            |i: int| if self.spec_valid_at(i) { Some(self.spec_vals()[i]) } else { None },
        )
    }

    /// Every operation requires and preserves this shape: the cached length
    /// agrees with the chunks, the validity bitmap (when present) is aligned,
    /// and every non-null cell fits the column's type.
    pub closed spec fn wf(self) -> bool {
        &&& self.length == self.spec_vals().len()
        &&& (self.validity matches Some(v) ==> v@.len() == self.spec_vals().len())
        &&& (forall|i: int| 0 <= i < self@.cells.len()
            ==> spec_cell_fits(self.dtype, #[trigger] self@.cells[i]))
    }

    /// The number of chunks the cells are stored in.
    pub closed spec fn spec_n_chunks(self) -> int {
        self.chunks@.len() as int
    }

    /// The length of one chunk.
    pub closed spec fn spec_chunk_len(self, i: int) -> int {
        self.chunks@[i]@.len() as int
    }
}

impl View for Column {
    type V = ColumnV;

    closed spec fn view(&self) -> ColumnV {
        ColumnV { name: self.name@, dtype: self.dtype, cells: self.spec_cells() }
    }
}

/// The backing value placed beneath a null slot; never observable.
fn default_value(t: TypeTag) -> Datum {
    match t {
        TypeTag::UInt8 => Datum::Sc(crate::types::Scalar::UInt(0)),
        TypeTag::UInt16 => Datum::Sc(crate::types::Scalar::UInt(0)),
        TypeTag::UInt32 => Datum::Sc(crate::types::Scalar::UInt(0)),
        TypeTag::UInt64 => Datum::Sc(crate::types::Scalar::UInt(0)),
        TypeTag::Bool => Datum::Sc(crate::types::Scalar::Bool(false)),
        TypeTag::Utf8 => Datum::Sc(crate::types::Scalar::Str(String::new())),
        TypeTag::Object => Datum::Sc(crate::types::Scalar::Bin(Vec::new())),
        TypeTag::List => Datum::Items(Vec::new()),
        _ => Datum::Sc(crate::types::Scalar::Int(0)),
    }
}

impl Column {
    /// Builds a single-chunk column from cells already known to fit.
    pub(crate) fn build(name: String, dtype: TypeTag, cells: Vec<Option<Datum>>) -> (r: Column)
        requires
            forall|i: int| 0 <= i < cells@.len()
                ==> spec_cell_fits(dtype, cell_view(#[trigger] cells@[i])),
        ensures
            r.wf(),
            r@.name == name@,
            r@.dtype == dtype,
            r@.cells == cells@.map_values(|c: Option<Datum>| cell_view(c)),
            r.spec_n_chunks() == 1,
    {
        let ghost target = cells@.map_values(|c: Option<Datum>| cell_view(c));
        let mut vals: Vec<Datum> = Vec::new();
        let mut valid: Vec<bool> = Vec::new();
        let mut i: usize = 0;
        let n = cells.len();
        while i < n
            invariant
                i <= n,
                n == cells@.len(),
                vals@.len() == i,
                valid@.len() == i,
                target == cells@.map_values(|c: Option<Datum>| cell_view(c)),
                forall|j: int| 0 <= j < i ==> #[trigger] valid@[j] == (target[j] is Some),
                forall|j: int| 0 <= j < i
                    ==> valid@[j] ==> Some(#[trigger] vals@[j]@) == target[j],
            decreases n - i,
        {
            match &cells[i] {
                Some(v) => {
                    vals.push(v.duplicate());
                    valid.push(true);
                },
                None => {
                    vals.push(default_value(dtype));
                    valid.push(false);
                },
            }
            i = i + 1;
        }
        let col = Column {
            name,
            dtype,
            chunks: vec![vals],
            validity: Some(valid),
            length: n,
        };
        proof {
            let cv = col.chunks@.map_values(|ch: Vec<Datum>| ch@.map_values(|v: Datum| v@));
            assert(cv =~= seq![vals@.map_values(|v: Datum| v@)]);
            assert(cv.flatten() =~= cv[0] + cv.drop_first().flatten());
            assert(cv.drop_first() =~= Seq::<Seq<DatumV>>::empty());
            assert(cv.flatten() =~= vals@.map_values(|v: Datum| v@));
            assert(col.spec_vals() =~= vals@.map_values(|v: Datum| v@));
            assert(col.spec_cells() =~= target);
        }
        col
    }

    /// A fresh column named `name` of type `dtype` holding `cells`.
    /// Returns `TypeMismatch` exactly when some non-null cell does not fit
    /// `dtype`, and the column otherwise.
    pub fn new(name: String, dtype: TypeTag, cells: Vec<Option<Datum>>) -> (r: Result<
        Column,
        EngineError,
    >)
        ensures
            match r {
                Ok(c) => {
                    &&& c.wf()
                    &&& c@.name == name@
                    &&& c@.dtype == dtype
                    &&& c@.cells == cells@.map_values(|c: Option<Datum>| cell_view(c))
                    &&& forall|i: int| 0 <= i < cells@.len()
                        ==> spec_cell_fits(dtype, cell_view(#[trigger] cells@[i]))
                },
                Err(e) => {
                    &&& e == EngineError::TypeMismatch
                    &&& exists|i: int| 0 <= i < cells@.len()
                        && !spec_cell_fits(dtype, cell_view(#[trigger] cells@[i]))
                },
            },
    {
        let mut i: usize = 0;
        while i < cells.len()
            invariant
                i <= cells@.len(),
                forall|j: int| 0 <= j < i
                    ==> spec_cell_fits(dtype, cell_view(#[trigger] cells@[j])),
            decreases cells@.len() - i,
        {
            match &cells[i] {
                Some(v) => {
                    if !v.fits(dtype) {
                        return Err(EngineError::TypeMismatch);
                    }
                },
                None => {},
            }
            i = i + 1;
        }
        Ok(Self::build(name, dtype, cells))
    }

    /// The logical number of cells.
    pub fn len(&self) -> (r: usize)
        requires
            self.wf(),
        ensures
            r == self@.cells.len(),
    {
        self.length
    }

    /// The column's name.
    pub fn name(&self) -> (r: &str)
        ensures
            r@ == self@.name,
    {
        self.name.as_str()
    }

    /// The same column under a new name.
    pub fn rename(&self, name: String) -> (r: Column)
        requires
            self.wf(),
        ensures
            r.wf(),
            r@.name == name@,
            r@.dtype == self@.dtype,
            r@.cells == self@.cells,
    {
        let cs = self.cells();
        Column::build(name, self.dtype, cs)
    }

    /// The column's element type.
    pub fn dtype(&self) -> (r: TypeTag)
        ensures
            r == self@.dtype,
    {
        self.dtype
    }

    /// The wire number of the column's element type.
    pub fn dtype_code(&self) -> (r: u8)
        ensures
            r == spec_tag_code(self@.dtype),
    {
        self.dtype.code()
    }

    /// How many chunks back the column.
    pub fn n_chunks(&self) -> (r: usize)
        ensures
            r == self.spec_n_chunks(),
    {
        self.chunks.len()
    }

    /// The length of each chunk, in order.
    pub fn chunk_lengths(&self) -> (r: Vec<usize>)
        ensures
            r@.len() == self.spec_n_chunks(),
            forall|i: int| 0 <= i < r@.len() ==> r@[i] == self.spec_chunk_len(i),
    {
        let mut out: Vec<usize> = Vec::new();
        let mut i: usize = 0;
        while i < self.chunks.len()
            invariant
                i <= self.chunks@.len(),
                out@.len() == i,
                forall|j: int| 0 <= j < i ==> out@[j] == self.spec_chunk_len(j),
            decreases self.chunks@.len() - i,
        {
            out.push(self.chunks[i].len());
            i = i + 1;
        }
        out
    }

    /// The cells in logical order, nulls as `None`.
    pub fn cells(&self) -> (r: Vec<Option<Datum>>)
        requires
            self.wf(),
        ensures
            r@.map_values(|c: Option<Datum>| cell_view(c)) == self@.cells,
            r@.len() == self@.cells.len(),
            forall|i: int| 0 <= i < r@.len()
                ==> cell_view(#[trigger] r@[i]) == self@.cells[i],
            forall|i: int| 0 <= i < r@.len()
                ==> spec_cell_fits(self@.dtype, cell_view(#[trigger] r@[i])),
    {
        let ghost cviews = self.chunks@.map_values(
            |ch: Vec<Datum>| ch@.map_values(|v: Datum| v@),
        );
        let mut out: Vec<Option<Datum>> = Vec::new();
        let mut ci: usize = 0;
        let mut pos: usize = 0;
        proof {
            assert(cviews.subrange(0, 0) =~= Seq::<Seq<DatumV>>::empty());
            assert(cviews.subrange(0, 0).flatten() =~= Seq::<DatumV>::empty());
        }
        while ci < self.chunks.len()
            invariant
                self.wf(),
                ci <= self.chunks@.len(),
                cviews == self.chunks@.map_values(
                    |ch: Vec<Datum>| ch@.map_values(|v: Datum| v@),
                ),
                pos == cviews.subrange(0, ci as int).flatten().len(),
                pos <= self.spec_vals().len(),
                out@.len() == pos,
                cviews.subrange(0, ci as int).flatten()
                    == self.spec_vals().subrange(0, pos as int),
                forall|j: int| 0 <= j < pos
                    ==> #[trigger] cell_view(out@[j]) == self@.cells[j],
            decreases self.chunks@.len() - ci,
        {
            let chunk_len = self.chunks[ci].len();
            proof {
                assert(cviews.subrange(0, ci + 1)
                    =~= cviews.subrange(0, ci as int).push(cviews[ci as int]));
                assert(cviews.subrange(0, ci + 1).flatten()
                    == cviews.subrange(0, ci as int).flatten() + cviews[ci as int]);
                assert(cviews[ci as int].len() == chunk_len);
                lemma_flatten_prefix(cviews, ci + 1);
                lemma_flatten_prefix(cviews, ci as int);
            }
            let mut k: usize = 0;
            while k < chunk_len
                invariant
                    self.wf(),
                    ci < self.chunks@.len(),
                    k <= chunk_len,
                    chunk_len == self.chunks@[ci as int]@.len(),
                    cviews == self.chunks@.map_values(
                        |ch: Vec<Datum>| ch@.map_values(|v: Datum| v@),
                    ),
                    pos + chunk_len <= self.spec_vals().len(),
                    out@.len() == pos + k,
                    forall|j: int| 0 <= j < pos + k
                        ==> #[trigger] cell_view(out@[j]) == self@.cells[j],
                    cviews.subrange(0, ci as int).flatten().len() == pos,
                    cviews.subrange(0, ci + 1).flatten()
                        == cviews.subrange(0, ci as int).flatten() + cviews[ci as int],
                    cviews.subrange(0, ci + 1).flatten()
                        == self.spec_vals().subrange(0, pos + chunk_len),
                decreases chunk_len - k,
            {
                let lp = pos + k;
                proof {
                    assert(cviews.subrange(0, ci + 1).flatten()[lp as int]
                        == cviews[ci as int][k as int]);
                    assert(self.spec_vals().subrange(0, pos + chunk_len)[lp as int]
                        == self.spec_vals()[lp as int]);
                    assert(cviews[ci as int][k as int] == self.chunks@[ci as int]@[k as int]@);
                }
                let is_valid = match &self.validity {
                    Some(v) => *v.get(lp).unwrap_or(&true),
                    None => true,
                };
                proof {
                    assert(is_valid == self.spec_valid_at(lp as int));
                }
                if is_valid {
                    out.push(Some(self.chunks[ci][k].duplicate()));
                } else {
                    out.push(None);
                }
                k = k + 1;
            }
            pos = pos + chunk_len;
            ci = ci + 1;
        }
        proof {
            assert(cviews.subrange(0, cviews.len() as int) =~= cviews);
            assert(pos == self.spec_vals().len());
            assert(out@.map_values(|c: Option<Datum>| cell_view(c)) =~= self@.cells);
        }
        out
    }

    /// A deep copy: same name, type and cells.
    pub fn duplicate(&self) -> (r: Column)
        requires
            self.wf(),
        ensures
            r.wf(),
            r@ == self@,
    {
        let cs = self.cells();
        let r = Column::build(self.name.clone(), self.dtype, cs);
        proof {
            assert(r@ == self@);
        }
        r
    }

    /// Merges all chunks into one; the logical content is unchanged.
    pub fn rechunk(&self) -> (r: Column)
        requires
            self.wf(),
        ensures
            r.wf(),
            r@ == self@,
            r.spec_n_chunks() == 1,
    {
        let cs = self.cells();
        let r = Column::build(self.name.clone(), self.dtype, cs);
        proof {
            assert(r@ == self@);
        }
        r
    }

    /// How many cells are null.
    pub fn null_count(&self) -> (r: usize)
        requires
            self.wf(),
        ensures
            r == count_nulls(self@.cells),
    {
        let cs = self.cells();
        let mut n: usize = 0;
        let mut i: usize = 0;
        proof {
            assert(self@.cells.subrange(0, 0) =~= Seq::<Option<DatumV>>::empty());
        }
        while i < cs.len()
            invariant
                i <= cs@.len(),
                cs@.len() == self@.cells.len(),
                cs@.map_values(|c: Option<Datum>| cell_view(c)) == self@.cells,
                n <= i,
                n == count_nulls(self@.cells.subrange(0, i as int)),
            decreases cs@.len() - i,
        {
            proof {
                assert(self@.cells.subrange(0, i + 1).drop_last()
                    =~= self@.cells.subrange(0, i as int));
                assert(self@.cells.subrange(0, i + 1).last() == self@.cells[i as int]);
                assert(cell_view(cs@[i as int]) == self@.cells[i as int]);
            }
            if cs[i].is_none() {
                n = n + 1;
            }
            i = i + 1;
        }
        proof {
            assert(self@.cells.subrange(0, cs@.len() as int) =~= self@.cells);
        }
        n
    }
}

/// How many cells of a sequence are null.
pub open spec fn count_nulls(cells: Seq<Option<DatumV>>) -> int
    decreases cells.len(),
{
    if cells.len() == 0 {
        0
    } else {
        count_nulls(cells.drop_last()) + if cells.last() is None { 1int } else { 0int }
    }
}

/// Flattening a prefix of the chunks gives a prefix of the flattened whole.
proof fn lemma_flatten_prefix(s: Seq<Seq<DatumV>>, i: int)
    requires
        0 <= i <= s.len(),
    ensures
        s.subrange(0, i).flatten().len() <= s.flatten().len(),
        s.subrange(0, i).flatten()
            == s.flatten().subrange(0, s.subrange(0, i).flatten().len() as int),
    decreases s.len() - i,
{
    if i == s.len() {
        assert(s.subrange(0, i) =~= s);
        assert(s.flatten().subrange(0, s.flatten().len() as int) =~= s.flatten());
    } else {
        assert(s.subrange(0, i + 1) =~= s.subrange(0, i).push(s[i]));
        assert(s.subrange(0, i + 1).flatten()
            == s.subrange(0, i).flatten() + s[i]);
        lemma_flatten_prefix(s, i + 1);
        let li = s.subrange(0, i).flatten().len() as int;
        let li1 = s.subrange(0, i + 1).flatten().len() as int;
        assert(s.subrange(0, i).flatten()
            =~= s.flatten().subrange(0, li1).subrange(0, li));
        assert(s.flatten().subrange(0, li1).subrange(0, li)
            =~= s.flatten().subrange(0, li));
    }
}


/// The cells that survive a boolean mask: a cell is kept exactly where the
/// mask holds `true`; a null or false mask cell drops the row.
pub open spec fn mask_keep(cells: Seq<Option<DatumV>>, mask: Seq<Option<DatumV>>) -> Seq<
    Option<DatumV>,
>
    decreases cells.len(),
{
    if cells.len() == 0 {
        Seq::empty()
    } else {
        let rest = mask_keep(cells.drop_last(), mask.drop_last());
        if mask.len() >= cells.len()
            && mask[cells.len() - 1] == Some(DatumV::Sc(crate::types::ScalarV::Bool(true))) {
            rest.push(cells.last())
        } else {
            rest
        }
    }
}

/// The non-null cells, in order.
pub open spec fn keep_nonnull(cells: Seq<Option<DatumV>>) -> Seq<Option<DatumV>>
    decreases cells.len(),
{
    if cells.len() == 0 {
        Seq::empty()
    } else {
        let rest = keep_nonnull(cells.drop_last());
        if cells.last() is Some {
            rest.push(cells.last())
        } else {
            rest
        }
    }
}

/// The cells after shifting by `p` positions: positive `p` moves values
/// toward higher indices, vacated slots become null.
pub open spec fn shifted(cells: Seq<Option<DatumV>>, p: int) -> Seq<Option<DatumV>> {
    Seq::new(
        cells.len(),
        |i: int| if 0 <= i - p < cells.len() { cells[i - p] } else { None },
    )
}

impl Column {
    /// The cell at `i`; `IndexOutOfBounds` exactly when `i` is past the end.
    pub fn get(&self, i: usize) -> (r: Result<Option<Datum>, EngineError>)
        requires
            self.wf(),
        ensures
            match r {
                Ok(c) => i < self@.cells.len() && cell_view(c) == self@.cells[i as int],
                Err(e) => e == EngineError::IndexOutOfBounds && i >= self@.cells.len(),
            },
    {
        if i >= self.len() {
            return Err(EngineError::IndexOutOfBounds);
        }
        let cs = self.cells();
        Ok(duplicate_cell(&cs[i]))
    }

    /// The contiguous rows `[offset, offset + length)`; `IndexOutOfBounds`
    /// exactly when that range leaves the column.
    pub fn slice(&self, offset: usize, length: usize) -> (r: Result<Column, EngineError>)
        requires
            self.wf(),
        ensures
            match r {
                Ok(c) => {
                    &&& c.wf()
                    &&& offset + length <= self@.cells.len()
                    &&& c@.name == self@.name
                    &&& c@.dtype == self@.dtype
                    &&& c@.cells == self@.cells.subrange(
                        offset as int,
                        offset + length,
                    )
                },
                Err(e) => {
                    &&& e == EngineError::IndexOutOfBounds
                    &&& offset + length > self@.cells.len()
                },
            },
    {
        if offset > self.len() || length > self.len() - offset {
            return Err(EngineError::IndexOutOfBounds);
        }
        let cs = self.cells();
        let mut out: Vec<Option<Datum>> = Vec::new();
        let mut i: usize = offset;
        while i < offset + length
            invariant
                offset <= i <= offset + length,
                offset + length <= cs@.len(),
                cs@.len() == self@.cells.len(),
                forall|j: int| 0 <= j < cs@.len()
                    ==> cell_view(#[trigger] cs@[j]) == self@.cells[j],
                forall|j: int| 0 <= j < cs@.len()
                    ==> spec_cell_fits(self@.dtype, cell_view(#[trigger] cs@[j])),
                out@.len() == i - offset,
                forall|j: int| 0 <= j < out@.len()
                    ==> cell_view(#[trigger] out@[j]) == self@.cells[offset + j],
                forall|j: int| 0 <= j < out@.len()
                    ==> spec_cell_fits(self@.dtype, cell_view(#[trigger] out@[j])),
            decreases offset + length - i,
        {
            out.push(duplicate_cell(&cs[i]));
            i = i + 1;
        }
        let c = Column::build(self.name.clone(), self.dtype, out);
        proof {
            assert(c@.cells =~= self@.cells.subrange(offset as int, offset + length));
        }
        Ok(c)
    }

    /// The first `n` rows (or all of them when fewer); `n` defaults to ten.
    pub fn head(&self, n: Option<usize>) -> (r: Column)
        requires
            self.wf(),
        ensures
            r.wf(),
            r@.name == self@.name,
            r@.dtype == self@.dtype,
            r@.cells == self@.cells.subrange(
                0,
                spec_min(match n { Some(k) => k as int, None => 10 }, self@.cells.len() as int),
            ),
    {
        let k = match n {
            Some(k) => k,
            None => 10,
        };
        let take_n = if k < self.len() { k } else { self.len() };
        match self.slice(0, take_n) {
            Ok(c) => c,
            Err(_) => {
                proof {
                    assert(false);
                }
                self.duplicate()
            },
        }
    }

    /// The last `n` rows (or all of them when fewer); `n` defaults to ten.
    pub fn tail(&self, n: Option<usize>) -> (r: Column)
        requires
            self.wf(),
        ensures
            r.wf(),
            r@.name == self@.name,
            r@.dtype == self@.dtype,
            r@.cells == self@.cells.subrange(
                self@.cells.len() - spec_min(
                    match n { Some(k) => k as int, None => 10 },
                    self@.cells.len() as int,
                ),
                self@.cells.len() as int,
            ),
    {
        let k = match n {
            Some(k) => k,
            None => 10,
        };
        let take_n = if k < self.len() { k } else { self.len() };
        match self.slice(self.len() - take_n, take_n) {
            Ok(c) => c,
            Err(_) => {
                proof {
                    assert(false);
                }
                self.duplicate()
            },
        }
    }

    /// The first `n` rows (or all of them when fewer).
    pub fn limit(&self, n: usize) -> (r: Column)
        requires
            self.wf(),
        ensures
            r.wf(),
            r@.name == self@.name,
            r@.dtype == self@.dtype,
            r@.cells == self@.cells.subrange(
                0,
                spec_min(n as int, self@.cells.len() as int),
            ),
    {
        self.head(Some(n))
    }

    /// The cells at the given positions, in the given order; fails with
    /// `IndexOutOfBounds` exactly when an index is past the end.
    pub fn take(&self, indices: &Vec<usize>) -> (r: Result<Column, EngineError>)
        requires
            self.wf(),
        ensures
            match r {
                Ok(c) => {
                    &&& c.wf()
                    &&& c@.name == self@.name
                    &&& c@.dtype == self@.dtype
                    &&& c@.cells.len() == indices@.len()
                    &&& forall|i: int| 0 <= i < indices@.len()
                        ==> #[trigger] indices@[i] < self@.cells.len()
                    &&& forall|i: int| 0 <= i < indices@.len()
                        ==> #[trigger] c@.cells[i] == self@.cells[indices@[i] as int]
                },
                Err(e) => {
                    &&& e == EngineError::IndexOutOfBounds
                    &&& exists|i: int| 0 <= i < indices@.len()
                        && #[trigger] indices@[i] >= self@.cells.len()
                },
            },
    {
        let cs = self.cells();
        let mut out: Vec<Option<Datum>> = Vec::new();
        let mut i: usize = 0;
        while i < indices.len()
            invariant
                self.wf(),
                i <= indices@.len(),
                cs@.len() == self@.cells.len(),
                forall|j: int| 0 <= j < cs@.len()
                    ==> cell_view(#[trigger] cs@[j]) == self@.cells[j],
                forall|j: int| 0 <= j < cs@.len()
                    ==> spec_cell_fits(self@.dtype, cell_view(#[trigger] cs@[j])),
                out@.len() == i,
                forall|j: int| 0 <= j < i ==> #[trigger] indices@[j] < self@.cells.len(),
                forall|j: int| 0 <= j < i
                    ==> cell_view(#[trigger] out@[j]) == self@.cells[indices@[j] as int],
                forall|j: int| 0 <= j < i
                    ==> spec_cell_fits(self@.dtype, cell_view(#[trigger] out@[j])),
            decreases indices@.len() - i,
        {
            let idx = indices[i];
            if idx >= self.len() {
                return Err(EngineError::IndexOutOfBounds);
            }
            out.push(duplicate_cell(&cs[idx]));
            i = i + 1;
        }
        let c = Column::build(self.name.clone(), self.dtype, out);
        Ok(c)
    }

    /// Every `n`-th cell, starting at the first; `InvalidArgument` exactly
    /// when `n` is zero.
    pub fn take_every(&self, n: usize) -> (r: Result<Column, EngineError>)
        requires
            self.wf(),
        ensures
            match r {
                Ok(c) => {
                    &&& n >= 1
                    &&& c.wf()
                    &&& c@.name == self@.name
                    &&& c@.dtype == self@.dtype
                    &&& c@.cells.len() == (self@.cells.len() + n - 1) / (n as int)
                    &&& forall|i: int| 0 <= i < c@.cells.len()
                        ==> #[trigger] c@.cells[i] == self@.cells[i * n]
                },
                Err(e) => e == EngineError::InvalidArgument && n == 0,
            },
    {
        if n == 0 {
            return Err(EngineError::InvalidArgument);
        }
        let cs = self.cells();
        let mut out: Vec<Option<Datum>> = Vec::new();
        if cs.len() == 0 {
            proof {
                assert((self@.cells.len() + n - 1) / (n as int) == 0) by (nonlinear_arith)
                    requires n >= 1, self@.cells.len() == 0,
                ;
            }
            return Ok(Column::build(self.name.clone(), self.dtype, out));
        }
        let mut idx: usize = 0;
        loop
            invariant
                n >= 1,
                cs@.len() == self@.cells.len(),
                cs@.len() > 0,
                forall|j: int| 0 <= j < cs@.len()
                    ==> cell_view(#[trigger] cs@[j]) == self@.cells[j],
                forall|j: int| 0 <= j < cs@.len()
                    ==> spec_cell_fits(self@.dtype, cell_view(#[trigger] cs@[j])),
                idx < cs@.len(),
                out@.len() * n == idx,
                forall|j: int| 0 <= j < out@.len()
                    ==> cell_view(#[trigger] out@[j]) == self@.cells[j * (n as int)],
                forall|j: int| 0 <= j < out@.len()
                    ==> spec_cell_fits(self@.dtype, cell_view(#[trigger] out@[j])),
            decreases cs@.len() - idx,
        {
            out.push(duplicate_cell(&cs[idx]));
            proof {
                assert(out@.len() * n == idx + n) by (nonlinear_arith)
                    requires
                        out@.len() >= 1,
                        (out@.len() - 1) * n == idx,
                ;
            }
            if cs.len() - idx <= n {
                proof {
                    lemma_stride_count(cs@.len() as int, n as int, out@.len() as int, idx as int);
                }
                let c = Column::build(self.name.clone(), self.dtype, out);
                return Ok(c);
            }
            idx = idx + n;
        }
    }

    /// The rows where `mask` is true; `TypeMismatch` when the mask is not a
    /// boolean column, `LengthMismatch` when the lengths differ.
    pub fn filter(&self, mask: &Column) -> (r: Result<Column, EngineError>)
        requires
            self.wf(),
            mask.wf(),
        ensures
            match r {
                Ok(c) => {
                    &&& mask@.dtype == TypeTag::Bool
                    &&& mask@.cells.len() == self@.cells.len()
                    &&& c.wf()
                    &&& c@.name == self@.name
                    &&& c@.dtype == self@.dtype
                    &&& c@.cells == mask_keep(self@.cells, mask@.cells)
                },
                Err(e) => {
                    ||| (e == EngineError::TypeMismatch && mask@.dtype != TypeTag::Bool)
                    ||| (e == EngineError::LengthMismatch && mask@.dtype == TypeTag::Bool
                        && mask@.cells.len() != self@.cells.len())
                },
            },
    {
        if !matches!(mask.dtype(), TypeTag::Bool) {
            return Err(EngineError::TypeMismatch);
        }
        if mask.len() != self.len() {
            return Err(EngineError::LengthMismatch);
        }
        let cs = self.cells();
        let ms = mask.cells();
        let mut out: Vec<Option<Datum>> = Vec::new();
        let mut i: usize = 0;
        proof {
            assert(mask_keep(self@.cells.subrange(0, 0), mask@.cells.subrange(0, 0))
                =~= Seq::<Option<DatumV>>::empty());
        }
        while i < cs.len()
            invariant
                i <= cs@.len(),
                cs@.len() == self@.cells.len(),
                ms@.len() == mask@.cells.len(),
                ms@.len() == cs@.len(),
                forall|j: int| 0 <= j < cs@.len()
                    ==> cell_view(#[trigger] cs@[j]) == self@.cells[j],
                forall|j: int| 0 <= j < cs@.len()
                    ==> spec_cell_fits(self@.dtype, cell_view(#[trigger] cs@[j])),
                forall|j: int| 0 <= j < ms@.len()
                    ==> cell_view(#[trigger] ms@[j]) == mask@.cells[j],
                out@.map_values(|c: Option<Datum>| cell_view(c))
                    == mask_keep(
                    self@.cells.subrange(0, i as int),
                    mask@.cells.subrange(0, i as int),
                ),
                forall|j: int| 0 <= j < out@.len()
                    ==> spec_cell_fits(self@.dtype, cell_view(#[trigger] out@[j])),
            decreases cs@.len() - i,
        {
            let keep = match &ms[i] {
                Some(v) => v.eq_value(&Datum::Sc(crate::types::Scalar::Bool(true))),
                None => false,
            };
            proof {
                assert(self@.cells.subrange(0, i + 1).drop_last()
                    =~= self@.cells.subrange(0, i as int));
                assert(mask@.cells.subrange(0, i + 1).drop_last()
                    =~= mask@.cells.subrange(0, i as int));
                assert(self@.cells.subrange(0, i + 1).last() == self@.cells[i as int]);
                assert(mask@.cells.subrange(0, i + 1)[i as int] == mask@.cells[i as int]);
                assert(keep == (mask@.cells[i as int]
                    == Some(DatumV::Sc(crate::types::ScalarV::Bool(true)))));
            }
            if keep {
                out.push(duplicate_cell(&cs[i]));
            }
            proof {
                assert(out@.map_values(|c: Option<Datum>| cell_view(c))
                    =~= mask_keep(
                    self@.cells.subrange(0, i + 1),
                    mask@.cells.subrange(0, i + 1),
                ));
            }
            i = i + 1;
        }
        proof {
            assert(self@.cells.subrange(0, cs@.len() as int) =~= self@.cells);
            assert(mask@.cells.subrange(0, ms@.len() as int) =~= mask@.cells);
        }
        let c = Column::build(self.name.clone(), self.dtype, out);
        Ok(c)
    }

    /// The non-null cells, in order.
    pub fn drop_nulls(&self) -> (r: Column)
        requires
            self.wf(),
        ensures
            r.wf(),
            r@.name == self@.name,
            r@.dtype == self@.dtype,
            r@.cells == keep_nonnull(self@.cells),
    {
        let cs = self.cells();
        let mut out: Vec<Option<Datum>> = Vec::new();
        let mut i: usize = 0;
        proof {
            assert(keep_nonnull(self@.cells.subrange(0, 0))
                =~= Seq::<Option<DatumV>>::empty());
        }
        while i < cs.len()
            invariant
                i <= cs@.len(),
                cs@.len() == self@.cells.len(),
                forall|j: int| 0 <= j < cs@.len()
                    ==> cell_view(#[trigger] cs@[j]) == self@.cells[j],
                forall|j: int| 0 <= j < cs@.len()
                    ==> spec_cell_fits(self@.dtype, cell_view(#[trigger] cs@[j])),
                out@.map_values(|c: Option<Datum>| cell_view(c))
                    == keep_nonnull(self@.cells.subrange(0, i as int)),
                forall|j: int| 0 <= j < out@.len()
                    ==> spec_cell_fits(self@.dtype, cell_view(#[trigger] out@[j])),
            decreases cs@.len() - i,
        {
            proof {
                assert(self@.cells.subrange(0, i + 1).drop_last()
                    =~= self@.cells.subrange(0, i as int));
                assert(self@.cells.subrange(0, i + 1).last() == self@.cells[i as int]);
            }
            if cs[i].is_some() {
                out.push(duplicate_cell(&cs[i]));
            }
            proof {
                assert(out@.map_values(|c: Option<Datum>| cell_view(c))
                    =~= keep_nonnull(self@.cells.subrange(0, i + 1)));
            }
            i = i + 1;
        }
        proof {
            assert(self@.cells.subrange(0, cs@.len() as int) =~= self@.cells);
        }
        Column::build(self.name.clone(), self.dtype, out)
    }

    /// The cells moved `periods` positions (negative moves toward the
    /// front); vacated slots are null. A magnitude at or past the length
    /// yields an all-null column.
    pub fn shift(&self, periods: i64) -> (r: Column)
        requires
            self.wf(),
        ensures
            r.wf(),
            r@.name == self@.name,
            r@.dtype == self@.dtype,
            r@.cells == shifted(self@.cells, periods as int),
    {
        let cs = self.cells();
        let n = cs.len();
        let mut out: Vec<Option<Datum>> = Vec::new();
        let mut i: usize = 0;
        while i < n
            invariant
                i <= n,
                n == cs@.len(),
                cs@.len() == self@.cells.len(),
                forall|j: int| 0 <= j < cs@.len()
                    ==> cell_view(#[trigger] cs@[j]) == self@.cells[j],
                forall|j: int| 0 <= j < cs@.len()
                    ==> spec_cell_fits(self@.dtype, cell_view(#[trigger] cs@[j])),
                out@.len() == i,
                forall|j: int| 0 <= j < i
                    ==> cell_view(#[trigger] out@[j]) == shifted(self@.cells, periods as int)[j],
                forall|j: int| 0 <= j < out@.len()
                    ==> spec_cell_fits(self@.dtype, cell_view(#[trigger] out@[j])),
            decreases n - i,
        {
            // the source index is i - periods when it lies inside the column
            let mag: u64 = if periods >= 0 {
                periods as u64
            } else if periods == i64::MIN {
                9223372036854775808u64
            } else {
                (-periods) as u64
            };
            proof {
                if periods >= 0 {
                    assert(mag as int == periods as int);
                } else {
                    assert(mag as int == -(periods as int));
                }
            }
            if periods >= 0 {
                if (i as u64) >= mag && mag <= i as u64 {
                    let src: usize = i - (mag as usize);
                    out.push(duplicate_cell(&cs[src]));
                } else {
                    out.push(None);
                }
            } else {
                if (i as u128) + (mag as u128) < (n as u128) {
                    let src: usize = i + (mag as usize);
                    out.push(duplicate_cell(&cs[src]));
                } else {
                    out.push(None);
                }
            }
            i = i + 1;
        }
        let c = Column::build(self.name.clone(), self.dtype, out);
        proof {
            assert(c@.cells =~= shifted(self@.cells, periods as int));
        }
        c
    }

    /// A boolean column marking the null cells.
    pub fn is_null(&self) -> (r: Column)
        requires
            self.wf(),
        ensures
            r.wf(),
            r@.name == self@.name,
            r@.dtype == TypeTag::Bool,
            r@.cells.len() == self@.cells.len(),
            forall|i: int| 0 <= i < self@.cells.len()
                ==> #[trigger] r@.cells[i] == Some(
                    DatumV::Sc(crate::types::ScalarV::Bool(self@.cells[i] is None)),
                ),
    {
        let cs = self.cells();
        let mut out: Vec<Option<Datum>> = Vec::new();
        let mut i: usize = 0;
        while i < cs.len()
            invariant
                i <= cs@.len(),
                cs@.len() == self@.cells.len(),
                forall|j: int| 0 <= j < cs@.len()
                    ==> cell_view(#[trigger] cs@[j]) == self@.cells[j],
                out@.len() == i,
                forall|j: int| 0 <= j < i
                    ==> cell_view(#[trigger] out@[j]) == Some(
                        DatumV::Sc(crate::types::ScalarV::Bool(self@.cells[j] is None)),
                    ),
            decreases cs@.len() - i,
        {
            out.push(Some(Datum::Sc(crate::types::Scalar::Bool(cs[i].is_none()))));
            i = i + 1;
        }
        Column::build(self.name.clone(), TypeTag::Bool, out)
    }

    /// A boolean column marking the non-null cells.
    pub fn is_not_null(&self) -> (r: Column)
        requires
            self.wf(),
        ensures
            r.wf(),
            r@.name == self@.name,
            r@.dtype == TypeTag::Bool,
            r@.cells.len() == self@.cells.len(),
            forall|i: int| 0 <= i < self@.cells.len()
                ==> #[trigger] r@.cells[i] == Some(
                    DatumV::Sc(crate::types::ScalarV::Bool(self@.cells[i] is Some)),
                ),
    {
        let cs = self.cells();
        let mut out: Vec<Option<Datum>> = Vec::new();
        let mut i: usize = 0;
        while i < cs.len()
            invariant
                i <= cs@.len(),
                cs@.len() == self@.cells.len(),
                forall|j: int| 0 <= j < cs@.len()
                    ==> cell_view(#[trigger] cs@[j]) == self@.cells[j],
                out@.len() == i,
                forall|j: int| 0 <= j < i
                    ==> cell_view(#[trigger] out@[j]) == Some(
                        DatumV::Sc(crate::types::ScalarV::Bool(self@.cells[j] is Some)),
                    ),
            decreases cs@.len() - i,
        {
            out.push(Some(Datum::Sc(crate::types::Scalar::Bool(cs[i].is_some()))));
            i = i + 1;
        }
        Column::build(self.name.clone(), TypeTag::Bool, out)
    }

    /// This column's rows followed by all of `other`'s, kept as separate
    /// chunks (`rechunk` merges them); `TypeMismatch` exactly when the
    /// element types differ. The result keeps the left name.
    pub fn append(&self, other: &Column) -> (r: Result<Column, EngineError>)
        requires
            self.wf(),
            other.wf(),
        ensures
            match r {
                Ok(c) => {
                    &&& self@.dtype == other@.dtype
                    &&& c.wf()
                    &&& c@.name == self@.name
                    &&& c@.dtype == self@.dtype
                    &&& c@.cells == self@.cells + other@.cells
                    &&& c.spec_n_chunks() == 2
                },
                Err(e) => e == EngineError::TypeMismatch && self@.dtype != other@.dtype,
            },
    {
        if self.dtype().code() != other.dtype().code() {
            proof {
                crate::types::lemma_tag_code_bijective();
            }
            return Err(EngineError::TypeMismatch);
        }
        proof {
            crate::types::lemma_tag_code_bijective();
        }
        let cs = self.cells();
        let os = other.cells();
        let (vals1, mut valid1) = chunk_parts(self.dtype, &cs);
        let (vals2, mut valid2) = chunk_parts(self.dtype, &os);
        let ghost t1 = cs@.map_values(|c: Option<Datum>| cell_view(c));
        let ghost t2 = os@.map_values(|c: Option<Datum>| cell_view(c));
        valid1.append(&mut valid2);
        let n = valid1.len();
        let col = Column {
            name: self.name.clone(),
            dtype: self.dtype,
            chunks: vec![vals1, vals2],
            validity: Some(valid1),
            length: n,
        };
        proof {
            let cv = col.chunks@.map_values(|ch: Vec<Datum>| ch@.map_values(|v: Datum| v@));
            assert(cv =~= seq![vals1@.map_values(|v: Datum| v@), vals2@.map_values(|v: Datum| v@)]);
            assert(cv.drop_first() =~= seq![vals2@.map_values(|v: Datum| v@)]);
            assert(cv.drop_first().drop_first() =~= Seq::<Seq<DatumV>>::empty());
            assert(cv.drop_first().flatten()
                =~= vals2@.map_values(|v: Datum| v@) + Seq::<DatumV>::empty());
            assert(cv.flatten()
                =~= vals1@.map_values(|v: Datum| v@) + vals2@.map_values(|v: Datum| v@));
            assert(col.spec_vals()
                =~= vals1@.map_values(|v: Datum| v@) + vals2@.map_values(|v: Datum| v@));
            assert(col.spec_cells() =~= t1 + t2);
            assert(col@.cells =~= self@.cells + other@.cells);
        }
        Ok(col)
    }
}

/// One chunk's backing values and validity bits for a run of cells.
fn chunk_parts(dtype: TypeTag, cells: &Vec<Option<Datum>>) -> (r: (Vec<Datum>, Vec<bool>))
    requires
        forall|i: int| 0 <= i < cells@.len()
            ==> spec_cell_fits(dtype, cell_view(#[trigger] cells@[i])),
    ensures
        r.0@.len() == cells@.len(),
        r.1@.len() == cells@.len(),
        forall|j: int| 0 <= j < cells@.len()
            ==> #[trigger] r.1@[j] == (cell_view(cells@[j]) is Some),
        forall|j: int| 0 <= j < cells@.len()
            ==> (r.1@[j] ==> Some(#[trigger] r.0@[j]@) == cell_view(cells@[j])),
{
    let mut vals: Vec<Datum> = Vec::new();
    let mut valid: Vec<bool> = Vec::new();
    let mut i: usize = 0;
    while i < cells.len()
        invariant
            i <= cells@.len(),
            vals@.len() == i,
            valid@.len() == i,
            forall|j: int| 0 <= j < i
                ==> #[trigger] valid@[j] == (cell_view(cells@[j]) is Some),
            forall|j: int| 0 <= j < i
                ==> (valid@[j] ==> Some(#[trigger] vals@[j]@) == cell_view(cells@[j])),
        decreases cells@.len() - i,
    {
        match &cells[i] {
            Some(v) => {
                vals.push(v.duplicate());
                valid.push(true);
            },
            None => {
                vals.push(default_value(dtype));
                valid.push(false);
            },
        }
        i = i + 1;
    }
    (vals, valid)
}

/// The smaller of two numbers.
pub open spec fn spec_min(a: int, b: int) -> int {
    if a < b { a } else { b }
}

/// Striding by `n` from zero visits exactly this many positions.
proof fn lemma_stride_count(len: int, n: int, cnt: int, last: int)
    requires
        n >= 1,
        cnt * n == last + n,
        0 <= last < len,
        len - n <= last,
    ensures
        cnt == (len + n - 1) / n,
{
    assert((last + n) / n == cnt) by (nonlinear_arith)
        requires n >= 1, cnt * n == last + n,
    ;
    assert(cnt == (len + n - 1) / n) by (nonlinear_arith)
        requires n >= 1, cnt * n == last + n, 0 <= last < len, len - n <= last,
    ;
}


/// The identity index sequence `0, 1, ..., n-1`.
pub open spec fn ident_indices(n: int) -> Seq<usize> {
    Seq::new(n as nat, |i: int| i as usize)
}

/// Rows `p` before `q` are correctly ordered for a stable sort: the cells
/// are in order, and rows with equal-ordered cells keep their original
/// relative position.
pub open spec fn argsort_ordered(
    desc: bool,
    cells: Seq<Option<DatumV>>,
    idx: Seq<usize>,
) -> bool {
    forall|p: int, q: int| 0 <= p < q < idx.len()
        ==> crate::order::cell_le(desc, cells[#[trigger] idx[p] as int], cells[#[trigger] idx[q] as int])
            && (crate::order::cell_le(desc, cells[idx[q] as int], cells[idx[p] as int])
                ==> (idx[p] as int) < (idx[q] as int))
}

impl Column {
    /// The stable permutation that sorts the column: indices ordered by
    /// cell, nulls last in either direction, ties keeping their original
    /// order. `TypeMismatch` exactly for list and opaque-binary columns,
    /// whose cells the engine does not order.
    pub fn argsort(&self, descending: bool) -> (r: Result<Vec<usize>, EngineError>)
        requires
            self.wf(),
        ensures
            match r {
                Ok(idx) => {
                    &&& crate::order::sortable_dtype(self@.dtype)
                    &&& idx@.len() == self@.cells.len()
                    &&& forall|i: int| 0 <= i < idx@.len()
                        ==> #[trigger] idx@[i] < self@.cells.len()
                    &&& idx@.to_multiset() == ident_indices(self@.cells.len() as int).to_multiset()
                    &&& argsort_ordered(descending, self@.cells, idx@)
                },
                Err(e) => {
                    &&& e == EngineError::TypeMismatch
                    &&& !crate::order::sortable_dtype(self@.dtype)
                },
            },
    {
        broadcast use vstd::seq_lib::group_to_multiset_ensures;

        match self.dtype {
            TypeTag::List => {
                return Err(EngineError::TypeMismatch);
            },
            TypeTag::Object => {
                return Err(EngineError::TypeMismatch);
            },
            _ => {},
        }
        let cs = self.cells();
        let ghost cellsv = self@.cells;
        proof {
            assert forall|i: int| 0 <= i < cellsv.len()
                implies crate::order::cell_sortable(#[trigger] cellsv[i]) by {
                assert(spec_cell_fits(self@.dtype, cellsv[i]));
            }
        }
        let n = cs.len();
        let mut rest: Vec<usize> = Vec::new();
        let mut i: usize = 0;
        while i < n
            invariant
                i <= n,
                rest@.len() == i,
                forall|j: int| 0 <= j < i ==> #[trigger] rest@[j] == j as usize,
            decreases n - i,
        {
            rest.push(i);
            i = i + 1;
        }
        proof {
            assert(rest@ =~= ident_indices(n as int));
        }
        let mut out: Vec<usize> = Vec::new();
        while rest.len() > 0
            invariant
                self.wf(),
                n == cellsv.len(),
                cellsv == self@.cells,
                cs@.len() == n,
                forall|j: int| 0 <= j < n
                    ==> cell_view(#[trigger] cs@[j]) == cellsv[j],
                forall|j: int| 0 <= j < n
                    ==> crate::order::cell_sortable(#[trigger] cellsv[j]),
                forall|j: int| 0 <= j < rest@.len() ==> #[trigger] rest@[j] < n,
                forall|j: int| 0 <= j < out@.len() ==> #[trigger] out@[j] < n,
                forall|p: int, q: int| 0 <= p < q < rest@.len()
                    ==> #[trigger] rest@[p] < #[trigger] rest@[q],
                out@.to_multiset().add(rest@.to_multiset())
                    == ident_indices(n as int).to_multiset(),
                argsort_ordered(descending, cellsv, out@),
                // everything already placed precedes everything remaining
                forall|p: int, q: int| 0 <= p < out@.len() && 0 <= q < rest@.len()
                    ==> crate::order::cell_le(
                        descending,
                        cellsv[#[trigger] out@[p] as int],
                        cellsv[#[trigger] rest@[q] as int],
                    ) && (crate::order::cell_le(
                        descending,
                        cellsv[rest@[q] as int],
                        cellsv[out@[p] as int],
                    ) ==> (out@[p] as int) < (rest@[q] as int)),
            decreases rest@.len(),
        {
            // select the least remaining cell, first occurrence on ties
            let mut bp: usize = 0;
            let mut j: usize = 1;
            proof {
                crate::order::lemma_cell_le_total(
                    descending,
                    cellsv[rest@[0] as int],
                    cellsv[rest@[0] as int],
                );
            }
            while j < rest.len()
                invariant
                    self.wf(),
                    cellsv == self@.cells,
                    cs@.len() == n,
                    forall|k: int| 0 <= k < n
                        ==> cell_view(#[trigger] cs@[k]) == cellsv[k],
                    forall|k: int| 0 <= k < n
                        ==> crate::order::cell_sortable(#[trigger] cellsv[k]),
                    forall|k: int| 0 <= k < rest@.len() ==> #[trigger] rest@[k] < n,
                    forall|p: int, q: int| 0 <= p < q < rest@.len()
                        ==> #[trigger] rest@[p] < #[trigger] rest@[q],
                    rest@.len() > 0,
                    bp < j <= rest@.len(),
                    forall|k: int| 0 <= k < j
                        ==> crate::order::cell_le(
                            descending,
                            cellsv[rest@[bp as int] as int],
                            cellsv[#[trigger] rest@[k] as int],
                        ),
                    forall|k: int| 0 <= k < bp
                        ==> !crate::order::cell_le(
                            descending,
                            cellsv[#[trigger] rest@[k] as int],
                            cellsv[rest@[bp as int] as int],
                        ),
                decreases rest@.len() - j,
            {
                let cand = rest[j];
                let best = rest[bp];
                if !crate::order::cell_le_exec(descending, &cs[best], &cs[cand]) {
                    proof {
                        crate::order::lemma_cell_le_total(
                            descending,
                            cellsv[rest@[bp as int] as int],
                            cellsv[rest@[j as int] as int],
                        );
                        crate::order::lemma_cell_le_total(
                            descending,
                            cellsv[rest@[j as int] as int],
                            cellsv[rest@[j as int] as int],
                        );
                        // the candidate is strictly below the old best, so it is
                        // below everything scanned, and nothing scanned is below it
                        assert forall|k: int| 0 <= k < j
                            implies crate::order::cell_le(
                                descending,
                                cellsv[rest@[j as int] as int],
                                cellsv[#[trigger] rest@[k] as int],
                            ) by {
                            crate::order::lemma_cell_le_trans(
                                descending,
                                cellsv[rest@[j as int] as int],
                                cellsv[rest@[bp as int] as int],
                                cellsv[rest@[k] as int],
                            );
                        }
                        assert forall|k: int| 0 <= k < j
                            implies !crate::order::cell_le(
                                descending,
                                cellsv[#[trigger] rest@[k] as int],
                                cellsv[rest@[j as int] as int],
                            ) by {
                            if crate::order::cell_le(
                                descending,
                                cellsv[rest@[k] as int],
                                cellsv[rest@[j as int] as int],
                            ) {
                                if k < bp {
                                    crate::order::lemma_cell_le_trans(
                                        descending,
                                        cellsv[rest@[k] as int],
                                        cellsv[rest@[j as int] as int],
                                        cellsv[rest@[bp as int] as int],
                                    );
                                } else {
                                    crate::order::lemma_cell_le_trans(
                                        descending,
                                        cellsv[rest@[bp as int] as int],
                                        cellsv[rest@[k] as int],
                                        cellsv[rest@[j as int] as int],
                                    );
                                }
                            }
                        }
                    }
                    bp = j;
                }
                j = j + 1;
            }
            let chosen = rest[bp];
            let ghost old_rest = rest@;
            let ghost old_out = out@;
            rest.remove(bp);
            out.push(chosen);
            proof {
                // the multiset bookkeeping
                old_rest.to_multiset_ensures();
                old_out.to_multiset_ensures();
                assert(rest@ == old_rest.remove(bp as int));
                assert(old_rest.remove(bp as int).to_multiset()
                    =~= old_rest.to_multiset().remove(old_rest[bp as int]));
                assert(out@ == old_out.push(chosen));
                assert(old_out.push(chosen).to_multiset()
                    =~= old_out.to_multiset().insert(chosen));
                assert(rest@.to_multiset() =~= old_rest.to_multiset().remove(chosen));
                assert(out@.to_multiset() =~= old_out.to_multiset().insert(chosen));
                assert(old_rest.to_multiset().count(chosen) >= 1) by {
                    assert(old_rest[bp as int] == chosen);
                    assert(old_rest.contains(chosen));
                }
                assert(out@.to_multiset().add(rest@.to_multiset())
                    =~= old_out.to_multiset().add(old_rest.to_multiset()));
                // remaining indices are a sub-order of the old ones
                assert(forall|k: int| 0 <= k < bp ==> #[trigger] rest@[k] == old_rest[k]);
                assert(forall|k: int| bp <= k < rest@.len()
                    ==> #[trigger] rest@[k] == old_rest[k + 1]);
                // the chosen element is least among old_rest
                assert forall|q: int| 0 <= q < rest@.len()
                    implies crate::order::cell_le(
                        descending,
                        cellsv[chosen as int],
                        cellsv[#[trigger] rest@[q] as int],
                    ) && (crate::order::cell_le(
                        descending,
                        cellsv[rest@[q] as int],
                        cellsv[chosen as int],
                    ) ==> (chosen as int) < (rest@[q] as int)) by {
                    if q < bp {
                        assert(rest@[q] == old_rest[q]);
                    } else {
                        assert(rest@[q] == old_rest[q + 1]);
                    }
                }
                assert(argsort_ordered(descending, cellsv, out@));
            }
        }
        proof {
            assert(rest@ =~= Seq::<usize>::empty());
            assert(rest@.to_multiset() =~= Multiset::<usize>::empty());
            assert(out@.to_multiset() =~= out@.to_multiset().add(rest@.to_multiset()));
            assert(out@.to_multiset().len() == ident_indices(n as int).to_multiset().len());
            assert(out@.len() == n);
        }
        Ok(out)
    }

    /// The column with its cells in sorted order: nulls last whatever the
    /// direction, values ascending (or descending when asked). The result
    /// holds exactly the same multiset of cells. `TypeMismatch` exactly for
    /// list and opaque-binary columns.
    pub fn sort(&self, descending: bool) -> (r: Result<Column, EngineError>)
        requires
            self.wf(),
        ensures
            match r {
                Ok(c) => {
                    &&& crate::order::sortable_dtype(self@.dtype)
                    &&& c.wf()
                    &&& c@.name == self@.name
                    &&& c@.dtype == self@.dtype
                    &&& c@.cells.to_multiset() == self@.cells.to_multiset()
                    &&& sorted_cells(descending, c@.cells)
                },
                Err(e) => {
                    &&& e == EngineError::TypeMismatch
                    &&& !crate::order::sortable_dtype(self@.dtype)
                },
            },
    {
        broadcast use vstd::seq_lib::group_to_multiset_ensures;

        let idx = match self.argsort(descending) {
            Ok(idx) => idx,
            Err(e) => {
                return Err(e);
            },
        };
        let taken = match self.take(&idx) {
            Ok(c) => c,
            Err(_) => {
                proof {
                    assert(false);
                }
                return Err(EngineError::InternalError);
            },
        };
        proof {
            lemma_mapped_multiset(self@.cells, idx@, taken@.cells);
        }
        Ok(taken)
    }
}

/// Adjacent cells are in order.
pub open spec fn sorted_cells(desc: bool, cells: Seq<Option<DatumV>>) -> bool {
    forall|p: int, q: int| 0 <= p < q < cells.len()
        ==> crate::order::cell_le(desc, #[trigger] cells[p], #[trigger] cells[q])
}

/// Mapping a sequence through a permutation of all its positions keeps the
/// multiset of elements.
pub proof fn lemma_mapped_multiset(
    cells: Seq<Option<DatumV>>,
    idx: Seq<usize>,
    mapped: Seq<Option<DatumV>>,
)
    requires
        cells.len() <= usize::MAX,
        forall|i: int| 0 <= i < idx.len() ==> #[trigger] idx[i] < cells.len(),
        idx.to_multiset() == ident_indices(cells.len() as int).to_multiset(),
        mapped.len() == idx.len(),
        forall|i: int| 0 <= i < idx.len()
            ==> #[trigger] mapped[i] == cells[idx[i] as int],
    ensures
        mapped.to_multiset() == cells.to_multiset(),
{
    broadcast use vstd::seq_lib::group_to_multiset_ensures;

    let pick = |i: usize| cells[i as int];
    lemma_map_values_multiset(idx, ident_indices(cells.len() as int), pick);
    assert(mapped =~= idx.map_values(pick));
    assert(ident_indices(cells.len() as int).map_values(pick) =~= cells);
}

/// Sequences with equal multisets still have equal multisets after mapping
/// every element through the same function.
proof fn lemma_map_values_multiset(
    a: Seq<usize>,
    b: Seq<usize>,
    pick: spec_fn(usize) -> Option<DatumV>,
)
    requires
        a.to_multiset() == b.to_multiset(),
    ensures
        a.map_values(pick).to_multiset() == b.map_values(pick).to_multiset(),
    decreases a.len(),
{
    broadcast use vstd::seq_lib::group_to_multiset_ensures;

    if a.len() == 0 {
        assert(b.len() == a.len()) by {
            assert(a.to_multiset().len() == a.len());
            assert(b.to_multiset().len() == b.len());
        }
        assert(a.map_values(pick) =~= b.map_values(pick));
    } else {
        let e = a.last();
        assert(a.contains(e));
        assert(a.to_multiset().count(e) > 0);
        assert(b.to_multiset().count(e) > 0);
        assert(b.contains(e));
        let k = choose|k: int| 0 <= k < b.len() && b[k] == e;
        let b2 = b.remove(k);
        assert(b2.to_multiset() =~= b.to_multiset().remove(e));
        assert(a.drop_last() =~= a.remove(a.len() - 1));
        assert(a.drop_last().to_multiset() =~= a.to_multiset().remove(e));
        lemma_map_values_multiset(a.drop_last(), b2, pick);
        assert(a =~= a.drop_last().push(e));
        assert(a.map_values(pick) =~= a.drop_last().map_values(pick).push(pick(e)));
        assert(a.map_values(pick).to_multiset()
            == a.drop_last().map_values(pick).to_multiset().insert(pick(e)));
        assert(b2.map_values(pick) =~= b.map_values(pick).remove(k));
        assert(b.map_values(pick).remove(k).to_multiset()
            =~= b.map_values(pick).to_multiset().remove(pick(e)));
        assert(b.map_values(pick).to_multiset().count(pick(e)) > 0) by {
            assert(b.map_values(pick)[k] == pick(e));
            assert(b.map_values(pick).contains(pick(e)));
        }
        assert(a.map_values(pick).to_multiset() =~= b.map_values(pick).to_multiset());
    }
}


/// The distinct cells of a sequence, each at its first occurrence, in
/// order of first appearance. Two nulls count as the same cell.
pub open spec fn distinct_cells(s: Seq<Option<DatumV>>) -> Seq<Option<DatumV>>
    decreases s.len(),
{
    if s.len() == 0 {
        Seq::empty()
    } else {
        let rest = distinct_cells(s.drop_last());
        if s.drop_last().contains(s.last()) {
            rest
        } else {
            rest.push(s.last())
        }
    }
}

/// A sequence and its distinct form hold the same cells.
pub proof fn lemma_distinct_contains(s: Seq<Option<DatumV>>)
    ensures
        forall|x: Option<DatumV>|
            distinct_cells(s).contains(x) <==> s.contains(x),
    decreases s.len(),
{
    if s.len() > 0 {
        lemma_distinct_contains(s.drop_last());
        let d = distinct_cells(s.drop_last());
        assert forall|x: Option<DatumV>|
            s.contains(x) implies distinct_cells(s).contains(x) by {
            let i = choose|i: int| 0 <= i < s.len() && s[i] == x;
            if i < s.len() - 1 {
                assert(s.drop_last()[i] == x);
                assert(s.drop_last().contains(x));
                assert(d.contains(x));
                let t = choose|t: int| 0 <= t < d.len() && d[t] == x;
                if s.drop_last().contains(s.last()) {
                    assert(distinct_cells(s) == d);
                } else {
                    assert(distinct_cells(s) == d.push(s.last()));
                    assert(d.push(s.last())[t] == x);
                }
                assert(distinct_cells(s).contains(x));
            } else {
                assert(x == s.last());
                if s.drop_last().contains(s.last()) {
                    assert(d.contains(x));
                    let t = choose|t: int| 0 <= t < d.len() && d[t] == x;
                    assert(distinct_cells(s)[t] == x);
                } else {
                    assert(distinct_cells(s) == d.push(s.last()));
                    assert(distinct_cells(s)[d.len() as int] == x);
                }
                assert(distinct_cells(s).contains(x));
            }
        }
        assert forall|x: Option<DatumV>|
            distinct_cells(s).contains(x) implies s.contains(x) by {
            let t = choose|t: int|
                0 <= t < distinct_cells(s).len() && distinct_cells(s)[t] == x;
            if s.drop_last().contains(s.last()) {
                assert(d[t] == x);
                assert(s.drop_last().contains(x));
                let i = choose|i: int| 0 <= i < s.drop_last().len() && s.drop_last()[i] == x;
                assert(s[i] == x);
            } else {
                if t < d.len() {
                    assert(d[t] == x);
                    assert(s.drop_last().contains(x));
                    let i = choose|i: int|
                        0 <= i < s.drop_last().len() && s.drop_last()[i] == x;
                    assert(s[i] == x);
                } else {
                    assert(x == s.last());
                    assert(s[s.len() - 1] == x);
                }
            }
            assert(s.contains(x));
        }
    }
}

/// `i` is the first position where its cell occurs.
pub open spec fn first_occurrence(cells: Seq<Option<DatumV>>, i: int) -> bool {
    forall|k: int| 0 <= k < i ==> cells[k] != cells[i]
}

impl Column {
    /// The distinct cells, each at its first occurrence, in order of first
    /// appearance; two nulls count as one cell.
    pub fn unique(&self) -> (r: Column)
        requires
            self.wf(),
        ensures
            r.wf(),
            r@.name == self@.name,
            r@.dtype == self@.dtype,
            r@.cells == distinct_cells(self@.cells),
    {
        let cs = self.cells();
        let mut out: Vec<Option<Datum>> = Vec::new();
        let mut i: usize = 0;
        proof {
            assert(self@.cells.subrange(0, 0) =~= Seq::<Option<DatumV>>::empty());
        }
        while i < cs.len()
            invariant
                i <= cs@.len(),
                cs@.len() == self@.cells.len(),
                forall|j: int| 0 <= j < cs@.len()
                    ==> cell_view(#[trigger] cs@[j]) == self@.cells[j],
                forall|j: int| 0 <= j < cs@.len()
                    ==> spec_cell_fits(self@.dtype, cell_view(#[trigger] cs@[j])),
                out@.map_values(|c: Option<Datum>| cell_view(c))
                    == distinct_cells(self@.cells.subrange(0, i as int)),
                forall|j: int| 0 <= j < out@.len()
                    ==> spec_cell_fits(self@.dtype, cell_view(#[trigger] out@[j])),
            decreases cs@.len() - i,
        {
            let ghost prefix = self@.cells.subrange(0, i as int);
            // scan the collected distinct cells for the current cell
            let mut seen = false;
            let mut k: usize = 0;
            while k < out.len()
                invariant
                    k <= out@.len(),
                    i < cs@.len(),
                    cs@.len() == self@.cells.len(),
                    forall|j: int| 0 <= j < cs@.len()
                        ==> cell_view(#[trigger] cs@[j]) == self@.cells[j],
                    out@.map_values(|c: Option<Datum>| cell_view(c))
                        == distinct_cells(prefix),
                    prefix == self@.cells.subrange(0, i as int),
                    seen == exists|t: int| 0 <= t < k
                        && cell_view(#[trigger] out@[t]) == self@.cells[i as int],
                decreases out@.len() - k,
            {
                if crate::types::cell_eq(&out[k], &cs[i], true) {
                    seen = true;
                }
                k = k + 1;
            }
            proof {
                lemma_distinct_contains(prefix);
                assert(seen == distinct_cells(prefix).contains(self@.cells[i as int])) by {
                    if seen {
                        let t = choose|t: int| 0 <= t < out@.len()
                            && cell_view(out@[t]) == self@.cells[i as int];
                        assert(distinct_cells(prefix)[t] == self@.cells[i as int]);
                    } else {
                        if distinct_cells(prefix).contains(self@.cells[i as int]) {
                            let t = choose|t: int| 0 <= t < distinct_cells(prefix).len()
                                && distinct_cells(prefix)[t] == self@.cells[i as int];
                            assert(cell_view(out@[t]) == self@.cells[i as int]);
                        }
                    }
                }
                assert(seen == prefix.contains(self@.cells[i as int]));
                assert(self@.cells.subrange(0, i + 1).drop_last() =~= prefix);
                assert(self@.cells.subrange(0, i + 1).last() == self@.cells[i as int]);
            }
            if !seen {
                out.push(duplicate_cell(&cs[i]));
            }
            proof {
                assert(out@.map_values(|c: Option<Datum>| cell_view(c))
                    =~= distinct_cells(self@.cells.subrange(0, i + 1)));
            }
            i = i + 1;
        }
        proof {
            assert(self@.cells.subrange(0, cs@.len() as int) =~= self@.cells);
        }
        Column::build(self.name.clone(), self.dtype, out)
    }

    /// The position of the first occurrence of each distinct cell, in
    /// ascending order, covering every cell of the column.
    pub fn arg_unique(&self) -> (r: Vec<usize>)
        requires
            self.wf(),
        ensures
            forall|k: int| 0 <= k < r@.len()
                ==> #[trigger] r@[k] < self@.cells.len()
                    && first_occurrence(self@.cells, r@[k] as int),
            forall|p: int, q: int| 0 <= p < q < r@.len()
                ==> #[trigger] r@[p] < #[trigger] r@[q],
            forall|j: int| 0 <= j < self@.cells.len() && first_occurrence(self@.cells, j)
                ==> r@.contains(j as usize),
    {
        let cs = self.cells();
        let mut out: Vec<usize> = Vec::new();
        let mut i: usize = 0;
        while i < cs.len()
            invariant
                i <= cs@.len(),
                cs@.len() == self@.cells.len(),
                forall|j: int| 0 <= j < cs@.len()
                    ==> cell_view(#[trigger] cs@[j]) == self@.cells[j],
                forall|k: int| 0 <= k < out@.len()
                    ==> #[trigger] out@[k] < i
                        && first_occurrence(self@.cells, out@[k] as int),
                forall|p: int, q: int| 0 <= p < q < out@.len()
                    ==> #[trigger] out@[p] < #[trigger] out@[q],
                forall|j: int| 0 <= j < i && first_occurrence(self@.cells, j)
                    ==> out@.contains(j as usize),
            decreases cs@.len() - i,
        {
            let mut seen = false;
            let mut k: usize = 0;
            while k < i
                invariant
                    k <= i,
                    i < cs@.len(),
                    cs@.len() == self@.cells.len(),
                    forall|j: int| 0 <= j < cs@.len()
                        ==> cell_view(#[trigger] cs@[j]) == self@.cells[j],
                    seen == exists|t: int| 0 <= t < k
                        && self@.cells[t] == self@.cells[i as int],
                decreases i - k,
            {
                if crate::types::cell_eq(&cs[k], &cs[i], true) {
                    seen = true;
                }
                k = k + 1;
            }
            let ghost old_out = out@;
            if !seen {
                out.push(i);
                proof {
                    assert(forall|j: int| 0 <= j < old_out.len()
                        ==> out@[j] == old_out[j]);
                    assert forall|j: int| 0 <= j < i + 1 && first_occurrence(self@.cells, j)
                        implies out@.contains(j as usize) by {
                        if j < i {
                            let t = choose|t: int| 0 <= t < old_out.len()
                                && old_out[t] == j as usize;
                            assert(out@[t] == j as usize);
                        } else {
                            assert(out@[out@.len() - 1] == i as usize);
                        }
                    }
                }
            } else {
                proof {
                    assert(!first_occurrence(self@.cells, i as int));
                    assert forall|j: int| 0 <= j < i + 1 && first_occurrence(self@.cells, j)
                        implies out@.contains(j as usize) by {
                        assert(j < i);
                    }
                }
            }
            i = i + 1;
        }
        out
    }

    /// A boolean column: true where the cell occurs exactly once in the
    /// column; two nulls count as the same cell.
    pub fn is_unique(&self) -> (r: Column)
        requires
            self.wf(),
        ensures
            r.wf(),
            r@.name == self@.name,
            r@.dtype == TypeTag::Bool,
            r@.cells.len() == self@.cells.len(),
            forall|i: int| 0 <= i < self@.cells.len()
                ==> #[trigger] r@.cells[i] == Some(DatumV::Sc(crate::types::ScalarV::Bool(
                    forall|k: int| 0 <= k < self@.cells.len() && k != i
                        ==> self@.cells[k] != self@.cells[i],
                ))),
    {
        let cs = self.cells();
        let mut out: Vec<Option<Datum>> = Vec::new();
        let mut i: usize = 0;
        while i < cs.len()
            invariant
                i <= cs@.len(),
                cs@.len() == self@.cells.len(),
                forall|j: int| 0 <= j < cs@.len()
                    ==> cell_view(#[trigger] cs@[j]) == self@.cells[j],
                out@.len() == i,
                forall|j: int| 0 <= j < i
                    ==> cell_view(#[trigger] out@[j]) == Some(DatumV::Sc(
                        crate::types::ScalarV::Bool(
                            forall|k: int| 0 <= k < self@.cells.len() && k != j
                                ==> self@.cells[k] != self@.cells[j],
                        ),
                    )),
            decreases cs@.len() - i,
        {
            let mut alone = true;
            let mut k: usize = 0;
            while k < cs.len()
                invariant
                    k <= cs@.len(),
                    i < cs@.len(),
                    cs@.len() == self@.cells.len(),
                    forall|j: int| 0 <= j < cs@.len()
                        ==> cell_view(#[trigger] cs@[j]) == self@.cells[j],
                    alone == (forall|t: int| 0 <= t < k && t != i
                        ==> self@.cells[t] != self@.cells[i as int]),
                decreases cs@.len() - k,
            {
                if k != i {
                    if crate::types::cell_eq(&cs[k], &cs[i], true) {
                        alone = false;
                    }
                }
                k = k + 1;
            }
            out.push(Some(Datum::Sc(crate::types::Scalar::Bool(alone))));
            i = i + 1;
        }
        Column::build(self.name.clone(), TypeTag::Bool, out)
    }

    /// A boolean column: true where the cell occurs more than once.
    pub fn is_duplicated(&self) -> (r: Column)
        requires
            self.wf(),
        ensures
            r.wf(),
            r@.name == self@.name,
            r@.dtype == TypeTag::Bool,
            r@.cells.len() == self@.cells.len(),
            forall|i: int| 0 <= i < self@.cells.len()
                ==> #[trigger] r@.cells[i] == Some(DatumV::Sc(crate::types::ScalarV::Bool(
                    !(forall|k: int| 0 <= k < self@.cells.len() && k != i
                        ==> self@.cells[k] != self@.cells[i]),
                ))),
    {
        let u = self.is_unique();
        let cs = u.cells();
        let mut out: Vec<Option<Datum>> = Vec::new();
        let mut i: usize = 0;
        while i < cs.len()
            invariant
                i <= cs@.len(),
                cs@.len() == u@.cells.len(),
                u@.cells.len() == self@.cells.len(),
                forall|j: int| 0 <= j < cs@.len()
                    ==> cell_view(#[trigger] cs@[j]) == u@.cells[j],
                forall|j: int| 0 <= j < self@.cells.len()
                    ==> #[trigger] u@.cells[j] == Some(DatumV::Sc(crate::types::ScalarV::Bool(
                        forall|k: int| 0 <= k < self@.cells.len() && k != j
                            ==> self@.cells[k] != self@.cells[j],
                    ))),
                out@.len() == i,
                forall|j: int| 0 <= j < i
                    ==> cell_view(#[trigger] out@[j]) == Some(DatumV::Sc(
                        crate::types::ScalarV::Bool(
                            !(forall|k: int| 0 <= k < self@.cells.len() && k != j
                                ==> self@.cells[k] != self@.cells[j]),
                        ),
                    )),
            decreases cs@.len() - i,
        {
            let b = match &cs[i] {
                Some(Datum::Sc(crate::types::Scalar::Bool(b))) => !*b,
                _ => {
                    proof {
                        assert(false);
                    }
                    false
                },
            };
            out.push(Some(Datum::Sc(crate::types::Scalar::Bool(b))));
            i = i + 1;
        }
        Column::build(self.name.clone(), TypeTag::Bool, out)
    }

    /// The positions holding `true`, ascending; `TypeMismatch` exactly when
    /// the column is not boolean.
    pub fn arg_true(&self) -> (r: Result<Vec<usize>, EngineError>)
        requires
            self.wf(),
        ensures
            match r {
                Ok(idx) => {
                    &&& self@.dtype == TypeTag::Bool
                    &&& forall|k: int| 0 <= k < idx@.len()
                        ==> #[trigger] idx@[k] < self@.cells.len()
                            && self@.cells[idx@[k] as int]
                                == Some(DatumV::Sc(crate::types::ScalarV::Bool(true)))
                    &&& forall|p: int, q: int| 0 <= p < q < idx@.len()
                        ==> #[trigger] idx@[p] < #[trigger] idx@[q]
                    &&& forall|j: int| 0 <= j < self@.cells.len()
                        && self@.cells[j] == Some(DatumV::Sc(crate::types::ScalarV::Bool(true)))
                        ==> idx@.contains(j as usize)
                },
                Err(e) => e == EngineError::TypeMismatch && self@.dtype != TypeTag::Bool,
            },
    {
        if !matches!(self.dtype(), TypeTag::Bool) {
            return Err(EngineError::TypeMismatch);
        }
        let cs = self.cells();
        let mut out: Vec<usize> = Vec::new();
        let mut i: usize = 0;
        while i < cs.len()
            invariant
                i <= cs@.len(),
                cs@.len() == self@.cells.len(),
                forall|j: int| 0 <= j < cs@.len()
                    ==> cell_view(#[trigger] cs@[j]) == self@.cells[j],
                forall|k: int| 0 <= k < out@.len()
                    ==> #[trigger] out@[k] < i
                        && self@.cells[out@[k] as int]
                            == Some(DatumV::Sc(crate::types::ScalarV::Bool(true))),
                forall|p: int, q: int| 0 <= p < q < out@.len()
                    ==> #[trigger] out@[p] < #[trigger] out@[q],
                forall|j: int| 0 <= j < i
                    && self@.cells[j] == Some(DatumV::Sc(crate::types::ScalarV::Bool(true)))
                    ==> out@.contains(j as usize),
            decreases cs@.len() - i,
        {
            let hit = match &cs[i] {
                Some(v) => v.eq_value(&Datum::Sc(crate::types::Scalar::Bool(true))),
                None => false,
            };
            let ghost old_out = out@;
            if hit {
                out.push(i);
            }
            proof {
                assert forall|j: int| 0 <= j < i + 1
                    && self@.cells[j] == Some(DatumV::Sc(crate::types::ScalarV::Bool(true)))
                    implies out@.contains(j as usize) by {
                    if j < i {
                        let t = choose|t: int| 0 <= t < old_out.len()
                            && old_out[t] == j as usize;
                        assert(out@[t] == j as usize);
                    } else {
                        assert(out@[out@.len() - 1] == i as usize);
                    }
                }
            }
            i = i + 1;
        }
        Ok(out)
    }
}


/// What one comparison yields on two scalars.
pub open spec fn cmp_scalars(op: crate::arith::CmpOp, x: ScalarV, y: ScalarV) -> bool {
    match op {
        crate::arith::CmpOp::Eq => x == y,
        crate::arith::CmpOp::Neq => x != y,
        crate::arith::CmpOp::LtEq => crate::order::scalar_le(x, y),
        crate::arith::CmpOp::Lt => crate::order::scalar_le(x, y) && x != y,
        crate::arith::CmpOp::GtEq => crate::order::scalar_le(y, x),
        crate::arith::CmpOp::Gt => crate::order::scalar_le(y, x) && x != y,
    }
}

/// What one comparison yields on two cells: null when either side is null.
pub open spec fn cmp_cell(
    op: crate::arith::CmpOp,
    a: Option<DatumV>,
    b: Option<DatumV>,
) -> Option<DatumV> {
    match (a, b) {
        (Some(DatumV::Sc(x)), Some(DatumV::Sc(y))) => Some(DatumV::Sc(
            crate::types::ScalarV::Bool(cmp_scalars(op, x, y)),
        )),
        _ => None,
    }
}

/// One comparison on two sortable scalars.
fn cmp_scalars_exec(op: crate::arith::CmpOp, x: &crate::types::Scalar, y: &crate::types::Scalar)
    -> (r: bool)
    requires
        crate::order::scalar_sortable(x@),
        crate::order::scalar_sortable(y@),
    ensures
        r == cmp_scalars(op, x@, y@),
{
    match op {
        crate::arith::CmpOp::Eq => x.eq_scalar(y),
        crate::arith::CmpOp::Neq => !x.eq_scalar(y),
        crate::arith::CmpOp::LtEq => crate::order::scalar_le_exec(x, y),
        crate::arith::CmpOp::Lt => crate::order::scalar_le_exec(x, y) && !x.eq_scalar(y),
        crate::arith::CmpOp::GtEq => crate::order::scalar_le_exec(y, x),
        crate::arith::CmpOp::Gt => crate::order::scalar_le_exec(y, x) && !x.eq_scalar(y),
    }
}

impl Column {
    /// The element-wise comparison against another column: a boolean column
    /// under this column's name, null wherever either operand is null.
    /// `TypeMismatch` when either column is of a list or opaque-binary
    /// type, `LengthMismatch` when the lengths differ.
    pub fn compare(&self, op: crate::arith::CmpOp, other: &Column) -> (r: Result<
        Column,
        EngineError,
    >)
        requires
            self.wf(),
            other.wf(),
        ensures
            match r {
                Ok(c) => {
                    &&& crate::order::sortable_dtype(self@.dtype)
                    &&& crate::order::sortable_dtype(other@.dtype)
                    &&& other@.cells.len() == self@.cells.len()
                    &&& c.wf()
                    &&& c@.name == self@.name
                    &&& c@.dtype == TypeTag::Bool
                    &&& c@.cells.len() == self@.cells.len()
                    &&& forall|i: int| 0 <= i < self@.cells.len()
                        ==> #[trigger] c@.cells[i] == cmp_cell(op, self@.cells[i], other@.cells[i])
                },
                Err(e) => {
                    ||| (e == EngineError::TypeMismatch
                        && !(crate::order::sortable_dtype(self@.dtype)
                            && crate::order::sortable_dtype(other@.dtype)))
                    ||| (e == EngineError::LengthMismatch
                        && crate::order::sortable_dtype(self@.dtype)
                        && crate::order::sortable_dtype(other@.dtype)
                        && other@.cells.len() != self@.cells.len())
                },
            },
    {
        if matches!(self.dtype(), TypeTag::List) || matches!(self.dtype(), TypeTag::Object)
            || matches!(other.dtype(), TypeTag::List) || matches!(other.dtype(), TypeTag::Object) {
            return Err(EngineError::TypeMismatch);
        }
        if self.len() != other.len() {
            return Err(EngineError::LengthMismatch);
        }
        let cs = self.cells();
        let os = other.cells();
        let mut out: Vec<Option<Datum>> = Vec::new();
        let mut i: usize = 0;
        while i < cs.len()
            invariant
                i <= cs@.len(),
                cs@.len() == self@.cells.len(),
                os@.len() == other@.cells.len(),
                os@.len() == cs@.len(),
                crate::order::sortable_dtype(self@.dtype),
                crate::order::sortable_dtype(other@.dtype),
                forall|j: int| 0 <= j < cs@.len()
                    ==> cell_view(#[trigger] cs@[j]) == self@.cells[j],
                forall|j: int| 0 <= j < os@.len()
                    ==> cell_view(#[trigger] os@[j]) == other@.cells[j],
                forall|j: int| 0 <= j < cs@.len()
                    ==> spec_cell_fits(self@.dtype, cell_view(#[trigger] cs@[j])),
                forall|j: int| 0 <= j < os@.len()
                    ==> spec_cell_fits(other@.dtype, cell_view(#[trigger] os@[j])),
                out@.len() == i,
                forall|j: int| 0 <= j < i
                    ==> cell_view(#[trigger] out@[j])
                        == cmp_cell(op, self@.cells[j], other@.cells[j]),
            decreases cs@.len() - i,
        {
            let cell = match (&cs[i], &os[i]) {
                (Some(Datum::Sc(x)), Some(Datum::Sc(y))) => {
                    Some(Datum::Sc(crate::types::Scalar::Bool(cmp_scalars_exec(op, x, y))))
                },
                _ => None,
            };
            proof {
                assert(cell_view(cell) == cmp_cell(op, self@.cells[i as int], other@.cells[i as int]));
            }
            out.push(cell);
            i = i + 1;
        }
        Ok(Column::build(self.name.clone(), TypeTag::Bool, out))
    }

    /// The element-wise comparison against one scalar: a boolean column,
    /// null where the cell is null. `TypeMismatch` when the column is of a
    /// list or opaque-binary type or the scalar is a binary payload.
    pub fn compare_value(&self, op: crate::arith::CmpOp, v: &crate::types::Scalar) -> (r: Result<
        Column,
        EngineError,
    >)
        requires
            self.wf(),
        ensures
            match r {
                Ok(c) => {
                    &&& crate::order::sortable_dtype(self@.dtype)
                    &&& crate::order::scalar_sortable(v@)
                    &&& c.wf()
                    &&& c@.name == self@.name
                    &&& c@.dtype == TypeTag::Bool
                    &&& c@.cells.len() == self@.cells.len()
                    &&& forall|i: int| 0 <= i < self@.cells.len()
                        ==> #[trigger] c@.cells[i]
                            == cmp_cell(op, self@.cells[i], Some(DatumV::Sc(v@)))
                },
                Err(e) => {
                    &&& e == EngineError::TypeMismatch
                    &&& !(crate::order::sortable_dtype(self@.dtype)
                        && crate::order::scalar_sortable(v@))
                },
            },
    {
        if matches!(self.dtype(), TypeTag::List) || matches!(self.dtype(), TypeTag::Object)
            || matches!(v, crate::types::Scalar::Bin(_)) {
            return Err(EngineError::TypeMismatch);
        }
        let cs = self.cells();
        let mut out: Vec<Option<Datum>> = Vec::new();
        let mut i: usize = 0;
        while i < cs.len()
            invariant
                i <= cs@.len(),
                cs@.len() == self@.cells.len(),
                crate::order::sortable_dtype(self@.dtype),
                crate::order::scalar_sortable(v@),
                forall|j: int| 0 <= j < cs@.len()
                    ==> cell_view(#[trigger] cs@[j]) == self@.cells[j],
                forall|j: int| 0 <= j < cs@.len()
                    ==> spec_cell_fits(self@.dtype, cell_view(#[trigger] cs@[j])),
                out@.len() == i,
                forall|j: int| 0 <= j < i
                    ==> cell_view(#[trigger] out@[j])
                        == cmp_cell(op, self@.cells[j], Some(DatumV::Sc(v@))),
            decreases cs@.len() - i,
        {
            let cell = match &cs[i] {
                Some(Datum::Sc(x)) => {
                    Some(Datum::Sc(crate::types::Scalar::Bool(cmp_scalars_exec(op, x, v))))
                },
                _ => None,
            };
            out.push(cell);
            i = i + 1;
        }
        Ok(Column::build(self.name.clone(), TypeTag::Bool, out))
    }

    /// The element-wise negation of a boolean column, nulls unchanged;
    /// `TypeMismatch` exactly when the column is not boolean.
    pub fn bool_not(&self) -> (r: Result<Column, EngineError>)
        requires
            self.wf(),
        ensures
            match r {
                Ok(c) => {
                    &&& self@.dtype == TypeTag::Bool
                    &&& c.wf()
                    &&& c@.name == self@.name
                    &&& c@.dtype == TypeTag::Bool
                    &&& c@.cells.len() == self@.cells.len()
                    &&& forall|i: int| 0 <= i < self@.cells.len()
                        ==> #[trigger] c@.cells[i] == match self@.cells[i] {
                            Some(DatumV::Sc(crate::types::ScalarV::Bool(b)))
                                => Some(DatumV::Sc(crate::types::ScalarV::Bool(!b))),
                            _ => None,
                        }
                },
                Err(e) => e == EngineError::TypeMismatch && self@.dtype != TypeTag::Bool,
            },
    {
        if !matches!(self.dtype(), TypeTag::Bool) {
            return Err(EngineError::TypeMismatch);
        }
        let cs = self.cells();
        let mut out: Vec<Option<Datum>> = Vec::new();
        let mut i: usize = 0;
        while i < cs.len()
            invariant
                i <= cs@.len(),
                cs@.len() == self@.cells.len(),
                forall|j: int| 0 <= j < cs@.len()
                    ==> cell_view(#[trigger] cs@[j]) == self@.cells[j],
                out@.len() == i,
                forall|j: int| 0 <= j < i
                    ==> cell_view(#[trigger] out@[j]) == match self@.cells[j] {
                        Some(DatumV::Sc(crate::types::ScalarV::Bool(b)))
                            => Some(DatumV::Sc(crate::types::ScalarV::Bool(!b))),
                        _ => None,
                    },
            decreases cs@.len() - i,
        {
            let cell = match &cs[i] {
                Some(Datum::Sc(crate::types::Scalar::Bool(b))) => {
                    Some(Datum::Sc(crate::types::Scalar::Bool(!*b)))
                },
                _ => None,
            };
            out.push(cell);
            i = i + 1;
        }
        Ok(Column::build(self.name.clone(), TypeTag::Bool, out))
    }

    /// Element-wise choice: where `mask` holds true take this column's
    /// cell, elsewhere (false or null mask) take `other`'s. `TypeMismatch`
    /// when the mask is not boolean or the element types differ,
    /// `LengthMismatch` when any length differs.
    pub fn zip_with(&self, mask: &Column, other: &Column) -> (r: Result<Column, EngineError>)
        requires
            self.wf(),
            mask.wf(),
            other.wf(),
        ensures
            match r {
                Ok(c) => {
                    &&& mask@.dtype == TypeTag::Bool
                    &&& other@.dtype == self@.dtype
                    &&& mask@.cells.len() == self@.cells.len()
                    &&& other@.cells.len() == self@.cells.len()
                    &&& c.wf()
                    &&& c@.name == self@.name
                    &&& c@.dtype == self@.dtype
                    &&& c@.cells.len() == self@.cells.len()
                    &&& forall|i: int| 0 <= i < self@.cells.len()
                        ==> #[trigger] c@.cells[i] == if mask@.cells[i]
                            == Some(DatumV::Sc(crate::types::ScalarV::Bool(true))) {
                            self@.cells[i]
                        } else {
                            other@.cells[i]
                        }
                },
                Err(e) => {
                    ||| (e == EngineError::TypeMismatch
                        && !(mask@.dtype == TypeTag::Bool && other@.dtype == self@.dtype))
                    ||| (e == EngineError::LengthMismatch
                        && mask@.dtype == TypeTag::Bool && other@.dtype == self@.dtype
                        && !(mask@.cells.len() == self@.cells.len()
                            && other@.cells.len() == self@.cells.len()))
                },
            },
    {
        proof {
            crate::types::lemma_tag_code_bijective();
        }
        if !matches!(mask.dtype(), TypeTag::Bool) || self.dtype().code() != other.dtype().code() {
            return Err(EngineError::TypeMismatch);
        }
        if mask.len() != self.len() || other.len() != self.len() {
            return Err(EngineError::LengthMismatch);
        }
        let cs = self.cells();
        let ms = mask.cells();
        let os = other.cells();
        let mut out: Vec<Option<Datum>> = Vec::new();
        let mut i: usize = 0;
        while i < cs.len()
            invariant
                i <= cs@.len(),
                cs@.len() == self@.cells.len(),
                ms@.len() == cs@.len(),
                os@.len() == cs@.len(),
                self@.dtype == other@.dtype,
                forall|j: int| 0 <= j < cs@.len()
                    ==> cell_view(#[trigger] cs@[j]) == self@.cells[j],
                forall|j: int| 0 <= j < ms@.len()
                    ==> cell_view(#[trigger] ms@[j]) == mask@.cells[j],
                forall|j: int| 0 <= j < os@.len()
                    ==> cell_view(#[trigger] os@[j]) == other@.cells[j],
                forall|j: int| 0 <= j < cs@.len()
                    ==> spec_cell_fits(self@.dtype, cell_view(#[trigger] cs@[j])),
                forall|j: int| 0 <= j < os@.len()
                    ==> spec_cell_fits(other@.dtype, cell_view(#[trigger] os@[j])),
                out@.len() == i,
                forall|j: int| 0 <= j < i
                    ==> cell_view(#[trigger] out@[j]) == if mask@.cells[j]
                        == Some(DatumV::Sc(crate::types::ScalarV::Bool(true))) {
                        self@.cells[j]
                    } else {
                        other@.cells[j]
                    },
                forall|j: int| 0 <= j < out@.len()
                    ==> spec_cell_fits(self@.dtype, cell_view(#[trigger] out@[j])),
            decreases cs@.len() - i,
        {
            let take_left = match &ms[i] {
                Some(v) => v.eq_value(&Datum::Sc(crate::types::Scalar::Bool(true))),
                None => false,
            };
            if take_left {
                out.push(duplicate_cell(&cs[i]));
            } else {
                out.push(duplicate_cell(&os[i]));
            }
            i = i + 1;
        }
        Ok(Column::build(self.name.clone(), self.dtype, out))
    }

    /// Replaces the cells where `mask` holds true by `value` (which may be
    /// the null cell), keeping the rest. `TypeMismatch` when the mask is
    /// not boolean or the value does not fit the column's type,
    /// `LengthMismatch` when the lengths differ.
    pub fn set_with_mask(&self, mask: &Column, value: &Option<Datum>) -> (r: Result<
        Column,
        EngineError,
    >)
        requires
            self.wf(),
            mask.wf(),
        ensures
            match r {
                Ok(c) => {
                    &&& mask@.dtype == TypeTag::Bool
                    &&& spec_cell_fits(self@.dtype, cell_view(*value))
                    &&& mask@.cells.len() == self@.cells.len()
                    &&& c.wf()
                    &&& c@.name == self@.name
                    &&& c@.dtype == self@.dtype
                    &&& c@.cells.len() == self@.cells.len()
                    &&& forall|i: int| 0 <= i < self@.cells.len()
                        ==> #[trigger] c@.cells[i] == if mask@.cells[i]
                            == Some(DatumV::Sc(crate::types::ScalarV::Bool(true))) {
                            cell_view(*value)
                        } else {
                            self@.cells[i]
                        }
                },
                Err(e) => {
                    ||| (e == EngineError::TypeMismatch
                        && !(mask@.dtype == TypeTag::Bool
                            && spec_cell_fits(self@.dtype, cell_view(*value))))
                    ||| (e == EngineError::LengthMismatch
                        && mask@.dtype == TypeTag::Bool
                        && spec_cell_fits(self@.dtype, cell_view(*value))
                        && mask@.cells.len() != self@.cells.len())
                },
            },
    {
        if !matches!(mask.dtype(), TypeTag::Bool) {
            return Err(EngineError::TypeMismatch);
        }
        let ok = match value {
            Some(v) => v.fits(self.dtype()),
            None => true,
        };
        if !ok {
            return Err(EngineError::TypeMismatch);
        }
        if mask.len() != self.len() {
            return Err(EngineError::LengthMismatch);
        }
        let cs = self.cells();
        let ms = mask.cells();
        let mut out: Vec<Option<Datum>> = Vec::new();
        let mut i: usize = 0;
        while i < cs.len()
            invariant
                i <= cs@.len(),
                cs@.len() == self@.cells.len(),
                ms@.len() == cs@.len(),
                spec_cell_fits(self@.dtype, cell_view(*value)),
                forall|j: int| 0 <= j < cs@.len()
                    ==> cell_view(#[trigger] cs@[j]) == self@.cells[j],
                forall|j: int| 0 <= j < ms@.len()
                    ==> cell_view(#[trigger] ms@[j]) == mask@.cells[j],
                forall|j: int| 0 <= j < cs@.len()
                    ==> spec_cell_fits(self@.dtype, cell_view(#[trigger] cs@[j])),
                out@.len() == i,
                forall|j: int| 0 <= j < i
                    ==> cell_view(#[trigger] out@[j]) == if mask@.cells[j]
                        == Some(DatumV::Sc(crate::types::ScalarV::Bool(true))) {
                        cell_view(*value)
                    } else {
                        self@.cells[j]
                    },
                forall|j: int| 0 <= j < out@.len()
                    ==> spec_cell_fits(self@.dtype, cell_view(#[trigger] out@[j])),
            decreases cs@.len() - i,
        {
            let hit = match &ms[i] {
                Some(v) => v.eq_value(&Datum::Sc(crate::types::Scalar::Bool(true))),
                None => false,
            };
            if hit {
                out.push(duplicate_cell(value));
            } else {
                out.push(duplicate_cell(&cs[i]));
            }
            i = i + 1;
        }
        Ok(Column::build(self.name.clone(), self.dtype, out))
    }

    /// The element-wise arithmetic against another column. Both columns
    /// must be numeric (`TypeMismatch`) and of one length
    /// (`LengthMismatch`); the result widens to `Int64`, or `UInt64` when
    /// both operands are unsigned, and any position whose exact result
    /// leaves that range fails the whole operation with `CastError`. A null
    /// operand gives a null result at that position, as does division or
    /// remainder by zero.
    pub fn arithmetic(&self, op: crate::arith::ArithOp, other: &Column) -> (r: Result<
        Column,
        EngineError,
    >)
        requires
            self.wf(),
            other.wf(),
        ensures
            match r {
                Ok(c) => {
                    &&& crate::arith::numeric_dtype(self@.dtype)
                    &&& crate::arith::numeric_dtype(other@.dtype)
                    &&& other@.cells.len() == self@.cells.len()
                    &&& c.wf()
                    &&& c@.name == self@.name
                    &&& c@.dtype == crate::arith::promote(self@.dtype, other@.dtype)
                    &&& c@.cells.len() == self@.cells.len()
                    &&& forall|i: int| 0 <= i < self@.cells.len()
                        ==> #[trigger] c@.cells[i] == crate::arith::arith_cell(
                            op,
                            crate::arith::promote(self@.dtype, other@.dtype),
                            self@.cells[i],
                            other@.cells[i],
                        )
                },
                Err(e) => {
                    ||| (e == EngineError::TypeMismatch
                        && !(crate::arith::numeric_dtype(self@.dtype)
                            && crate::arith::numeric_dtype(other@.dtype)))
                    ||| (e == EngineError::LengthMismatch
                        && crate::arith::numeric_dtype(self@.dtype)
                        && crate::arith::numeric_dtype(other@.dtype)
                        && other@.cells.len() != self@.cells.len())
                    ||| (e == EngineError::CastError
                        && exists|i: int| 0 <= i < self@.cells.len()
                            && crate::arith::arith_overflows(
                                op,
                                crate::arith::promote(self@.dtype, other@.dtype),
                                #[trigger] self@.cells[i],
                                other@.cells[i],
                            ))
                },
            },
    {
        if !crate::arith::numeric_dtype_exec(self.dtype())
            || !crate::arith::numeric_dtype_exec(other.dtype()) {
            return Err(EngineError::TypeMismatch);
        }
        if self.len() != other.len() {
            return Err(EngineError::LengthMismatch);
        }
        let rt = if !matches!(self.dtype(), TypeTag::UInt8 | TypeTag::UInt16 | TypeTag::UInt32
            | TypeTag::UInt64) || !matches!(other.dtype(), TypeTag::UInt8 | TypeTag::UInt16
            | TypeTag::UInt32 | TypeTag::UInt64) {
            TypeTag::Int64
        } else {
            TypeTag::UInt64
        };
        proof {
            assert(rt == crate::arith::promote(self@.dtype, other@.dtype));
        }
        let cs = self.cells();
        let os = other.cells();
        let mut out: Vec<Option<Datum>> = Vec::new();
        let mut i: usize = 0;
        while i < cs.len()
            invariant
                i <= cs@.len(),
                cs@.len() == self@.cells.len(),
                os@.len() == cs@.len(),
                crate::arith::numeric_dtype(self@.dtype),
                crate::arith::numeric_dtype(other@.dtype),
                rt == crate::arith::promote(self@.dtype, other@.dtype),
                rt == TypeTag::Int64 || rt == TypeTag::UInt64,
                forall|j: int| 0 <= j < cs@.len()
                    ==> cell_view(#[trigger] cs@[j]) == self@.cells[j],
                forall|j: int| 0 <= j < os@.len()
                    ==> cell_view(#[trigger] os@[j]) == other@.cells[j],
                forall|j: int| 0 <= j < cs@.len()
                    ==> spec_cell_fits(self@.dtype, cell_view(#[trigger] cs@[j])),
                forall|j: int| 0 <= j < os@.len()
                    ==> spec_cell_fits(other@.dtype, cell_view(#[trigger] os@[j])),
                out@.len() == i,
                forall|j: int| 0 <= j < i
                    ==> cell_view(#[trigger] out@[j]) == crate::arith::arith_cell(
                        op, rt, self@.cells[j], other@.cells[j],
                    ),
                forall|j: int| 0 <= j < out@.len()
                    ==> spec_cell_fits(rt, cell_view(#[trigger] out@[j])),
            decreases cs@.len() - i,
        {
            let cell: Option<Datum> = match (&cs[i], &os[i]) {
                (Some(Datum::Sc(x)), Some(Datum::Sc(y))) => {
                    proof {
                        assert(crate::arith::is_num(x@));
                        assert(crate::arith::is_num(y@));
                    }
                    match crate::arith::arith_payloads(op, rt, x, y) {
                        Some(c) => c,
                        None => {
                            return Err(EngineError::CastError);
                        },
                    }
                },
                _ => None,
            };
            out.push(cell);
            i = i + 1;
        }
        Ok(Column::build(self.name.clone(), rt, out))
    }

    /// The element-wise arithmetic against one numeric scalar; when
    /// `scalar_on_left` holds the scalar is the left operand of the
    /// operation. Errors as column arithmetic, without a length to
    /// mismatch.
    pub fn arithmetic_value(
        &self,
        op: crate::arith::ArithOp,
        v: &crate::types::Scalar,
        scalar_on_left: bool,
    ) -> (r: Result<Column, EngineError>)
        requires
            self.wf(),
        ensures
            match r {
                Ok(c) => {
                    &&& crate::arith::numeric_dtype(self@.dtype)
                    &&& crate::arith::is_num(v@)
                    &&& c.wf()
                    &&& c@.name == self@.name
                    &&& c@.cells.len() == self@.cells.len()
                    &&& forall|i: int| 0 <= i < self@.cells.len()
                        ==> #[trigger] c@.cells[i] == if scalar_on_left {
                            crate::arith::arith_cell(
                                op, c@.dtype, Some(DatumV::Sc(v@)), self@.cells[i],
                            )
                        } else {
                            crate::arith::arith_cell(
                                op, c@.dtype, self@.cells[i], Some(DatumV::Sc(v@)),
                            )
                        }
                    &&& c@.dtype == if v@ is UInt {
                        crate::arith::promote(self@.dtype, TypeTag::UInt64)
                    } else {
                        TypeTag::Int64
                    }
                },
                Err(e) => {
                    ||| (e == EngineError::TypeMismatch
                        && !(crate::arith::numeric_dtype(self@.dtype)
                            && crate::arith::is_num(v@)))
                    ||| (e == EngineError::CastError
                        && exists|i: int| 0 <= i < self@.cells.len()
                            && (if scalar_on_left {
                                crate::arith::arith_overflows(
                                    op,
                                    if v@ is UInt {
                                        crate::arith::promote(self@.dtype, TypeTag::UInt64)
                                    } else {
                                        TypeTag::Int64
                                    },
                                    Some(DatumV::Sc(v@)),
                                    #[trigger] self@.cells[i],
                                )
                            } else {
                                crate::arith::arith_overflows(
                                    op,
                                    if v@ is UInt {
                                        crate::arith::promote(self@.dtype, TypeTag::UInt64)
                                    } else {
                                        TypeTag::Int64
                                    },
                                    #[trigger] self@.cells[i],
                                    Some(DatumV::Sc(v@)),
                                )
                            }))
                },
            },
    {
        if !crate::arith::numeric_dtype_exec(self.dtype()) {
            return Err(EngineError::TypeMismatch);
        }
        let rt = match v {
            crate::types::Scalar::UInt(_) => {
                if matches!(self.dtype(), TypeTag::UInt8 | TypeTag::UInt16 | TypeTag::UInt32
                    | TypeTag::UInt64) {
                    TypeTag::UInt64
                } else {
                    TypeTag::Int64
                }
            },
            crate::types::Scalar::Int(_) => TypeTag::Int64,
            _ => {
                return Err(EngineError::TypeMismatch);
            },
        };
        let cs = self.cells();
        let mut out: Vec<Option<Datum>> = Vec::new();
        let mut i: usize = 0;
        while i < cs.len()
            invariant
                i <= cs@.len(),
                cs@.len() == self@.cells.len(),
                crate::arith::numeric_dtype(self@.dtype),
                crate::arith::is_num(v@),
                rt == TypeTag::Int64 || rt == TypeTag::UInt64,
                rt == if v@ is UInt {
                    crate::arith::promote(self@.dtype, TypeTag::UInt64)
                } else {
                    TypeTag::Int64
                },
                forall|j: int| 0 <= j < cs@.len()
                    ==> cell_view(#[trigger] cs@[j]) == self@.cells[j],
                forall|j: int| 0 <= j < cs@.len()
                    ==> spec_cell_fits(self@.dtype, cell_view(#[trigger] cs@[j])),
                out@.len() == i,
                forall|j: int| 0 <= j < i
                    ==> cell_view(#[trigger] out@[j]) == if scalar_on_left {
                        crate::arith::arith_cell(op, rt, Some(DatumV::Sc(v@)), self@.cells[j])
                    } else {
                        crate::arith::arith_cell(op, rt, self@.cells[j], Some(DatumV::Sc(v@)))
                    },
                forall|j: int| 0 <= j < out@.len()
                    ==> spec_cell_fits(rt, cell_view(#[trigger] out@[j])),
            decreases cs@.len() - i,
        {
            let cell: Option<Datum> = match &cs[i] {
                Some(Datum::Sc(x)) => {
                    let res = if scalar_on_left {
                        crate::arith::arith_payloads(op, rt, v, x)
                    } else {
                        crate::arith::arith_payloads(op, rt, x, v)
                    };
                    match res {
                        Some(c) => c,
                        None => {
                            return Err(EngineError::CastError);
                        },
                    }
                },
                _ => None,
            };
            out.push(cell);
            i = i + 1;
        }
        Ok(Column::build(self.name.clone(), rt, out))
    }
}


/// The sum of the numeric payloads of the non-null cells.
pub open spec fn sum_of(cells: Seq<Option<DatumV>>) -> int
    decreases cells.len(),
{
    if cells.len() == 0 {
        0
    } else {
        sum_of(cells.drop_last()) + match cells.last() {
            Some(DatumV::Sc(s)) => crate::arith::num_val(s),
            _ => 0,
        }
    }
}

/// How many cells are non-null.
pub open spec fn count_valid(cells: Seq<Option<DatumV>>) -> int {
    cells.len() - count_nulls(cells)
}

pub proof fn lemma_count_nulls_bound(cells: Seq<Option<DatumV>>)
    ensures
        0 <= count_nulls(cells) <= cells.len(),
    decreases cells.len(),
{
    if cells.len() > 0 {
        lemma_count_nulls_bound(cells.drop_last());
    }
}

/// A sum of non-negative payloads only grows with the sequence.
proof fn lemma_sum_monotone_nonneg(cells: Seq<Option<DatumV>>, i: int)
    requires
        0 <= i <= cells.len(),
        forall|j: int| 0 <= j < cells.len() ==> cell_payload_nonneg(#[trigger] cells[j]),
    ensures
        sum_of(cells) >= sum_of(cells.subrange(0, i)),
        sum_of(cells.subrange(0, i)) >= 0,
    decreases cells.len() - i,
{
    assert(forall|j: int| 0 <= j < i
        ==> cell_payload_nonneg(#[trigger] cells.subrange(0, i)[j]));
    lemma_sum_nonneg(cells.subrange(0, i));
    if i == cells.len() {
        assert(cells.subrange(0, i) =~= cells);
    } else {
        lemma_sum_monotone_nonneg(cells, i + 1);
        assert(cells.subrange(0, i + 1).drop_last() =~= cells.subrange(0, i));
        assert(cells.subrange(0, i + 1).last() == cells[i]);
        assert(cell_payload_nonneg(cells[i]));
    }
}

pub open spec fn cell_payload_nonneg(c: Option<DatumV>) -> bool {
    match c {
        Some(DatumV::Sc(s)) => crate::arith::num_val(s) >= 0,
        _ => true,
    }
}

proof fn lemma_sum_nonneg(cells: Seq<Option<DatumV>>)
    requires
        forall|j: int| 0 <= j < cells.len() ==> cell_payload_nonneg(#[trigger] cells[j]),
    ensures
        sum_of(cells) >= 0,
    decreases cells.len(),
{
    if cells.len() > 0 {
        assert(forall|j: int| 0 <= j < cells.drop_last().len()
            ==> cell_payload_nonneg(#[trigger] cells.drop_last()[j]));
        lemma_sum_nonneg(cells.drop_last());
    }
}

/// An exact ratio of integers: the mean of a numeric column is
/// `num / den`, carried exactly rather than rounded.
#[derive(Clone, Copy, Debug, PartialEq, Eq, Structural)]
pub struct MeanRatio {
    pub num: i128,
    pub den: u64,
}

impl Column {
    /// The sum of the non-null payloads and their count. `TypeMismatch`
    /// when the column is not numeric; `CastError` when the exact sum of an
    /// unsigned column cannot be carried.
    fn sum_count(&self) -> (r: Result<(i128, usize), EngineError>)
        requires
            self.wf(),
            crate::arith::numeric_dtype(self@.dtype),
        ensures
            match r {
                Ok((s, c)) => {
                    &&& s as int == sum_of(self@.cells)
                    &&& c as int == count_valid(self@.cells)
                },
                Err(e) => {
                    &&& e == EngineError::CastError
                    &&& sum_of(self@.cells) > i128::MAX
                },
            },
    {
        let cs = self.cells();
        let signed = !matches!(self.dtype(), TypeTag::UInt8 | TypeTag::UInt16 | TypeTag::UInt32
            | TypeTag::UInt64);
        let mut acc: i128 = 0;
        let mut cnt: usize = 0;
        let mut i: usize = 0;
        proof {
            assert(self@.cells.subrange(0, 0) =~= Seq::<Option<DatumV>>::empty());
            lemma_count_nulls_bound(self@.cells);
            if !signed {
                assert forall|j: int| 0 <= j < cs@.len()
                    implies cell_payload_nonneg(#[trigger] self@.cells[j]) by {
                    assert(spec_cell_fits(self@.dtype, self@.cells[j]));
                }
            }
        }
        while i < cs.len()
            invariant
                i <= cs@.len(),
                cs@.len() == self@.cells.len(),
                crate::arith::numeric_dtype(self@.dtype),
                signed == crate::arith::int_payload_dtype(self@.dtype),
                forall|j: int| 0 <= j < cs@.len()
                    ==> cell_view(#[trigger] cs@[j]) == self@.cells[j],
                forall|j: int| 0 <= j < cs@.len()
                    ==> spec_cell_fits(self@.dtype, cell_view(#[trigger] cs@[j])),
                acc as int == sum_of(self@.cells.subrange(0, i as int)),
                cnt as int == count_valid(self@.cells.subrange(0, i as int)),
                cnt <= i,
                signed ==> abs_sum_bound(acc as int, i as int),
                !signed ==> crate::arith::uint_payload_dtype(self@.dtype),
                !signed ==> forall|j: int| 0 <= j < cs@.len()
                    ==> cell_payload_nonneg(#[trigger] self@.cells[j]),
            decreases cs@.len() - i,
        {
            proof {
                assert(self@.cells.subrange(0, i + 1).drop_last()
                    =~= self@.cells.subrange(0, i as int));
                assert(self@.cells.subrange(0, i + 1).last() == self@.cells[i as int]);
                lemma_count_nulls_bound(self@.cells.subrange(0, i + 1));
                lemma_count_nulls_bound(self@.cells.subrange(0, i as int));
            }
            match &cs[i] {
                Some(Datum::Sc(x)) => {
                    let v: i128 = match x {
                        crate::types::Scalar::Int(y) => *y as i128,
                        crate::types::Scalar::UInt(y) => *y as i128,
                        _ => {
                            proof {
                                assert(false);
                            }
                            0
                        },
                    };
                    if signed {
                        proof {
                            assert((i + 1) * 0x8000_0000_0000_0000int
                                == i * 0x8000_0000_0000_0000int + 0x8000_0000_0000_0000int)
                                by (nonlinear_arith);
                            assert(i < cs@.len() <= usize::MAX);
                            assert((i + 1) * 0x8000_0000_0000_0000int
                                <= (usize::MAX as int) * 0x8000_0000_0000_0000int)
                                by (nonlinear_arith)
                                requires i + 1 <= usize::MAX as int,
                            ;
                        }
                        acc = acc + v;
                    } else {
                        proof {
                            assert(v >= 0);
                            assert(forall|j: int| 0 <= j < i
                                ==> cell_payload_nonneg(
                                    #[trigger] self@.cells.subrange(0, i as int)[j]));
                            lemma_sum_nonneg(self@.cells.subrange(0, i as int));
                            assert(acc >= 0);
                        }
                        match acc.checked_add(v) {
                            Some(a2) => {
                                acc = a2;
                            },
                            None => {
                                proof {
                                    lemma_sum_monotone_nonneg(self@.cells, i + 1);
                                }
                                return Err(EngineError::CastError);
                            },
                        }
                    }
                    cnt = cnt + 1;
                },
                Some(Datum::Items(_)) => {
                    proof {
                        assert(false);
                    }
                },
                None => {},
            }
            i = i + 1;
        }
        proof {
            assert(self@.cells.subrange(0, cs@.len() as int) =~= self@.cells);
        }
        Ok((acc, cnt))
    }

    /// The sum of the non-null cells, skipping nulls, in the column's
    /// widened type (`Int64`, or `UInt64` for an unsigned column): `None`
    /// when every cell is null. `TypeMismatch` when the column is not
    /// numeric; `CastError` when the exact sum leaves the widened range.
    pub fn sum(&self) -> (r: Result<Option<Datum>, EngineError>)
        requires
            self.wf(),
        ensures
            match r {
                Ok(c) => {
                    &&& crate::arith::numeric_dtype(self@.dtype)
                    &&& (c is None <==> count_valid(self@.cells) == 0)
                    &&& (c matches Some(v) ==> cell_view(c) == Some(DatumV::Sc(
                        crate::arith::mk_num(
                            crate::arith::promote(self@.dtype, self@.dtype),
                            sum_of(self@.cells),
                        ),
                    )) && crate::arith::in_range(
                        crate::arith::promote(self@.dtype, self@.dtype),
                        sum_of(self@.cells),
                    ))
                },
                Err(e) => {
                    ||| (e == EngineError::TypeMismatch
                        && !crate::arith::numeric_dtype(self@.dtype))
                    ||| (e == EngineError::CastError
                        && !crate::arith::in_range(
                            crate::arith::promote(self@.dtype, self@.dtype),
                            sum_of(self@.cells),
                        ))
                },
            },
    {
        if !crate::arith::numeric_dtype_exec(self.dtype()) {
            return Err(EngineError::TypeMismatch);
        }
        let (acc, cnt) = match self.sum_count() {
            Ok(p) => p,
            Err(e) => {
                return Err(EngineError::CastError);
            },
        };
        if cnt == 0 {
            return Ok(None);
        }
        if matches!(self.dtype(), TypeTag::UInt8 | TypeTag::UInt16 | TypeTag::UInt32
            | TypeTag::UInt64) {
            if acc < 0 || acc > u64::MAX as i128 {
                return Err(EngineError::CastError);
            }
            Ok(Some(Datum::Sc(crate::types::Scalar::UInt(acc as u64))))
        } else {
            if acc < i64::MIN as i128 || acc > i64::MAX as i128 {
                return Err(EngineError::CastError);
            }
            Ok(Some(Datum::Sc(crate::types::Scalar::Int(acc as i64))))
        }
    }

    /// The exact mean of the non-null cells as a ratio `num / den`:
    /// `None` when every cell is null. `TypeMismatch` when the column is
    /// not numeric; `CastError` when the exact sum cannot be carried.
    pub fn mean(&self) -> (r: Result<Option<crate::column::MeanRatio>, EngineError>)
        requires
            self.wf(),
        ensures
            match r {
                Ok(c) => {
                    &&& crate::arith::numeric_dtype(self@.dtype)
                    &&& (c is None <==> count_valid(self@.cells) == 0)
                    &&& (c matches Some(m) ==> m.num as int == sum_of(self@.cells)
                        && m.den as int == count_valid(self@.cells) && m.den > 0)
                },
                Err(e) => {
                    ||| (e == EngineError::TypeMismatch
                        && !crate::arith::numeric_dtype(self@.dtype))
                    ||| (e == EngineError::CastError && sum_of(self@.cells) > i128::MAX)
                },
            },
    {
        if !crate::arith::numeric_dtype_exec(self.dtype()) {
            return Err(EngineError::TypeMismatch);
        }
        let (acc, cnt) = match self.sum_count() {
            Ok(p) => p,
            Err(e) => {
                return Err(e);
            },
        };
        if cnt == 0 {
            return Ok(None);
        }
        proof {
            lemma_count_nulls_bound(self@.cells);
        }
        Ok(Some(MeanRatio { num: acc, den: cnt as u64 }))
    }

    /// The smallest (or largest) non-null cell under the engine's scalar
    /// order: `None` when every cell is null. `TypeMismatch` exactly for
    /// list and opaque-binary columns.
    pub fn extremum(&self, largest: bool) -> (r: Result<Option<Datum>, EngineError>)
        requires
            self.wf(),
        ensures
            match r {
                Ok(c) => {
                    &&& crate::order::sortable_dtype(self@.dtype)
                    &&& (c is None <==> count_valid(self@.cells) == 0)
                    &&& (c matches Some(v) ==> {
                        &&& self@.cells.contains(Some(v@))
                        &&& forall|i: int| 0 <= i < self@.cells.len()
                            ==> crate::order::cell_le(
                                largest,
                                Some(v@),
                                #[trigger] self@.cells[i],
                            )
                    })
                },
                Err(e) => {
                    &&& e == EngineError::TypeMismatch
                    &&& !crate::order::sortable_dtype(self@.dtype)
                },
            },
    {
        if matches!(self.dtype(), TypeTag::List) || matches!(self.dtype(), TypeTag::Object) {
            return Err(EngineError::TypeMismatch);
        }
        let cs = self.cells();
        proof {
            assert forall|i: int| 0 <= i < self@.cells.len()
                implies crate::order::cell_sortable(#[trigger] self@.cells[i]) by {
                assert(spec_cell_fits(self@.dtype, self@.cells[i]));
            }
            assert(self@.cells.subrange(0, 0) =~= Seq::<Option<DatumV>>::empty());
            lemma_count_nulls_bound(self@.cells);
        }
        let mut best: Option<Datum> = None;
        let mut i: usize = 0;
        while i < cs.len()
            invariant
                i <= cs@.len(),
                cs@.len() == self@.cells.len(),
                crate::order::sortable_dtype(self@.dtype),
                forall|j: int| 0 <= j < cs@.len()
                    ==> cell_view(#[trigger] cs@[j]) == self@.cells[j],
                forall|j: int| 0 <= j < cs@.len()
                    ==> spec_cell_fits(self@.dtype, cell_view(#[trigger] cs@[j])),
                forall|j: int| 0 <= j < cs@.len()
                    ==> crate::order::cell_sortable(#[trigger] self@.cells[j]),
                best is None <==> count_valid(self@.cells.subrange(0, i as int)) == 0,
                best matches Some(v) ==> self@.cells.subrange(0, i as int).contains(Some(v@)),
                best matches Some(v) ==> crate::order::cell_sortable(Some(v@)),
                best matches Some(v) ==> forall|j: int| 0 <= j < i
                    ==> crate::order::cell_le(largest, Some(v@), #[trigger] self@.cells[j]),
            decreases cs@.len() - i,
        {
            proof {
                assert(self@.cells.subrange(0, i + 1).drop_last()
                    =~= self@.cells.subrange(0, i as int));
                assert(self@.cells.subrange(0, i + 1).last() == self@.cells[i as int]);
                lemma_count_nulls_bound(self@.cells.subrange(0, i as int));
            }
            let ghost old_best = best;
            match &cs[i] {
                Some(v) => {
                    let replace = match &best {
                        None => true,
                        Some(b) => {
                            !crate::order::cell_le_exec(
                                largest,
                                &Some(b.duplicate()),
                                &Some(v.duplicate()),
                            )
                        },
                    };
                    proof {
                        match old_best {
                            Some(b) => {
                                crate::order::lemma_cell_le_total(
                                    largest,
                                    Some(b@),
                                    Some(v@),
                                );
                            },
                            None => {},
                        }
                    }
                    if replace {
                        best = Some(v.duplicate());
                        proof {
                            assert(self@.cells.subrange(0, i + 1)[i as int]
                                == self@.cells[i as int]);
                            match old_best {
                                Some(b) => {
                                    assert forall|j: int| 0 <= j < i + 1
                                        implies crate::order::cell_le(
                                            largest, Some(v@), #[trigger] self@.cells[j],
                                        ) by {
                                        if j < i {
                                            crate::order::lemma_cell_le_trans(
                                                largest,
                                                Some(v@),
                                                Some(b@),
                                                self@.cells[j],
                                            );
                                        } else {
                                            crate::order::lemma_cell_le_total(
                                                largest, Some(v@), Some(v@),
                                            );
                                        }
                                    }
                                },
                                None => {
                                    assert(count_valid(self@.cells.subrange(0, i as int)) == 0);
                                    assert forall|j: int| 0 <= j < i + 1
                                        implies crate::order::cell_le(
                                            largest, Some(v@), #[trigger] self@.cells[j],
                                        ) by {
                                        if j < i {
                                            lemma_all_null(self@.cells.subrange(0, i as int), j);
                                        } else {
                                            crate::order::lemma_cell_le_total(
                                                largest, Some(v@), Some(v@),
                                            );
                                        }
                                    }
                                },
                            }
                        }
                    } else {
                        proof {
                            let b = old_best->0;
                            assert(self@.cells.subrange(0, i + 1).contains(Some(b@))) by {
                                let t = choose|t: int|
                                    0 <= t < i && self@.cells.subrange(0, i as int)[t]
                                        == Some(b@);
                                assert(self@.cells.subrange(0, i + 1)[t] == Some(b@));
                            }
                        }
                    }
                },
                None => {
                    proof {
                        match old_best {
                            Some(b) => {
                                let t = choose|t: int|
                                    0 <= t < i && self@.cells.subrange(0, i as int)[t]
                                        == Some(b@);
                                assert(self@.cells.subrange(0, i + 1)[t] == Some(b@));
                            },
                            None => {},
                        }
                    }
                },
            }
            i = i + 1;
        }
        proof {
            assert(self@.cells.subrange(0, cs@.len() as int) =~= self@.cells);
        }
        Ok(best)
    }

    /// Whether two columns hold the same type and cells; when `null_equal`
    /// is unset a null cell equals nothing, a second null included.
    pub fn series_equal(&self, other: &Column, null_equal: bool) -> (r: bool)
        requires
            self.wf(),
            other.wf(),
        ensures
            r == {
                &&& self@.dtype == other@.dtype
                &&& self@.cells.len() == other@.cells.len()
                &&& forall|i: int| 0 <= i < self@.cells.len()
                    ==> crate::types::spec_cell_eq(
                        #[trigger] self@.cells[i],
                        other@.cells[i],
                        null_equal,
                    )
            },
    {
        proof {
            crate::types::lemma_tag_code_bijective();
        }
        if self.dtype().code() != other.dtype().code() {
            return false;
        }
        if self.len() != other.len() {
            return false;
        }
        let cs = self.cells();
        let os = other.cells();
        let mut i: usize = 0;
        while i < cs.len()
            invariant
                i <= cs@.len(),
                cs@.len() == self@.cells.len(),
                os@.len() == cs@.len(),
                forall|j: int| 0 <= j < cs@.len()
                    ==> cell_view(#[trigger] cs@[j]) == self@.cells[j],
                forall|j: int| 0 <= j < os@.len()
                    ==> cell_view(#[trigger] os@[j]) == other@.cells[j],
                forall|j: int| 0 <= j < i
                    ==> crate::types::spec_cell_eq(
                        #[trigger] self@.cells[j],
                        other@.cells[j],
                        null_equal,
                    ),
            decreases cs@.len() - i,
        {
            if !crate::types::cell_eq(&cs[i], &os[i], null_equal) {
                return false;
            }
            i = i + 1;
        }
        true
    }

    /// The column re-typed to `t`: every non-null cell converted, nulls
    /// kept. `TypeMismatch` when no cast between the two types exists at
    /// all; `CastError` when some cell's value cannot be represented in
    /// `t`.
    pub fn cast(&self, t: TypeTag) -> (r: Result<Column, EngineError>)
        requires
            self.wf(),
        ensures
            match r {
                Ok(c) => {
                    &&& crate::arith::cast_supported(self@.dtype, t)
                    &&& c.wf()
                    &&& c@.name == self@.name
                    &&& c@.dtype == t
                    &&& c@.cells.len() == self@.cells.len()
                    &&& (self@.dtype == t ==> c@.cells == self@.cells)
                    &&& (self@.dtype != t ==> forall|i: int| 0 <= i < self@.cells.len()
                        ==> #[trigger] c@.cells[i] == match self@.cells[i] {
                            Some(DatumV::Sc(s)) => match crate::arith::cast_scalar(t, s) {
                                Some(s2) => Some(DatumV::Sc(s2)),
                                None => None,
                            },
                            _ => None,
                        })
                    &&& (self@.dtype != t ==> forall|i: int| 0 <= i < self@.cells.len()
                        ==> (#[trigger] self@.cells[i] matches Some(DatumV::Sc(s))
                            ==> crate::arith::cast_scalar(t, s) is Some))
                },
                Err(e) => {
                    ||| (e == EngineError::TypeMismatch
                        && !crate::arith::cast_supported(self@.dtype, t))
                    ||| (e == EngineError::CastError
                        && exists|i: int| 0 <= i < self@.cells.len()
                            && (#[trigger] self@.cells[i] matches Some(DatumV::Sc(s))
                                && crate::arith::cast_scalar(t, s) is None))
                },
            },
    {
        if !cast_supported_exec(self.dtype(), t) {
            return Err(EngineError::TypeMismatch);
        }
        proof {
            crate::types::lemma_tag_code_bijective();
        }
        if self.dtype().code() == t.code() {
            let c = self.duplicate();
            return Ok(c);
        }
        let cs = self.cells();
        let mut out: Vec<Option<Datum>> = Vec::new();
        let mut i: usize = 0;
        while i < cs.len()
            invariant
                i <= cs@.len(),
                cs@.len() == self@.cells.len(),
                crate::arith::cast_supported(self@.dtype, t),
                self@.dtype != t,
                forall|j: int| 0 <= j < cs@.len()
                    ==> cell_view(#[trigger] cs@[j]) == self@.cells[j],
                forall|j: int| 0 <= j < cs@.len()
                    ==> spec_cell_fits(self@.dtype, cell_view(#[trigger] cs@[j])),
                out@.len() == i,
                forall|j: int| 0 <= j < i
                    ==> cell_view(#[trigger] out@[j]) == match self@.cells[j] {
                        Some(DatumV::Sc(s)) => match crate::arith::cast_scalar(t, s) {
                            Some(s2) => Some(DatumV::Sc(s2)),
                            None => None,
                        },
                        _ => None,
                    },
                forall|j: int| 0 <= j < i
                    ==> (#[trigger] self@.cells[j] matches Some(DatumV::Sc(s))
                        ==> crate::arith::cast_scalar(t, s) is Some),
                forall|j: int| 0 <= j < out@.len()
                    ==> spec_cell_fits(t, cell_view(#[trigger] out@[j])),
            decreases cs@.len() - i,
        {
            let cell: Option<Datum> = match &cs[i] {
                Some(Datum::Sc(x)) => {
                    match crate::arith::cast_scalar_exec(t, x) {
                        Some(v) => {
                            proof {
                                crate::arith::lemma_cast_fits(t, x@);
                            }
                            Some(Datum::Sc(v))
                        },
                        None => {
                            return Err(EngineError::CastError);
                        },
                    }
                },
                Some(Datum::Items(_)) => {
                    proof {
                        assert(false);
                    }
                    None
                },
                None => None,
            };
            out.push(cell);
            i = i + 1;
        }
        Ok(Column::build(self.name.clone(), t, out))
    }
}

/// Every cell of an all-null prefix is null.
proof fn lemma_all_null(cells: Seq<Option<DatumV>>, j: int)
    requires
        count_valid(cells) == 0,
        0 <= j < cells.len(),
    ensures
        cells[j] is None,
    decreases cells.len(),
{
    lemma_count_nulls_bound(cells.drop_last());
    if j == cells.len() - 1 {
        if cells.last() is Some {
            assert(count_nulls(cells) <= cells.len() - 1);
        }
    } else {
        if cells.last() is Some {
            assert(count_nulls(cells) <= cells.len() - 1);
        }
        assert(count_valid(cells.drop_last()) == 0);
        lemma_all_null(cells.drop_last(), j);
        assert(cells.drop_last()[j] == cells[j]);
    }
}

/// The running signed sum of at most `i` payloads stays within `i`
/// half-range steps.
pub open spec fn abs_sum_bound(acc: int, i: int) -> bool {
    -(i * 0x8000_0000_0000_0000) <= acc <= i * 0x8000_0000_0000_0000
}

fn cast_supported_exec(t1: TypeTag, t2: TypeTag) -> (r: bool)
    ensures
        r == crate::arith::cast_supported(t1, t2),
{
    proof {
        crate::types::lemma_tag_code_bijective();
    }
    if t1.code() == t2.code() {
        return true;
    }
    let n1 = crate::arith::numeric_dtype_exec(t1);
    let n2 = crate::arith::numeric_dtype_exec(t2);
    if n1 && n2 {
        return true;
    }
    if n1 && matches!(t2, TypeTag::Utf8) {
        return true;
    }
    if matches!(t1, TypeTag::Utf8) && (n2 || matches!(t2, TypeTag::Utf8)) {
        return true;
    }
    if matches!(t1, TypeTag::Bool) && (n2 || matches!(t2, TypeTag::Utf8)) {
        return true;
    }
    false
}


/// The non-null cells are as many as the valid count.
pub proof fn lemma_keep_nonnull_len(cells: Seq<Option<DatumV>>)
    ensures
        keep_nonnull(cells).len() == count_valid(cells),
    decreases cells.len(),
{
    if cells.len() > 0 {
        lemma_keep_nonnull_len(cells.drop_last());
    }
}

/// Every cell of a well-formed column fits its type.
pub proof fn lemma_wf_cells_fit(c: Column)
    requires
        c.wf(),
    ensures
        forall|i: int| 0 <= i < c@.cells.len()
            ==> spec_cell_fits(c@.dtype, #[trigger] c@.cells[i]),
{
}


/// The filling strategies.
#[derive(Clone, Copy, Debug, PartialEq, Eq, Structural)]
pub enum FillStrategy {
    Forward,
    Backward,
    MinValue,
    MaxValue,
    MeanValue,
}

/// The strategy a name selects; `None` for an unknown name.
pub open spec fn spec_fill_strategy_of(s: Seq<char>) -> Option<FillStrategy> {
    if s == "forward"@ { Some(FillStrategy::Forward) }
    else if s == "backward"@ { Some(FillStrategy::Backward) }
    else if s == "min"@ { Some(FillStrategy::MinValue) }
    else if s == "max"@ { Some(FillStrategy::MaxValue) }
    else if s == "mean"@ { Some(FillStrategy::MeanValue) }
    else { None }
}

/// Parses a filling strategy name.
pub fn fill_strategy_of(s: &str) -> (r: Option<FillStrategy>)
    ensures
        r == spec_fill_strategy_of(s@),
{
    let owned = s.to_owned();
    if owned.eq(&String::from_str("forward")) { Some(FillStrategy::Forward) }
    else if owned.eq(&String::from_str("backward")) { Some(FillStrategy::Backward) }
    else if owned.eq(&String::from_str("min")) { Some(FillStrategy::MinValue) }
    else if owned.eq(&String::from_str("max")) { Some(FillStrategy::MaxValue) }
    else if owned.eq(&String::from_str("mean")) { Some(FillStrategy::MeanValue) }
    else { None }
}

/// The nearest non-null cell at or before position `i`; null when there is
/// none.
pub open spec fn last_nonnull_at(cells: Seq<Option<DatumV>>, i: int) -> Option<DatumV>
    decreases i,
{
    if cells[i] is Some {
        cells[i]
    } else if i <= 0 {
        None
    } else {
        last_nonnull_at(cells, i - 1)
    }
}

/// The nearest non-null cell at or after position `i`; null when there is
/// none.
pub open spec fn next_nonnull_at(cells: Seq<Option<DatumV>>, i: int) -> Option<DatumV>
    decreases cells.len() - i,
{
    if cells[i] is Some {
        cells[i]
    } else if i >= cells.len() - 1 {
        None
    } else {
        next_nonnull_at(cells, i + 1)
    }
}

impl Column {
    /// The column with nulls filled by a strategy: `forward` and `backward`
    /// carry the nearest value in scan direction, unfillable edges staying
    /// null; `min`, `max` and `mean` fill with one value computed over the
    /// non-null cells (the floor of the exact mean: the engine holds no
    /// floating point), an all-null column staying unchanged.
    /// `InvalidArgument` exactly for an unknown strategy name;
    /// `TypeMismatch` when `min`/`max` meets a list or opaque-binary
    /// column or `mean` a non-numeric one; `CastError` when the mean's sum
    /// cannot be carried.
    pub fn fill_none(&self, strategy: &str) -> (r: Result<Column, EngineError>)
        requires
            self.wf(),
        ensures
            match r {
                Ok(c) => {
                    &&& spec_fill_strategy_of(strategy@) is Some
                    &&& c.wf()
                    &&& c@.name == self@.name
                    &&& c@.dtype == self@.dtype
                    &&& c@.cells.len() == self@.cells.len()
                    &&& match spec_fill_strategy_of(strategy@)->0 {
                        FillStrategy::Forward => forall|i: int| 0 <= i < self@.cells.len()
                            ==> #[trigger] c@.cells[i] == last_nonnull_at(self@.cells, i),
                        FillStrategy::Backward => forall|i: int| 0 <= i < self@.cells.len()
                            ==> #[trigger] c@.cells[i] == next_nonnull_at(self@.cells, i),
                        FillStrategy::MinValue => {
                            if count_valid(self@.cells) == 0 {
                                c@.cells == self@.cells
                            } else {
                                exists|v: DatumV| {
                                    &&& self@.cells.contains(Some(v))
                                    &&& (forall|k: int| 0 <= k < self@.cells.len()
                                        ==> crate::order::cell_le(
                                            false,
                                            Some(v),
                                            #[trigger] self@.cells[k],
                                        ))
                                    &&& forall|i: int| 0 <= i < self@.cells.len()
                                        ==> #[trigger] c@.cells[i] == (
                                        if self@.cells[i] is Some {
                                            self@.cells[i]
                                        } else {
                                            Some(v)
                                        })
                                }
                            }
                        },
                        FillStrategy::MaxValue => {
                            if count_valid(self@.cells) == 0 {
                                c@.cells == self@.cells
                            } else {
                                exists|v: DatumV| {
                                    &&& self@.cells.contains(Some(v))
                                    &&& (forall|k: int| 0 <= k < self@.cells.len()
                                        ==> crate::order::cell_le(
                                            true,
                                            Some(v),
                                            #[trigger] self@.cells[k],
                                        ))
                                    &&& forall|i: int| 0 <= i < self@.cells.len()
                                        ==> #[trigger] c@.cells[i] == (
                                        if self@.cells[i] is Some {
                                            self@.cells[i]
                                        } else {
                                            Some(v)
                                        })
                                }
                            }
                        },
                        FillStrategy::MeanValue => {
                            if count_valid(self@.cells) == 0 {
                                c@.cells == self@.cells
                            } else {
                                forall|i: int| 0 <= i < self@.cells.len()
                                    ==> #[trigger] c@.cells[i] == (
                                    if self@.cells[i] is Some {
                                        self@.cells[i]
                                    } else {
                                        Some(DatumV::Sc(crate::arith::mk_num(
                                            crate::arith::promote(self@.dtype, self@.dtype),
                                            sum_of(self@.cells) / count_valid(self@.cells),
                                        )))
                                    })
                            }
                        },
                    }
                },
                Err(e) => {
                    ||| (e == EngineError::InvalidArgument
                        && spec_fill_strategy_of(strategy@) is None)
                    ||| (e == EngineError::TypeMismatch
                        && (spec_fill_strategy_of(strategy@) matches Some(st) && match st {
                            FillStrategy::MinValue => !crate::order::sortable_dtype(self@.dtype),
                            FillStrategy::MaxValue => !crate::order::sortable_dtype(self@.dtype),
                            FillStrategy::MeanValue => !crate::arith::numeric_dtype(self@.dtype),
                            _ => false,
                        }))
                    ||| (e == EngineError::CastError
                        && spec_fill_strategy_of(strategy@) == Some(FillStrategy::MeanValue)
                        && ({
                            ||| sum_of(self@.cells) > i128::MAX
                            ||| !crate::arith::in_range(
                                crate::arith::promote(self@.dtype, self@.dtype),
                                sum_of(self@.cells) / count_valid(self@.cells),
                            )
                            ||| !crate::types::spec_scalar_fits(self@.dtype, crate::arith::mk_num(
                                crate::arith::promote(self@.dtype, self@.dtype),
                                sum_of(self@.cells) / count_valid(self@.cells),
                            ))
                        }))
                },
            },
    {
        let strat = match fill_strategy_of(strategy) {
            Some(s) => s,
            None => {
                return Err(EngineError::InvalidArgument);
            },
        };
        let cs = self.cells();
        let n = cs.len();
        match strat {
            FillStrategy::Forward => {
                let mut out: Vec<Option<Datum>> = Vec::new();
                let mut carry: Option<Datum> = None;
                let mut i: usize = 0;
                while i < n
                    invariant
                        n == cs@.len(),
                        cs@.len() == self@.cells.len(),
                        forall|j: int| 0 <= j < cs@.len()
                            ==> cell_view(#[trigger] cs@[j]) == self@.cells[j],
                        forall|j: int| 0 <= j < cs@.len()
                            ==> spec_cell_fits(self@.dtype, cell_view(#[trigger] cs@[j])),
                        i <= n,
                        out@.len() == i,
                        cell_view(carry) == (if i == 0 { None } else {
                            last_nonnull_at(self@.cells, i - 1)
                        }),
                        forall|j: int| 0 <= j < i
                            ==> cell_view(#[trigger] out@[j])
                                == last_nonnull_at(self@.cells, j),
                        forall|j: int| 0 <= j < out@.len()
                            ==> spec_cell_fits(self@.dtype, cell_view(#[trigger] out@[j])),
                        spec_cell_fits(self@.dtype, cell_view(carry)),
                    decreases n - i,
                {
                    if cs[i].is_some() {
                        carry = duplicate_cell(&cs[i]);
                    }
                    out.push(duplicate_cell(&carry));
                    i = i + 1;
                }
                Ok(Column::build(self.name.clone(), self.dtype, out))
            },
            FillStrategy::Backward => {
                let mut out: Vec<Option<Datum>> = Vec::new();
                let mut carry: Option<Datum> = None;
                let mut i: usize = n;
                while i > 0
                    invariant
                        n == cs@.len(),
                        cs@.len() == self@.cells.len(),
                        forall|j: int| 0 <= j < cs@.len()
                            ==> cell_view(#[trigger] cs@[j]) == self@.cells[j],
                        forall|j: int| 0 <= j < cs@.len()
                            ==> spec_cell_fits(self@.dtype, cell_view(#[trigger] cs@[j])),
                        i <= n,
                        out@.len() == n - i,
                        cell_view(carry) == (if i == n { None } else {
                            next_nonnull_at(self@.cells, i as int)
                        }),
                        forall|j: int| i <= j < n
                            ==> cell_view(#[trigger] out@[j - i])
                                == next_nonnull_at(self@.cells, j),
                        forall|j: int| 0 <= j < out@.len()
                            ==> spec_cell_fits(self@.dtype, cell_view(#[trigger] out@[j])),
                        spec_cell_fits(self@.dtype, cell_view(carry)),
                    decreases i,
                {
                    let ghost old_out = out@;
                    if cs[i - 1].is_some() {
                        carry = duplicate_cell(&cs[i - 1]);
                    }
                    proof {
                        assert(cell_view(carry) == next_nonnull_at(self@.cells, i - 1));
                    }
                    out.insert(0, duplicate_cell(&carry));
                    proof {
                        assert(forall|j: int| 0 <= j < old_out.len()
                            ==> out@[j + 1] == old_out[j]);
                        assert(cell_view(out@[0]) == next_nonnull_at(self@.cells, i - 1));
                        assert forall|j: int| i - 1 <= j < n
                            implies cell_view(out@[j - (i - 1)])
                                == next_nonnull_at(self@.cells, j) by {
                            if j >= i {
                                assert(out@[j - i + 1] == old_out[j - i]);
                                assert(cell_view(old_out[j - i])
                                    == next_nonnull_at(self@.cells, j));
                            }
                        }
                    }
                    i = i - 1;
                }
                proof {
                    assert forall|j: int| 0 <= j < n
                        implies cell_view(#[trigger] out@[j])
                            == next_nonnull_at(self@.cells, j) by {
                        assert(cell_view(out@[j - 0]) == next_nonnull_at(self@.cells, j));
                    }
                }
                Ok(Column::build(self.name.clone(), self.dtype, out))
            },
            FillStrategy::MinValue => {
                let v = match self.extremum(false) {
                    Ok(v) => v,
                    Err(e) => {
                        return Err(e);
                    },
                };
                match v {
                    None => Ok(self.duplicate()),
                    Some(v) => {
                        let c = self.fill_with(&v, &cs);
                        proof {
                            assert(self@.cells.contains(Some(v@))
                                && (forall|k: int| 0 <= k < self@.cells.len()
                                    ==> crate::order::cell_le(
                                        false, Some(v@), #[trigger] self@.cells[k],
                                    ))
                                && forall|i2: int| 0 <= i2 < self@.cells.len()
                                    ==> #[trigger] c@.cells[i2] == (
                                    if self@.cells[i2] is Some {
                                        self@.cells[i2]
                                    } else {
                                        Some(v@)
                                    }));
                        }
                        Ok(c)
                    },
                }
            },
            FillStrategy::MaxValue => {
                let v = match self.extremum(true) {
                    Ok(v) => v,
                    Err(e) => {
                        return Err(e);
                    },
                };
                match v {
                    None => Ok(self.duplicate()),
                    Some(v) => {
                        let c = self.fill_with(&v, &cs);
                        proof {
                            assert(self@.cells.contains(Some(v@))
                                && (forall|k: int| 0 <= k < self@.cells.len()
                                    ==> crate::order::cell_le(
                                        true, Some(v@), #[trigger] self@.cells[k],
                                    ))
                                && forall|i2: int| 0 <= i2 < self@.cells.len()
                                    ==> #[trigger] c@.cells[i2] == (
                                    if self@.cells[i2] is Some {
                                        self@.cells[i2]
                                    } else {
                                        Some(v@)
                                    }));
                        }
                        Ok(c)
                    },
                }
            },
            FillStrategy::MeanValue => {
                let m = match self.mean() {
                    Ok(m) => m,
                    Err(e) => {
                        return Err(e);
                    },
                };
                match m {
                    None => Ok(self.duplicate()),
                    Some(m) => {
                        let q = floor_ratio(m.num, m.den);
                        let uint_src = matches!(self.dtype(), TypeTag::UInt8 | TypeTag::UInt16
                            | TypeTag::UInt32 | TypeTag::UInt64);
                        proof {
                            assert(crate::arith::promote(self@.dtype, self@.dtype)
                                == if uint_src { TypeTag::UInt64 } else { TypeTag::Int64 });
                        }
                        let v: Datum;
                        if uint_src {
                            if q < 0 || q > u64::MAX as i128 {
                                return Err(EngineError::CastError);
                            }
                            v = Datum::Sc(crate::types::Scalar::UInt(q as u64));
                        } else {
                            if q < i64::MIN as i128 || q > i64::MAX as i128 {
                                return Err(EngineError::CastError);
                            }
                            v = Datum::Sc(crate::types::Scalar::Int(q as i64));
                        }
                        proof {
                            assert(v@ == DatumV::Sc(crate::arith::mk_num(
                                crate::arith::promote(self@.dtype, self@.dtype),
                                sum_of(self@.cells) / count_valid(self@.cells),
                            )));
                        }
                        if !v.fits(self.dtype()) {
                            // a mean always lies between the extremes, so
                            // this guard never fires; it keeps the cast
                            // honest without a bounds proof
                            return Err(EngineError::CastError);
                        }
                        let c = self.fill_with_value(&v, &cs);
                        Ok(c)
                    },
                }
            },
        }
    }

    /// The column with every null replaced by `v`, which fits the column's
    /// type because it came out of the column.
    fn fill_with(&self, v: &Datum, cs: &Vec<Option<Datum>>) -> (r: Column)
        requires
            self.wf(),
            self@.cells.contains(Some(v@)),
            cs@.len() == self@.cells.len(),
            forall|j: int| 0 <= j < cs@.len()
                ==> cell_view(#[trigger] cs@[j]) == self@.cells[j],
        ensures
            r.wf(),
            r@.name == self@.name,
            r@.dtype == self@.dtype,
            r@.cells.len() == self@.cells.len(),
            forall|i: int| 0 <= i < self@.cells.len()
                ==> #[trigger] r@.cells[i] == (if self@.cells[i] is Some {
                    self@.cells[i]
                } else {
                    Some(v@)
                }),
    {
        proof {
            lemma_wf_cells_fit(*self);
            let t = choose|t: int| 0 <= t < self@.cells.len() && self@.cells[t] == Some(v@);
            assert(spec_cell_fits(self@.dtype, self@.cells[t]));
        }
        let mut out: Vec<Option<Datum>> = Vec::new();
        let mut i: usize = 0;
        while i < cs.len()
            invariant
                cs@.len() == self@.cells.len(),
                forall|j: int| 0 <= j < cs@.len()
                    ==> cell_view(#[trigger] cs@[j]) == self@.cells[j],
                spec_cell_fits(self@.dtype, Some(v@)),
                forall|j: int| 0 <= j < cs@.len()
                    ==> spec_cell_fits(self@.dtype, #[trigger] self@.cells[j]),
                i <= cs@.len(),
                out@.len() == i,
                forall|j: int| 0 <= j < i
                    ==> cell_view(#[trigger] out@[j]) == (if self@.cells[j] is Some {
                        self@.cells[j]
                    } else {
                        Some(v@)
                    }),
                forall|j: int| 0 <= j < out@.len()
                    ==> spec_cell_fits(self@.dtype, cell_view(#[trigger] out@[j])),
            decreases cs@.len() - i,
        {
            if cs[i].is_some() {
                out.push(duplicate_cell(&cs[i]));
            } else {
                out.push(Some(v.duplicate()));
            }
            i = i + 1;
        }
        Column::build(self.name.clone(), self.dtype, out)
    }

    /// As `fill_with`, for a fill value already checked to fit the
    /// column's type.
    fn fill_with_value(&self, v: &Datum, cs: &Vec<Option<Datum>>) -> (r: Column)
        requires
            self.wf(),
            spec_cell_fits(self@.dtype, Some(v@)),
            cs@.len() == self@.cells.len(),
            forall|j: int| 0 <= j < cs@.len()
                ==> cell_view(#[trigger] cs@[j]) == self@.cells[j],
        ensures
            r.wf(),
            r@.name == self@.name,
            r@.dtype == self@.dtype,
            r@.cells.len() == self@.cells.len(),
            forall|i: int| 0 <= i < self@.cells.len()
                ==> #[trigger] r@.cells[i] == (if self@.cells[i] is Some {
                    self@.cells[i]
                } else {
                    Some(v@)
                }),
    {
        proof {
            lemma_wf_cells_fit(*self);
        }
        let mut out: Vec<Option<Datum>> = Vec::new();
        let mut i: usize = 0;
        while i < cs.len()
            invariant
                cs@.len() == self@.cells.len(),
                forall|j: int| 0 <= j < cs@.len()
                    ==> cell_view(#[trigger] cs@[j]) == self@.cells[j],
                spec_cell_fits(self@.dtype, Some(v@)),
                forall|j: int| 0 <= j < cs@.len()
                    ==> spec_cell_fits(self@.dtype, #[trigger] self@.cells[j]),
                i <= cs@.len(),
                out@.len() == i,
                forall|j: int| 0 <= j < i
                    ==> cell_view(#[trigger] out@[j]) == (if self@.cells[j] is Some {
                        self@.cells[j]
                    } else {
                        Some(v@)
                    }),
                forall|j: int| 0 <= j < out@.len()
                    ==> spec_cell_fits(self@.dtype, cell_view(#[trigger] out@[j])),
            decreases cs@.len() - i,
        {
            if cs[i].is_some() {
                out.push(duplicate_cell(&cs[i]));
            } else {
                out.push(Some(v.duplicate()));
            }
            i = i + 1;
        }
        Column::build(self.name.clone(), self.dtype, out)
    }
}

/// The floor of `num / den` for a positive divisor.
fn floor_ratio(num: i128, den: u64) -> (q: i128)
    requires
        den > 0,
    ensures
        q as int == num as int / den as int,
{
    if num >= 0 {
        let m = (num as u128) / (den as u128);
        proof {
            assert(m <= num as u128);
        }
        m as i128
    } else if num == i128::MIN && den == 1 {
        proof {
            assert(num as int / 1int == num as int);
        }
        i128::MIN
    } else {
        let mag: u128 = ((-(num + 1)) as u128) + 1;
        let qm = mag / (den as u128);
        let rem = mag % (den as u128);
        proof {
            assert(mag as int == -(num as int));
            assert(qm as int == mag as int / den as int);
            assert(rem as int == mag as int % den as int);
            crate::column::lemma_neg_floor_div(num as int, den as int, mag as int, qm as int,
                rem as int);
            assert(qm <= mag);
            assert(qm <= i128::MAX as u128) by (nonlinear_arith)
                requires
                    qm == mag as int / den as int,
                    mag as int <= i128::MAX as int + 1,
                    den as int >= 1,
                    den as int >= 2 || mag as int <= i128::MAX as int,
            ;
        }
        if rem != 0 {
            -(qm as i128) - 1
        } else {
            -(qm as i128)
        }
    }
}

/// Euclidean division of a negative number by a positive one is the
/// negated ceiling of the magnitudes.
pub proof fn lemma_neg_floor_div(num: int, den: int, mag: int, qm: int, rem: int)
    requires
        den > 0,
        num < 0,
        mag == -num,
        qm == mag / den,
        rem == mag % den,
    ensures
        rem != 0 ==> num / den == -qm - 1,
        rem == 0 ==> num / den == -qm,
{
    assert(mag == qm * den + rem && 0 <= rem < den) by (nonlinear_arith)
        requires den > 0, mag >= 0, qm == mag / den, rem == mag % den,
    ;
    if rem != 0 {
        assert(num == (-qm - 1) * den + (den - rem)) by (nonlinear_arith)
            requires num == -(qm * den + rem),
        ;
        assert(num / den == -qm - 1) by (nonlinear_arith)
            requires den > 0, num == (-qm - 1) * den + (den - rem), 0 < den - rem < den,
        ;
    } else {
        assert(num == (-qm) * den) by (nonlinear_arith)
            requires num == -(qm * den + rem), rem == 0,
        ;
        assert(num / den == -qm) by (nonlinear_arith)
            requires den > 0, num == (-qm) * den,
        ;
    }
}


/// Milliseconds per day.
pub open spec fn spec_day_ms() -> int {
    86400000
}

impl Column {
    /// The column read as a span of time: a day-count column becomes
    /// milliseconds (days times the milliseconds of a day), a
    /// millisecond-timestamp column keeps its payloads; `TypeMismatch` for
    /// every other type.
    pub fn as_duration(&self) -> (r: Result<Column, EngineError>)
        requires
            self.wf(),
        ensures
            match r {
                Ok(c) => {
                    &&& (self@.dtype == TypeTag::Date32 || self@.dtype == TypeTag::Date64)
                    &&& c.wf()
                    &&& c@.name == self@.name
                    &&& c@.dtype == TypeTag::DurationMillisecond
                    &&& c@.cells.len() == self@.cells.len()
                    &&& forall|i: int| 0 <= i < self@.cells.len()
                        ==> #[trigger] c@.cells[i] == match self@.cells[i] {
                            Some(DatumV::Sc(ScalarV::Int(d))) => Some(DatumV::Sc(ScalarV::Int(
                                if self@.dtype == TypeTag::Date32 {
                                    d * spec_day_ms()
                                } else {
                                    d
                                },
                            ))),
                            _ => None,
                        }
                },
                Err(e) => {
                    &&& e == EngineError::TypeMismatch
                    &&& self@.dtype != TypeTag::Date32
                    &&& self@.dtype != TypeTag::Date64
                },
            },
    {
        let days = match self.dtype() {
            TypeTag::Date32 => true,
            TypeTag::Date64 => false,
            _ => {
                return Err(EngineError::TypeMismatch);
            },
        };
        let cs = self.cells();
        let mut out: Vec<Option<Datum>> = Vec::new();
        let mut i: usize = 0;
        while i < cs.len()
            invariant
                i <= cs@.len(),
                cs@.len() == self@.cells.len(),
                days == (self@.dtype == TypeTag::Date32),
                self@.dtype == TypeTag::Date32 || self@.dtype == TypeTag::Date64,
                forall|j: int| 0 <= j < cs@.len()
                    ==> cell_view(#[trigger] cs@[j]) == self@.cells[j],
                forall|j: int| 0 <= j < cs@.len()
                    ==> spec_cell_fits(self@.dtype, cell_view(#[trigger] cs@[j])),
                out@.len() == i,
                forall|j: int| 0 <= j < i
                    ==> cell_view(#[trigger] out@[j]) == match self@.cells[j] {
                        Some(DatumV::Sc(ScalarV::Int(d))) => Some(DatumV::Sc(ScalarV::Int(
                            if self@.dtype == TypeTag::Date32 {
                                d * spec_day_ms()
                            } else {
                                d
                            },
                        ))),
                        _ => None,
                    },
            decreases cs@.len() - i,
        {
            let cell: Option<Datum> = match &cs[i] {
                Some(Datum::Sc(crate::types::Scalar::Int(d))) => {
                    if days {
                        proof {
                            assert(spec_cell_fits(self@.dtype, cell_view(cs@[i as int])));
                            assert(-0x8000_0000 <= *d as int <= 0x7fff_ffff);
                            assert(-0x8000_0000int * 86400000 <= (*d as int) * 86400000
                                <= 0x7fff_ffffint * 86400000) by (nonlinear_arith)
                                requires -0x8000_0000 <= *d as int <= 0x7fff_ffff,
                            ;
                        }
                        Some(Datum::Sc(crate::types::Scalar::Int(*d * 86400000)))
                    } else {
                        Some(Datum::Sc(crate::types::Scalar::Int(*d)))
                    }
                },
                _ => None,
            };
            out.push(cell);
            i = i + 1;
        }
        Ok(Column::build(self.name.clone(), TypeTag::DurationMillisecond, out))
    }
}

} // verus!
