use vstd::prelude::*;
use vstd::string::StringExecFns;
use vstd::string::StrSliceExecFns;
use crate::types::{TypeTag, Datum, DatumV, ScalarV, Scalar, cell_view, spec_cell_fits};
use crate::column::{Column, ColumnV};
use crate::table::{Table, spec_height};
use crate::text::{chars_of, string_from_chars, parse_i64, is_int_literal, int_literal_val,
    int_text_of, dec_digits_of, fmt_i64_chars};
use crate::EngineError;

verus! {

/// Splitting a character sequence at a separator: the fields, in order; an
/// empty input is one empty field.
pub open spec fn split_at_char(s: Seq<char>, sep: char) -> Seq<Seq<char>>
    decreases s.len(),
{
    if s.len() == 0 {
        seq![Seq::empty()]
    } else if s[0] == sep {
        seq![Seq::<char>::empty()] + split_at_char(s.drop_first(), sep)
    } else {
        let rest = split_at_char(s.drop_first(), sep);
        seq![seq![s[0]] + rest[0]] + rest.drop_first()
    }
}

/// The split always yields at least one field.
pub proof fn lemma_split_nonempty(s: Seq<char>, sep: char)
    ensures
        split_at_char(s, sep).len() >= 1,
    decreases s.len(),
{
    if s.len() > 0 {
        lemma_split_nonempty(s.drop_first(), sep);
    }
}

/// Splits a character vector at a separator.
pub fn split_chars(s: &Vec<char>, sep: char) -> (r: Vec<Vec<char>>)
    ensures
        r@.map_values(|f: Vec<char>| f@) == split_at_char(s@, sep),
{
    let mut fields: Vec<Vec<char>> = Vec::new();
    fields.push(Vec::new());
    proof {
        assert(s@.skip(s@.len() as int) =~= Seq::<char>::empty());
        assert(fields@.map_values(|f: Vec<char>| f@)
            =~= split_at_char(s@.skip(s@.len() as int), sep));
    }
    let mut i: usize = s.len();
    while i > 0
        invariant
            i <= s@.len(),
            fields@.len() >= 1,
            fields@.map_values(|f: Vec<char>| f@) == split_at_char(s@.skip(i as int), sep),
        decreases i,
    {
        let c = s[i - 1];
        proof {
            assert(s@.skip(i - 1).drop_first() =~= s@.skip(i as int));
            assert(s@.skip(i - 1)[0] == s@[i - 1]);
            lemma_split_nonempty(s@.skip(i as int), sep);
        }
        if c == sep {
            fields.insert(0, Vec::new());
            proof {
                assert(fields@.map_values(|f: Vec<char>| f@)
                    =~= split_at_char(s@.skip(i - 1), sep));
            }
        } else {
            let ghost old_fields = fields@;
            let mut first = fields.remove(0);
            let ghost old_first = first@;
            first.insert(0, c);
            proof {
                assert(first@ =~= seq![c] + old_first);
            }
            fields.insert(0, first);
            proof {
                let rest = split_at_char(s@.skip(i as int), sep);
                assert(old_fields.map_values(|f: Vec<char>| f@) == rest);
                assert(old_first == rest[0]);
                assert(fields@.map_values(|f: Vec<char>| f@)
                    =~= seq![seq![c] + rest[0]] + rest.drop_first());
                assert(fields@.map_values(|f: Vec<char>| f@)
                    =~= split_at_char(s@.skip(i - 1), sep));
            }
        }
        i = i - 1;
    }
    proof {
        assert(s@.skip(0) =~= s@);
    }
    fields
}

/// A text row without its trailing carriage return.
pub open spec fn trim_cr(row: Seq<char>) -> Seq<char> {
    if row.len() > 0 && row.last() == '\r' {
        row.drop_last()
    } else {
        row
    }
}

/// The text's rows: split at line feeds, a trailing empty line dropped,
/// carriage returns at line ends trimmed.
pub open spec fn text_rows(s: Seq<char>) -> Seq<Seq<char>> {
    let raw = split_at_char(s, '\n');
    let kept = if raw.len() > 0 && raw.last().len() == 0 {
        raw.drop_last()
    } else {
        raw
    };
    kept.map_values(|row: Seq<char>| trim_cr(row))
}

/// The rows of a text, as character vectors.
pub fn rows_of_text(s: &str) -> (r: Vec<Vec<char>>)
    ensures
        r@.map_values(|f: Vec<char>| f@) == text_rows(s@),
{
    let cv = chars_of(s);
    let mut raw = split_chars(&cv, '\n');
    proof {
        lemma_split_nonempty(s@, '\n');
    }
    if raw.len() > 0 {
        let lastlen = raw[raw.len() - 1].len();
        if lastlen == 0 {
            let _ = raw.pop();
            proof {
                assert(raw@.map_values(|f: Vec<char>| f@)
                    =~= split_at_char(s@, '\n').drop_last());
            }
        }
    }
    let ghost kept = raw@.map_values(|f: Vec<char>| f@);
    let mut out: Vec<Vec<char>> = Vec::new();
    let mut i: usize = 0;
    while i < raw.len()
        invariant
            i <= raw@.len(),
            kept == raw@.map_values(|f: Vec<char>| f@),
            out@.len() == i,
            forall|j: int| 0 <= j < i
                ==> (#[trigger] out@[j])@ == trim_cr(kept[j]),
        decreases raw@.len() - i,
    {
        let n = raw[i].len();
        let has_cr = n > 0 && raw[i][n - 1] == '\r';
        let keep_n = if has_cr { n - 1 } else { n };
        let mut t: Vec<char> = Vec::new();
        let mut k: usize = 0;
        while k < keep_n
            invariant
                keep_n <= n,
                n == raw@[i as int]@.len(),
                i < raw@.len(),
                k <= keep_n,
                t@ =~= raw@[i as int]@.subrange(0, k as int),
            decreases keep_n - k,
        {
            t.push(raw[i][k]);
            proof {
                assert(t@ =~= raw@[i as int]@.subrange(0, k + 1));
            }
            k = k + 1;
        }
        proof {
            if has_cr {
                assert(t@ =~= trim_cr(kept[i as int]));
            } else {
                assert(raw@[i as int]@.subrange(0, n as int) =~= raw@[i as int]@);
                assert(t@ =~= trim_cr(kept[i as int]));
            }
        }
        out.push(t);
        i = i + 1;
    }
    proof {
        assert(out@.map_values(|f: Vec<char>| f@) =~= text_rows(s@));
    }
    out
}


/// How a delimited text is read.
pub struct CsvOptions {
    /// The field separator.
    pub delimiter: char,
    /// Whether the first kept row names the columns.
    pub has_header: bool,
    /// Rows dropped before the header and data.
    pub skip_rows: usize,
    /// At most this many data rows are kept, all of them when absent.
    pub stop_after_n_rows: Option<usize>,
    /// How many data rows type inference inspects.
    pub infer_schema_length: usize,
    /// Strict parsing aborts at the first bad cell; lenient parsing turns
    /// bad cells into nulls.
    pub strict: bool,
}

/// The rows a reading of a text keeps after skipping and the header, before
/// any row cap.
pub open spec fn kept_rows(s: Seq<char>, opts: CsvOptions) -> Seq<Seq<char>> {
    let rows = text_rows(s).skip(opts.skip_rows as int);
    if opts.has_header {
        rows.drop_first()
    } else {
        rows
    }
}

/// The data rows: the kept rows up to the row cap.
pub open spec fn data_rows(s: Seq<char>, opts: CsvOptions) -> Seq<Seq<char>> {
    let kept = kept_rows(s, opts);
    match opts.stop_after_n_rows {
        Some(n) => kept.take(if n as int <= kept.len() { n as int } else { kept.len() as int }),
        None => kept,
    }
}

/// The header fields: the first kept row's fields, or nothing without a
/// header row.
pub open spec fn header_fields(s: Seq<char>, opts: CsvOptions) -> Seq<Seq<char>> {
    split_at_char(text_rows(s).skip(opts.skip_rows as int)[0], opts.delimiter)
}

/// The column count: the header width, or the first data row's width.
pub open spec fn csv_width(s: Seq<char>, opts: CsvOptions) -> int {
    if opts.has_header {
        header_fields(s, opts).len() as int
    } else if data_rows(s, opts).len() > 0 {
        split_at_char(data_rows(s, opts)[0], opts.delimiter) .len() as int
    } else {
        0
    }
}

/// The field of one data row at one column; a missing field (short row)
/// reads as empty.
pub open spec fn field_at(s: Seq<char>, opts: CsvOptions, r: int, c: int) -> Seq<char> {
    let fs = split_at_char(data_rows(s, opts)[r], opts.delimiter);
    if c < fs.len() {
        fs[c]
    } else {
        Seq::empty()
    }
}

/// Whether a field is a valid integer cell: empty (null) or an `i64`
/// literal.
pub open spec fn int_field_ok(f: Seq<char>) -> bool {
    f.len() == 0 || (is_int_literal(f) && i64::MIN <= int_literal_val(f) <= i64::MAX)
}

/// A column is inferred as `Int64` when every inspected field is an
/// integer cell, and as text otherwise.
pub open spec fn col_inferred_int(s: Seq<char>, opts: CsvOptions, c: int) -> bool {
    forall|r: int| 0 <= r < data_rows(s, opts).len() && r < opts.infer_schema_length as int
        ==> int_field_ok(#[trigger] field_at(s, opts, r, c))
}

/// The cell one field parses to under a column type.
pub open spec fn csv_cell(f: Seq<char>, as_int: bool) -> Option<DatumV> {
    if f.len() == 0 {
        None
    } else if as_int {
        if is_int_literal(f) && i64::MIN <= int_literal_val(f) <= i64::MAX {
            Some(DatumV::Sc(ScalarV::Int(int_literal_val(f))))
        } else {
            None
        }
    } else {
        Some(DatumV::Sc(ScalarV::Str(f)))
    }
}

/// No rows remain once the skipped rows (and the header) are taken away.
pub open spec fn csv_rows_missing(s: Seq<char>, opts: CsvOptions) -> bool {
    if opts.has_header {
        opts.skip_rows >= text_rows(s).len()
    } else {
        opts.skip_rows > text_rows(s).len()
    }
}

/// A cell that a strict parse must refuse: its column was inferred as
/// integers, and the field is neither empty nor a valid integer.
pub open spec fn csv_bad_cell(s: Seq<char>, opts: CsvOptions, c: int, r: int) -> bool {
    col_inferred_int(s, opts, c) && !int_field_ok(field_at(s, opts, r, c))
}

pub open spec fn csv_has_bad_cell(s: Seq<char>, opts: CsvOptions) -> bool {
    exists|c: int, r: int| 0 <= c < csv_width(s, opts) && 0 <= r < data_rows(s, opts).len()
        && #[trigger] csv_bad_cell(s, opts, c, r)
}

/// The column names a reading produces: the header fields, or generated
/// names numbered from one.
pub open spec fn csv_names(s: Seq<char>, opts: CsvOptions) -> Seq<Seq<char>> {
    if opts.has_header {
        header_fields(s, opts)
    } else {
        Seq::new(csv_width(s, opts) as nat, |k: int| "column_"@ + dec_digits_of(k + 1))
    }
}

impl Table {
    /// Reads delimited text: optional header row (or generated names), a
    /// bounded type-inference pass (integer or text; the engine holds no
    /// floating point, so decimal-fraction columns read as text), then the
    /// full parse. In strict mode the first bad cell aborts with
    /// `ParseError` naming its row and column; leniently a bad cell is
    /// null. An empty cell is null either way.
    pub fn read_csv(text: &str, opts: &CsvOptions) -> (r: Result<Table, EngineError>)
        ensures
            match r {
                Ok(t) => {
                    &&& t.wf()
                    &&& !csv_rows_missing(text@, *opts)
                    &&& (opts.strict ==> !csv_has_bad_cell(text@, *opts))
                    &&& t@.len() == csv_width(text@, *opts)
                    &&& spec_height(t@) == data_rows(text@, *opts).len()
                        || csv_width(text@, *opts) == 0
                    &&& forall|c: int| 0 <= c < t@.len()
                        ==> ((#[trigger] t@[c]).dtype == if col_inferred_int(text@, *opts, c) {
                            TypeTag::Int64
                        } else {
                            TypeTag::Utf8
                        })
                    &&& forall|c: int| 0 <= c < t@.len()
                        ==> (#[trigger] t@[c]).name == csv_names(text@, *opts)[c]
                    &&& forall|c: int| 0 <= c < t@.len()
                        ==> (#[trigger] t@[c]).cells.len() == data_rows(text@, *opts).len()
                    &&& forall|c: int, rw: int| 0 <= c < t@.len()
                        && 0 <= rw < data_rows(text@, *opts).len()
                        ==> (#[trigger] t@[c].cells[rw]) == #[trigger] csv_cell(
                            field_at(text@, *opts, rw, c),
                            col_inferred_int(text@, *opts, c),
                        )
                },
                Err(e) => {
                    ||| (e == EngineError::ParseError
                        && (csv_rows_missing(text@, *opts)
                            || (opts.strict && csv_has_bad_cell(text@, *opts))))
                    ||| (e == EngineError::InvalidArgument
                        && !crate::table::texts_unique(csv_names(text@, *opts)))
                },
            },
    {
        let all_rows = rows_of_text(text);
        if opts.skip_rows >= all_rows.len() {
            if opts.has_header || all_rows.len() < opts.skip_rows {
                // nothing left to read
                proof {
                    assert(csv_rows_missing(text@, *opts));
                }
                return Err(EngineError::ParseError);
            }
        }
        proof {
            assert(!csv_rows_missing(text@, *opts));
        }
        let delim = opts.delimiter;
        // names and width
        let mut names: Vec<String> = Vec::new();
        let first_data: usize;
        if opts.has_header {
            if opts.skip_rows >= all_rows.len() {
                proof {
                    assert(csv_rows_missing(text@, *opts));
                }
                return Err(EngineError::ParseError);
            }
            let hdr = split_chars(&all_rows[opts.skip_rows], delim);
            let mut k: usize = 0;
            while k < hdr.len()
                invariant
                    k <= hdr@.len(),
                    names@.len() == k,
                    hdr@.map_values(|f: Vec<char>| f@) == header_fields(text@, *opts),
                    delim == opts.delimiter,
                    forall|j: int| 0 <= j < k
                        ==> (#[trigger] names@[j])@ == header_fields(text@, *opts)[j],
                decreases hdr@.len() - k,
            {
                names.push(string_from_chars(&hdr[k]));
                k = k + 1;
            }
            first_data = opts.skip_rows + 1;
        } else {
            first_data = opts.skip_rows;
        }
        // the data rows
        let total = all_rows.len() - first_data;
        let want: usize = match opts.stop_after_n_rows {
            Some(n) => if n < total { n } else { total },
            None => total,
        };
        proof {
            assert(kept_rows(text@, *opts).len() == all_rows@.len() - first_data);
            assert(kept_rows(text@, *opts).take(0) =~= Seq::<Seq<char>>::empty());
        }
        let row_count = all_rows.len();
        proof {
            assert(row_count == all_rows@.len());
        }
        let mut data: Vec<Vec<char>> = Vec::new();
        let mut r2: usize = 0;
        while r2 < want
            invariant
                all_rows@.len() <= usize::MAX,
                r2 <= want,
                want <= all_rows@.len() - first_data,
                first_data + want <= all_rows@.len(),
                first_data <= all_rows@.len(),
                all_rows@.map_values(|f: Vec<char>| f@) == text_rows(text@),
                first_data as int == opts.skip_rows + (if opts.has_header { 1int } else { 0int }),
                kept_rows(text@, *opts).len() == all_rows@.len() - first_data,
                data_rows(text@, *opts) == kept_rows(text@, *opts).take(want as int),
                data@.len() == r2,
                data@.map_values(|f: Vec<char>| f@)
                    == kept_rows(text@, *opts).take(r2 as int),
            decreases want - r2,
        {
            proof {
                assert(first_data + r2 < all_rows@.len());
            }
            let i = first_data + r2;
            let mut row: Vec<char> = Vec::new();
            let src = &all_rows[i];
            let mut k: usize = 0;
            while k < src.len()
                invariant
                    i < all_rows@.len(),
                    src@ == all_rows@[i as int]@,
                    k <= src@.len(),
                    row@ =~= src@.subrange(0, k as int),
                decreases src@.len() - k,
            {
                row.push(src[k]);
                proof {
                    assert(row@ =~= src@.subrange(0, k + 1));
                }
                k = k + 1;
            }
            proof {
                assert(row@ =~= all_rows@[i as int]@);
                assert(kept_rows(text@, *opts)[r2 as int] == all_rows@[i as int]@);
                assert(data@.push(row).map_values(|f: Vec<char>| f@)
                    =~= kept_rows(text@, *opts).take(r2 + 1));
            }
            data.push(row);
            r2 = r2 + 1;
        }
        proof {
            assert(data@.map_values(|f: Vec<char>| f@) =~= data_rows(text@, *opts));
        }
        let ghost drows = data_rows(text@, *opts);

        // the width
        let width: usize = if opts.has_header {
            names.len()
        } else {
            if data.len() > 0 {
                let w = split_chars(&data[0], delim).len();
                w
            } else {
                0
            }
        };
        proof {
            assert(width as int == csv_width(text@, *opts));
        }
        // generated names without a header
        if !opts.has_header {
            let mut k: usize = 0;
            while k < width
                invariant
                    k <= width,
                    names@.len() == k,
                    width as int == csv_width(text@, *opts),
                    !opts.has_header,
                    forall|j: int| 0 <= j < k
                        ==> (#[trigger] names@[j])@ == csv_names(text@, *opts)[j],
                decreases width - k,
            {
                let mut nm = String::from_str("column_");
                nm.append(crate::text::fmt_u64((k + 1) as u64).as_str());
                proof {
                    assert(nm@ == "column_"@ + crate::text::dec_digits_of(k + 1));
                }
                names.push(nm);
                k = k + 1;
            }
        }
        proof {
            assert(forall|j: int| 0 <= j < width
                ==> (#[trigger] names@[j])@ == csv_names(text@, *opts)[j]);
        }

        // split every data row once
        let mut split_rows: Vec<Vec<Vec<char>>> = Vec::new();
        let mut rix: usize = 0;
        while rix < data.len()
            invariant
                rix <= data@.len(),
                delim == opts.delimiter,
                data@.map_values(|f: Vec<char>| f@) == drows,
                split_rows@.len() == rix,
                forall|j: int| 0 <= j < rix
                    ==> (#[trigger] split_rows@[j])@.map_values(|f: Vec<char>| f@)
                        == split_at_char(drows[j], opts.delimiter),
            decreases data@.len() - rix,
        {
            let fs = split_chars(&data[rix], delim);
            split_rows.push(fs);
            rix = rix + 1;
        }

        // infer and parse per column
        let mut cols: Vec<Column> = Vec::new();
        let mut c: usize = 0;
        while c < width
            invariant
                c <= width,
                width as int == csv_width(text@, *opts),
                names@.len() == width,
                drows == data_rows(text@, *opts),
                opts.has_header ==> forall|j: int| 0 <= j < width
                    ==> (#[trigger] names@[j])@ == header_fields(text@, *opts)[j],
                split_rows@.len() == drows.len(),
                forall|j: int| 0 <= j < drows.len()
                    ==> (#[trigger] split_rows@[j])@.map_values(|f: Vec<char>| f@)
                        == split_at_char(drows[j], opts.delimiter),
                forall|j: int| 0 <= j < width
                    ==> (#[trigger] names@[j])@ == csv_names(text@, *opts)[j],
                cols@.len() == c,
                forall|j: int| 0 <= j < c ==> (#[trigger] cols@[j]).wf(),
                forall|j: int| 0 <= j < c
                    ==> (#[trigger] cols@[j])@.name == names@[j]@,
                opts.strict ==> forall|j: int, rw: int| 0 <= j < c && 0 <= rw < drows.len()
                    ==> !(#[trigger] csv_bad_cell(text@, *opts, j, rw)),
                forall|j: int| 0 <= j < c
                    ==> (#[trigger] cols@[j])@.dtype == (if col_inferred_int(text@, *opts, j) {
                        TypeTag::Int64
                    } else {
                        TypeTag::Utf8
                    }),
                forall|j: int| 0 <= j < c
                    ==> (#[trigger] cols@[j])@.cells.len() == drows.len(),
                forall|j: int, rw: int| 0 <= j < c && 0 <= rw < drows.len()
                    ==> (#[trigger] cols@[j])@.cells[rw] == #[trigger] csv_cell(
                        field_at(text@, *opts, rw, j),
                        col_inferred_int(text@, *opts, j),
                    ),
            decreases width - c,
        {
            // inference over the sample window
            let mut as_int = true;
            let mut rw: usize = 0;
            while rw < split_rows.len()
                invariant
                    c < width,
                    drows == data_rows(text@, *opts),
                    split_rows@.len() == drows.len(),
                    forall|j: int| 0 <= j < drows.len()
                        ==> (#[trigger] split_rows@[j])@.map_values(|f: Vec<char>| f@)
                            == split_at_char(drows[j], opts.delimiter),
                    rw <= split_rows@.len(),
                    as_int == (forall|r2: int| 0 <= r2 < rw
                        && r2 < opts.infer_schema_length as int
                        ==> int_field_ok(#[trigger] field_at(text@, *opts, r2, c as int))),
                decreases split_rows@.len() - rw,
            {
                if rw >= opts.infer_schema_length {
                    proof {
                        assert(as_int == (forall|r2: int| 0 <= r2 < rw + 1
                            && r2 < opts.infer_schema_length as int
                            ==> int_field_ok(#[trigger] field_at(text@, *opts, r2, c as int))));
                    }
                    rw = rw + 1;
                    continue;
                }
                let fs = &split_rows[rw];
                let ok: bool;
                if c < fs.len() {
                    let f = &fs[c];
                    if f.len() == 0 {
                        ok = true;
                    } else {
                        ok = parse_i64(f).is_some();
                    }
                    proof {
                        assert(fs@.map_values(|f2: Vec<char>| f2@)[c as int] == f@);
                        assert(field_at(text@, *opts, rw as int, c as int) == f@);
                    }
                } else {
                    ok = true;
                    proof {
                        assert(field_at(text@, *opts, rw as int, c as int)
                            =~= Seq::<char>::empty());
                    }
                }
                proof {
                    assert(ok == int_field_ok(field_at(text@, *opts, rw as int, c as int)));
                }
                if !ok {
                    as_int = false;
                }
                rw = rw + 1;
            }
            proof {
                assert(as_int == col_inferred_int(text@, *opts, c as int));
            }
            // full parse of the column
            let mut cells: Vec<Option<Datum>> = Vec::new();
            let mut rw2: usize = 0;
            while rw2 < split_rows.len()
                invariant
                    c < width,
                    drows == data_rows(text@, *opts),
                    split_rows@.len() == drows.len(),
                    forall|j: int| 0 <= j < drows.len()
                        ==> (#[trigger] split_rows@[j])@.map_values(|f: Vec<char>| f@)
                            == split_at_char(drows[j], opts.delimiter),
                    as_int == col_inferred_int(text@, *opts, c as int),
                    width as int == csv_width(text@, *opts),
                    rw2 <= split_rows@.len(),
                    cells@.len() == rw2,
                    forall|r2: int| 0 <= r2 < rw2
                        ==> cell_view(#[trigger] cells@[r2]) == csv_cell(
                            field_at(text@, *opts, r2, c as int),
                            as_int,
                        ),
                    opts.strict ==> forall|r2: int| 0 <= r2 < rw2
                        ==> !(#[trigger] csv_bad_cell(text@, *opts, c as int, r2)),
                decreases split_rows@.len() - rw2,
            {
                let fs = &split_rows[rw2];
                let ghost fld = field_at(text@, *opts, rw2 as int, c as int);
                let cell: Option<Datum>;
                if c < fs.len() {
                    let f = &fs[c];
                    proof {
                        assert(fs@.map_values(|f2: Vec<char>| f2@)[c as int] == f@);
                        assert(fld == f@);
                    }
                    if f.len() == 0 {
                        cell = None;
                    } else if as_int {
                        match parse_i64(f) {
                            Some(x) => {
                                cell = Some(Datum::Sc(Scalar::Int(x)));
                            },
                            None => {
                                if opts.strict {
                                    proof {
                                        assert(csv_bad_cell(text@, *opts, c as int, rw2 as int));
                                        assert(csv_has_bad_cell(text@, *opts));
                                    }
                                    return Err(EngineError::ParseError);
                                }
                                cell = None;
                            },
                        }
                    } else {
                        cell = Some(Datum::Sc(Scalar::Str(string_from_chars(f))));
                    }
                } else {
                    proof {
                        assert(fld =~= Seq::<char>::empty());
                    }
                    cell = None;
                }
                proof {
                    assert(cell_view(cell) == csv_cell(fld, as_int));
                }
                cells.push(cell);
                rw2 = rw2 + 1;
            }
            let dt = if as_int {
                TypeTag::Int64
            } else {
                TypeTag::Utf8
            };
            match Column::new(names[c].clone(), dt, cells) {
                Ok(col) => {
                    cols.push(col);
                },
                Err(_) => {
                    proof {
                        assert(false);
                    }
                    return Err(EngineError::ParseError);
                },
            }
            c = c + 1;
        }
        let ghost colsv = cols@.map_values(|c2: Column| c2@);
        proof {
            if opts.strict {
                assert forall|c2: int, rw: int| 0 <= c2 < csv_width(text@, *opts)
                    && 0 <= rw < data_rows(text@, *opts).len()
                    implies !(#[trigger] csv_bad_cell(text@, *opts, c2, rw)) by {}
                assert(!csv_has_bad_cell(text@, *opts));
            }
            assert forall|j: int| 0 <= j < colsv.len()
                implies (#[trigger] colsv[j].cells.len()) == crate::table::spec_height(colsv) by {}
            assert(crate::table::heights_equal(colsv));
        }
        match Table::new(cols) {
            Ok(t) => Ok(t),
            Err(e) => {
                proof {
                    assert(e == EngineError::InvalidArgument
                        && !crate::table::names_unique(colsv));
                    let (p, q) = choose|p: int, q: int| 0 <= p < q < colsv.len()
                        && (#[trigger] colsv[p].name) == (#[trigger] colsv[q].name);
                    assert(colsv[p].name == csv_names(text@, *opts)[p]);
                    assert(colsv[q].name == csv_names(text@, *opts)[q]);
                    assert(!crate::table::texts_unique(csv_names(text@, *opts)));
                }
                Err(EngineError::InvalidArgument)
            },
        }
    }
}


/// Texts joined by one separator character.
pub open spec fn join_texts(items: Seq<Seq<char>>, sep: char) -> Seq<char>
    decreases items.len(),
{
    if items.len() == 0 {
        Seq::empty()
    } else if items.len() == 1 {
        items[0]
    } else {
        join_texts(items.drop_last(), sep) + seq![sep] + items.last()
    }
}

/// The delimited text of one cell: nothing for null, the decimal literal
/// for integer payloads, `true`/`false`, the raw characters of a string.
pub open spec fn csv_cell_text(c: Option<DatumV>) -> Seq<char> {
    match c {
        None => Seq::empty(),
        Some(DatumV::Sc(ScalarV::Int(x))) => int_text_of(x),
        Some(DatumV::Sc(ScalarV::UInt(x))) => dec_digits_of(x),
        Some(DatumV::Sc(ScalarV::Bool(b))) => if b { "true"@ } else { "false"@ },
        Some(DatumV::Sc(ScalarV::Str(t))) => t,
        _ => Seq::empty(),
    }
}

/// One data line of the delimited text.
pub open spec fn csv_row_text(tv: Seq<ColumnV>, r: int, sep: char) -> Seq<char> {
    join_texts(Seq::new(tv.len(), |c: int| csv_cell_text(tv[c].cells[r])), sep)
}

/// All lines, each ended by a line feed.
pub open spec fn csv_lines(tv: Seq<ColumnV>, upto: int, sep: char) -> Seq<char>
    decreases upto,
{
    if upto <= 0 {
        Seq::empty()
    } else {
        csv_lines(tv, upto - 1, sep) + csv_row_text(tv, upto - 1, sep) + seq!['\n']
    }
}

/// The whole delimited text of a table: an optional header line naming the
/// columns, then one line per row.
pub open spec fn csv_text(tv: Seq<ColumnV>, sep: char, header: bool) -> Seq<char> {
    let head: Seq<char> = if header {
        join_texts(Seq::new(tv.len(), |c: int| tv[c].name), sep) + seq!['\n']
    } else {
        Seq::empty()
    };
    head + csv_lines(tv, spec_height(tv), sep)
}

/// Appends the delimited text of one cell.
fn push_cell_text(out: &mut Vec<char>, cell: &Option<Datum>)
    requires
        match crate::types::cell_view(*cell) {
            Some(v) => v matches DatumV::Sc(s) && !(s is Bin),
            None => true,
        },
    ensures
        final(out)@ == old(out)@ + csv_cell_text(crate::types::cell_view(*cell)),
{
    match cell {
        None => {
            proof {
                assert(final(out)@ =~= old(out)@ + csv_cell_text(None));
            }
        },
        Some(Datum::Sc(Scalar::Int(x))) => {
            let digits = fmt_i64_chars(*x);
            push_all(out, &digits);
        },
        Some(Datum::Sc(Scalar::UInt(x))) => {
            let digits = crate::text::fmt_u64_chars(*x);
            push_all(out, &digits);
        },
        Some(Datum::Sc(Scalar::Bool(b))) => {
            let t = if *b {
                "true"
            } else {
                "false"
            };
            let cv = chars_of(t);
            push_all(out, &cv);
        },
        Some(Datum::Sc(Scalar::Str(t))) => {
            let cv = chars_of(t.as_str());
            push_all(out, &cv);
        },
        _ => {
            proof {
                assert(false);
            }
        },
    }
}

/// Appends every character of `src`.
fn push_all(out: &mut Vec<char>, src: &Vec<char>)
    ensures
        final(out)@ == old(out)@ + src@,
{
    let mut k: usize = 0;
    while k < src.len()
        invariant
            k <= src@.len(),
            out@ =~= old(out)@ + src@.subrange(0, k as int),
        decreases src@.len() - k,
    {
        out.push(src[k]);
        proof {
            assert(out@ =~= old(out)@ + src@.subrange(0, k + 1));
        }
        k = k + 1;
    }
    proof {
        assert(out@ =~= old(out)@ + src@);
    }
}

impl Table {
    /// The table as delimited text: an optional header line of column
    /// names, then one line per row, every line ended by a line feed; a
    /// null cell is empty, strings are written raw. `TypeMismatch` for list
    /// and opaque-binary columns, which have no delimited text.
    pub fn write_csv(&self, delimiter: char, has_header: bool) -> (r: Result<String, EngineError>)
        requires
            self.wf(),
        ensures
            match r {
                Ok(s) => {
                    &&& s@ == csv_text(self@, delimiter, has_header)
                    &&& forall|c: int| 0 <= c < self@.len()
                        ==> (#[trigger] self@[c]).dtype != TypeTag::List
                            && self@[c].dtype != TypeTag::Object
                },
                Err(e) => {
                    &&& e == EngineError::TypeMismatch
                    &&& exists|c: int| 0 <= c < self@.len()
                        && ((#[trigger] self@[c]).dtype == TypeTag::List
                            || self@[c].dtype == TypeTag::Object)
                },
            },
    {
        let width = self.width();
        let mut c0: usize = 0;
        while c0 < width
            invariant
                self.wf(),
                width == self@.len(),
                c0 <= width,
                forall|c: int| 0 <= c < c0
                    ==> (#[trigger] self@[c]).dtype != TypeTag::List
                        && self@[c].dtype != TypeTag::Object,
            decreases width - c0,
        {
            let col = match self.select_at_idx(c0) {
                Some(col) => col,
                None => {
                    proof {
                        assert(false);
                    }
                    return Err(EngineError::TypeMismatch);
                },
            };
            if matches!(col.dtype(), TypeTag::List) || matches!(col.dtype(), TypeTag::Object) {
                return Err(EngineError::TypeMismatch);
            }
            c0 = c0 + 1;
        }
        let mut out: Vec<char> = Vec::new();
        if has_header {
            let ghost names = Seq::new(self@.len(), |c: int| self@[c].name);
            let mut c1: usize = 0;
            while c1 < width
                invariant
                    self.wf(),
                    width == self@.len(),
                    c1 <= width,
                    names == Seq::new(self@.len(), |c: int| self@[c].name),
                    out@ == join_texts(names.take(c1 as int), delimiter),
                decreases width - c1,
            {
                if c1 > 0 {
                    out.push(delimiter);
                }
                let col = match self.select_at_idx(c1) {
                    Some(col) => col,
                    None => {
                        proof {
                            assert(false);
                        }
                        return Err(EngineError::TypeMismatch);
                    },
                };
                let nm = chars_of(col.name());
                push_all(&mut out, &nm);
                proof {
                    assert(names.take(c1 + 1).drop_last() =~= names.take(c1 as int));
                    assert(names.take(c1 + 1).last() == names[c1 as int]);
                    if c1 == 0 {
                        assert(out@ =~= join_texts(names.take(c1 + 1), delimiter));
                    } else {
                        assert(out@ =~= join_texts(names.take(c1 + 1), delimiter));
                    }
                }
                c1 = c1 + 1;
            }
            out.push('\n');
            proof {
                assert(names.take(self@.len() as int) =~= names);
                assert(out@ =~= join_texts(names, delimiter) + seq!['\n']);
            }
        }
        let ghost head = out@;
        proof {
            if has_header {
                assert(head =~= csv_text(self@, delimiter, has_header)
                    .subrange(0, head.len() as int));
            }
        }
        // gather the cells once
        let mats = {
            let mut sel: Vec<usize> = Vec::new();
            let mut k: usize = 0;
            while k < width
                invariant
                    self.wf(),
                    width == self@.len(),
                    k <= width,
                    sel@.len() == k,
                    forall|t: int| 0 <= t < k ==> #[trigger] sel@[t] == t,
                decreases width - k,
            {
                sel.push(k);
                k = k + 1;
            }
            self.selected_cells(&sel)
        };
        let h = self.height();
        let mut r: usize = 0;
        while r < h
            invariant
                self.wf(),
                width == self@.len(),
                h == spec_height(self@),
                forall|c: int| 0 <= c < self@.len()
                    ==> (#[trigger] self@[c]).dtype != TypeTag::List
                        && self@[c].dtype != TypeTag::Object,
                mats@.len() == width,
                forall|k: int| 0 <= k < width
                    ==> (#[trigger] mats@[k])@.len() == spec_height(self@),
                forall|k: int, j: int| 0 <= k < width && 0 <= j < spec_height(self@)
                    ==> crate::types::cell_view(#[trigger] mats@[k]@[j]) == self@[k].cells[j],
                r <= h,
                out@ == head + csv_lines(self@, r as int, delimiter),
            decreases h - r,
        {
            let ghost cell_texts = Seq::new(
                self@.len(),
                |c: int| csv_cell_text(self@[c].cells[r as int]),
            );
            let ghost line_start = out@;
            let mut c2: usize = 0;
            while c2 < width
                invariant
                    self.wf(),
                    width == self@.len(),
                    h == spec_height(self@),
                    r < h,
                    forall|c: int| 0 <= c < self@.len()
                        ==> (#[trigger] self@[c]).dtype != TypeTag::List
                            && self@[c].dtype != TypeTag::Object,
                    mats@.len() == width,
                    forall|k: int| 0 <= k < width
                        ==> (#[trigger] mats@[k])@.len() == spec_height(self@),
                    forall|k: int, j: int| 0 <= k < width && 0 <= j < spec_height(self@)
                        ==> crate::types::cell_view(#[trigger] mats@[k]@[j])
                            == self@[k].cells[j],
                    cell_texts == Seq::new(
                        self@.len(),
                        |c: int| csv_cell_text(self@[c].cells[r as int]),
                    ),
                    c2 <= width,
                    out@ == line_start + join_texts(cell_texts.take(c2 as int), delimiter),
                decreases width - c2,
            {
                if c2 > 0 {
                    out.push(delimiter);
                }
                proof {
                    crate::table::lemma_table_cells_fit(self);
                    assert(crate::table::heights_equal(self@));
                    assert(spec_cell_fits(self@[c2 as int].dtype,
                        self@[c2 as int].cells[r as int]));
                    lemma_col_cells_fit(self@[c2 as int], r as int);
                }
                push_cell_text(&mut out, &mats[c2][r]);
                proof {
                    assert(cell_texts.take(c2 + 1).drop_last() =~= cell_texts.take(c2 as int));
                    assert(cell_texts.take(c2 + 1).last() == cell_texts[c2 as int]);
                    assert(out@ =~= line_start + join_texts(cell_texts.take(c2 + 1), delimiter));
                }
                c2 = c2 + 1;
            }
            out.push('\n');
            proof {
                assert(cell_texts.take(self@.len() as int) =~= cell_texts);
                assert(out@ =~= head + csv_lines(self@, r + 1, delimiter));
            }
            r = r + 1;
        }
        proof {
            assert(out@ =~= csv_text(self@, delimiter, has_header));
        }
        Ok(string_from_chars(&out))
    }
}

/// A non-null cell of a non-list, non-binary column is a scalar other than
/// a binary payload.
proof fn lemma_col_cells_fit(cv: ColumnV, r: int)
    requires
        0 <= r < cv.cells.len(),
        cv.dtype != TypeTag::List,
        cv.dtype != TypeTag::Object,
        crate::types::spec_cell_fits(cv.dtype, cv.cells[r]),
    ensures
        match cv.cells[r] {
            Some(v) => v matches DatumV::Sc(s) && !(s is Bin),
            None => true,
        },
{
}


/// The escape of one character inside a JSON string: backslash, quote and
/// the three common control characters are escaped, everything else stands
/// for itself.
pub open spec fn json_esc_char(c: char) -> Seq<char> {
    if c == '"' {
        seq!['\\', '"']
    } else if c == '\\' {
        seq!['\\', '\\']
    } else if c == '\n' {
        seq!['\\', 'n']
    } else if c == '\t' {
        seq!['\\', 't']
    } else if c == '\r' {
        seq!['\\', 'r']
    } else {
        seq![c]
    }
}

/// A text with every character escaped for a JSON string.
pub open spec fn json_escape(s: Seq<char>) -> Seq<char>
    decreases s.len(),
{
    if s.len() == 0 {
        Seq::empty()
    } else {
        json_escape(s.drop_last()) + json_esc_char(s.last())
    }
}

/// The JSON text of one cell; an opaque-binary payload is an array of its
/// bytes.
pub open spec fn json_cell_text(c: Option<DatumV>) -> Seq<char> {
    match c {
        None => "null"@,
        Some(DatumV::Sc(ScalarV::Int(x))) => int_text_of(x),
        Some(DatumV::Sc(ScalarV::UInt(x))) => dec_digits_of(x),
        Some(DatumV::Sc(ScalarV::Bool(b))) => if b { "true"@ } else { "false"@ },
        Some(DatumV::Sc(ScalarV::Str(t))) => seq!['"'] + json_escape(t) + seq!['"'],
        Some(DatumV::Sc(ScalarV::Bin(bytes))) => seq!['['] + join_texts(
            Seq::new(bytes.len(), |k: int| dec_digits_of(bytes[k] as int)),
            ',',
        ) + seq![']'],
        _ => "null"@,
    }
}

/// The JSON array text of a column's cells.
pub open spec fn json_of_cells(cells: Seq<Option<DatumV>>) -> Seq<char> {
    seq!['['] + join_texts(Seq::new(cells.len(), |i: int| json_cell_text(cells[i])), ',')
        + seq![']']
}

impl Column {
    /// The column's cells as one JSON array: numbers in decimal, booleans,
    /// escaped strings, opaque-binary payloads as arrays of their bytes,
    /// `null` for null cells. `TypeMismatch` exactly for list columns.
    pub fn to_json(&self) -> (r: Result<String, EngineError>)
        requires
            self.wf(),
        ensures
            match r {
                Ok(s) => {
                    &&& s@ == json_of_cells(self@.cells)
                    &&& self@.dtype != TypeTag::List
                },
                Err(e) => {
                    &&& e == EngineError::TypeMismatch
                    &&& self@.dtype == TypeTag::List
                },
            },
    {
        if matches!(self.dtype(), TypeTag::List) {
            return Err(EngineError::TypeMismatch);
        }
        let cs = self.cells();
        let ghost texts = Seq::new(self@.cells.len(), |i: int| json_cell_text(self@.cells[i]));
        let mut out: Vec<char> = Vec::new();
        out.push('[');
        let mut i: usize = 0;
        while i < cs.len()
            invariant
                self.wf(),
                self@.dtype != TypeTag::List,
                cs@.len() == self@.cells.len(),
                forall|j: int| 0 <= j < cs@.len()
                    ==> cell_view(#[trigger] cs@[j]) == self@.cells[j],
                forall|j: int| 0 <= j < cs@.len()
                    ==> spec_cell_fits(self@.dtype, cell_view(#[trigger] cs@[j])),
                texts == Seq::new(self@.cells.len(), |j: int| json_cell_text(self@.cells[j])),
                i <= cs@.len(),
                out@ == seq!['['] + join_texts(texts.take(i as int), ','),
            decreases cs@.len() - i,
        {
            if i > 0 {
                out.push(',');
            }
            proof {
                assert(spec_cell_fits(self@.dtype, cell_view(cs@[i as int])));
            }
            match &cs[i] {
                None => {
                    let t = chars_of("null");
                    push_all(&mut out, &t);
                },
                Some(Datum::Sc(Scalar::Int(x))) => {
                    let digits = fmt_i64_chars(*x);
                    push_all(&mut out, &digits);
                },
                Some(Datum::Sc(Scalar::UInt(x))) => {
                    let digits = crate::text::fmt_u64_chars(*x);
                    push_all(&mut out, &digits);
                },
                Some(Datum::Sc(Scalar::Bool(b))) => {
                    let t = if *b {
                        chars_of("true")
                    } else {
                        chars_of("false")
                    };
                    push_all(&mut out, &t);
                },
                Some(Datum::Sc(Scalar::Str(t))) => {
                    out.push('"');
                    let tv = chars_of(t.as_str());
                    let ghost src = t@;
                    let ghost base = out@;
                    let mut k: usize = 0;
                    proof {
                        assert(json_escape(src.take(0)) =~= Seq::<char>::empty());
                        assert(out@ =~= base + json_escape(src.take(0)));
                    }
                    while k < tv.len()
                        invariant
                            tv@ == src,
                            k <= src.len(),
                            out@ == base + json_escape(src.take(k as int)),
                        decreases src.len() - k,
                    {
                        let c = tv[k];
                        if c == '"' {
                            out.push('\\');
                            out.push('"');
                        } else if c == '\\' {
                            out.push('\\');
                            out.push('\\');
                        } else if c == '\n' {
                            out.push('\\');
                            out.push('n');
                        } else if c == '\t' {
                            out.push('\\');
                            out.push('t');
                        } else if c == '\r' {
                            out.push('\\');
                            out.push('r');
                        } else {
                            out.push(c);
                        }
                        proof {
                            assert(src.take(k + 1).drop_last() =~= src.take(k as int));
                            assert(src.take(k + 1).last() == src[k as int]);
                            assert(out@ =~= base + json_escape(src.take(k + 1)));
                        }
                        k = k + 1;
                    }
                    proof {
                        assert(src.take(src.len() as int) =~= src);
                    }
                    out.push('"');
                },
                Some(Datum::Sc(Scalar::Bin(bytes))) => {
                    out.push('[');
                    let ghost byte_texts = Seq::new(
                        bytes@.len(),
                        |k: int| dec_digits_of(bytes@[k] as int),
                    );
                    let ghost base = out@;
                    let mut k: usize = 0;
                    proof {
                        assert(out@ =~= base + join_texts(byte_texts.take(0), ','));
                    }
                    while k < bytes.len()
                        invariant
                            byte_texts == Seq::new(
                                bytes@.len(),
                                |k2: int| dec_digits_of(bytes@[k2] as int),
                            ),
                            k <= bytes@.len(),
                            out@ == base + join_texts(byte_texts.take(k as int), ','),
                        decreases bytes@.len() - k,
                    {
                        if k > 0 {
                            out.push(',');
                        }
                        let digits = crate::text::fmt_u64_chars(bytes[k] as u64);
                        push_all(&mut out, &digits);
                        proof {
                            assert(byte_texts.take(k + 1).drop_last()
                                =~= byte_texts.take(k as int));
                            assert(byte_texts.take(k + 1).last() == byte_texts[k as int]);
                            assert(out@ =~= base + join_texts(byte_texts.take(k + 1), ','));
                        }
                        k = k + 1;
                    }
                    out.push(']');
                    proof {
                        assert(byte_texts.take(bytes@.len() as int) =~= byte_texts);
                    }
                },
                _ => {
                    proof {
                        assert(false);
                    }
                },
            }
            proof {
                assert(texts.take(i + 1).drop_last() =~= texts.take(i as int));
                assert(texts.take(i + 1).last() == texts[i as int]);
                assert(out@ =~= seq!['['] + join_texts(texts.take(i + 1), ','));
            }
            i = i + 1;
        }
        out.push(']');
        proof {
            assert(texts.take(texts.len() as int) =~= texts);
            assert(out@ =~= json_of_cells(self@.cells));
        }
        Ok(string_from_chars(&out))
    }
}

} // verus!
