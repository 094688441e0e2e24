use vstd::prelude::*;
use vstd::string::StringExecFns;
use crate::types::{TypeTag, DatumV, ScalarV, Scalar, cell_view};
use crate::column::{Column, ColumnV};
use crate::table::Table;
use crate::EngineError;

verus! {

#[verifier::external_type_specification]
#[verifier::external_body]
pub struct ExJsonValue(serde_json::Value);

/// Relies on `serde_json::Value::is_null`.
#[verifier::external_body]
fn js_is_null(v: &serde_json::Value) -> (r: bool)
{
    v.is_null()
}

/// Relies on `serde_json::Value::as_bool`.
#[verifier::external_body]
fn js_as_bool(v: &serde_json::Value) -> (r: Option<bool>)
{
    v.as_bool()
}

/// Relies on `serde_json::Value::as_i64`.
#[verifier::external_body]
fn js_as_i64(v: &serde_json::Value) -> (r: Option<i64>)
{
    v.as_i64()
}

/// Relies on `serde_json::Value::as_str`; the borrowed text is copied out.
#[verifier::external_body]
fn js_as_str(v: &serde_json::Value) -> (r: Option<String>)
{
    v.as_str().map(|s| s.to_owned())
}

/// One primitive read out of a JSON value: the shapes a table cell can
/// take, everything else `Other`.
pub enum JsonPrim {
    Null,
    Bool(bool),
    Int(i64),
    Str(String),
    Other,
}

/// Classifies a parsed JSON value by trying each accessor in turn.
fn js_prim(v: &serde_json::Value) -> JsonPrim {
    if js_is_null(v) {
        JsonPrim::Null
    } else {
        match js_as_bool(v) {
            Some(b) => JsonPrim::Bool(b),
            None => {
                match js_as_i64(v) {
                    Some(x) => JsonPrim::Int(x),
                    None => {
                        match js_as_str(v) {
                            Some(s) => JsonPrim::Str(s),
                            None => JsonPrim::Other,
                        }
                    },
                }
            },
        }
    }
}

/// The mathematical shadow of a primitive.
pub enum JsonPrimV {
    Null,
    Bool(bool),
    Int(int),
    Str(Seq<char>),
    Other,
}

impl View for JsonPrim {
    type V = JsonPrimV;

    open spec fn view(&self) -> JsonPrimV {
        match self {
            JsonPrim::Null => JsonPrimV::Null,
            JsonPrim::Bool(b) => JsonPrimV::Bool(*b),
            JsonPrim::Int(x) => JsonPrimV::Int(*x as int),
            JsonPrim::Str(s) => JsonPrimV::Str(s@),
            JsonPrim::Other => JsonPrimV::Other,
        }
    }
}

/// One record: field names with their primitive values, in field order.
pub struct JsonRecordV {
    pub fields: Seq<(Seq<char>, JsonPrimV)>,
}

pub open spec fn record_view(r: Seq<(String, JsonPrim)>) -> JsonRecordV {
    JsonRecordV { fields: r.map_values(|p: (String, JsonPrim)| (p.0@, p.1@)) }
}

/// The record views of parsed records.
pub open spec fn recs_views(v: Seq<Vec<(String, JsonPrim)>>) -> Seq<JsonRecordV> {
    v.map_values(|r: Vec<(String, JsonPrim)>| record_view(r@))
}

/// What a top-level JSON array of record objects parses to: the records in
/// array order, each record's fields in serde_json's map order (sorted by
/// field name), or nothing when the text is not such an array. The parse
/// is a function of the text alone.
pub uninterp spec fn json_array_records_of(s: Seq<char>) -> Option<Seq<JsonRecordV>>;

/// What one JSON record object parses to, or nothing when the text is not
/// an object; fields in serde_json's map order, a function of the text
/// alone.
pub uninterp spec fn json_line_record_of(s: Seq<char>) -> Option<JsonRecordV>;

/// Relies on serde_json's `from_str`, `Value::as_array` and
/// `Value::as_object`: the records of a top-level array of objects, `None`
/// for any other document. Field values are classified by the verified
/// `js_prim`.
#[verifier::external_body]
fn parse_array_records(s: &str) -> (r: Option<Vec<Vec<(String, JsonPrim)>>>)
    ensures
        match r {
            Some(recs) => json_array_records_of(s@) == Some(recs_views(recs@)),
            None => json_array_records_of(s@) is None,
        },
{
    let v: serde_json::Value = serde_json::from_str(s).ok()?;
    let arr = v.as_array()?;
    let mut out = Vec::new();
    for item in arr {
        out.push(item.as_object()?.iter().map(|(k, x)| (k.clone(), js_prim(x))).collect());
    }
    Some(out)
}

/// Relies on serde_json's `from_str` and `Value::as_object`: the record of
/// one object document, `None` for any other document. Field values are
/// classified by the verified `js_prim`.
#[verifier::external_body]
fn parse_line_record(s: &str) -> (r: Option<Vec<(String, JsonPrim)>>)
    ensures
        match r {
            Some(rec) => json_line_record_of(s@) == Some(record_view(rec@)),
            None => json_line_record_of(s@) is None,
        },
{
    let v: serde_json::Value = serde_json::from_str(s).ok()?;
    Some(v.as_object()?.iter().map(|(k, x)| (k.clone(), js_prim(x))).collect())
}

/// The record list of a text's rows: every non-empty line one record
/// object, in line order; nothing when some non-empty line is not one.
pub open spec fn records_of_rows(rows: Seq<Seq<char>>) -> Option<Seq<JsonRecordV>>
    decreases rows.len(),
{
    if rows.len() == 0 {
        Some(Seq::empty())
    } else {
        match records_of_rows(rows.drop_last()) {
            None => None,
            Some(rs) => {
                if rows.last().len() == 0 {
                    Some(rs)
                } else {
                    match json_line_record_of(rows.last()) {
                        Some(r) => Some(rs.push(r)),
                        None => None,
                    }
                }
            },
        }
    }
}

/// No field name repeats in a record.
pub open spec fn record_names_unique(rec: JsonRecordV) -> bool {
    forall|p: int, q: int| 0 <= p < q < rec.fields.len()
        ==> (#[trigger] rec.fields[p]).0 != (#[trigger] rec.fields[q]).0
}

/// The value of the named field in a record; `Null` when the field is
/// absent. The first occurrence wins.
pub open spec fn field_value(rec: JsonRecordV, name: Seq<char>) -> JsonPrimV
    decreases rec.fields.len(),
{
    if rec.fields.len() == 0 {
        JsonPrimV::Null
    } else if rec.fields[0].0 == name {
        rec.fields[0].1
    } else {
        field_value(JsonRecordV { fields: rec.fields.drop_first() }, name)
    }
}

/// The tag one primitive suggests for a column.
pub open spec fn prim_tag(p: JsonPrimV) -> Option<TypeTag> {
    match p {
        JsonPrimV::Bool(_) => Some(TypeTag::Bool),
        JsonPrimV::Int(_) => Some(TypeTag::Int64),
        JsonPrimV::Str(_) => Some(TypeTag::Utf8),
        _ => None,
    }
}

/// The tag inferred for one field: the first inspected record with a
/// non-null primitive in that field decides, text otherwise.
pub open spec fn inferred_tag(recs: Seq<JsonRecordV>, name: Seq<char>, window: int) -> TypeTag
    decreases recs.len(),
{
    if recs.len() == 0 || window <= 0 {
        TypeTag::Utf8
    } else {
        match prim_tag(field_value(recs[0], name)) {
            Some(t) => t,
            None => inferred_tag(recs.drop_first(), name, window - 1),
        }
    }
}

/// The cell one primitive becomes under a column tag: matching shapes
/// carry over, everything else is null.
pub open spec fn prim_cell(p: JsonPrimV, t: TypeTag) -> Option<DatumV> {
    match p {
        JsonPrimV::Bool(b) => if t == TypeTag::Bool {
            Some(DatumV::Sc(ScalarV::Bool(b)))
        } else {
            None
        },
        JsonPrimV::Int(x) => if t == TypeTag::Int64 {
            Some(DatumV::Sc(ScalarV::Int(x)))
        } else {
            None
        },
        JsonPrimV::Str(s) => if t == TypeTag::Utf8 {
            Some(DatumV::Sc(ScalarV::Str(s)))
        } else {
            None
        },
        _ => None,
    }
}

/// Finds the named field in a record.
fn field_of(rec: &Vec<(String, JsonPrim)>, name: &String) -> (r: JsonPrim)
    ensures
        r@ == field_value(record_view(rec@), name@),
{
    let mut i: usize = 0;
    proof {
        assert(record_view(rec@).fields.skip(0) =~= record_view(rec@).fields);
        assert(JsonRecordV { fields: record_view(rec@).fields.skip(0) }
            == record_view(rec@));
    }
    while i < rec.len()
        invariant
            i <= rec@.len(),
            field_value(record_view(rec@), name@) == field_value(
                JsonRecordV { fields: record_view(rec@).fields.skip(i as int) },
                name@,
            ),
        decreases rec@.len() - i,
    {
        proof {
            assert(record_view(rec@).fields.skip(i as int)[0] == (rec@[i as int].0@, rec@[i as int].1@));
            assert(record_view(rec@).fields.skip(i as int).drop_first()
                =~= record_view(rec@).fields.skip(i + 1));
        }
        if rec[i].0.eq(name) {
            return duplicate_prim(&rec[i].1);
        }
        i = i + 1;
    }
    proof {
        assert(record_view(rec@).fields.skip(rec@.len() as int).len() == 0);
    }
    JsonPrim::Null
}

fn duplicate_prim(p: &JsonPrim) -> (r: JsonPrim)
    ensures
        r@ == p@,
{
    match p {
        JsonPrim::Null => JsonPrim::Null,
        JsonPrim::Bool(b) => JsonPrim::Bool(*b),
        JsonPrim::Int(x) => JsonPrim::Int(*x),
        JsonPrim::Str(s) => JsonPrim::Str(s.clone()),
        JsonPrim::Other => JsonPrim::Other,
    }
}

/// What a table built from records holds: the first record's field names
/// give the columns in order, each column's type is inferred over the
/// window, and every record contributes one row.
pub open spec fn records_table_ok(recs: Seq<JsonRecordV>, window: int, tv: Seq<ColumnV>) -> bool {
    &&& (recs.len() == 0 ==> tv.len() == 0)
    &&& (recs.len() > 0 ==> {
        &&& tv.len() == recs[0].fields.len()
        &&& forall|c: int| 0 <= c < tv.len()
            ==> (#[trigger] tv[c]).name == recs[0].fields[c].0
        &&& forall|c: int| 0 <= c < tv.len()
            ==> (#[trigger] tv[c]).dtype == inferred_tag(recs, recs[0].fields[c].0, window)
        &&& forall|c: int| 0 <= c < tv.len()
            ==> (#[trigger] tv[c]).cells.len() == recs.len()
        &&& forall|c: int, rw: int| 0 <= c < tv.len() && 0 <= rw < recs.len()
            ==> (#[trigger] tv[c].cells[rw]) == prim_cell(
                #[trigger] field_value(recs[rw], recs[0].fields[c].0),
                tv[c].dtype,
            )
    })
}

impl Table {
    /// Builds a table from record objects: the first record's field names
    /// give the columns in order; each column's type is inferred from the
    /// first record in the inference window holding a non-null primitive in
    /// that field (text when none does); every record then contributes one
    /// row, a missing field or one of another shape reading as null.
    /// `InvalidArgument` when the first record repeats a field name.
    pub fn from_records(records: &Vec<Vec<(String, JsonPrim)>>, infer_window: usize) -> (r:
        Result<Table, EngineError>)
        ensures
            match r {
                Ok(t) => {
                    &&& t.wf()
                    &&& records_table_ok(recs_views(records@), infer_window as int, t@)
                },
                Err(e) => {
                    &&& e == EngineError::InvalidArgument
                    &&& records@.len() > 0
                    &&& !record_names_unique(recs_views(records@)[0])
                },
            },
    {
        let ghost recs = records@.map_values(|r2: Vec<(String, JsonPrim)>| record_view(r2@));
        if records.len() == 0 {
            let empty: Vec<Column> = Vec::new();
            match Table::new(empty) {
                Ok(t) => {
                    return Ok(t);
                },
                Err(_) => {
                    proof {
                        assert(false);
                    }
                    return Err(EngineError::InvalidArgument);
                },
            }
        }
        let width = records[0].len();
        let mut cols: Vec<Column> = Vec::new();
        let mut c: usize = 0;
        while c < width
            invariant
                width == records@[0]@.len(),
                records@.len() > 0,
                recs == records@.map_values(|r2: Vec<(String, JsonPrim)>| record_view(r2@)),
                recs[0].fields.len() == width,
                c <= width,
                cols@.len() == c,
                forall|j: int| 0 <= j < c ==> (#[trigger] cols@[j]).wf(),
                forall|j: int| 0 <= j < c
                    ==> (#[trigger] cols@[j])@.name == recs[0].fields[j].0,
                forall|j: int| 0 <= j < c
                    ==> (#[trigger] cols@[j])@.dtype == inferred_tag(
                        recs,
                        recs[0].fields[j].0,
                        infer_window as int,
                    ),
                forall|j: int| 0 <= j < c
                    ==> (#[trigger] cols@[j])@.cells.len() == recs.len(),
                forall|j: int, rw: int| 0 <= j < c && 0 <= rw < recs.len()
                    ==> (#[trigger] cols@[j])@.cells[rw] == prim_cell(
                        #[trigger] field_value(recs[rw], recs[0].fields[j].0),
                        cols@[j]@.dtype,
                    ),
            decreases width - c,
        {
            let name = records[0][c].0.clone();
            proof {
                assert(record_view(records@[0]@).fields[c as int]
                    == (records@[0]@[c as int].0@, records@[0]@[c as int].1@));
                assert(name@ == recs[0].fields[c as int].0);
            }
            // inference
            let mut tag = TypeTag::Utf8;
            let mut decided = false;
            let mut rw: usize = 0;
            let lim = if infer_window < records.len() {
                infer_window
            } else {
                records.len()
            };
            proof {
                assert(recs.skip(0) =~= recs);
            }
            while rw < lim
                invariant
                    recs == records@.map_values(|r2: Vec<(String, JsonPrim)>| record_view(r2@)),
                    recs.len() == records@.len(),
                    lim <= records@.len(),
                    lim <= infer_window,
                    lim == if infer_window < records@.len() { infer_window as int } else {
                        records@.len() as int
                    },
                    rw <= lim,
                    name@ == recs[0].fields[c as int].0,
                    c < width,
                    !decided ==> inferred_tag(recs, name@, infer_window as int)
                        == inferred_tag(recs.skip(rw as int), name@, infer_window - rw),
                    decided ==> tag == inferred_tag(recs, name@, infer_window as int),
                    !decided ==> tag == TypeTag::Utf8,
                decreases lim - rw,
            {
                if !decided {
                    let p = field_of(&records[rw], &name);
                    proof {
                        assert(recs.skip(rw as int)[0] == recs[rw as int]);
                        assert(recs.skip(rw as int).drop_first() =~= recs.skip(rw + 1));
                    }
                    match p {
                        JsonPrim::Bool(_) => {
                            tag = TypeTag::Bool;
                            decided = true;
                        },
                        JsonPrim::Int(_) => {
                            tag = TypeTag::Int64;
                            decided = true;
                        },
                        JsonPrim::Str(_) => {
                            tag = TypeTag::Utf8;
                            decided = true;
                        },
                        _ => {},
                    }
                }
                rw = rw + 1;
            }
            proof {
                if !decided {
                    if lim == infer_window {
                        assert(inferred_tag(recs.skip(lim as int), name@, 0) == TypeTag::Utf8);
                    } else {
                        assert(recs.skip(lim as int).len() == 0);
                    }
                    assert(tag == inferred_tag(recs, name@, infer_window as int));
                }
            }
            // cells
            let mut cells: Vec<Option<crate::types::Datum>> = Vec::new();
            let mut rw2: usize = 0;
            while rw2 < records.len()
                invariant
                    recs == records@.map_values(|r2: Vec<(String, JsonPrim)>| record_view(r2@)),
                    recs.len() == records@.len(),
                    rw2 <= records@.len(),
                    name@ == recs[0].fields[c as int].0,
                    c < width,
                    cells@.len() == rw2,
                    forall|j: int| 0 <= j < rw2
                        ==> cell_view(#[trigger] cells@[j]) == prim_cell(
                            field_value(recs[j], name@),
                            tag,
                        ),
                decreases records@.len() - rw2,
            {
                let p = field_of(&records[rw2], &name);
                let cell: Option<crate::types::Datum> = match p {
                    JsonPrim::Bool(b) => {
                        if matches!(tag, TypeTag::Bool) {
                            Some(crate::types::Datum::Sc(Scalar::Bool(b)))
                        } else {
                            None
                        }
                    },
                    JsonPrim::Int(x) => {
                        if matches!(tag, TypeTag::Int64) {
                            Some(crate::types::Datum::Sc(Scalar::Int(x)))
                        } else {
                            None
                        }
                    },
                    JsonPrim::Str(s) => {
                        if matches!(tag, TypeTag::Utf8) {
                            Some(crate::types::Datum::Sc(Scalar::Str(s)))
                        } else {
                            None
                        }
                    },
                    _ => None,
                };
                cells.push(cell);
                rw2 = rw2 + 1;
            }
            match Column::new(name, tag, cells) {
                Ok(col) => {
                    cols.push(col);
                },
                Err(_) => {
                    proof {
                        assert(false);
                    }
                    return Err(EngineError::InvalidArgument);
                },
            }
            c = c + 1;
        }
        let ghost colsv = cols@.map_values(|c2: Column| c2@);
        proof {
            assert forall|j: int| 0 <= j < colsv.len()
                implies (#[trigger] colsv[j].cells.len())
                    == crate::table::spec_height(colsv) by {}
            assert(crate::table::heights_equal(colsv));
        }
        match Table::new(cols) {
            Ok(t) => Ok(t),
            Err(e) => {
                proof {
                    assert(e == EngineError::InvalidArgument
                        && !crate::table::names_unique(colsv));
                    let (p, q) = choose|p: int, q: int| 0 <= p < q < colsv.len()
                        && (#[trigger] colsv[p].name) == (#[trigger] colsv[q].name);
                    assert(recs[0].fields[p].0 == recs[0].fields[q].0);
                    assert(!record_names_unique(recs_views(records@)[0]));
                }
                Err(EngineError::InvalidArgument)
            },
        }
    }

    /// Reads line-delimited JSON: one record object per non-empty line,
    /// schema and typing as `from_records` with the given inference window.
    /// Field order within a record follows serde_json's map order (sorted
    /// by field name). `ParseError` exactly when a non-empty line is not a
    /// record object; `InvalidArgument` when the first record repeats a
    /// field name.
    pub fn read_json_lines(text: &str, infer_window: usize) -> (r: Result<Table, EngineError>)
        ensures
            match r {
                Ok(t) => {
                    &&& t.wf()
                    &&& records_of_rows(crate::codec::text_rows(text@)) matches Some(recs)
                        && records_table_ok(recs, infer_window as int, t@)
                },
                Err(e) => {
                    ||| (e == EngineError::ParseError
                        && records_of_rows(crate::codec::text_rows(text@)) is None)
                    ||| (e == EngineError::InvalidArgument
                        && (records_of_rows(crate::codec::text_rows(text@)) matches Some(recs)
                            && recs.len() > 0 && !record_names_unique(recs[0])))
                },
            },
    {
        let ghost all = crate::codec::text_rows(text@);
        let rows = crate::codec::rows_of_text(text);
        let mut records: Vec<Vec<(String, JsonPrim)>> = Vec::new();
        let mut i: usize = 0;
        proof {
            assert(all.take(0) =~= Seq::<Seq<char>>::empty());
        }
        while i < rows.len()
            invariant
                all == crate::codec::text_rows(text@),
                rows@.map_values(|f: Vec<char>| f@) == all,
                i <= all.len(),
                records_of_rows(all.take(i as int)) == Some(recs_views(records@)),
            decreases rows@.len() - i,
        {
            proof {
                assert(all.take(i + 1).drop_last() =~= all.take(i as int));
                assert(all.take(i + 1).last() == all[i as int]);
                assert((rows@[i as int])@ == all[i as int]);
            }
            if rows[i].len() > 0 {
                let line = crate::text::string_from_chars(&rows[i]);
                match parse_line_record(line.as_str()) {
                    Some(rec) => {
                        records.push(rec);
                        proof {
                            assert(recs_views(records@)
                                =~= records_of_rows(all.take(i + 1))->0);
                        }
                    },
                    None => {
                        proof {
                            assert(records_of_rows(all.take(i + 1)) is None);
                            lemma_rows_records_none(all, i + 1);
                        }
                        return Err(EngineError::ParseError);
                    },
                }
            }
            i = i + 1;
        }
        proof {
            assert(all.take(all.len() as int) =~= all);
        }
        Table::from_records(&records, infer_window)
    }

    /// Reads a whole-array JSON document: a top-level array of record
    /// objects, typed exactly as the line-delimited form with the same
    /// bounded inference window. Field order within a record follows
    /// serde_json's map order (sorted by field name). `ParseError` exactly
    /// when the document is not an array of objects; `InvalidArgument`
    /// when the first record repeats a field name.
    pub fn read_json(text: &str, infer_window: usize) -> (r: Result<Table, EngineError>)
        ensures
            match r {
                Ok(t) => {
                    &&& t.wf()
                    &&& json_array_records_of(text@) matches Some(recs)
                        && records_table_ok(recs, infer_window as int, t@)
                },
                Err(e) => {
                    ||| (e == EngineError::ParseError
                        && json_array_records_of(text@) is None)
                    ||| (e == EngineError::InvalidArgument
                        && (json_array_records_of(text@) matches Some(recs)
                            && recs.len() > 0 && !record_names_unique(recs[0])))
                },
            },
    {
        let records = match parse_array_records(text) {
            Some(recs) => recs,
            None => {
                return Err(EngineError::ParseError);
            },
        };
        Table::from_records(&records, infer_window)
    }
}

/// Once a prefix of the rows fails to parse, the whole text does.
proof fn lemma_rows_records_none(rows: Seq<Seq<char>>, upto: int)
    requires
        0 <= upto <= rows.len(),
        records_of_rows(rows.take(upto)) is None,
    ensures
        records_of_rows(rows) is None,
    decreases rows.len() - upto,
{
    if upto == rows.len() {
        assert(rows.take(upto) =~= rows);
    } else {
        assert(rows.take(upto + 1).drop_last() =~= rows.take(upto));
        lemma_rows_records_none(rows, upto + 1);
    }
}

} // verus!
