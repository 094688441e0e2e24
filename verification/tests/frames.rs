use tabular::EngineError;
use tabular::types::{Datum, Scalar, TypeTag};
use tabular::column::Column;
use tabular::table::Table;
use tabular::join::JoinKind;
use tabular::handle::SharedTableHandle;
use tabular::codec::CsvOptions;

fn int_col(name: &str, vals: &[Option<i64>]) -> Column {
    let cells: Vec<Option<Datum>> = vals
        .iter()
        .map(|v| v.map(|x| Datum::Sc(Scalar::Int(x))))
        .collect();
    Column::new(name.to_string(), TypeTag::Int64, cells).unwrap()
}

fn str_col(name: &str, vals: &[Option<&str>]) -> Column {
    let cells: Vec<Option<Datum>> = vals
        .iter()
        .map(|v| v.map(|x| Datum::Sc(Scalar::Str(x.to_string()))))
        .collect();
    Column::new(name.to_string(), TypeTag::Utf8, cells).unwrap()
}

fn get_i64(c: &Column, i: usize) -> Option<i64> {
    match c.get(i).unwrap() {
        Some(Datum::Sc(Scalar::Int(x))) => Some(x),
        None => None,
        _ => panic!("not an integer cell"),
    }
}

fn get_u64(c: &Column, i: usize) -> Option<u64> {
    match c.get(i).unwrap() {
        Some(Datum::Sc(Scalar::UInt(x))) => Some(x),
        None => None,
        _ => panic!("not an unsigned cell"),
    }
}

#[test]
fn table_shape_and_lookup() {
    let t = Table::new(vec![
        int_col("id", &[Some(1), Some(2)]),
        str_col("name", &[Some("a"), Some("b")]),
    ])
    .unwrap();
    assert_eq!(t.shape(), (2, 2));
    assert_eq!(t.columns(), vec!["id".to_string(), "name".to_string()]);
    assert_eq!(t.dtypes(), vec![3, 11]);
    assert_eq!(t.find_idx_by_name("name"), Some(1));
    assert_eq!(t.find_idx_by_name("missing"), None);
    assert!(matches!(t.column("missing"), Err(EngineError::NotFound)));
    assert!(t.select_at_idx(2).is_none());
    let sel = t.select(&vec!["name".to_string()]).unwrap();
    assert_eq!(sel.width(), 1);
    assert!(matches!(
        t.select(&vec!["nope".to_string()]),
        Err(EngineError::NotFound)
    ));
}

#[test]
fn table_new_rejects_bad_shapes() {
    let r = Table::new(vec![int_col("a", &[Some(1)]), int_col("b", &[Some(1), Some(2)])]);
    assert!(matches!(r, Err(EngineError::LengthMismatch)));
    let r2 = Table::new(vec![int_col("a", &[Some(1)]), int_col("a", &[Some(2)])]);
    assert!(matches!(r2, Err(EngineError::InvalidArgument)));
}

#[test]
fn drop_and_mutate_columns() {
    let mut t = Table::new(vec![
        int_col("a", &[Some(1), Some(2)]),
        int_col("b", &[Some(3), Some(4)]),
    ])
    .unwrap();
    let without = t.drop("a").unwrap();
    assert_eq!(without.columns(), vec!["b".to_string()]);
    let pulled = t.drop_in_place("b").unwrap();
    assert_eq!(pulled.name(), "b");
    assert_eq!(t.width(), 1);
    let mut t2 = Table::new(vec![int_col("a", &[Some(1), Some(2)])]).unwrap();
    t2.insert_at_idx(1, &int_col("c", &[Some(9), Some(8)])).unwrap();
    assert_eq!(t2.columns(), vec!["a".to_string(), "c".to_string()]);
    // replacing keeps the old name
    t2.replace("c", &int_col("whatever", &[Some(7), Some(6)])).unwrap();
    assert_eq!(t2.columns(), vec!["a".to_string(), "c".to_string()]);
    let c = t2.column("c").unwrap();
    assert_eq!(get_i64(&c, 0), Some(7));
    t2.set_column_names(&vec!["x".to_string(), "y".to_string()]).unwrap();
    assert_eq!(t2.columns(), vec!["x".to_string(), "y".to_string()]);
    assert!(matches!(
        t2.set_column_names(&vec!["x".to_string()]),
        Err(EngineError::LengthMismatch)
    ));
}

#[test]
fn stack_tables() {
    let t = Table::new(vec![int_col("a", &[Some(1), Some(2)])]).unwrap();
    let wide = t.hstack(&vec![int_col("b", &[Some(3), Some(4)])]).unwrap();
    assert_eq!(wide.width(), 2);
    assert!(matches!(
        t.hstack(&vec![int_col("b", &[Some(3)])]),
        Err(EngineError::LengthMismatch)
    ));
    let tall = t.vstack(&t).unwrap();
    assert_eq!(tall.height(), 4);
    let other = Table::new(vec![str_col("a", &[Some("x")])]).unwrap();
    assert!(matches!(t.vstack(&other), Err(EngineError::SchemaMismatch)));
}

#[test]
fn table_sort_moves_rows_together() {
    let t = Table::new(vec![
        int_col("k", &[Some(3), Some(1), Some(2)]),
        str_col("v", &[Some("c"), Some("a"), Some("b")]),
    ])
    .unwrap();
    let sorted = t.sort("k", false).unwrap();
    let k = sorted.column("k").unwrap();
    let v = sorted.column("v").unwrap();
    assert_eq!(get_i64(&k, 0), Some(1));
    match v.get(0).unwrap() {
        Some(Datum::Sc(Scalar::Str(s))) => assert_eq!(s, "a"),
        _ => panic!("expected text"),
    }
    assert!(matches!(t.sort("zz", false), Err(EngineError::NotFound)));
}

#[test]
fn drop_nulls_and_duplicates() {
    let t = Table::new(vec![
        int_col("a", &[Some(1), None, Some(1), Some(2)]),
        int_col("b", &[Some(5), Some(6), Some(5), Some(8)]),
    ])
    .unwrap();
    let clean = t.drop_nulls(&None).unwrap();
    assert_eq!(clean.height(), 3);
    let dd = t.drop_duplicates(true, &None).unwrap();
    assert_eq!(dd.height(), 3);
    // applying it again changes nothing
    let dd2 = dd.drop_duplicates(true, &None).unwrap();
    assert!(dd.frame_equal(&dd2, true));
    // a subset key sees rows 0 and 2 as one
    let bysub = t
        .drop_duplicates(true, &Some(vec!["a".to_string()]))
        .unwrap();
    assert_eq!(bysub.height(), 3);
}

#[test]
fn groupby_sum_skips_nulls() {
    // id [1,2,2,3], v [10,20,null,30] summed per id
    let t = Table::new(vec![
        int_col("id", &[Some(1), Some(2), Some(2), Some(3)]),
        int_col("v", &[Some(10), Some(20), None, Some(30)]),
    ])
    .unwrap();
    let g = t.groupby(&vec!["id".to_string()], &None, "sum").unwrap();
    assert_eq!(g.shape(), (3, 2));
    let id = g.column("id").unwrap();
    let v = g.column("v_sum").unwrap();
    assert_eq!(get_i64(&id, 0), Some(1));
    assert_eq!(get_i64(&v, 0), Some(10));
    assert_eq!(get_i64(&id, 1), Some(2));
    assert_eq!(get_i64(&v, 1), Some(20));
    assert_eq!(get_i64(&id, 2), Some(3));
    assert_eq!(get_i64(&v, 2), Some(30));
}

#[test]
fn groupby_count_sums_to_height() {
    let t = Table::new(vec![
        int_col("id", &[Some(1), Some(2), Some(2), Some(3), Some(2)]),
        int_col("v", &[Some(1), Some(2), None, Some(4), Some(5)]),
    ])
    .unwrap();
    let g = t.groupby(&vec!["id".to_string()], &None, "count").unwrap();
    let counts = g.column("v_count").unwrap();
    let mut total: u64 = 0;
    for i in 0..counts.len() {
        total += get_u64(&counts, i).unwrap();
    }
    assert_eq!(total as usize, t.height());
}

#[test]
fn groupby_other_reducers() {
    let t = Table::new(vec![
        int_col("id", &[Some(1), Some(1), Some(2)]),
        int_col("v", &[Some(4), Some(7), Some(9)]),
    ])
    .unwrap();
    let mins = t.groupby(&vec!["id".to_string()], &None, "min").unwrap();
    assert_eq!(get_i64(&mins.column("v_min").unwrap(), 0), Some(4));
    let means = t.groupby(&vec!["id".to_string()], &None, "mean").unwrap();
    // the exact mean 5.5 floors to 5
    assert_eq!(get_i64(&means.column("v_mean").unwrap(), 0), Some(5));
    let med = t.groupby(&vec!["id".to_string()], &None, "median").unwrap();
    assert_eq!(get_i64(&med.column("v_median").unwrap(), 0), Some(4));
    let nu = t.groupby(&vec!["id".to_string()], &None, "n_unique").unwrap();
    assert_eq!(get_u64(&nu.column("v_n_unique").unwrap(), 0), Some(2));
    // sample variance of 4 and 7 is 4.5, floored to 4; its root floors to 2
    let var = t.groupby(&vec!["id".to_string()], &None, "var").unwrap();
    assert_eq!(get_u64(&var.column("v_var").unwrap(), 0), Some(4));
    let std = t.groupby(&vec!["id".to_string()], &None, "std").unwrap();
    assert_eq!(get_u64(&std.column("v_std").unwrap(), 0), Some(2));
    assert!(matches!(
        t.groupby(&vec!["id".to_string()], &None, "mode"),
        Err(EngineError::UnsupportedAggregator)
    ));
    assert!(matches!(
        t.groupby(&vec!["zz".to_string()], &None, "sum"),
        Err(EngineError::NotFound)
    ));
}

#[test]
fn join_kinds() {
    let left = Table::new(vec![
        int_col("k", &[Some(1), Some(2), Some(2), Some(4)]),
        str_col("l", &[Some("a"), Some("b"), Some("c"), Some("d")]),
    ])
    .unwrap();
    let right = Table::new(vec![
        int_col("k", &[Some(2), Some(2), Some(5)]),
        str_col("r", &[Some("x"), Some("y"), Some("z")]),
    ])
    .unwrap();
    let on = vec!["k".to_string()];
    let inner = left.join(&right, &on, &on, JoinKind::Inner).unwrap();
    // rows 1 and 2 of the left each match two right rows: four pairs
    assert_eq!(inner.shape(), (4, 3));
    let lj = left.join(&right, &on, &on, JoinKind::Left).unwrap();
    // every left row appears; the matched ones fan out
    assert_eq!(lj.height(), 6);
    let r = lj.column("r").unwrap();
    // the unmatched first left row carries a null right cell
    assert!(r.get(0).unwrap().is_none());
    let outer = left.join(&right, &on, &on, JoinKind::Outer).unwrap();
    // the left-join rows plus the unmatched right row with key five
    assert_eq!(outer.height(), 7);
    assert!(matches!(
        left.join(&right, &on, &vec![], JoinKind::Inner),
        Err(EngineError::InvalidArgument)
    ));
    assert_eq!(tabular::join::join_kind_of("cross"), None);
    assert_eq!(tabular::join::join_kind_of("outer"), Some(JoinKind::Outer));
}

#[test]
fn null_keys_never_match() {
    let left = Table::new(vec![int_col("k", &[None, Some(1)])]).unwrap();
    let right = Table::new(vec![int_col("k", &[None, Some(1)])]).unwrap();
    let on = vec!["k".to_string()];
    let inner = left.join(&right, &on, &on, JoinKind::Inner).unwrap();
    assert_eq!(inner.height(), 1);
}

#[test]
fn shared_handle_reads_and_writes() {
    let t = Table::new(vec![int_col("k", &[Some(3), Some(1), Some(2)])]).unwrap();
    let h = SharedTableHandle::new(t);
    assert_eq!(h.height(), 3);
    assert_eq!(h.width(), 1);
    match h.column_sum("k").unwrap() {
        Some(Datum::Sc(Scalar::Int(x))) => assert_eq!(x, 6),
        _ => panic!("expected a sum"),
    }
    // a mutation completed under the write lock is visible to the next reader
    h.sort_in_place("k", false).unwrap();
    let snap = h.snapshot();
    let k = snap.column("k").unwrap();
    assert_eq!(get_i64(&k, 0), Some(1));
    let t2 = Table::new(vec![int_col("k", &[Some(9)])]).unwrap();
    let h2 = SharedTableHandle::new(t2);
    h.vstack_mut(&h2).unwrap();
    assert_eq!(h.height(), 4);
    assert!(!h.frame_equal(&h2, true));
}

#[test]
fn csv_reads_header_and_infers_types() {
    // "a,b\n1,x\n2,y\n" with a header parses to height two,
    // an integer column and a text column
    let opts = CsvOptions {
        delimiter: ',',
        has_header: true,
        skip_rows: 0,
        stop_after_n_rows: None,
        infer_schema_length: 100,
        strict: true,
    };
    let t = Table::read_csv("a,b\n1,x\n2,y\n", &opts).unwrap();
    assert_eq!(t.shape(), (2, 2));
    assert_eq!(t.columns(), vec!["a".to_string(), "b".to_string()]);
    assert_eq!(t.dtypes(), vec![3, 11]);
    let a = t.column("a").unwrap();
    assert_eq!(get_i64(&a, 0), Some(1));
    assert_eq!(get_i64(&a, 1), Some(2));
    let b = t.column("b").unwrap();
    match b.get(1).unwrap() {
        Some(Datum::Sc(Scalar::Str(s))) => assert_eq!(s, "y"),
        _ => panic!("expected text"),
    }
}

#[test]
fn csv_options_and_errors() {
    let opts = CsvOptions {
        delimiter: ';',
        has_header: false,
        skip_rows: 1,
        stop_after_n_rows: Some(1),
        infer_schema_length: 100,
        strict: true,
    };
    let t = Table::read_csv("junk\n1;2\n3;4\n", &opts).unwrap();
    assert_eq!(t.shape(), (1, 2));
    assert_eq!(t.columns(), vec!["column_1".to_string(), "column_2".to_string()]);
    // an empty cell is null; a bad cell aborts a strict parse
    let strict = CsvOptions {
        delimiter: ',',
        has_header: true,
        skip_rows: 0,
        stop_after_n_rows: None,
        infer_schema_length: 1,
        strict: true,
    };
    let r = Table::read_csv("a\n1\nx\n", &strict);
    assert!(matches!(r, Err(EngineError::ParseError)));
    let lenient = CsvOptions { strict: false, ..strict };
    let t2 = Table::read_csv("a\n1\nx\n", &lenient).unwrap();
    let a = t2.column("a").unwrap();
    assert_eq!(get_i64(&a, 0), Some(1));
    assert_eq!(get_i64(&a, 1), None);
}

#[test]
fn csv_round_trip() {
    let t = Table::new(vec![
        int_col("a", &[Some(1), None]),
        str_col("b", &[Some("x"), Some("y")]),
    ])
    .unwrap();
    let text = t.write_csv(',', true).unwrap();
    assert_eq!(text, "a,b\n1,x\n,y\n");
    let opts = CsvOptions {
        delimiter: ',',
        has_header: true,
        skip_rows: 0,
        stop_after_n_rows: None,
        infer_schema_length: 100,
        strict: true,
    };
    let back = Table::read_csv(text.as_str(), &opts).unwrap();
    assert!(back.frame_equal(&t, true));
}

#[test]
fn json_array_text() {
    let c = int_col("a", &[Some(1), None, Some(-2)]);
    assert_eq!(c.to_json().unwrap(), "[1,null,-2]");
    let s = str_col("s", &[Some("he\"llo"), Some("line\nbreak")]);
    assert_eq!(s.to_json().unwrap(), "[\"he\\\"llo\",\"line\\nbreak\"]");
    let b = Column::new(
        "b".to_string(),
        TypeTag::Bool,
        vec![Some(Datum::Sc(Scalar::Bool(true))), None],
    )
    .unwrap();
    assert_eq!(b.to_json().unwrap(), "[true,null]");
}

#[test]
fn json_lines_and_array_read() {
    let t = Table::read_json_lines(
        "{\"a\": 1, \"b\": \"x\"}\n{\"a\": 2, \"b\": \"y\"}\n",
        3,
    )
    .unwrap();
    assert_eq!(t.shape(), (2, 2));
    let a = t.column("a").unwrap();
    assert_eq!(get_i64(&a, 0), Some(1));
    let arr = Table::read_json("[{\"a\": 5}, {\"a\": null}]", 3).unwrap();
    assert_eq!(arr.shape(), (2, 1));
    let a2 = arr.column("a").unwrap();
    assert_eq!(get_i64(&a2, 0), Some(5));
    assert_eq!(get_i64(&a2, 1), None);
    assert!(matches!(
        Table::read_json("{\"not\": \"an array\"}", 3),
        Err(EngineError::ParseError)
    ));
    assert!(matches!(
        Table::read_json_lines("not json\n", 3),
        Err(EngineError::ParseError)
    ));
}

#[test]
fn head_tail_slice_shift_table() {
    let t = Table::new(vec![int_col("a", &[Some(1), Some(2), Some(3)])]).unwrap();
    assert_eq!(t.head(Some(2)).height(), 2);
    assert_eq!(t.tail(Some(1)).height(), 1);
    let s = t.slice(1, 2).unwrap();
    assert_eq!(get_i64(&s.column("a").unwrap(), 0), Some(2));
    assert!(matches!(t.slice(2, 2), Err(EngineError::IndexOutOfBounds)));
    let sh = t.shift(1);
    assert_eq!(get_i64(&sh.column("a").unwrap(), 0), None);
    let tk = t.take(&vec![2, 2]).unwrap();
    assert_eq!(tk.height(), 2);
    assert_eq!(get_i64(&tk.column("a").unwrap(), 1), Some(3));
}

#[test]
fn wire_codes_round_trip() {
    // the wire numbering is a bijection onto the tag list
    for code in 0u8..19u8 {
        let t = TypeTag::from_code(code).unwrap();
        assert_eq!(t.code(), code);
    }
    assert!(TypeTag::from_code(19).is_none());
    assert_eq!(TypeTag::Int8.code(), 0);
    assert_eq!(TypeTag::Object.code(), 18);
}

#[test]
fn pivot_spreads_values() {
    let t = Table::new(vec![
        int_col("id", &[Some(1), Some(1), Some(2), Some(2)]),
        str_col("kind", &[Some("x"), Some("y"), Some("x"), Some("x")]),
        int_col("v", &[Some(10), Some(20), Some(30), Some(40)]),
    ])
    .unwrap();
    let p = t
        .pivot(&vec!["id".to_string()], "kind", "v", "sum")
        .unwrap();
    // key column plus one column per distinct pivot value
    assert_eq!(p.shape(), (2, 3));
    assert_eq!(
        p.columns(),
        vec!["id".to_string(), "x".to_string(), "y".to_string()]
    );
    let x = p.column("x").unwrap();
    let y = p.column("y").unwrap();
    assert_eq!(get_i64(&x, 0), Some(10));
    assert_eq!(get_i64(&x, 1), Some(70));
    assert_eq!(get_i64(&y, 0), Some(20));
    // a key/pivot-value combination with no matching row is null
    assert_eq!(get_i64(&y, 1), None);
    assert!(matches!(
        t.pivot(&vec!["id".to_string()], "kind", "v", "groups"),
        Err(EngineError::UnsupportedAggregator)
    ));
    assert!(matches!(
        t.pivot(&vec!["id".to_string()], "zz", "v", "sum"),
        Err(EngineError::NotFound)
    ));
    // an integer pivot column names its columns by the value text
    let q = t
        .pivot(&vec!["kind".to_string()], "id", "v", "count")
        .unwrap();
    assert_eq!(
        q.columns(),
        vec!["kind".to_string(), "1".to_string(), "2".to_string()]
    );
}

#[test]
fn json_of_binary_column() {
    let cells = vec![
        Some(Datum::Sc(Scalar::Bin(vec![1, 2, 255]))),
        None,
        Some(Datum::Sc(Scalar::Bin(vec![]))),
    ];
    let c = Column::new("b".to_string(), TypeTag::Object, cells).unwrap();
    assert_eq!(c.to_json().unwrap(), "[[1,2,255],null,[]]");
}
