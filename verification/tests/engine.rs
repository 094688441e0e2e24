use tabular::EngineError;
use tabular::types::{Datum, Scalar, TypeTag};
use tabular::column::Column;
use tabular::arith::{ArithOp, CmpOp};

fn int_col(name: &str, vals: &[Option<i64>]) -> Column {
    let cells: Vec<Option<Datum>> = vals
        .iter()
        .map(|v| v.map(|x| Datum::Sc(Scalar::Int(x))))
        .collect();
    Column::new(name.to_string(), TypeTag::Int64, cells).unwrap()
}

fn str_col(name: &str, vals: &[Option<&str>]) -> Column {
    let cells: Vec<Option<Datum>> = vals
        .iter()
        .map(|v| v.map(|x| Datum::Sc(Scalar::Str(x.to_string()))))
        .collect();
    Column::new(name.to_string(), TypeTag::Utf8, cells).unwrap()
}

fn bool_col(name: &str, vals: &[Option<bool>]) -> Column {
    let cells: Vec<Option<Datum>> = vals
        .iter()
        .map(|v| v.map(|x| Datum::Sc(Scalar::Bool(x))))
        .collect();
    Column::new(name.to_string(), TypeTag::Bool, cells).unwrap()
}

fn get_i64(c: &Column, i: usize) -> Option<i64> {
    match c.get(i).unwrap() {
        Some(Datum::Sc(Scalar::Int(x))) => Some(x),
        None => None,
        _ => panic!("not an integer cell"),
    }
}

#[test]
fn column_basics() {
    let c = int_col("a", &[Some(1), None, Some(3)]);
    assert_eq!(c.len(), 3);
    assert_eq!(c.null_count(), 1);
    assert_eq!(c.name(), "a");
    assert_eq!(c.dtype_code(), 3);
    assert_eq!(c.n_chunks(), 1);
    assert_eq!(c.chunk_lengths(), vec![3]);
    let r = c.rename("b".to_string());
    assert_eq!(r.name(), "b");
    assert_eq!(get_i64(&r, 0), Some(1));
}

#[test]
fn column_new_type_mismatch() {
    let cells = vec![Some(Datum::Sc(Scalar::Str("x".to_string())))];
    let r = Column::new("a".to_string(), TypeTag::Int64, cells);
    assert!(matches!(r, Err(EngineError::TypeMismatch)));
}

#[test]
fn column_range_check() {
    // 300 does not fit an eight-bit column
    let cells = vec![Some(Datum::Sc(Scalar::Int(300)))];
    let r = Column::new("a".to_string(), TypeTag::Int8, cells);
    assert!(matches!(r, Err(EngineError::TypeMismatch)));
}

#[test]
fn shift_examples() {
    // shift([1,2,3], 1) -> [null,1,2]; shift([1,2,3], -1) -> [2,3,null]
    let c = int_col("a", &[Some(1), Some(2), Some(3)]);
    let fwd = c.shift(1);
    assert_eq!(get_i64(&fwd, 0), None);
    assert_eq!(get_i64(&fwd, 1), Some(1));
    assert_eq!(get_i64(&fwd, 2), Some(2));
    let back = c.shift(-1);
    assert_eq!(get_i64(&back, 0), Some(2));
    assert_eq!(get_i64(&back, 1), Some(3));
    assert_eq!(get_i64(&back, 2), None);
    // a magnitude at the length empties the column
    let wide = c.shift(3);
    assert_eq!(wide.null_count(), 3);
}

#[test]
fn filter_all_true_is_identity() {
    let c = int_col("a", &[Some(1), None, Some(3)]);
    let mask = bool_col("m", &[Some(true), Some(true), Some(true)]);
    let f = c.filter(&mask).unwrap();
    assert!(f.series_equal(&c, true));
}

#[test]
fn filter_errors() {
    let c = int_col("a", &[Some(1), Some(2)]);
    let not_bool = int_col("m", &[Some(1), Some(0)]);
    assert!(matches!(c.filter(&not_bool), Err(EngineError::TypeMismatch)));
    let short = bool_col("m", &[Some(true)]);
    assert!(matches!(c.filter(&short), Err(EngineError::LengthMismatch)));
}

#[test]
fn take_and_slice() {
    let c = int_col("a", &[Some(10), Some(20), Some(30)]);
    let t = c.take(&vec![2, 0]).unwrap();
    assert_eq!(get_i64(&t, 0), Some(30));
    assert_eq!(get_i64(&t, 1), Some(10));
    assert!(matches!(c.take(&vec![3]), Err(EngineError::IndexOutOfBounds)));
    let s = c.slice(1, 2).unwrap();
    assert_eq!(get_i64(&s, 0), Some(20));
    assert!(matches!(c.slice(2, 2), Err(EngineError::IndexOutOfBounds)));
    assert!(matches!(c.take_every(0), Err(EngineError::InvalidArgument)));
    let e = c.take_every(2).unwrap();
    assert_eq!(e.len(), 2);
    assert_eq!(get_i64(&e, 1), Some(30));
}

#[test]
fn sort_nulls_last_both_directions() {
    let c = int_col("a", &[Some(3), None, Some(1), Some(2)]);
    let asc = c.sort(false).unwrap();
    assert_eq!(get_i64(&asc, 0), Some(1));
    assert_eq!(get_i64(&asc, 1), Some(2));
    assert_eq!(get_i64(&asc, 2), Some(3));
    assert_eq!(get_i64(&asc, 3), None);
    let desc = asc.sort(true).unwrap();
    // the non-null values come out reversed, nulls stay last
    assert_eq!(get_i64(&desc, 0), Some(3));
    assert_eq!(get_i64(&desc, 1), Some(2));
    assert_eq!(get_i64(&desc, 2), Some(1));
    assert_eq!(get_i64(&desc, 3), None);
}

#[test]
fn argsort_is_stable() {
    let c = int_col("a", &[Some(2), Some(1), Some(2), Some(1)]);
    let idx = c.argsort(false).unwrap();
    assert_eq!(idx, vec![1, 3, 0, 2]);
}

#[test]
fn unique_family() {
    let c = int_col("a", &[Some(1), Some(2), Some(1), None, None]);
    let u = c.unique();
    assert_eq!(u.len(), 3);
    assert_eq!(get_i64(&u, 0), Some(1));
    assert_eq!(get_i64(&u, 1), Some(2));
    assert_eq!(get_i64(&u, 2), None);
    assert_eq!(c.arg_unique(), vec![0, 1, 3]);
    let iu = c.is_unique();
    let dup = c.is_duplicated();
    for (i, expect) in [false, true, false, false, false].iter().enumerate() {
        match iu.get(i).unwrap() {
            Some(Datum::Sc(Scalar::Bool(b))) => assert_eq!(b, *expect),
            _ => panic!("expected a boolean"),
        }
        match dup.get(i).unwrap() {
            Some(Datum::Sc(Scalar::Bool(b))) => assert_eq!(b, !*expect),
            _ => panic!("expected a boolean"),
        }
    }
}

#[test]
fn arg_true_positions() {
    let m = bool_col("m", &[Some(true), Some(false), None, Some(true)]);
    assert_eq!(m.arg_true().unwrap(), vec![0, 3]);
    let c = int_col("a", &[Some(1)]);
    assert!(matches!(c.arg_true(), Err(EngineError::TypeMismatch)));
}

#[test]
fn comparisons_propagate_null() {
    let a = int_col("a", &[Some(1), None, Some(3)]);
    let b = int_col("b", &[Some(2), Some(2), Some(2)]);
    let lt = a.compare(CmpOp::Lt, &b).unwrap();
    assert_eq!(lt.dtype_code(), 10);
    match lt.get(0).unwrap() {
        Some(Datum::Sc(Scalar::Bool(b))) => assert!(b),
        _ => panic!("expected true"),
    }
    assert!(lt.get(1).unwrap().is_none());
    let ge = a.compare_value(CmpOp::GtEq, &Scalar::Int(3)).unwrap();
    match ge.get(2).unwrap() {
        Some(Datum::Sc(Scalar::Bool(b))) => assert!(b),
        _ => panic!("expected true"),
    }
}

#[test]
fn bool_not_flips() {
    let m = bool_col("m", &[Some(true), None, Some(false)]);
    let n = m.bool_not().unwrap();
    match n.get(0).unwrap() {
        Some(Datum::Sc(Scalar::Bool(b))) => assert!(!b),
        _ => panic!("expected false"),
    }
    assert!(n.get(1).unwrap().is_none());
}

#[test]
fn arithmetic_exact() {
    let a = int_col("a", &[Some(6), Some(7), None]);
    let b = int_col("b", &[Some(2), Some(0), Some(1)]);
    let add = a.arithmetic(ArithOp::Add, &b).unwrap();
    assert_eq!(get_i64(&add, 0), Some(8));
    let div = a.arithmetic(ArithOp::Div, &b).unwrap();
    assert_eq!(get_i64(&div, 0), Some(3));
    // division by zero yields null, a null operand yields null
    assert_eq!(get_i64(&div, 1), None);
    assert_eq!(get_i64(&div, 2), None);
    let rem = a.arithmetic(ArithOp::Rem, &b).unwrap();
    assert_eq!(get_i64(&rem, 0), Some(0));
    // overflow of the widened range fails the whole operation
    let big = int_col("c", &[Some(i64::MAX), Some(1), Some(1)]);
    let one = int_col("d", &[Some(1), Some(1), Some(1)]);
    assert!(matches!(
        big.arithmetic(ArithOp::Add, &one),
        Err(EngineError::CastError)
    ));
    let s = a.arithmetic_value(ArithOp::Mul, &Scalar::Int(10), false).unwrap();
    assert_eq!(get_i64(&s, 0), Some(60));
    // the scalar can stand on the left of a subtraction
    let r = a.arithmetic_value(ArithOp::Sub, &Scalar::Int(10), true).unwrap();
    assert_eq!(get_i64(&r, 0), Some(4));
}

#[test]
fn aggregates_skip_nulls() {
    let a = int_col("a", &[Some(1), None, Some(4)]);
    match a.sum().unwrap() {
        Some(Datum::Sc(Scalar::Int(x))) => assert_eq!(x, 5),
        _ => panic!("expected a sum"),
    }
    match a.extremum(false).unwrap() {
        Some(Datum::Sc(Scalar::Int(x))) => assert_eq!(x, 1),
        _ => panic!("expected a minimum"),
    }
    match a.extremum(true).unwrap() {
        Some(Datum::Sc(Scalar::Int(x))) => assert_eq!(x, 4),
        _ => panic!("expected a maximum"),
    }
    let m = a.mean().unwrap().unwrap();
    assert_eq!(m.num, 5);
    assert_eq!(m.den, 2);
    // an all-null column reduces to null
    let n = int_col("n", &[None, None]);
    assert!(n.sum().unwrap().is_none());
    assert!(n.extremum(false).unwrap().is_none());
    let t = str_col("s", &[Some("x")]);
    assert!(matches!(t.sum(), Err(EngineError::TypeMismatch)));
}

#[test]
fn cast_round_trip_lossless() {
    let cells = vec![
        Some(Datum::Sc(Scalar::Int(-5))),
        None,
        Some(Datum::Sc(Scalar::Int(100))),
    ];
    let a = Column::new("a".to_string(), TypeTag::Int32, cells).unwrap();
    let wide = a.cast(TypeTag::Int64).unwrap();
    assert_eq!(wide.dtype_code(), 3);
    let back = wide.cast(TypeTag::Int32).unwrap();
    assert_eq!(back.dtype_code(), 2);
    assert!(back.series_equal(&a, true));
}

#[test]
fn cast_errors_and_text() {
    let a = int_col("a", &[Some(300)]);
    assert!(matches!(a.cast(TypeTag::Int8), Err(EngineError::CastError)));
    let t = a.cast(TypeTag::Utf8).unwrap();
    match t.get(0).unwrap() {
        Some(Datum::Sc(Scalar::Str(s))) => assert_eq!(s, "300"),
        _ => panic!("expected text"),
    }
    let back = t.cast(TypeTag::Int64).unwrap();
    assert_eq!(get_i64(&back, 0), Some(300));
    let neg = int_col("n", &[Some(-7)]);
    let nt = neg.cast(TypeTag::Utf8).unwrap();
    match nt.get(0).unwrap() {
        Some(Datum::Sc(Scalar::Str(s))) => assert_eq!(s, "-7"),
        _ => panic!("expected text"),
    }
    // an unparseable string fails the cast
    let s = str_col("s", &[Some("abc")]);
    assert!(matches!(s.cast(TypeTag::Int64), Err(EngineError::CastError)));
    // a list column has no cast to integers at all
    let l = Column::new(
        "l".to_string(),
        TypeTag::List,
        vec![Some(Datum::Items(vec![Scalar::Int(1)]))],
    )
    .unwrap();
    assert!(matches!(l.cast(TypeTag::Int64), Err(EngineError::TypeMismatch)));
}

#[test]
fn fill_none_strategies() {
    let a = int_col("a", &[None, Some(2), None, Some(5), None]);
    let f = a.fill_none("forward").unwrap();
    assert_eq!(get_i64(&f, 0), None);
    assert_eq!(get_i64(&f, 2), Some(2));
    assert_eq!(get_i64(&f, 4), Some(5));
    let b = a.fill_none("backward").unwrap();
    assert_eq!(get_i64(&b, 0), Some(2));
    assert_eq!(get_i64(&b, 2), Some(5));
    assert_eq!(get_i64(&b, 4), None);
    let mn = a.fill_none("min").unwrap();
    assert_eq!(get_i64(&mn, 0), Some(2));
    let mx = a.fill_none("max").unwrap();
    assert_eq!(get_i64(&mx, 0), Some(5));
    // the mean of 2 and 5 floors to 3
    let me = a.fill_none("mean").unwrap();
    assert_eq!(get_i64(&me, 0), Some(3));
    assert!(matches!(a.fill_none("nearest"), Err(EngineError::InvalidArgument)));
}

#[test]
fn zip_and_set_with_mask() {
    let a = int_col("a", &[Some(1), Some(2), Some(3)]);
    let b = int_col("b", &[Some(10), Some(20), Some(30)]);
    let m = bool_col("m", &[Some(true), Some(false), None]);
    let z = a.zip_with(&m, &b).unwrap();
    assert_eq!(get_i64(&z, 0), Some(1));
    assert_eq!(get_i64(&z, 1), Some(20));
    assert_eq!(get_i64(&z, 2), Some(30));
    let s = a
        .set_with_mask(&m, &Some(Datum::Sc(Scalar::Int(9))))
        .unwrap();
    assert_eq!(get_i64(&s, 0), Some(9));
    assert_eq!(get_i64(&s, 1), Some(2));
}

#[test]
fn append_and_rechunk() {
    let a = int_col("a", &[Some(1)]);
    let b = int_col("b", &[Some(2), None]);
    let ab = a.append(&b).unwrap();
    assert_eq!(ab.len(), 3);
    assert_eq!(ab.name(), "a");
    assert!(ab.n_chunks() > 1);
    let r = ab.rechunk();
    assert_eq!(r.n_chunks(), 1);
    assert!(r.series_equal(&ab, true));
    let s = str_col("s", &[Some("x")]);
    assert!(matches!(a.append(&s), Err(EngineError::TypeMismatch)));
}

#[test]
fn as_duration_scales_days() {
    let cells = vec![Some(Datum::Sc(Scalar::Int(2))), None];
    let d = Column::new("d".to_string(), TypeTag::Date32, cells).unwrap();
    let dur = d.as_duration().unwrap();
    assert_eq!(dur.dtype_code(), 17);
    assert_eq!(get_i64(&dur, 0), Some(172800000));
    assert_eq!(get_i64(&dur, 1), None);
    let plain = int_col("x", &[Some(1)]);
    assert!(matches!(plain.as_duration(), Err(EngineError::TypeMismatch)));
}
