use vstd::prelude::*;
use crate::types::{Scalar, ScalarV, Datum, DatumV, TypeTag, spec_scalar_fits};
use crate::text::{int_text_of, is_int_literal, int_literal_val, fmt_i64, parse_i64, chars_of};

verus! {

/// The element-wise numeric operations.
#[derive(Clone, Copy, Debug, PartialEq, Eq, Structural)]
pub enum ArithOp {
    Add,
    Sub,
    Mul,
    Div,
    Rem,
}

/// The element-wise comparison operations.
#[derive(Clone, Copy, Debug, PartialEq, Eq, Structural)]
pub enum CmpOp {
    Eq,
    Neq,
    Gt,
    GtEq,
    Lt,
    LtEq,
}

/// Column types whose cells carry a signed-integer payload.
pub open spec fn int_payload_dtype(t: TypeTag) -> bool {
    t == TypeTag::Int8 || t == TypeTag::Int16 || t == TypeTag::Int32 || t == TypeTag::Int64
        || t == TypeTag::Date32 || t == TypeTag::Date64 || t == TypeTag::Time64Nanosecond
        || t == TypeTag::DurationNanosecond || t == TypeTag::DurationMillisecond
}

/// Column types whose cells carry an unsigned-integer payload.
pub open spec fn uint_payload_dtype(t: TypeTag) -> bool {
    t == TypeTag::UInt8 || t == TypeTag::UInt16 || t == TypeTag::UInt32 || t == TypeTag::UInt64
}

/// Column types arithmetic is defined on.
pub open spec fn numeric_dtype(t: TypeTag) -> bool {
    int_payload_dtype(t) || uint_payload_dtype(t)
}

pub fn numeric_dtype_exec(t: TypeTag) -> (r: bool)
    ensures
        r == numeric_dtype(t),
{
    match t {
        TypeTag::Int8 => true,
        TypeTag::Int16 => true,
        TypeTag::Int32 => true,
        TypeTag::Int64 => true,
        TypeTag::Date32 => true,
        TypeTag::Date64 => true,
        TypeTag::Time64Nanosecond => true,
        TypeTag::DurationNanosecond => true,
        TypeTag::DurationMillisecond => true,
        TypeTag::UInt8 => true,
        TypeTag::UInt16 => true,
        TypeTag::UInt32 => true,
        TypeTag::UInt64 => true,
        _ => false,
    }
}

/// The type an arithmetic result takes: two unsigned operands widen to
/// `UInt64`, anything else widens to `Int64`. Widths never silently
/// truncate; a result outside the target range is a `CastError`.
pub open spec fn promote(a: TypeTag, b: TypeTag) -> TypeTag {
    if uint_payload_dtype(a) && uint_payload_dtype(b) {
        TypeTag::UInt64
    } else {
        TypeTag::Int64
    }
}

/// The numeric payload of a scalar.
pub open spec fn num_val(s: ScalarV) -> int {
    match s {
        ScalarV::Int(x) => x,
        ScalarV::UInt(x) => x,
        _ => 0,
    }
}

pub open spec fn is_num(s: ScalarV) -> bool {
    s is Int || s is UInt
}

/// Truncating division, as the machine performs it: the magnitude quotient
/// with the sign of the exact quotient.
pub open spec fn tdiv(x: int, y: int) -> int {
    let m = abs_of(x) / abs_of(y);
    if (x >= 0) == (y >= 0) {
        m
    } else {
        -m
    }
}

/// Truncating remainder: the magnitude remainder with the dividend's sign.
pub open spec fn trem(x: int, y: int) -> int {
    let m = abs_of(x) % abs_of(y);
    if x >= 0 {
        m
    } else {
        -m
    }
}

pub open spec fn abs_of(x: int) -> int {
    if x >= 0 {
        x
    } else {
        -x
    }
}

/// The exact value an operation produces on two numeric payloads; for
/// division and remainder the divisor is non-zero.
pub open spec fn arith_val(op: ArithOp, x: int, y: int) -> int {
    match op {
        ArithOp::Add => x + y,
        ArithOp::Sub => x - y,
        ArithOp::Mul => x * y,
        ArithOp::Div => tdiv(x, y),
        ArithOp::Rem => trem(x, y),
    }
}

/// Whether a numeric value is representable under a promoted type.
pub open spec fn in_range(t: TypeTag, v: int) -> bool {
    if t == TypeTag::UInt64 {
        0 <= v <= u64::MAX
    } else {
        i64::MIN <= v <= i64::MAX
    }
}

pub open spec fn mk_num(t: TypeTag, v: int) -> ScalarV {
    if t == TypeTag::UInt64 {
        ScalarV::UInt(v)
    } else {
        ScalarV::Int(v)
    }
}

/// The cell an element-wise operation yields: null when either operand is
/// null, null on division or remainder by zero, the exact value otherwise.
pub open spec fn arith_cell(
    op: ArithOp,
    rt: TypeTag,
    a: Option<DatumV>,
    b: Option<DatumV>,
) -> Option<DatumV> {
    match (a, b) {
        (Some(DatumV::Sc(x)), Some(DatumV::Sc(y))) => {
            if (op == ArithOp::Div || op == ArithOp::Rem) && num_val(y) == 0 {
                None
            } else {
                Some(DatumV::Sc(mk_num(rt, arith_val(op, num_val(x), num_val(y)))))
            }
        },
        _ => None,
    }
}

/// Whether an element-wise operation overflows the promoted type at these
/// operands.
pub open spec fn arith_overflows(
    op: ArithOp,
    rt: TypeTag,
    a: Option<DatumV>,
    b: Option<DatumV>,
) -> bool {
    match (a, b) {
        (Some(DatumV::Sc(x)), Some(DatumV::Sc(y))) => {
            if (op == ArithOp::Div || op == ArithOp::Rem) && num_val(y) == 0 {
                false
            } else {
                !in_range(rt, arith_val(op, num_val(x), num_val(y)))
            }
        },
        _ => false,
    }
}

/// The magnitude of a machine integer that is not the smallest one.
fn mag_u128(v: i128) -> (r: u128)
    requires
        v != i128::MIN,
    ensures
        r as int == abs_of(v as int),
{
    if v >= 0 {
        v as u128
    } else {
        (-v) as u128
    }
}

/// The numeric payload of a cell's scalar as an `i128`; every `i64` and
/// `u64` payload fits.
fn payload_i128(s: &Scalar) -> (r: i128)
    requires
        is_num(s@),
    ensures
        r as int == num_val(s@),
{
    match s {
        Scalar::Int(x) => *x as i128,
        Scalar::UInt(x) => *x as i128,
        _ => {
            proof {
                assert(false);
            }
            0
        },
    }
}

/// Computes one element-wise operation on numeric payloads; `None` means
/// the exact result cannot be represented in the promoted type.
pub fn arith_payloads(op: ArithOp, rt: TypeTag, x: &Scalar, y: &Scalar) -> (r: Option<
    Option<Datum>,
>)
    requires
        is_num(x@),
        is_num(y@),
        rt == TypeTag::UInt64 || rt == TypeTag::Int64,
    ensures
        match r {
            Some(c) => {
                &&& crate::types::cell_view(c) == arith_cell(op, rt, Some(DatumV::Sc(x@)), Some(
                    DatumV::Sc(y@),
                ))
                &&& !arith_overflows(op, rt, Some(DatumV::Sc(x@)), Some(DatumV::Sc(y@)))
                &&& crate::types::spec_cell_fits(rt, crate::types::cell_view(c))
            },
            None => arith_overflows(op, rt, Some(DatumV::Sc(x@)), Some(DatumV::Sc(y@))),
        },
{
    let xv = payload_i128(x);
    let yv = payload_i128(y);
    let exact: i128 = match op {
        ArithOp::Add => {
            // |x|,|y| < 2^64, so the sum fits an i128
            xv + yv
        },
        ArithOp::Sub => {
            xv - yv
        },
        ArithOp::Mul => {
            match xv.checked_mul(yv) {
                Some(v) => v,
                None => {
                    // past every 64-bit range already
                    proof {
                        lemma_mul_huge(xv as int, yv as int, rt);
                    }
                    return None;
                },
            }
        },
        ArithOp::Div => {
            if yv == 0 {
                return Some(None);
            }
            let m = mag_u128(xv) / mag_u128(yv);
            let same = (xv >= 0) == (yv >= 0);
            proof {
                assert(m <= u128::MAX);
            }
            if same {
                if m > i128::MAX as u128 {
                    proof {
                        assert(false) by (nonlinear_arith)
                            requires
                                m == abs_of(xv as int) as u128 / abs_of(yv as int) as u128,
                                abs_of(xv as int) < 0x1_0000_0000_0000_0000,
                                abs_of(yv as int) >= 1,
                                m > i128::MAX as u128,
                        ;
                    }
                    return None;
                }
                m as i128
            } else {
                if m > 170141183460469231731687303715884105728u128 {
                    proof {
                        assert(false) by (nonlinear_arith)
                            requires
                                m == abs_of(xv as int) as u128 / abs_of(yv as int) as u128,
                                abs_of(xv as int) < 0x1_0000_0000_0000_0000,
                                abs_of(yv as int) >= 1,
                                m > 170141183460469231731687303715884105728u128,
                        ;
                    }
                    return None;
                }
                if m == 170141183460469231731687303715884105728u128 {
                    i128::MIN
                } else {
                    -(m as i128)
                }
            }
        },
        ArithOp::Rem => {
            if yv == 0 {
                return Some(None);
            }
            let m = mag_u128(xv) % mag_u128(yv);
            proof {
                assert(abs_of(xv as int) % abs_of(yv as int) < abs_of(yv as int))
                    by (nonlinear_arith)
                    requires abs_of(yv as int) >= 1,
                ;
            }
            if xv >= 0 {
                m as i128
            } else {
                -(m as i128)
            }
        },
    };
    let fits = match rt {
        TypeTag::UInt64 => 0 <= exact && exact <= u64::MAX as i128,
        _ => i64::MIN as i128 <= exact && exact <= i64::MAX as i128,
    };
    if !fits {
        return None;
    }
    let v = match rt {
        TypeTag::UInt64 => Datum::Sc(Scalar::UInt(exact as u64)),
        _ => Datum::Sc(Scalar::Int(exact as i64)),
    };
    Some(Some(v))
}

/// A product of two payloads that overflows an `i128` lies outside every
/// 64-bit range.
proof fn lemma_mul_huge(x: int, y: int, rt: TypeTag)
    requires
        -0x1_0000_0000_0000_0000 < x < 0x1_0000_0000_0000_0000,
        -0x1_0000_0000_0000_0000 < y < 0x1_0000_0000_0000_0000,
        x * y < i128::MIN || x * y > i128::MAX,
    ensures
        !in_range(rt, x * y),
{
}

/// Whether one type's integer payload range is contained in another's; a
/// cast along such a pair loses nothing.
pub open spec fn range_within(t1: TypeTag, t2: TypeTag) -> bool {
    forall|s: ScalarV| spec_scalar_fits(t1, s) && is_num(s)
        ==> spec_scalar_fits(t2, mk_same_kind(t2, num_val(s)))
}

pub open spec fn mk_same_kind(t: TypeTag, v: int) -> ScalarV {
    if uint_payload_dtype(t) {
        ScalarV::UInt(v)
    } else {
        ScalarV::Int(v)
    }
}

/// Whether a cast between two types is defined at all.
pub open spec fn cast_supported(t1: TypeTag, t2: TypeTag) -> bool {
    ||| t1 == t2
    ||| (numeric_dtype(t1) && numeric_dtype(t2))
    ||| (numeric_dtype(t1) && t2 == TypeTag::Utf8)
    ||| (t1 == TypeTag::Utf8 && t2 == TypeTag::Utf8)
    ||| (t1 == TypeTag::Utf8 && numeric_dtype(t2))
    ||| (t1 == TypeTag::Bool && numeric_dtype(t2))
    ||| (t1 == TypeTag::Bool && t2 == TypeTag::Utf8)
}

/// The scalar a cast produces, or `None` when the value cannot be
/// represented in the target type.
pub open spec fn cast_scalar(t2: TypeTag, s: ScalarV) -> Option<ScalarV> {
    match s {
        ScalarV::Int(x) => cast_num(t2, x),
        ScalarV::UInt(x) => cast_num(t2, x),
        ScalarV::Bool(b) => {
            if t2 == TypeTag::Bool {
                Some(s)
            } else if t2 == TypeTag::Utf8 {
                Some(ScalarV::Str(if b { "true"@ } else { "false"@ }))
            } else {
                cast_num(t2, if b { 1int } else { 0int })
            }
        },
        ScalarV::Str(txt) => {
            if t2 == TypeTag::Utf8 {
                Some(s)
            } else {
                if is_int_literal(txt) && spec_scalar_fits(t2, mk_same_kind(t2, int_literal_val(txt)))
                    && i64::MIN <= int_literal_val(txt) <= i64::MAX {
                    Some(mk_same_kind(t2, int_literal_val(txt)))
                } else {
                    None
                }
            }
        },
        ScalarV::Bin(_) => {
            if t2 == TypeTag::Object {
                Some(s)
            } else {
                None
            }
        },
    }
}

/// Casting a numeric payload: to text it becomes its decimal literal, to a
/// numeric type it must fit the target range.
pub open spec fn cast_num(t2: TypeTag, x: int) -> Option<ScalarV> {
    if t2 == TypeTag::Utf8 {
        Some(ScalarV::Str(int_text_of(x)))
    } else if numeric_dtype(t2) {
        if spec_scalar_fits(t2, mk_same_kind(t2, x)) {
            Some(mk_same_kind(t2, x))
        } else {
            None
        }
    } else {
        None
    }
}

/// The executable cast of one scalar.
pub fn cast_scalar_exec(t2: TypeTag, s: &Scalar) -> (r: Option<Scalar>)
    ensures
        match r {
            Some(v) => cast_scalar(t2, s@) == Some(v@),
            None => cast_scalar(t2, s@) is None,
        },
{
    match s {
        Scalar::Int(x) => cast_num_exec(t2, *x),
        Scalar::UInt(x) => {
            if *x > i64::MAX as u64 {
                // only an unsigned target can hold it
                if matches!(t2, TypeTag::UInt64) {
                    Some(Scalar::UInt(*x))
                } else if matches!(t2, TypeTag::Utf8) {
                    let txt = crate::text::fmt_u64(*x);
                    proof {
                        assert(int_text_of(*x as int) == crate::text::dec_digits_of(*x as int));
                    }
                    Some(Scalar::Str(txt))
                } else {
                    proof {
                        lemma_big_uint_casts(t2, *x as int);
                    }
                    None
                }
            } else {
                cast_num_exec(t2, *x as i64)
            }
        },
        Scalar::Bool(b) => {
            if matches!(t2, TypeTag::Bool) {
                Some(Scalar::Bool(*b))
            } else if matches!(t2, TypeTag::Utf8) {
                let txt: &str = if *b {
                    "true"
                } else {
                    "false"
                };
                Some(Scalar::Str(txt.to_owned()))
            } else {
                cast_num_exec(t2, if *b { 1i64 } else { 0i64 })
            }
        },
        Scalar::Str(txt) => {
            if matches!(t2, TypeTag::Utf8) {
                Some(Scalar::Str(txt.clone()))
            } else {
                let cv = chars_of(txt.as_str());
                match parse_i64(&cv) {
                    Some(x) => {
                        match cast_num_exec(t2, x) {
                            Some(v) => {
                                if matches!(v, Scalar::Str(_)) {
                                    proof {
                                        assert(false);
                                    }
                                    None
                                } else {
                                    Some(v)
                                }
                            },
                            None => None,
                        }
                    },
                    None => {
                        proof {
                            if is_int_literal(txt@)
                                && i64::MIN <= int_literal_val(txt@) <= i64::MAX {
                                assert(false);
                            }
                        }
                        None
                    },
                }
            }
        },
        Scalar::Bin(b) => {
            if matches!(t2, TypeTag::Object) {
                let copy = s.duplicate();
                Some(copy)
            } else {
                None
            }
        },
    }
}

/// A value past `i64::MAX` fits no signed or narrow target.
proof fn lemma_big_uint_casts(t2: TypeTag, x: int)
    requires
        x > i64::MAX,
        t2 != TypeTag::UInt64,
        t2 != TypeTag::Utf8,
    ensures
        cast_num(t2, x) is None,
{
}

/// Casting an `i64` payload to a numeric or text target.
fn cast_num_exec(t2: TypeTag, x: i64) -> (r: Option<Scalar>)
    ensures
        match r {
            Some(v) => cast_num(t2, x as int) == Some(v@),
            None => cast_num(t2, x as int) is None,
        },
{
    match t2 {
        TypeTag::Int8 => {
            if -128 <= x && x <= 127 {
                Some(Scalar::Int(x))
            } else {
                None
            }
        },
        TypeTag::Int16 => {
            if -32768 <= x && x <= 32767 {
                Some(Scalar::Int(x))
            } else {
                None
            }
        },
        TypeTag::Int32 => {
            if -0x8000_0000i64 <= x && x <= 0x7fff_ffffi64 {
                Some(Scalar::Int(x))
            } else {
                None
            }
        },
        TypeTag::Int64 => Some(Scalar::Int(x)),
        TypeTag::Date32 => {
            if -0x8000_0000i64 <= x && x <= 0x7fff_ffffi64 {
                Some(Scalar::Int(x))
            } else {
                None
            }
        },
        TypeTag::Date64 => Some(Scalar::Int(x)),
        TypeTag::Time64Nanosecond => Some(Scalar::Int(x)),
        TypeTag::DurationNanosecond => Some(Scalar::Int(x)),
        TypeTag::DurationMillisecond => Some(Scalar::Int(x)),
        TypeTag::UInt8 => {
            if 0 <= x && x <= 255 {
                Some(Scalar::UInt(x as u64))
            } else {
                None
            }
        },
        TypeTag::UInt16 => {
            if 0 <= x && x <= 65535 {
                Some(Scalar::UInt(x as u64))
            } else {
                None
            }
        },
        TypeTag::UInt32 => {
            if 0 <= x && x <= 0xffff_ffffi64 {
                Some(Scalar::UInt(x as u64))
            } else {
                None
            }
        },
        TypeTag::UInt64 => {
            if 0 <= x {
                Some(Scalar::UInt(x as u64))
            } else {
                None
            }
        },
        TypeTag::Utf8 => Some(Scalar::Str(fmt_i64(x))),
        _ => None,
    }
}


/// A successful scalar cast fits the target type.
pub proof fn lemma_cast_fits(t2: TypeTag, s: ScalarV)
    ensures
        cast_scalar(t2, s) matches Some(s2) ==> spec_scalar_fits(t2, s2),
{
}

} // verus!
