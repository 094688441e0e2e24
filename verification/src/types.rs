use vstd::prelude::*;

verus! {

/// The closed set of element types a column can carry. The order of the
/// variants is the wire contract: `code` maps them to consecutive numbers
/// starting at zero, and callers across the boundary rely on those numbers.
#[derive(Clone, Copy, Debug, PartialEq, Eq, Structural)]
pub enum TypeTag {
    Int8,
    Int16,
    Int32,
    Int64,
    UInt8,
    UInt16,
    UInt32,
    UInt64,
    Float32,
    Float64,
    Bool,
    Utf8,
    List,
    Date32,
    Date64,
    Time64Nanosecond,
    DurationNanosecond,
    DurationMillisecond,
    Object,
}

pub open spec fn spec_tag_code(t: TypeTag) -> u8 {
    match t {
        TypeTag::Int8 => 0,
        TypeTag::Int16 => 1,
        TypeTag::Int32 => 2,
        TypeTag::Int64 => 3,
        TypeTag::UInt8 => 4,
        TypeTag::UInt16 => 5,
        TypeTag::UInt32 => 6,
        TypeTag::UInt64 => 7,
        TypeTag::Float32 => 8,
        TypeTag::Float64 => 9,
        TypeTag::Bool => 10,
        TypeTag::Utf8 => 11,
        TypeTag::List => 12,
        TypeTag::Date32 => 13,
        TypeTag::Date64 => 14,
        TypeTag::Time64Nanosecond => 15,
        TypeTag::DurationNanosecond => 16,
        TypeTag::DurationMillisecond => 17,
        TypeTag::Object => 18,
    }
}

pub open spec fn spec_tag_of_code(c: u8) -> Option<TypeTag> {
    if c == 0 { Some(TypeTag::Int8) }
    else if c == 1 { Some(TypeTag::Int16) }
    else if c == 2 { Some(TypeTag::Int32) }
    else if c == 3 { Some(TypeTag::Int64) }
    else if c == 4 { Some(TypeTag::UInt8) }
    else if c == 5 { Some(TypeTag::UInt16) }
    else if c == 6 { Some(TypeTag::UInt32) }
    else if c == 7 { Some(TypeTag::UInt64) }
    else if c == 8 { Some(TypeTag::Float32) }
    else if c == 9 { Some(TypeTag::Float64) }
    else if c == 10 { Some(TypeTag::Bool) }
    else if c == 11 { Some(TypeTag::Utf8) }
    else if c == 12 { Some(TypeTag::List) }
    else if c == 13 { Some(TypeTag::Date32) }
    else if c == 14 { Some(TypeTag::Date64) }
    else if c == 15 { Some(TypeTag::Time64Nanosecond) }
    else if c == 16 { Some(TypeTag::DurationNanosecond) }
    else if c == 17 { Some(TypeTag::DurationMillisecond) }
    else if c == 18 { Some(TypeTag::Object) }
    else { None }
}

impl TypeTag {
    /// The wire number of this tag.
    pub fn code(self) -> (r: u8)
        ensures
            r == spec_tag_code(self),
    {
        match self {
            TypeTag::Int8 => 0,
            TypeTag::Int16 => 1,
            TypeTag::Int32 => 2,
            TypeTag::Int64 => 3,
            TypeTag::UInt8 => 4,
            TypeTag::UInt16 => 5,
            TypeTag::UInt32 => 6,
            TypeTag::UInt64 => 7,
            TypeTag::Float32 => 8,
            TypeTag::Float64 => 9,
            TypeTag::Bool => 10,
            TypeTag::Utf8 => 11,
            TypeTag::List => 12,
            TypeTag::Date32 => 13,
            TypeTag::Date64 => 14,
            TypeTag::Time64Nanosecond => 15,
            TypeTag::DurationNanosecond => 16,
            TypeTag::DurationMillisecond => 17,
            TypeTag::Object => 18,
        }
    }

    /// The tag a wire number stands for, if any.
    pub fn from_code(c: u8) -> (r: Option<TypeTag>)
        ensures
            r == spec_tag_of_code(c),
    {
        if c == 0 { Some(TypeTag::Int8) }
        else if c == 1 { Some(TypeTag::Int16) }
        else if c == 2 { Some(TypeTag::Int32) }
        else if c == 3 { Some(TypeTag::Int64) }
        else if c == 4 { Some(TypeTag::UInt8) }
        else if c == 5 { Some(TypeTag::UInt16) }
        else if c == 6 { Some(TypeTag::UInt32) }
        else if c == 7 { Some(TypeTag::UInt64) }
        else if c == 8 { Some(TypeTag::Float32) }
        else if c == 9 { Some(TypeTag::Float64) }
        else if c == 10 { Some(TypeTag::Bool) }
        else if c == 11 { Some(TypeTag::Utf8) }
        else if c == 12 { Some(TypeTag::List) }
        else if c == 13 { Some(TypeTag::Date32) }
        else if c == 14 { Some(TypeTag::Date64) }
        else if c == 15 { Some(TypeTag::Time64Nanosecond) }
        else if c == 16 { Some(TypeTag::DurationNanosecond) }
        else if c == 17 { Some(TypeTag::DurationMillisecond) }
        else if c == 18 { Some(TypeTag::Object) }
        else { None }
    }
}

/// Decoding a tag's wire number gives the tag back, and encoding what a
/// number decodes to gives the number back: the wire numbering is a bijection
/// onto 0..=18.
pub proof fn lemma_tag_code_bijective()
    ensures
        forall|t: TypeTag| spec_tag_of_code(spec_tag_code(t)) == Some(t),
        forall|c: u8| #[trigger] spec_tag_of_code(c) matches Some(t) ==> spec_tag_code(t) == c,
{
}

/// A single non-null scalar cell payload. Integer-like tags (the signed
/// widths, dates, times and durations) share the `Int` payload; the
/// unsigned widths share `UInt`. `Bin` carries the opaque binary payload
/// of `Object` columns.
pub enum Scalar {
    Int(i64),
    UInt(u64),
    Bool(bool),
    Str(String),
    Bin(Vec<u8>),
}

/// The mathematical shadow of `Scalar`: unbounded integers and sequences.
pub enum ScalarV {
    Int(int),
    UInt(int),
    Bool(bool),
    Str(Seq<char>),
    Bin(Seq<u8>),
}

impl View for Scalar {
    type V = ScalarV;

    open spec fn view(&self) -> ScalarV {
        match self {
            Scalar::Int(x) => ScalarV::Int(*x as int),
            Scalar::UInt(x) => ScalarV::UInt(*x as int),
            Scalar::Bool(b) => ScalarV::Bool(*b),
            Scalar::Str(s) => ScalarV::Str(s@),
            Scalar::Bin(b) => ScalarV::Bin(b@),
        }
    }
}

/// One cell payload: either a scalar or a list of scalars (the `List` tag).
pub enum Datum {
    Sc(Scalar),
    Items(Vec<Scalar>),
}

/// The mathematical shadow of `Datum`.
pub enum DatumV {
    Sc(ScalarV),
    Items(Seq<ScalarV>),
}

impl View for Datum {
    type V = DatumV;

    open spec fn view(&self) -> DatumV {
        match self {
            Datum::Sc(s) => DatumV::Sc(s@),
            Datum::Items(v) => DatumV::Items(v@.map_values(|s: Scalar| s@)),
        }
    }
}

/// A cell is a possibly-null value; `None` is the null.
pub open spec fn cell_view(c: Option<Datum>) -> Option<DatumV> {
    match c {
        Some(v) => Some(v@),
        None => None,
    }
}

/// Whether a scalar payload is representable under a tag, range included.
pub open spec fn spec_scalar_fits(t: TypeTag, s: ScalarV) -> bool {
    match t {
        TypeTag::Int8 => s matches ScalarV::Int(x) && -128 <= x <= 127,
        TypeTag::Int16 => s matches ScalarV::Int(x) && -32768 <= x <= 32767,
        TypeTag::Int32 => s matches ScalarV::Int(x) && -0x8000_0000 <= x <= 0x7fff_ffff,
        TypeTag::Int64 => s matches ScalarV::Int(x) && i64::MIN <= x <= i64::MAX,
        TypeTag::UInt8 => s matches ScalarV::UInt(x) && 0 <= x <= 255,
        TypeTag::UInt16 => s matches ScalarV::UInt(x) && 0 <= x <= 65535,
        TypeTag::UInt32 => s matches ScalarV::UInt(x) && 0 <= x <= 0xffff_ffff,
        TypeTag::UInt64 => s matches ScalarV::UInt(x) && 0 <= x <= u64::MAX,
        TypeTag::Float32 => false,
        TypeTag::Float64 => false,
        TypeTag::Bool => s matches ScalarV::Bool(_),
        TypeTag::Utf8 => s matches ScalarV::Str(_),
        TypeTag::List => false,
        TypeTag::Date32 => s matches ScalarV::Int(x) && -0x8000_0000 <= x <= 0x7fff_ffff,
        TypeTag::Date64 => s matches ScalarV::Int(x) && i64::MIN <= x <= i64::MAX,
        TypeTag::Time64Nanosecond => s matches ScalarV::Int(x) && i64::MIN <= x <= i64::MAX,
        TypeTag::DurationNanosecond => s matches ScalarV::Int(x) && i64::MIN <= x <= i64::MAX,
        TypeTag::DurationMillisecond => s matches ScalarV::Int(x) && i64::MIN <= x <= i64::MAX,
        TypeTag::Object => s matches ScalarV::Bin(_),
    }
}

/// Whether a value is representable under a tag. List cells may hold any
/// scalars; the per-element type discipline is enforced by the operations
/// that read them.
pub open spec fn spec_value_fits(t: TypeTag, v: DatumV) -> bool {
    match v {
        DatumV::Sc(s) => spec_scalar_fits(t, s),
        DatumV::Items(_) => t == TypeTag::List,
    }
}

pub open spec fn spec_cell_fits(t: TypeTag, c: Option<DatumV>) -> bool {
    match c {
        Some(v) => spec_value_fits(t, v),
        None => true,
    }
}

/// Element-wise equality of two byte vectors.
pub fn bytes_eq(a: &Vec<u8>, b: &Vec<u8>) -> (r: bool)
    ensures
        r == (a@ == b@),
{
    if a.len() != b.len() {
        proof {
            assert(a@.len() != b@.len());
        }
        return false;
    }
    let mut i: usize = 0;
    while i < a.len()
        invariant
            i <= a.len(),
            a.len() == b.len(),
            forall|j: int| 0 <= j < i ==> a@[j] == b@[j],
        decreases a.len() - i,
    {
        if a[i] != b[i] {
            return false;
        }
        i = i + 1;
    }
    proof {
        assert(a@ =~= b@);
    }
    true
}

impl Scalar {
    pub fn fits(&self, t: TypeTag) -> (r: bool)
        ensures
            r == spec_scalar_fits(t, self@),
    {
        match self {
            Scalar::Int(x) => {
                match t {
                    TypeTag::Int8 => -128 <= *x && *x <= 127,
                    TypeTag::Int16 => -32768 <= *x && *x <= 32767,
                    TypeTag::Int32 => -0x8000_0000 <= *x && *x <= 0x7fff_ffff,
                    TypeTag::Int64 => true,
                    TypeTag::Date32 => -0x8000_0000 <= *x && *x <= 0x7fff_ffff,
                    TypeTag::Date64 => true,
                    TypeTag::Time64Nanosecond => true,
                    TypeTag::DurationNanosecond => true,
                    TypeTag::DurationMillisecond => true,
                    _ => false,
                }
            },
            Scalar::UInt(x) => {
                match t {
                    TypeTag::UInt8 => *x <= 255,
                    TypeTag::UInt16 => *x <= 65535,
                    TypeTag::UInt32 => *x <= 0xffff_ffff,
                    TypeTag::UInt64 => true,
                    _ => false,
                }
            },
            Scalar::Bool(_) => t == TypeTag::Bool,
            Scalar::Str(_) => t == TypeTag::Utf8,
            Scalar::Bin(_) => t == TypeTag::Object,
        }
    }

    /// A fresh scalar with the same content.
    pub fn duplicate(&self) -> (r: Scalar)
        ensures
            r@ == self@,
    {
        match self {
            Scalar::Int(x) => Scalar::Int(*x),
            Scalar::UInt(x) => Scalar::UInt(*x),
            Scalar::Bool(b) => Scalar::Bool(*b),
            Scalar::Str(s) => Scalar::Str(s.clone()),
            Scalar::Bin(b) => {
                let mut out: Vec<u8> = Vec::new();
                let mut i: usize = 0;
                while i < b.len()
                    invariant
                        i <= b.len(),
                        out@ == b@.subrange(0, i as int),
                    decreases b.len() - i,
                {
                    out.push(b[i]);
                    i = i + 1;
                }
                proof {
                    assert(out@ =~= b@);
                }
                Scalar::Bin(out)
            },
        }
    }

    /// Content equality, strings and binary payloads compared element-wise.
    pub fn eq_scalar(&self, other: &Scalar) -> (r: bool)
        ensures
            r == (self@ == other@),
    {
        match self {
            Scalar::Int(a) => match other {
                Scalar::Int(b) => *a == *b,
                _ => false,
            },
            Scalar::UInt(a) => match other {
                Scalar::UInt(b) => *a == *b,
                _ => false,
            },
            Scalar::Bool(a) => match other {
                Scalar::Bool(b) => *a == *b,
                _ => false,
            },
            Scalar::Str(a) => match other {
                Scalar::Str(b) => a.eq(b),
                _ => false,
            },
            Scalar::Bin(a) => match other {
                Scalar::Bin(b) => bytes_eq(a, b),
                _ => false,
            },
        }
    }
}

impl Datum {
    pub fn fits(&self, t: TypeTag) -> (r: bool)
        ensures
            r == spec_value_fits(t, self@),
    {
        match self {
            Datum::Sc(s) => s.fits(t),
            Datum::Items(_) => t == TypeTag::List,
        }
    }

    /// A fresh value with the same content.
    pub fn duplicate(&self) -> (r: Datum)
        ensures
            r@ == self@,
    {
        match self {
            Datum::Sc(s) => Datum::Sc(s.duplicate()),
            Datum::Items(v) => {
                let mut out: Vec<Scalar> = Vec::new();
                let mut i: usize = 0;
                while i < v.len()
                    invariant
                        i <= v.len(),
                        out@.len() == i,
                        forall|j: int| 0 <= j < i ==> #[trigger] out@[j]@ == v@[j]@,
                    decreases v.len() - i,
                {
                    out.push(v[i].duplicate());
                    i = i + 1;
                }
                proof {
                    assert(out@.map_values(|s: Scalar| s@)
                        =~= v@.map_values(|s: Scalar| s@));
                }
                Datum::Items(out)
            },
        }
    }

    /// Content equality over the mathematical shadow.
    pub fn eq_value(&self, other: &Datum) -> (r: bool)
        ensures
            r == (self@ == other@),
    {
        match self {
            Datum::Sc(a) => match other {
                Datum::Sc(b) => a.eq_scalar(b),
                _ => false,
            },
            Datum::Items(a) => match other {
                Datum::Items(b) => {
                let ghost av = a@.map_values(|s: Scalar| s@);
                let ghost bv = b@.map_values(|s: Scalar| s@);
                if a.len() != b.len() {
                    proof {
                        assert(av.len() != bv.len());
                    }
                    return false;
                }
                let mut i: usize = 0;
                while i < a.len()
                    invariant
                        i <= a.len(),
                        a.len() == b.len(),
                        av == a@.map_values(|s: Scalar| s@),
                        bv == b@.map_values(|s: Scalar| s@),
                        self@ == DatumV::Items(av),
                        other@ == DatumV::Items(bv),
                        forall|j: int| 0 <= j < i ==> av[j] == bv[j],
                    decreases a.len() - i,
                {
                    if !a[i].eq_scalar(&b[i]) {
                        proof {
                            assert(av[i as int] != bv[i as int]);
                        }
                        return false;
                    }
                    i = i + 1;
                }
                proof {
                    assert(av =~= bv);
                }
                true
                },
                _ => false,
            },
        }
    }
}

/// Cell equality with a choice of null semantics: when `null_equal` is set
/// two nulls are equal, otherwise a null equals nothing.
pub open spec fn spec_cell_eq(a: Option<DatumV>, b: Option<DatumV>, null_equal: bool) -> bool {
    match (a, b) {
        (Some(x), Some(y)) => x == y,
        (None, None) => null_equal,
        _ => false,
    }
}

pub fn cell_eq(a: &Option<Datum>, b: &Option<Datum>, null_equal: bool) -> (r: bool)
    ensures
        r == spec_cell_eq(cell_view(*a), cell_view(*b), null_equal),
{
    match a {
        Some(x) => match b {
            Some(y) => x.eq_value(y),
            None => false,
        },
        None => match b {
            Some(_) => false,
            None => null_equal,
        },
    }
}

pub fn duplicate_cell(c: &Option<Datum>) -> (r: Option<Datum>)
    ensures
        cell_view(r) == cell_view(*c),
{
    match c {
        Some(v) => Some(v.duplicate()),
        None => None,
    }
}

pub fn duplicate_cells(cells: &Vec<Option<Datum>>) -> (r: Vec<Option<Datum>>)
    ensures
        r@.map_values(|c: Option<Datum>| cell_view(c))
            == cells@.map_values(|c: Option<Datum>| cell_view(c)),
{
    let mut out: Vec<Option<Datum>> = Vec::new();
    let mut i: usize = 0;
    while i < cells.len()
        invariant
            i <= cells.len(),
            out@.len() == i,
            forall|j: int| 0 <= j < i
                ==> #[trigger] cell_view(out@[j]) == cell_view(cells@[j]),
        decreases cells.len() - i,
    {
        out.push(duplicate_cell(&cells[i]));
        i = i + 1;
    }
    proof {
        assert(out@.map_values(|c: Option<Datum>| cell_view(c))
            =~= cells@.map_values(|c: Option<Datum>| cell_view(c)));
    }
    out
}

} // verus!
