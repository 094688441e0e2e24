use vstd::prelude::*;
use vstd::string::StrSliceExecFns;
use vstd::string::StringExecFns;

verus! {

broadcast use vstd::utf8::char_u32_cast;

/// The characters of a string slice, one vector element per character.
pub fn chars_of(s: &str) -> (r: Vec<char>)
    ensures
        r@ == s@,
{
    let n = s.unicode_len();
    let mut out: Vec<char> = Vec::new();
    let mut i: usize = 0;
    while i < n
        invariant
            i <= n,
            n == s@.len(),
            out@ =~= s@.subrange(0, i as int),
        decreases n - i,
    {
        out.push(s.get_char(i));
        proof {
            assert(out@ =~= s@.subrange(0, i + 1));
        }
        i = i + 1;
    }
    proof {
        assert(out@ =~= s@);
    }
    out
}

/// Relies on `Iterator::collect` for `String`: collecting characters yields
/// the string with exactly those characters in order.
#[verifier::external_body]
pub fn string_from_chars(v: &Vec<char>) -> (r: String)
    ensures
        r@ == v@,
{
    v.iter().collect()
}

/// Lexicographic order on character sequences by code point; a proper
/// prefix comes first.
pub open spec fn chars_le(a: Seq<char>, b: Seq<char>) -> bool
    decreases a.len(),
{
    if a.len() == 0 {
        true
    } else if b.len() == 0 {
        false
    } else if (a[0] as u32) < (b[0] as u32) {
        true
    } else if (b[0] as u32) < (a[0] as u32) {
        false
    } else {
        chars_le(a.drop_first(), b.drop_first())
    }
}

/// `chars_le` is total: one direction always holds, and both hold only for
/// equal sequences.
pub proof fn lemma_chars_le_total(a: Seq<char>, b: Seq<char>)
    ensures
        chars_le(a, b) || chars_le(b, a),
        (chars_le(a, b) && chars_le(b, a)) ==> a == b,
    decreases a.len(),
{
    if a.len() == 0 {
        if chars_le(a, b) && chars_le(b, a) {
            assert(b.len() == 0);
            assert(a =~= b);
        }
    } else if b.len() == 0 {
    } else if (a[0] as u32) < (b[0] as u32) {
    } else if (b[0] as u32) < (a[0] as u32) {
    } else {
        lemma_chars_le_total(a.drop_first(), b.drop_first());
        if chars_le(a, b) && chars_le(b, a) {
            assert(a.drop_first() == b.drop_first());
            assert(a[0] as u32 == b[0] as u32);
            vstd::utf8::char_u32_cast(a[0], a[0] as u32);
            vstd::utf8::char_u32_cast(b[0], b[0] as u32);
            assert(a[0] == b[0]);
            assert(a =~= seq![a[0]] + a.drop_first());
            assert(b =~= seq![b[0]] + b.drop_first());
        }
    }
}

/// `chars_le` is transitive.
pub proof fn lemma_chars_le_trans(a: Seq<char>, b: Seq<char>, c: Seq<char>)
    requires
        chars_le(a, b),
        chars_le(b, c),
    ensures
        chars_le(a, c),
    decreases a.len(),
{
    if a.len() == 0 {
    } else if b.len() == 0 {
    } else if c.len() == 0 {
    } else {
        if (a[0] as u32) < (b[0] as u32) {
            if (b[0] as u32) < (c[0] as u32) {
            } else {
                assert(b[0] as u32 == c[0] as u32);
            }
        } else {
            assert(a[0] as u32 == b[0] as u32);
            if (b[0] as u32) < (c[0] as u32) {
            } else {
                assert(b[0] as u32 == c[0] as u32);
                lemma_chars_le_trans(a.drop_first(), b.drop_first(), c.drop_first());
            }
        }
    }
}

/// Lexicographic comparison of two character vectors.
pub fn chars_vec_le(a: &Vec<char>, b: &Vec<char>) -> (r: bool)
    ensures
        r == chars_le(a@, b@),
{
    chars_slice_le(a.as_slice(), b.as_slice())
}

fn chars_slice_le(a: &[char], b: &[char]) -> (r: bool)
    ensures
        r == chars_le(a@, b@),
{
    let mut i: usize = 0;
    proof {
        assert(a@.skip(0) =~= a@);
        assert(b@.skip(0) =~= b@);
    }
    loop
        invariant
            i <= a@.len(),
            i <= b@.len(),
            chars_le(a@, b@) == chars_le(a@.skip(i as int), b@.skip(i as int)),
        decreases a@.len() - i,
    {
        if i == a.len() {
            proof {
                assert(a@.skip(i as int).len() == 0);
            }
            return true;
        }
        if i == b.len() {
            proof {
                assert(b@.skip(i as int).len() == 0);
                assert(a@.skip(i as int).len() > 0);
            }
            return false;
        }
        let x = a[i];
        let y = b[i];
        proof {
            assert(a@.skip(i as int)[0] == a@[i as int]);
            assert(b@.skip(i as int)[0] == b@[i as int]);
            assert(a@.skip(i as int).len() > 0);
            assert(b@.skip(i as int).len() > 0);
        }
        if (x as u32) < (y as u32) {
            proof {
                assert(chars_le(a@.skip(i as int), b@.skip(i as int)));
            }
            return true;
        }
        if (y as u32) < (x as u32) {
            proof {
                assert(!chars_le(a@.skip(i as int), b@.skip(i as int)));
            }
            return false;
        }
        proof {
            assert(a@.skip(i as int).drop_first() =~= a@.skip(i + 1));
            assert(b@.skip(i as int).drop_first() =~= b@.skip(i + 1));
            assert(chars_le(a@.skip(i as int), b@.skip(i as int))
                == chars_le(a@.skip(i + 1), b@.skip(i + 1)));
        }
        i = i + 1;
    }
}

/// Lexicographic comparison of two strings by character code point.
pub fn str_le(a: &str, b: &str) -> (r: bool)
    ensures
        r == chars_le(a@, b@),
{
    let av = chars_of(a);
    let bv = chars_of(b);
    chars_vec_le(&av, &bv)
}

pub open spec fn is_dec_digit(c: char) -> bool {
    48 <= c as int <= 57
}

pub open spec fn digit_val(c: char) -> int {
    c as int - 48
}

/// The number the digit sequence denotes in base ten.
pub open spec fn dec_val(s: Seq<char>) -> int
    decreases s.len(),
{
    if s.len() == 0 {
        0
    } else {
        dec_val(s.drop_last()) * 10 + digit_val(s.last())
    }
}

pub open spec fn all_dec_digits(s: Seq<char>) -> bool {
    forall|i: int| 0 <= i < s.len() ==> is_dec_digit(#[trigger] s[i])
}

/// A valid integer literal: an optional leading minus sign, then at least
/// one decimal digit and nothing else.
pub open spec fn is_int_literal(s: Seq<char>) -> bool {
    if s.len() == 0 {
        false
    } else if s[0] == '-' {
        s.len() >= 2 && all_dec_digits(s.drop_first())
    } else {
        all_dec_digits(s)
    }
}

/// The integer a valid literal denotes.
pub open spec fn int_literal_val(s: Seq<char>) -> int {
    if s.len() > 0 && s[0] == '-' {
        -dec_val(s.drop_first())
    } else {
        dec_val(s)
    }
}

proof fn lemma_dec_val_bounds(s: Seq<char>)
    requires
        all_dec_digits(s),
    ensures
        dec_val(s) >= 0,
    decreases s.len(),
{
    if s.len() > 0 {
        assert(all_dec_digits(s.drop_last()));
        lemma_dec_val_bounds(s.drop_last());
    }
}

/// Parses a decimal integer literal; `None` when the text is not a valid
/// literal or its value does not fit in an `i64`.
pub fn parse_i64(s: &Vec<char>) -> (r: Option<i64>)
    ensures
        match r {
            Some(x) => is_int_literal(s@) && x as int == int_literal_val(s@),
            None => !(is_int_literal(s@) && i64::MIN <= int_literal_val(s@) <= i64::MAX),
        },
{
    if s.len() == 0 {
        return None;
    }
    let neg = s[0] == '-';
    let start: usize = if neg { 1 } else { 0 };
    if s.len() == start {
        // a lone minus sign
        return None;
    }
    let ghost digits = if neg { s@.drop_first() } else { s@ };
    proof {
        assert(digits.len() > 0);
    }
    // accumulate the magnitude as a non-positive number so that i64::MIN
    // is representable
    let mut acc: i64 = 0;
    let mut i: usize = start;
    while i < s.len()
        invariant
            start <= i <= s@.len(),
            s@.len() > 0,
            neg == (s@[0] == '-'),
            start == if neg { 1int } else { 0int },
            neg ==> digits == s@.drop_first(),
            !neg ==> digits == s@,
            digits.len() == s@.len() - start,
            forall|j: int| 0 <= j < digits.len() ==> digits[j] == s@[j + start],
            all_dec_digits(digits.subrange(0, i - start)),
            acc == -dec_val(digits.subrange(0, i - start)),
            acc <= 0,
        decreases s@.len() - i,
    {
        let c = s[i];
        if !('0' <= c && c <= '9') {
            proof {
                assert(!is_dec_digit(digits[i - start]));
                assert(!all_dec_digits(digits));
                if neg {
                    assert(!is_int_literal(s@));
                } else {
                    assert(s@[0] != '-');
                    assert(!is_int_literal(s@));
                }
            }
            return None;
        }
        let d = (c as u32) - 48;
        proof {
            assert(is_dec_digit(s@[i as int]));
            assert(digits[i - start] == s@[i as int]);
        }
        if acc < -922337203685477580i64 || (acc == -922337203685477580i64 && d > 8) {
            // the magnitude would exceed the i64 range on the next step
            proof {
                if is_int_literal(s@) {
                    assert(all_dec_digits(digits));
                    lemma_parse_overflow(digits, i - start, acc as int, d as int);
                    if neg {
                        assert(int_literal_val(s@) == -dec_val(digits));
                    } else {
                        assert(s@[0] != '-');
                        assert(int_literal_val(s@) == dec_val(digits));
                    }
                }
            }
            return None;
        }
        acc = acc * 10 - (d as i64);
        proof {
            assert(digits.subrange(0, i + 1 - start).drop_last()
                =~= digits.subrange(0, i - start));
            assert(digits.subrange(0, i + 1 - start).last() == digits[i - start]);
        }
        i = i + 1;
    }
    proof {
        assert(digits.subrange(0, digits.len() as int) =~= digits);
    }
    if neg {
        Some(acc)
    } else {
        if acc == i64::MIN {
            return None;
        }
        Some(-acc)
    }
}

/// When the running magnitude is already past the guard, the full literal
/// is out of the `i64` range.
proof fn lemma_parse_overflow(digits: Seq<char>, i: int, acc: int, d: int)
    requires
        0 <= i < digits.len(),
        all_dec_digits(digits),
        acc == -dec_val(digits.subrange(0, i)),
        acc < -922337203685477580 || (acc == -922337203685477580 && d > 8),
        d == digit_val(digits[i]),
    ensures
        dec_val(digits) > 9223372036854775808,
{
    let prefix = digits.subrange(0, i + 1);
    assert(prefix.drop_last() =~= digits.subrange(0, i));
    assert(prefix.last() == digits[i]);
    assert(dec_val(prefix) == dec_val(digits.subrange(0, i)) * 10 + d);
    assert(dec_val(prefix) >= 9223372036854775809) by {
        if acc < -922337203685477580 {
            assert(dec_val(digits.subrange(0, i)) >= 922337203685477581);
            assert(dec_val(digits.subrange(0, i)) * 10 >= 9223372036854775810) by (nonlinear_arith)
                requires dec_val(digits.subrange(0, i)) >= 922337203685477581;
            assert(d >= 0);
        } else {
            assert(dec_val(digits.subrange(0, i)) == 922337203685477580);
            assert(d >= 9);
        }
    };
    lemma_dec_val_monotone(digits, i + 1);
}

/// Extending a digit string only grows its value.
proof fn lemma_dec_val_monotone(digits: Seq<char>, i: int)
    requires
        0 <= i <= digits.len(),
        all_dec_digits(digits),
    ensures
        dec_val(digits) >= dec_val(digits.subrange(0, i)),
        dec_val(digits.subrange(0, i)) >= 0,
    decreases digits.len() - i,
{
    lemma_dec_val_bounds(digits.subrange(0, i));
    if i == digits.len() {
        assert(digits.subrange(0, i) =~= digits);
    } else {
        let a = digits.subrange(0, i);
        let b = digits.subrange(0, i + 1);
        assert(b.drop_last() =~= a);
        assert(dec_val(b) == dec_val(a) * 10 + digit_val(b.last()));
        assert(dec_val(a) * 10 >= dec_val(a)) by (nonlinear_arith)
            requires dec_val(a) >= 0;
        lemma_dec_val_monotone(digits, i + 1);
    }
}

/// The decimal digits of a non-negative number, most significant first.
pub open spec fn dec_digits_of(n: int) -> Seq<char>
    decreases n,
{
    if n <= 0 {
        seq!['0']
    } else if n < 10 {
        seq![(48 + n) as char]
    } else {
        dec_digits_of(n / 10).push((48 + n % 10) as char)
    }
}

/// The canonical text of an integer: a minus sign for negative values,
/// then the decimal digits without leading zeros.
pub open spec fn int_text_of(n: int) -> Seq<char> {
    if n < 0 {
        seq!['-'] + dec_digits_of(-n)
    } else {
        dec_digits_of(n)
    }
}

fn fmt_u64_digits(n: u64) -> (r: Vec<char>)
    ensures
        r@ == dec_digits_of(n as int),
    decreases n,
{
    if n < 10 {
        let c = ((48 + n) as u8) as char;
        let mut v: Vec<char> = Vec::new();
        v.push(c);
        proof {
            if n == 0 {
                assert(v@ =~= dec_digits_of(n as int));
            } else {
                assert(v@ =~= dec_digits_of(n as int));
            }
        }
        v
    } else {
        let mut v = fmt_u64_digits(n / 10);
        v.push(((48 + n % 10) as u8) as char);
        v
    }
}

/// The characters of an integer in canonical decimal text.
pub fn fmt_i64_chars(n: i64) -> (r: Vec<char>)
    ensures
        r@ == int_text_of(n as int),
{
    if n >= 0 {
        fmt_u64_digits(n as u64)
    } else {
        let mag: u64 = if n == i64::MIN {
            9223372036854775808u64
        } else {
            (-n) as u64
        };
        let digits = fmt_u64_digits(mag);
        let mut v: Vec<char> = Vec::new();
        v.push('-');
        let mut i: usize = 0;
        while i < digits.len()
            invariant
                i <= digits@.len(),
                v@ =~= seq!['-'] + digits@.subrange(0, i as int),
            decreases digits@.len() - i,
        {
            v.push(digits[i]);
            proof {
                assert(v@ =~= seq!['-'] + digits@.subrange(0, i + 1));
            }
            i = i + 1;
        }
        proof {
            assert(digits@.subrange(0, digits@.len() as int) =~= digits@);
            assert(v@ =~= int_text_of(n as int));
        }
        v
    }
}

/// The canonical decimal text of an integer as a string.
pub fn fmt_i64(n: i64) -> (r: String)
    ensures
        r@ == int_text_of(n as int),
{
    let v = fmt_i64_chars(n);
    string_from_chars(&v)
}

/// The decimal digits of an unsigned integer.
pub fn fmt_u64_chars(n: u64) -> (r: Vec<char>)
    ensures
        r@ == dec_digits_of(n as int),
{
    fmt_u64_digits(n)
}

/// The canonical decimal text of an unsigned integer as a string.
pub fn fmt_u64(n: u64) -> (r: String)
    ensures
        r@ == dec_digits_of(n as int),
{
    let v = fmt_u64_digits(n);
    string_from_chars(&v)
}

} // verus!
