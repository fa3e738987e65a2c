//! Decimal text for the integer and real fields of the wire format.
use vstd::prelude::*;

verus! {

pub const PLUS: u8 = 43;

pub const MINUS: u8 = 45;

pub const DOT: u8 = 46;

/// Largest magnitude a decimal mantissa may have.
pub const MANTISSA_MAX: u128 = 9223372036854775807;

/// A real-valued field exactly as it travelled over the link.
#[derive(Clone, Copy, Debug, PartialEq, Eq, Structural)]
pub enum Real {
    /// `mantissa / 10^scale`, from decimal text such as `-0.25`.
    Decimal { mantissa: i64, scale: u32 },
    /// The bit pattern of an IEEE-754 single-precision number.
    Single(u32),
}

pub open spec fn is_digit(b: u8) -> bool {
    48 <= b <= 57
}

pub open spec fn all_digits(s: Seq<u8>) -> bool {
    forall|i: int| 0 <= i < s.len() ==> is_digit(#[trigger] s[i])
}

/// Value of a string of decimal digits, most significant first.
pub open spec fn digits_value(s: Seq<u8>) -> nat
    decreases s.len(),
{
    if s.len() == 0 {
        0
    } else {
        digits_value(s.drop_last()) * 10 + (s.last() as int - 48) as nat
    }
}

/// Length of a leading `+` or `-`.
pub open spec fn sign_len(s: Seq<u8>) -> int {
    if s.len() > 0 && (s[0] == PLUS || s[0] == MINUS) {
        1
    } else {
        0
    }
}

pub open spec fn is_negative(s: Seq<u8>) -> bool {
    s.len() > 0 && s[0] == MINUS
}

pub open spec fn unsigned_part(s: Seq<u8>) -> Seq<u8> {
    s.subrange(sign_len(s), s.len() as int)
}

/// The integer written by `[+-]?[0-9]+`.
pub open spec fn integer_text(s: Seq<u8>) -> Option<int> {
    let body = unsigned_part(s);
    if body.len() > 0 && all_digits(body) {
        Some(if is_negative(s) { -digits_value(body) } else { digits_value(body) as int })
    } else {
        None
    }
}

/// What `parse_i32` returns: the integer text, when it fits an `i32`.
pub open spec fn i32_of(s: Seq<u8>) -> Option<i32> {
    match integer_text(s) {
        Some(v) => if i32::MIN <= v <= i32::MAX {
            Some(v as i32)
        } else {
            None
        },
        None => None,
    }
}

/// The text with every `.` taken out.
pub open spec fn strip_dots(s: Seq<u8>) -> Seq<u8>
    decreases s.len(),
{
    if s.len() == 0 {
        s
    } else if s.last() == DOT {
        strip_dots(s.drop_last())
    } else {
        strip_dots(s.drop_last()).push(s.last())
    }
}

pub open spec fn dot_count(s: Seq<u8>) -> nat
    decreases s.len(),
{
    if s.len() == 0 {
        0
    } else {
        dot_count(s.drop_last()) + if s.last() == DOT { 1nat } else { 0nat }
    }
}

/// Number of bytes after the first `.` (zero when there is none).
pub open spec fn fraction_len(s: Seq<u8>) -> nat
    decreases s.len(),
{
    if s.len() == 0 {
        0
    } else if s.last() != DOT && dot_count(s.drop_last()) > 0 {
        fraction_len(s.drop_last()) + 1
    } else {
        0
    }
}

/// The pair (mantissa, scale) written by `[+-]?` followed by digits with at
/// most one `.` among them and at least one digit: `-1.50` is `(-150, 2)`,
/// `.5` is `(5, 1)`, `7.` is `(7, 0)`.
pub open spec fn decimal_text(s: Seq<u8>) -> Option<(int, nat)> {
    let body = unsigned_part(s);
    let digits = strip_dots(body);
    if dot_count(body) <= 1 && digits.len() > 0 && all_digits(digits) {
        let m = digits_value(digits) as int;
        Some((if is_negative(s) { -m } else { m }, fraction_len(body)))
    } else {
        None
    }
}

/// What `parse_decimal` returns: the decimal text, when its mantissa fits an
/// `i64` (sign apart) and its scale a `u32`.
pub open spec fn decimal_of(s: Seq<u8>) -> Option<Real> {
    match decimal_text(s) {
        Some((m, k)) => if -(MANTISSA_MAX as int) <= m <= MANTISSA_MAX && k <= u32::MAX {
            Some(Real::Decimal { mantissa: m as i64, scale: k as u32 })
        } else {
            None
        },
        None => None,
    }
}

pub open spec fn min_nat(a: nat, b: nat) -> nat {
    if a <= b {
        a
    } else {
        b
    }
}

proof fn lemma_capped_step(v: nat, d: nat, cap: nat)
    requires
        cap > 0,
    ensures
        min_nat(v * 10 + d, cap) == min_nat(min_nat(v, cap) * 10 + d, cap),
{
    if v > cap {
        assert(v * 10 >= cap) by (nonlinear_arith)
            requires
                v > cap,
        ;
        assert(cap * 10 >= cap) by (nonlinear_arith)
            requires
                cap > 0,
        ;
    }
}

proof fn lemma_all_digits_push(s: Seq<u8>, c: u8)
    ensures
        all_digits(s.push(c)) == (all_digits(s) && is_digit(c)),
{
    let t = s.push(c);
    if all_digits(t) {
        assert(is_digit(t[s.len() as int]));
        assert forall|j: int| 0 <= j < s.len() implies is_digit(#[trigger] s[j]) by {
            assert(t[j] == s[j]);
        }
    }
    if all_digits(s) && is_digit(c) {
        assert forall|j: int| 0 <= j < t.len() implies is_digit(#[trigger] t[j]) by {
            if j < s.len() {
                assert(t[j] == s[j]);
            }
        }
    }
}

/// Reads `s[start..end]` as decimal digits. `ok` tells whether all of them
/// are digits; the value saturates at `cap`.
fn scan_digits(s: &[u8], start: usize, end: usize, cap: u128) -> (r: (bool, u128))
    requires
        start <= end <= s@.len(),
        0 < cap <= u64::MAX,
    ensures
        r.0 == all_digits(s@.subrange(start as int, end as int)),
        r.0 ==> r.1 == min_nat(digits_value(s@.subrange(start as int, end as int)), cap as nat),
{
    let mut ok = true;
    let mut acc: u128 = 0;
    let mut i: usize = start;
    while i < end
        invariant
            start <= i <= end <= s@.len(),
            0 < cap <= u64::MAX,
            ok == all_digits(s@.subrange(start as int, i as int)),
            ok ==> acc == min_nat(digits_value(s@.subrange(start as int, i as int)), cap as nat),
            acc <= cap,
        decreases end - i,
    {
        let b = s[i];
        let ghost prev = s@.subrange(start as int, i as int);
        let ghost next = s@.subrange(start as int, i as int + 1);
        assert(next =~= prev.push(b));
        assert(next.drop_last() =~= prev);
        if 48 <= b && b <= 57 {
            proof {
                if ok {
                    lemma_capped_step(digits_value(prev), (b - 48) as nat, cap as nat);
                }
                lemma_all_digits_push(prev, b);
            }
            let t = acc * 10 + (b - 48) as u128;
            acc = if t > cap { cap } else { t };
        } else {
            proof {
                lemma_all_digits_push(prev, b);
            }
            ok = false;
        }
        i = i + 1;
    }
    (ok, acc)
}

/// Reads an `i32` from decimal text with an optional sign, as `str::parse`
/// does: no spaces, at least one digit, within range.
pub fn parse_i32(s: &[u8]) -> (r: Option<i32>)
    ensures
        r == i32_of(s@),
{
    let start: usize = if s.len() > 0 && (s[0] == PLUS || s[0] == MINUS) { 1 } else { 0 };
    let negative = s.len() > 0 && s[0] == MINUS;
    assert(start == sign_len(s@));
    if start == s.len() {
        return None;
    }
    let cap: u128 = 2147483649;
    let (ok, v) = scan_digits(s, start, s.len(), cap);
    if !ok || v > 2147483648 {
        return None;
    }
    if negative {
        Some((0 - v as i64) as i32)
    } else if v == 2147483648 {
        None
    } else {
        Some(v as i32)
    }
}

/// Checks decimal text as `decimal_text` reads it; when it is well formed,
/// also gives its magnitude, saturated just above `MANTISSA_MAX`, and its
/// scale.
fn scan_decimal(s: &[u8]) -> (r: (bool, u128, usize))
    ensures
        r.0 == decimal_text(s@) is Some,
        r.0 ==> r.1 == min_nat(
            digits_value(strip_dots(unsigned_part(s@))),
            (MANTISSA_MAX + 1) as nat,
        ) && r.2 == fraction_len(unsigned_part(s@)),
{
    let start: usize = if s.len() > 0 && (s[0] == PLUS || s[0] == MINUS) { 1 } else { 0 };
    let ghost body = unsigned_part(s@);
    let cap: u128 = MANTISSA_MAX + 1;
    let mut ok = true;
    let mut seen_dot = false;
    let mut acc: u128 = 0;
    let mut scale: usize = 0;
    let mut n_digits: usize = 0;
    let mut i: usize = start;
    while i < s.len()
        invariant
            start == sign_len(s@),
            start <= i <= s@.len(),
            cap == MANTISSA_MAX + 1,
            ok == (dot_count(s@.subrange(start as int, i as int)) <= 1 && all_digits(
                strip_dots(s@.subrange(start as int, i as int)),
            )),
            ok ==> acc == min_nat(
                digits_value(strip_dots(s@.subrange(start as int, i as int))),
                cap as nat,
            ),
            ok ==> seen_dot == (dot_count(s@.subrange(start as int, i as int)) == 1),
            ok ==> scale == fraction_len(s@.subrange(start as int, i as int)),
            ok ==> n_digits == strip_dots(s@.subrange(start as int, i as int)).len(),
            acc <= cap,
            scale <= i,
            n_digits <= i,
        decreases s.len() - i,
    {
        let b = s[i];
        let ghost prev = s@.subrange(start as int, i as int);
        let ghost next = s@.subrange(start as int, i as int + 1);
        assert(next =~= prev.push(b));
        assert(next.drop_last() =~= prev);
        if b == DOT {
            if seen_dot {
                ok = false;
            }
            seen_dot = true;
            scale = 0;
        } else {
            proof {
                lemma_all_digits_push(strip_dots(prev), b);
            }
            if 48 <= b && b <= 57 {
                proof {
                    if ok {
                        lemma_capped_step(digits_value(strip_dots(prev)), (b - 48) as nat, cap as nat);
                        assert(strip_dots(next).drop_last() =~= strip_dots(prev));
                    }
                }
                let t = acc * 10 + (b - 48) as u128;
                acc = if t > cap { cap } else { t };
                if seen_dot {
                    scale = scale + 1;
                }
                n_digits = n_digits + 1;
            } else {
                ok = false;
            }
        }
        i = i + 1;
    }
    assert(s@.subrange(start as int, s@.len() as int) =~= body);
    (ok && n_digits > 0, acc, scale)
}

/// Whether `s` is well-formed decimal text, whatever its number of digits.
pub fn is_decimal_text(s: &[u8]) -> (r: bool)
    ensures
        r == decimal_text(s@) is Some,
{
    scan_decimal(s).0
}

/// Reads a decimal number with an optional sign and at most one `.`, such as
/// `0.5`, `-12`, `.25` or `3.`, keeping every digit: `1.50` gives mantissa 150
/// and scale 2.
pub fn parse_decimal(s: &[u8]) -> (r: Option<Real>)
    ensures
        r == decimal_of(s@),
{
    let negative = s.len() > 0 && s[0] == MINUS;
    let (ok, acc, scale) = scan_decimal(s);
    if !ok || acc > MANTISSA_MAX || scale > 4294967295 {
        return None;
    }
    let magnitude = acc as i64;
    Some(Real::Decimal { mantissa: if negative { -magnitude } else { magnitude }, scale: scale as u32 })
}

} // verus!
