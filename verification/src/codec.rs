//! The decoder for the interchange text: a lenient JSON grammar (the
//! trailing `", "` the encoder emits before a closing brace or bracket is
//! accepted too), followed by the two re-typing projections of this
//! protocol: a number token is an Integer unless it carries a fraction
//! or an exponent, and a decoded string that is itself numeral-shaped
//! becomes the number it spells.  Infinity and not-a-number spellings
//! have no decimal form and stay strings: a modeling limit, stated here
//! openly.
//!
//! The grammar is stated as a functional spec parser over the character
//! sequence; the executable decoder returns exactly what the spec parser
//! denotes.

use vstd::prelude::*;
use vstd::string::StrSliceExecFns;
use crate::text::all_digits;
use crate::text::digit_val;
use crate::text::digits_val;
use crate::text::is_digit;
use crate::value::dec_wf;
use crate::value::Dec;
use crate::value::DecModel;
use crate::value::Val;
use crate::value::Value;

verus! {

pub open spec fn is_ws(c: char) -> bool {
    c == ' ' || c == '\t' || c == '\n' || c == '\r'
}

/// First position at or after `i` that does not hold whitespace.
pub open spec fn skip_ws(t: Seq<char>, i: int) -> int
    decreases t.len() - i,
{
    if 0 <= i < t.len() && is_ws(t[i]) {
        skip_ws(t, i + 1)
    } else {
        i
    }
}

/// First position at or after `i` that does not hold a digit.
pub open spec fn digits_end(t: Seq<char>, i: int) -> int
    decreases t.len() - i,
{
    if 0 <= i < t.len() && is_digit(t[i]) {
        digits_end(t, i + 1)
    } else {
        i
    }
}

pub proof fn lemma_digits_end_bounds(t: Seq<char>, i: int)
    requires
        0 <= i <= t.len(),
    ensures
        i <= digits_end(t, i) <= t.len(),
        digits_end(t, i) < t.len() ==> !is_digit(t[digits_end(t, i)]),
        forall|k: int| i <= k < digits_end(t, i) ==> is_digit(#[trigger] t[k]),
    decreases t.len() - i,
{
    if i < t.len() && is_digit(t[i]) {
        lemma_digits_end_bounds(t, i + 1);
    }
}

/// The digit values of a run of digit characters.
pub open spec fn char_digits(s: Seq<char>) -> Seq<int> {
    s.map(|_k: int, c: char| digit_val(c))
}

/// The digits with any leading zeros removed.
pub open spec fn strip_lead(ds: Seq<int>) -> Seq<int>
    decreases ds.len(),
{
    if ds.len() > 0 && ds[0] == 0 {
        strip_lead(ds.drop_first())
    } else {
        ds
    }
}

/// How many zeros the digits end in.
pub open spec fn trail_zeros(ds: Seq<int>) -> nat
    decreases ds.len(),
{
    if ds.len() > 0 && ds.last() == 0 {
        1 + trail_zeros(ds.drop_last())
    } else {
        0
    }
}

/// The canonical decimal with the given digits and exponent: leading and
/// trailing zero digits are dropped, the exponent rises by one per dropped
/// trailing zero, and a run of zeros collapses to the canonical zero.
pub open spec fn make_dec(neg: bool, ds: Seq<int>, exp: int) -> DecModel {
    let a = strip_lead(ds);
    let tz = trail_zeros(a);
    if a.len() == tz {
        DecModel { neg: false, digits: Seq::empty(), exp: 0 }
    } else {
        DecModel { neg, digits: a.take(a.len() - tz), exp: exp + tz }
    }
}

pub open spec fn is_hex(c: char) -> bool {
    is_digit(c) || ('a' <= c && c <= 'f') || ('A' <= c && c <= 'F')
}

pub open spec fn hex_val(c: char) -> int {
    if is_digit(c) {
        digit_val(c)
    } else if 'a' <= c && c <= 'f' {
        c as int - 'a' as int + 10
    } else {
        c as int - 'A' as int + 10
    }
}

/// Four hex digits stand at `p`.
pub open spec fn hex4_ok(t: Seq<char>, p: int) -> bool {
    &&& 0 <= p
    &&& p + 4 <= t.len()
    &&& is_hex(t[p]) && is_hex(t[p + 1]) && is_hex(t[p + 2]) && is_hex(t[p + 3])
}

/// The value of the four hex digits at `p`.
pub open spec fn hex4(t: Seq<char>, p: int) -> int {
    ((hex_val(t[p]) * 16 + hex_val(t[p + 1])) * 16 + hex_val(t[p + 2])) * 16 + hex_val(t[p + 3])
}

/// A character's unicode scalar value.
pub open spec fn char_code(c: char) -> int {
    c as int
}

/// The character with the given unicode scalar value.
pub open spec fn scalar_char(v: int) -> char {
    choose|c: char| #[trigger] char_code(c) == v
}

pub open spec fn is_high_surrogate(v: int) -> bool {
    0xD800 <= v < 0xDC00
}

pub open spec fn is_low_surrogate(v: int) -> bool {
    0xDC00 <= v < 0xE000
}

/// The scalar a surrogate pair stands for.
pub open spec fn pair_scalar(h: int, l: int) -> int {
    0x10000 + (h - 0xD800) * 0x400 + (l - 0xDC00)
}

/// What a backslash escape in a string stands for.
pub open spec fn esc_char(c: char) -> Option<char> {
    if c == '"' {
        Some('"')
    } else if c == '\\' {
        Some('\\')
    } else if c == '/' {
        Some('/')
    } else if c == 'b' {
        Some('\u{8}')
    } else if c == 'f' {
        Some('\u{c}')
    } else if c == 'n' {
        Some('\n')
    } else if c == 'r' {
        Some('\r')
    } else if c == 't' {
        Some('\t')
    } else {
        None
    }
}

/// The content of a quoted string whose opening quote stands just before
/// `i`, and the position after its closing quote.
pub open spec fn scan_string(t: Seq<char>, i: int) -> Option<(Seq<char>, int)>
    decreases t.len() - i,
{
    if i < 0 || i >= t.len() {
        None
    } else if t[i] == '"' {
        Some((Seq::empty(), i + 1))
    } else if t[i] == '\\' {
        if i + 1 < t.len() {
            if t[i + 1] == 'u' {
                if hex4_ok(t, i + 2) {
                    let h = hex4(t, i + 2);
                    if is_high_surrogate(h) {
                        // a low surrogate must follow to complete the scalar
                        if i + 12 <= t.len() && t[i + 6] == '\\' && t[i + 7] == 'u' && hex4_ok(
                            t,
                            i + 8,
                        ) && is_low_surrogate(hex4(t, i + 8)) {
                            match scan_string(t, i + 12) {
                                Some((s, j)) => Some(
                                    (seq![scalar_char(pair_scalar(h, hex4(t, i + 8)))] + s, j),
                                ),
                                None => None,
                            }
                        } else {
                            None
                        }
                    } else if is_low_surrogate(h) {
                        None
                    } else {
                        match scan_string(t, i + 6) {
                            Some((s, j)) => Some((seq![scalar_char(h)] + s, j)),
                            None => None,
                        }
                    }
                } else {
                    None
                }
            } else {
                match esc_char(t[i + 1]) {
                    Some(c) => match scan_string(t, i + 2) {
                        Some((s, j)) => Some((seq![c] + s, j)),
                        None => None,
                    },
                    None => None,
                }
            }
        } else {
            None
        }
    } else {
        match scan_string(t, i + 1) {
            Some((s, j)) => Some((seq![t[i]] + s, j)),
            None => None,
        }
    }
}

/// One when the text starts with a sign character, else zero.
pub open spec fn sign_off(s: Seq<char>) -> int {
    if s.len() > 0 && (s[0] == '+' || s[0] == '-') {
        1
    } else {
        0
    }
}

pub open spec fn int_numeral_val(s: Seq<char>) -> int {
    let n = digits_val(s.skip(sign_off(s)));
    if s.len() > 0 && s[0] == '-' {
        -n
    } else {
        n
    }
}

/// An optional sign followed by one or more digits, spelling a value that
/// fits a 64-bit signed integer.
pub open spec fn is_int_numeral(s: Seq<char>) -> bool {
    &&& s.len() > sign_off(s)
    &&& all_digits(s.skip(sign_off(s)))
    &&& i64::MIN as int <= int_numeral_val(s) <= i64::MAX as int
}

pub open spec fn dot_count(s: Seq<char>) -> int
    decreases s.len(),
{
    if s.len() == 0 {
        0
    } else {
        dot_count(s.drop_last()) + if s.last() == '.' {
            1int
        } else {
            0int
        }
    }
}

/// The position of the first point, or the length when there is none.
pub open spec fn dot_pos(s: Seq<char>) -> int
    decreases s.len(),
{
    if s.len() == 0 {
        0
    } else if s[0] == '.' {
        0
    } else {
        1 + dot_pos(s.drop_first())
    }
}

/// The position of the first exponent marker, or the length when there
/// is none.
pub open spec fn e_pos(s: Seq<char>) -> int
    decreases s.len(),
{
    if s.len() == 0 {
        0
    } else if s[0] == 'e' || s[0] == 'E' {
        0
    } else {
        1 + e_pos(s.drop_first())
    }
}

/// An exponent suffix: an optional sign, then one or more digits.
pub open spec fn exp_ok(x: Seq<char>) -> bool {
    x.len() > sign_off(x) && all_digits(x.skip(sign_off(x)))
}

pub open spec fn exp_val(x: Seq<char>) -> int {
    let v = digits_val(x.skip(sign_off(x)));
    if x.len() > 0 && x[0] == '-' {
        -v
    } else {
        v
    }
}

/// An optional sign, then digits with at most one point among them and at
/// least one digit, then an optional exponent suffix; the whole within
/// machine range once the exponent is folded into the decimal.
pub open spec fn is_frac_numeral(s: Seq<char>) -> bool {
    let r = s.skip(sign_off(s));
    let p = e_pos(r);
    let mant = r.take(p);
    let dc = mant.len() - dot_count(mant);
    let fl = if dot_pos(mant) < mant.len() {
        mant.len() - dot_pos(mant) - 1
    } else {
        0
    };
    let em = if p < r.len() {
        digits_val(r.skip(p + 1).skip(sign_off(r.skip(p + 1))))
    } else {
        0
    };
    let ev = if p < r.len() {
        exp_val(r.skip(p + 1))
    } else {
        0
    };
    let exp0 = ev - fl;
    &&& mant.len() > 0
    &&& (forall|k: int| 0 <= k < mant.len() ==> is_digit(#[trigger] mant[k]) || mant[k] == '.')
    &&& dot_count(mant) <= 1
    &&& mant.len() > dot_count(mant)
    &&& (p < r.len() ==> exp_ok(r.skip(p + 1)))
    &&& s.len() <= i64::MAX as int
    &&& em <= i64::MAX as int
    &&& i64::MIN as int <= exp0
    &&& exp0 + dc <= i64::MAX as int
}

pub open spec fn frac_numeral_dec(s: Seq<char>) -> DecModel {
    let r = s.skip(sign_off(s));
    let p = e_pos(r);
    let mant = r.take(p);
    let dp = dot_pos(mant);
    let ipart = mant.take(dp);
    let fpart = if dp < mant.len() {
        mant.skip(dp + 1)
    } else {
        Seq::empty()
    };
    let ev = if p < r.len() {
        exp_val(r.skip(p + 1))
    } else {
        0
    };
    make_dec(
        s.len() > 0 && s[0] == '-',
        char_digits(ipart) + char_digits(fpart),
        ev - fpart.len(),
    )
}

/// The re-typing projection on a decoded string: a string that spells an
/// integer becomes that Integer, one that spells a decimal (with an
/// optional exponent suffix) becomes that Float, any other stays a
/// String.  Infinity and not-a-number spellings have no decimal form and
/// stay strings.
pub open spec fn retype(s: Seq<char>) -> Val {
    if is_int_numeral(s) {
        Val::Int(int_numeral_val(s))
    } else if is_frac_numeral(s) {
        Val::Flt(frac_numeral_dec(s))
    } else {
        Val::Str(s)
    }
}

/// A number token at `i`: an Integer when it has neither fraction nor
/// exponent and fits a 64-bit signed integer, else a Float with the
/// exponent folded into the decimal; rejected when a count or the folded
/// exponent leaves machine range.
pub open spec fn parse_number(t: Seq<char>, i: int) -> Option<(Val, int)> {
    let neg = 0 <= i < t.len() && t[i] == '-';
    let s = if neg {
        i + 1
    } else {
        i
    };
    let j = digits_end(t, s);
    if j == s {
        None
    } else {
        let has_frac = j < t.len() && t[j] == '.' && digits_end(t, j + 1) > j + 1;
        let f_end = if has_frac {
            digits_end(t, j + 1)
        } else {
            j
        };
        let has_e = f_end < t.len() && (t[f_end] == 'e' || t[f_end] == 'E');
        let e_signed = has_e && f_end + 1 < t.len() && (t[f_end + 1] == '+' || t[f_end + 1]
            == '-');
        let e_neg = has_e && f_end + 1 < t.len() && t[f_end + 1] == '-';
        let es = if e_signed {
            f_end + 2
        } else {
            f_end + 1
        };
        let ee = digits_end(t, es);
        let has_exp = has_e && ee > es;
        if !has_frac && !has_exp {
            let n = digits_val(t.subrange(s, j));
            if neg && n <= 0x8000_0000_0000_0000 {
                Some((Val::Int(-n), j))
            } else if !neg && n <= i64::MAX as int {
                Some((Val::Int(n), j))
            } else {
                None
            }
        } else {
            let il = j - s;
            let fl = if has_frac {
                f_end - (j + 1)
            } else {
                0
            };
            let ds = char_digits(t.subrange(s, j)) + (if has_frac {
                char_digits(t.subrange(j + 1, f_end))
            } else {
                Seq::<int>::empty()
            });
            let em = if has_exp {
                digits_val(t.subrange(es, ee))
            } else {
                0
            };
            let ev = if has_exp && e_neg {
                -em
            } else {
                em
            };
            let exp0 = ev - fl;
            let end = if has_exp {
                ee
            } else {
                f_end
            };
            if il > i64::MAX as int || fl > i64::MAX as int || em > i64::MAX as int || exp0
                < i64::MIN as int || exp0 + il + fl > i64::MAX as int {
                None
            } else {
                Some((Val::Flt(make_dec(neg, ds, exp0)), end))
            }
        }
    }
}

/// A single value at `i`: a literal, a number, a string (re-typed), a
/// list, or a dictionary.
pub open spec fn parse_value(t: Seq<char>, i: int) -> Option<(Val, int)>
    decreases t.len() - i, 0nat,
{
    if i < 0 || i >= t.len() {
        None
    } else {
        let c = t[i];
        if c == 'n' {
            if i + 4 <= t.len() && t[i + 1] == 'u' && t[i + 2] == 'l' && t[i + 3] == 'l' {
                Some((Val::Null, i + 4))
            } else {
                None
            }
        } else if c == 't' {
            if i + 4 <= t.len() && t[i + 1] == 'r' && t[i + 2] == 'u' && t[i + 3] == 'e' {
                Some((Val::Bool(true), i + 4))
            } else {
                None
            }
        } else if c == 'f' {
            if i + 5 <= t.len() && t[i + 1] == 'a' && t[i + 2] == 'l' && t[i + 3] == 's' && t[i + 4]
                == 'e' {
                Some((Val::Bool(false), i + 5))
            } else {
                None
            }
        } else if c == '"' {
            match scan_string(t, i + 1) {
                Some((s, j)) => Some((retype(s), j)),
                None => None,
            }
        } else if c == '-' || is_digit(c) {
            parse_number(t, i)
        } else if c == '[' {
            let j = skip_ws(t, i + 1);
            if j <= i || j > t.len() {
                None
            } else if j < t.len() && t[j] == ']' {
                Some((Val::Lst(Seq::empty()), j + 1))
            } else {
                match parse_items(t, j) {
                    Some((xs, k)) => Some((Val::Lst(xs), k)),
                    None => None,
                }
            }
        } else if c == '{' {
            let j = skip_ws(t, i + 1);
            if j <= i || j > t.len() {
                None
            } else if j < t.len() && t[j] == '}' {
                Some((Val::Dict(Seq::empty()), j + 1))
            } else {
                match parse_entries(t, j) {
                    Some((es, k)) => Some((Val::Dict(es), k)),
                    None => None,
                }
            }
        } else {
            None
        }
    }
}

/// One or more list elements starting at `i`, consumed up to and including
/// the closing bracket; a separator may trail the last element.
pub open spec fn parse_items(t: Seq<char>, i: int) -> Option<(Seq<Val>, int)>
    decreases t.len() - i, 1nat,
{
    if i < 0 {
        None
    } else {
        match parse_value(t, i) {
            None => None,
            Some((v, j)) => {
                if j <= i || j > t.len() {
                    None
                } else {
                    let j2 = skip_ws(t, j);
                    if j2 < j || j2 >= t.len() {
                        None
                    } else if t[j2] == ']' {
                        Some((seq![v], j2 + 1))
                    } else if t[j2] == ',' {
                        let j3 = skip_ws(t, j2 + 1);
                        if j3 < j2 + 1 || j3 > t.len() {
                            None
                        } else if j3 < t.len() && t[j3] == ']' {
                            Some((seq![v], j3 + 1))
                        } else {
                            match parse_items(t, j3) {
                                Some((xs, k)) => Some((seq![v] + xs, k)),
                                None => None,
                            }
                        }
                    } else {
                        None
                    }
                }
            },
        }
    }
}

/// One or more dictionary entries starting at `i`, consumed up to and
/// including the closing brace; a separator may trail the last entry.
pub open spec fn parse_entries(t: Seq<char>, i: int) -> Option<(Seq<(Seq<char>, Val)>, int)>
    decreases t.len() - i, 1nat,
{
    if i < 0 || i >= t.len() || t[i] != '"' {
        None
    } else {
        match scan_string(t, i + 1) {
            None => None,
            Some((key, j)) => {
                if j <= i || j > t.len() {
                    None
                } else {
                    let j2 = skip_ws(t, j);
                    if j2 < j || j2 >= t.len() || t[j2] != ':' {
                        None
                    } else {
                        let j3 = skip_ws(t, j2 + 1);
                        if j3 < j2 + 1 || j3 > t.len() {
                            None
                        } else {
                            match parse_value(t, j3) {
                                None => None,
                                Some((v, j4)) => {
                                    if j4 <= j3 || j4 > t.len() {
                                        None
                                    } else {
                                        let j5 = skip_ws(t, j4);
                                        if j5 < j4 || j5 >= t.len() {
                                            None
                                        } else if t[j5] == '}' {
                                            Some((seq![(key, v)], j5 + 1))
                                        } else if t[j5] == ',' {
                                            let j6 = skip_ws(t, j5 + 1);
                                            if j6 < j5 + 1 || j6 > t.len() {
                                                None
                                            } else if j6 < t.len() && t[j6] == '}' {
                                                Some((seq![(key, v)], j6 + 1))
                                            } else {
                                                match parse_entries(t, j6) {
                                                    Some((es, k)) => Some(
                                                        (seq![(key, v)] + es, k),
                                                    ),
                                                    None => None,
                                                }
                                            }
                                        } else {
                                            None
                                        }
                                    }
                                },
                            }
                        }
                    }
                }
            },
        }
    }
}

pub proof fn lemma_digits_val_nonneg(s: Seq<char>)
    requires
        all_digits(s),
    ensures
        digits_val(s) >= 0,
    decreases s.len(),
{
    if s.len() > 0 {
        assert(all_digits(s.drop_last()));
        lemma_digits_val_nonneg(s.drop_last());
    }
}

/// A digit run's value only grows as the run extends to the right.
pub proof fn lemma_digits_val_mono(t: Seq<char>, s: int, a: int, b: int)
    requires
        0 <= s <= a <= b <= t.len(),
        forall|k: int| s <= k < b ==> is_digit(#[trigger] t[k]),
    ensures
        digits_val(t.subrange(s, b)) >= digits_val(t.subrange(s, a)),
    decreases b - a,
{
    if a < b {
        lemma_digits_val_mono(t, s, a, b - 1);
        let u = t.subrange(s, b);
        assert(u.drop_last() =~= t.subrange(s, b - 1));
        assert(all_digits(t.subrange(s, b - 1)));
        lemma_digits_val_nonneg(t.subrange(s, b - 1));
        assert(digits_val(u) == digits_val(t.subrange(s, b - 1)) * 10 + digit_val(u.last()));
        assert(digit_val(u.last()) >= 0);
    }
}

pub proof fn lemma_strip_lead_skip(ds: Seq<int>, m: int)
    requires
        0 <= m <= ds.len(),
        forall|k: int| 0 <= k < m ==> ds[k] == 0,
        m < ds.len() ==> ds[m] != 0,
    ensures
        strip_lead(ds) == ds.skip(m),
    decreases m,
{
    if m == 0 {
        assert(ds.skip(0) =~= ds);
    } else {
        lemma_strip_lead_skip(ds.drop_first(), m - 1);
        assert(ds.drop_first().skip(m - 1) =~= ds.skip(m));
    }
}

pub proof fn lemma_trail_zeros_eq(ds: Seq<int>, m: int)
    requires
        0 <= m <= ds.len(),
        forall|q: int| ds.len() - m <= q < ds.len() ==> ds[q] == 0,
        m < ds.len() ==> ds[ds.len() - 1 - m] != 0,
    ensures
        trail_zeros(ds) == m,
    decreases m,
{
    if m == 0 {
    } else {
        assert(ds.last() == 0);
        lemma_trail_zeros_eq(ds.drop_last(), m - 1);
    }
}

pub open spec fn with_prefix(p: Seq<char>, r: Option<(Seq<char>, int)>) -> Option<
    (Seq<char>, int),
> {
    match r {
        Some((s, j)) => Some((p + s, j)),
        None => None,
    }
}

fn is_ws_e(c: char) -> (r: bool)
    ensures
        r == is_ws(c),
{
    c == ' ' || c == '\t' || c == '\n' || c == '\r'
}

fn is_digit_e(c: char) -> (r: bool)
    ensures
        r == is_digit(c),
{
    '0' <= c && c <= '9'
}

/// The characters of a text, one by one.
fn chars_vec(s: &str) -> (r: Vec<char>)
    ensures
        r@ == s@,
{
    let n = s.unicode_len();
    let mut v: Vec<char> = Vec::new();
    let mut k: usize = 0;
    while k < n
        invariant
            k <= n == s@.len(),
            v@ == s@.subrange(0, k as int),
        decreases n - k,
    {
        let c = s.get_char(k);
        v.push(c);
        proof {
            assert(s@.subrange(0, k + 1 as int) =~= s@.subrange(0, k as int).push(s@[k as int]));
        }
        k = k + 1;
    }
    proof {
        assert(s@.subrange(0, s@.len() as int) =~= s@);
    }
    v
}

fn e_skip_ws(t: &Vec<char>, i: usize) -> (r: usize)
    requires
        i <= t@.len(),
    ensures
        r as int == skip_ws(t@, i as int),
        i <= r <= t@.len(),
{
    let mut k = i;
    while k < t.len() && is_ws_e(t[k])
        invariant
            i <= k <= t@.len(),
            skip_ws(t@, i as int) == skip_ws(t@, k as int),
        decreases t@.len() - k,
    {
        k = k + 1;
    }
    k
}

fn e_digits_end(t: &Vec<char>, i: usize) -> (r: usize)
    requires
        i <= t@.len(),
    ensures
        r as int == digits_end(t@, i as int),
        i <= r <= t@.len(),
{
    let mut k = i;
    while k < t.len() && is_digit_e(t[k])
        invariant
            i <= k <= t@.len(),
            digits_end(t@, i as int) == digits_end(t@, k as int),
        decreases t@.len() - k,
    {
        k = k + 1;
    }
    k
}

/// The value of the digit run `[s, j)`, unless it exceeds the magnitude a
/// 64-bit signed integer can carry.
fn e_digits_value(t: &Vec<char>, s: usize, j: usize) -> (r: Option<u64>)
    requires
        s <= j <= t@.len(),
        forall|k: int| s <= k < j ==> is_digit(#[trigger] t@[k]),
    ensures
        r matches Some(a) ==> a as int == digits_val(t@.subrange(s as int, j as int)) && a
            <= 0x8000_0000_0000_0000u64,
        r is None ==> digits_val(t@.subrange(s as int, j as int)) > 0x8000_0000_0000_0000,
{
    let mut acc: u64 = 0;
    let mut k = s;
    proof {
        assert(t@.subrange(s as int, s as int) =~= Seq::<char>::empty());
    }
    while k < j
        invariant
            s <= k <= j <= t@.len(),
            forall|q: int| s <= q < j ==> is_digit(#[trigger] t@[q]),
            acc as int == digits_val(t@.subrange(s as int, k as int)),
            acc <= 0x8000_0000_0000_0000u64,
        decreases j - k,
    {
        let c = t[k];
        assert(is_digit(t@[k as int]));
        assert(c as u32 >= 48 && c as u32 <= 57);
        let d: u64 = (c as u32 - 48) as u64;
        assert(d as int == digit_val(c));
        if acc > (0x8000_0000_0000_0000u64 - d) / 10 {
            proof {
                let b: int = 0x8000_0000_0000_0000;
                let dd = d as int;
                let q = (b - dd) / 10;
                let rr = (b - dd) % 10;
                vstd::arithmetic::div_mod::lemma_fundamental_div_mod(b - dd, 10);
                assert(acc as int * 10 + dd > b) by (nonlinear_arith)
                    requires
                        acc as int >= q + 1,
                        b - dd == 10 * q + rr,
                        0 <= rr < 10,
                ;
                assert(t@.subrange(s as int, k + 1 as int).drop_last() =~= t@.subrange(
                    s as int,
                    k as int,
                ));
                assert(digits_val(t@.subrange(s as int, k + 1 as int)) == acc * 10 + d);
                lemma_digits_val_mono(t@, s as int, k + 1, j as int);
            }
            return None;
        }
        proof {
            let b: int = 0x8000_0000_0000_0000;
            let dd = d as int;
            let q = (b - dd) / 10;
            let rr = (b - dd) % 10;
            vstd::arithmetic::div_mod::lemma_fundamental_div_mod(b - dd, 10);
            assert(acc as int * 10 + dd <= b) by (nonlinear_arith)
                requires
                    acc as int <= q,
                    b - dd == 10 * q + rr,
                    0 <= rr < 10,
            ;
            assert(t@.subrange(s as int, k + 1 as int).drop_last() =~= t@.subrange(
                s as int,
                k as int,
            ));
        }
        acc = acc * 10 + d;
        k = k + 1;
    }
    Some(acc)
}

/// What a whole text decodes to: one value, with whitespace allowed around
/// it and nothing else before or after.
pub open spec fn spec_decode(t: Seq<char>) -> Option<Val> {
    let i = skip_ws(t, 0);
    match parse_value(t, i) {
        None => None,
        Some((v, j)) => {
            if 0 <= j <= t.len() && skip_ws(t, j) == t.len() {
                Some(v)
            } else {
                None
            }
        },
    }
}


/// Maps an escape letter to the character it stands for.
fn esc_char_e(c: char) -> (r: Option<char>)
    ensures
        r == esc_char(c),
{
    if c == '"' {
        Some('"')
    } else if c == '\\' {
        Some('\\')
    } else if c == '/' {
        Some('/')
    } else if c == 'b' {
        Some('\u{8}')
    } else if c == 'f' {
        Some('\u{c}')
    } else if c == 'n' {
        Some('\n')
    } else if c == 'r' {
        Some('\r')
    } else if c == 't' {
        Some('\t')
    } else {
        None
    }
}

/// Relies on std's `char::from_u32`: a character for every unicode
/// scalar value, and nothing for surrogates or values beyond the maximum.
pub assume_specification[ char::from_u32 ](v: u32) -> (r: Option<char>)
    ensures
        (r is Some) == (v < 0xD800 || (0xE000 <= v && v <= 0x10FFFF)),
        r matches Some(c) ==> c as int == v as int,
;

fn hex_val_e(c: char) -> (r: Option<u32>)
    ensures
        (r is Some) == is_hex(c),
        r matches Some(v) ==> v as int == hex_val(c) && v < 16,
{
    if '0' <= c && c <= '9' {
        Some(c as u32 - 48)
    } else if 'a' <= c && c <= 'f' {
        Some(c as u32 - 'a' as u32 + 10)
    } else if 'A' <= c && c <= 'F' {
        Some(c as u32 - 'A' as u32 + 10)
    } else {
        None
    }
}

/// Reads four hex digits.
fn e_hex4(t: &Vec<char>, p: usize) -> (r: Option<u32>)
    requires
        p <= t@.len(),
    ensures
        (r is Some) == hex4_ok(t@, p as int),
        r matches Some(v) ==> v as int == hex4(t@, p as int) && v <= 0xFFFF,
{
    proof {
        assert(t@.len() == t.len());
    }
    if t.len() - p < 4 {
        return None;
    }
    let a = match hex_val_e(t[p]) {
        Some(v) => v,
        None => {
            return None;
        },
    };
    let b = match hex_val_e(t[p + 1]) {
        Some(v) => v,
        None => {
            return None;
        },
    };
    let c = match hex_val_e(t[p + 2]) {
        Some(v) => v,
        None => {
            return None;
        },
    };
    let d = match hex_val_e(t[p + 3]) {
        Some(v) => v,
        None => {
            return None;
        },
    };
    Some(((a * 16 + b) * 16 + c) * 16 + d)
}

/// Reads a quoted string's content, the opening quote already consumed.
fn e_scan_string(t: &Vec<char>, i: usize) -> (r: Option<(String, usize)>)
    requires
        i <= t@.len(),
    ensures
        (r is Some) == (scan_string(t@, i as int) is Some),
        r matches Some(p) ==> scan_string(t@, i as int) == Some((p.0@, p.1 as int)) && i < p.1
            <= t@.len(),
{
    let mut acc = String::new();
    let mut cur = i;
    loop
        invariant
            i <= cur <= t@.len(),
            scan_string(t@, i as int) == with_prefix(acc@, scan_string(t@, cur as int)),
        decreases t@.len() - cur,
    {
        if cur >= t.len() {
            return None;
        }
        let c = t[cur];
        if c == '"' {
            proof {
                assert(acc@ + Seq::<char>::empty() =~= acc@);
            }
            return Some((acc, cur + 1));
        } else if c == '\\' {
            if cur + 1 < t.len() {
                if t[cur + 1] == 'u' {
                    let h = match e_hex4(t, cur + 2) {
                        Some(h) => h,
                        None => {
                            return None;
                        },
                    };
                    if 0xD800 <= h && h < 0xDC00 {
                        // a high surrogate: a low one must complete it
                        if t.len() - cur >= 12 && t[cur + 6] == '\\' && t[cur + 7] == 'u' {
                            let l = match e_hex4(t, cur + 8) {
                                Some(l) => l,
                                None => {
                                    return None;
                                },
                            };
                            if 0xDC00 <= l && l < 0xE000 {
                                let scalar: u32 = 0x10000 + (h - 0xD800) * 0x400 + (l - 0xDC00);
                                let ch = match char::from_u32(scalar) {
                                    Some(ch) => ch,
                                    None => {
                                        proof {
                                            assert(false);
                                        }
                                        return None;
                                    },
                                };
                                let ghost acc0 = acc@;
                                proof {
                                    let v = pair_scalar(
                                        hex4(t@, cur + 2 as int),
                                        hex4(t@, cur + 8 as int),
                                    );
                                    assert(scalar as int == v);
                                    assert(char_code(ch) == v);
                                    assert(exists|c2: char| char_code(c2) == v);
                                    assert(char_code(scalar_char(v)) == v);
                                    assert(ch == scalar_char(v));
                                }
                                acc.push(ch);
                                proof {
                                    match scan_string(t@, cur + 12 as int) {
                                        Some((su, ju)) => {
                                            assert(acc0 + (seq![ch] + su) =~= acc0.push(ch) + su);
                                        },
                                        None => {},
                                    }
                                }
                                cur = cur + 12;
                            } else {
                                return None;
                            }
                        } else {
                            return None;
                        }
                    } else if 0xDC00 <= h && h < 0xE000 {
                        return None;
                    } else {
                        let ch = match char::from_u32(h) {
                            Some(ch) => ch,
                            None => {
                                proof {
                                    assert(false);
                                }
                                return None;
                            },
                        };
                        let ghost acc0 = acc@;
                        proof {
                            let v = hex4(t@, cur + 2 as int);
                            assert(h as int == v);
                            assert(char_code(ch) == v);
                            assert(exists|c2: char| char_code(c2) == v);
                            assert(char_code(scalar_char(v)) == v);
                            assert(ch == scalar_char(v));
                        }
                        acc.push(ch);
                        proof {
                            match scan_string(t@, cur + 6 as int) {
                                Some((su, ju)) => {
                                    assert(acc0 + (seq![ch] + su) =~= acc0.push(ch) + su);
                                },
                                None => {},
                            }
                        }
                        cur = cur + 6;
                    }
                    continue;
                }
                let ec = esc_char_e(t[cur + 1]);
                match ec {
                    Some(e) => {
                        let ghost acc0 = acc@;
                        acc.push(e);
                        proof {
                            match scan_string(t@, cur + 2 as int) {
                                Some((su, ju)) => {
                                    assert(acc0 + (seq![e] + su) =~= acc0.push(e) + su);
                                },
                                None => {},
                            }
                        }
                        cur = cur + 2;
                    },
                    None => {
                        return None;
                    },
                }
            } else {
                return None;
            }
        } else {
            let ghost acc0 = acc@;
            acc.push(c);
            proof {
                match scan_string(t@, cur + 1 as int) {
                    Some((su, ju)) => {
                        assert(acc0 + (seq![c] + su) =~= acc0.push(c) + su);
                    },
                    None => {},
                }
            }
            cur = cur + 1;
        }
    }
}

/// Builds the canonical decimal from raw digits and an exponent.
#[verifier::rlimit(100)]
fn e_make_dec(neg: bool, ds: Vec<u8>, exp: i64) -> (r: Dec)
    requires
        forall|k: int| 0 <= k < ds@.len() ==> ds@[k] < 10,
        exp as int + ds@.len() <= i64::MAX as int,
    ensures
        r.model() == make_dec(neg, ds@.map(|_k: int, d: u8| d as int), exp as int),
        r.wf(),
{
    let ghost ds0 = ds@.map(|_k: int, d: u8| d as int);
    let mut lead: usize = 0;
    while lead < ds.len() && ds[lead] == 0
        invariant
            lead <= ds@.len(),
            forall|k: int| 0 <= k < lead ==> ds@[k] == 0,
        decreases ds@.len() - lead,
    {
        lead = lead + 1;
    }
    proof {
        assert(forall|k: int| 0 <= k < lead ==> ds0[k] == 0);
        lemma_strip_lead_skip(ds0, lead as int);
    }
    let mut out: Vec<u8> = Vec::new();
    let mut k = lead;
    while k < ds.len()
        invariant
            lead <= k <= ds@.len(),
            out@ == ds@.subrange(lead as int, k as int),
        decreases ds@.len() - k,
    {
        let dk = ds[k];
        out.push(dk);
        proof {
            assert(ds@.subrange(lead as int, k + 1 as int) =~= ds@.subrange(
                lead as int,
                k as int,
            ).push(ds@[k as int]));
        }
        k = k + 1;
    }
    let ghost a = strip_lead(ds0);
    proof {
        assert(out@ =~= ds@.skip(lead as int));
        assert(out@.map(|_q: int, d: u8| d as int) =~= a);
    }
    let ghost out0 = out@;
    let mut e: i64 = exp;
    while out.len() > 0 && out[out.len() - 1] == 0
        invariant
            out@.len() <= out0.len() <= ds@.len(),
            out@ == out0.subrange(0, out@.len() as int),
            forall|q: int| out@.len() <= q < out0.len() ==> out0[q] == 0,
            e as int == exp as int + (out0.len() - out@.len()),
            exp as int + ds@.len() <= i64::MAX as int,
        decreases out@.len(),
    {
        let ghost before = out@;
        out.pop();
        proof {
            assert(out@ =~= before.drop_last());
            assert(out@ =~= out0.subrange(0, out@.len() as int));
        }
        e = e + 1;
    }
    proof {
        let tz: int = out0.len() - out@.len();
        assert(forall|q: int| a.len() - tz <= q < a.len() ==> a[q] == 0);
        if tz < a.len() {
            assert(out@[out@.len() - 1] != 0);
            assert(a[a.len() - 1 - tz] == out0[out@.len() - 1] as int);
        }
        lemma_trail_zeros_eq(a, tz);
    }
    if out.len() == 0 {
        let r = Dec { neg: false, digits: out, exp: 0 };
        proof {
            assert(r.model().digits =~= Seq::<int>::empty());
            assert(r.model() == make_dec(neg, ds0, exp as int));
        }
        r
    } else {
        let r = Dec { neg, digits: out, exp: e };
        proof {
            let tz: int = out0.len() - out@.len();
            assert(r.model().digits =~= a.take(a.len() - trail_zeros(a)));
            assert(r.model() == make_dec(neg, ds0, exp as int));
            assert(a.len() > 0 ==> a[0] != 0);
            assert(dec_wf(r.model()));
        }
        r
    }
}

/// Reads a number token: an optional sign and digits, then possibly a
/// point and more digits, then possibly an exponent part.
#[verifier::rlimit(100)]
fn e_parse_number(t: &Vec<char>, i: usize) -> (r: Option<(Value, usize)>)
    requires
        i < t@.len(),
    ensures
        (r is Some) == (parse_number(t@, i as int) is Some),
        r matches Some(p) ==> parse_number(t@, i as int) == Some((p.0.model(), p.1 as int))
            && p.0.wf() && i < p.1 <= t@.len(),
{
    proof {
        assert(t@.len() == t.len());
    }
    let neg = t[i] == '-';
    let s0: usize = if neg {
        i + 1
    } else {
        i
    };
    let j = e_digits_end(t, s0);
    proof {
        lemma_digits_end_bounds(t@, s0 as int);
    }
    if j == s0 {
        return None;
    }
    // fraction?
    let mut has_frac = false;
    let mut f_end = j;
    if j < t.len() && t[j] == '.' {
        let k2 = e_digits_end(t, j + 1);
        proof {
            lemma_digits_end_bounds(t@, j + 1 as int);
        }
        if k2 > j + 1 {
            has_frac = true;
            f_end = k2;
        }
    }
    // exponent?
    let mut has_exp = false;
    let mut e_neg = false;
    let mut es = f_end;
    let mut ee = f_end;
    if f_end < t.len() && (t[f_end] == 'e' || t[f_end] == 'E') {
        let mut es0 = f_end + 1;
        if es0 < t.len() && (t[es0] == '+' || t[es0] == '-') {
            e_neg = t[es0] == '-';
            es0 = es0 + 1;
        }
        let ee0 = e_digits_end(t, es0);
        proof {
            lemma_digits_end_bounds(t@, es0 as int);
        }
        if ee0 > es0 {
            has_exp = true;
            es = es0;
            ee = ee0;
        }
    }
    if !has_frac && !has_exp {
        // an Integer token
        match e_digits_value(t, s0, j) {
            None => None,
            Some(mag) => {
                if neg {
                    if mag == 0x8000_0000_0000_0000u64 {
                        Some((Value::Integer(i64::MIN), j))
                    } else {
                        Some((Value::Integer(-(mag as i64)), j))
                    }
                } else {
                    if mag >= 0x8000_0000_0000_0000u64 {
                        None
                    } else {
                        Some((Value::Integer(mag as i64), j))
                    }
                }
            },
        }
    } else {
        // a Float token
        if ((j - s0) as u64) > 0x7fff_ffff_ffff_ffffu64 {
            return None;
        }
        let fl: usize = if has_frac {
            f_end - (j + 1)
        } else {
            0
        };
        if (fl as u64) > 0x7fff_ffff_ffff_ffffu64 {
            return None;
        }
        let mut em: u64 = 0;
        if has_exp {
            match e_digits_value(t, es, ee) {
                None => {
                    return None;
                },
                Some(m) => {
                    if m > 0x7fff_ffff_ffff_ffffu64 {
                        return None;
                    }
                    em = m;
                },
            }
        }
        let ev: i64 = if has_exp && e_neg {
            -(em as i64)
        } else {
            em as i64
        };
        let exp0_w: i128 = ev as i128 - fl as i128;
        if exp0_w < i64::MIN as i128 {
            return None;
        }
        if exp0_w + (j - s0) as i128 + fl as i128 > i64::MAX as i128 {
            return None;
        }
        let exp0: i64 = exp0_w as i64;
        let mut ds: Vec<u8> = Vec::new();
        let mut q = s0;
        proof {
            assert(ds@.map(|_w: int, d: u8| d as int) =~= char_digits(
                t@.subrange(s0 as int, s0 as int),
            ));
        }
        while q < j
            invariant
                s0 <= q <= j <= t@.len(),
                forall|w: int| s0 <= w < j ==> is_digit(#[trigger] t@[w]),
                ds@.len() == q - s0,
                ds@.map(|_w: int, d: u8| d as int) == char_digits(
                    t@.subrange(s0 as int, q as int),
                ),
                forall|w: int| 0 <= w < ds@.len() ==> ds@[w] < 10,
            decreases j - q,
        {
            let c = t[q];
            assert(is_digit(t@[q as int]));
            assert(c as u32 >= 48 && c as u32 <= 57);
            ds.push((c as u32 - 48) as u8);
            proof {
                assert(char_digits(t@.subrange(s0 as int, q + 1 as int)) =~= char_digits(
                    t@.subrange(s0 as int, q as int),
                ).push(digit_val(t@[q as int])));
                assert(ds@.map(|_w: int, d: u8| d as int) =~= char_digits(
                    t@.subrange(s0 as int, q as int),
                ).push(digit_val(t@[q as int])));
            }
            q = q + 1;
        }
        let ghost ipart = char_digits(t@.subrange(s0 as int, j as int));
        proof {
            assert(t@.subrange(s0 as int, q as int) =~= t@.subrange(s0 as int, j as int));
        }
        if has_frac {
            let mut q2 = j + 1;
            while q2 < f_end
                invariant
                    j + 1 <= q2 <= f_end <= t@.len(),
                    forall|w: int| j + 1 <= w < f_end ==> is_digit(#[trigger] t@[w]),
                    ds@.len() == (j - s0) + (q2 - (j + 1)),
                    ds@.map(|_w: int, d: u8| d as int) == ipart + char_digits(
                        t@.subrange(j + 1 as int, q2 as int),
                    ),
                    forall|w: int| 0 <= w < ds@.len() ==> ds@[w] < 10,
                decreases f_end - q2,
            {
                let c = t[q2];
                assert(is_digit(t@[q2 as int]));
                assert(c as u32 >= 48 && c as u32 <= 57);
                ds.push((c as u32 - 48) as u8);
                proof {
                    assert(char_digits(t@.subrange(j + 1 as int, q2 + 1 as int)) =~= char_digits(
                        t@.subrange(j + 1 as int, q2 as int),
                    ).push(digit_val(t@[q2 as int])));
                    assert(ds@.map(|_w: int, d: u8| d as int) =~= (ipart + char_digits(
                        t@.subrange(j + 1 as int, q2 as int),
                    )).push(digit_val(t@[q2 as int])));
                }
                q2 = q2 + 1;
            }
        } else {
            proof {
                assert(ds@.map(|_w: int, d: u8| d as int) =~= ipart + Seq::<int>::empty());
            }
        }
        let d = e_make_dec(neg, ds, exp0);
        let end = if has_exp {
            ee
        } else {
            f_end
        };
        Some((Value::Float(d), end))
    }
}


pub proof fn lemma_e_pos_first(r: Seq<char>, p: int)
    requires
        0 <= p <= r.len(),
        forall|q: int| 0 <= q < p ==> !((#[trigger] r[q]) == 'e' || r[q] == 'E'),
        p < r.len() ==> (r[p] == 'e' || r[p] == 'E'),
    ensures
        e_pos(r) == p,
    decreases p,
{
    if p == 0 {
    } else {
        lemma_e_pos_first(r.drop_first(), p - 1);
    }
}

pub proof fn lemma_dot_pos_first(r: Seq<char>, p: int)
    requires
        0 <= p <= r.len(),
        forall|q: int| 0 <= q < p ==> r[q] != '.',
        p < r.len() ==> r[p] == '.',
    ensures
        dot_pos(r) == p,
    decreases p,
{
    if p == 0 {
    } else {
        lemma_dot_pos_first(r.drop_first(), p - 1);
    }
}

/// The Integer a text spells, when it spells one in range.
#[verifier::rlimit(100)]
fn e_int_numeral(cs: &Vec<char>) -> (r: Option<i64>)
    ensures
        (r is Some) == is_int_numeral(cs@),
        r matches Some(iv) ==> iv as int == int_numeral_val(cs@),
{
    proof {
        assert(cs@.len() == cs.len());
    }
    let n = cs.len();
    let b: usize = if n > 0 && (cs[0] == '+' || cs[0] == '-') {
        1
    } else {
        0
    };
    assert(b as int == sign_off(cs@));
    let neg = n > 0 && cs[0] == '-';
    let ghost rr = cs@.skip(b as int);
    let j = e_digits_end(cs, b);
    proof {
        lemma_digits_end_bounds(cs@, b as int);
    }
    if n == b {
        proof {
            assert(!is_int_numeral(cs@));
        }
        return None;
    }
    if j < n {
        proof {
            assert(rr[j - b] == cs@[j as int]);
            assert(!all_digits(rr));
            assert(!is_int_numeral(cs@));
        }
        return None;
    }
    proof {
        assert forall|w: int| 0 <= w < rr.len() implies is_digit(#[trigger] rr[w]) by {
            assert(rr[w] == cs@[b + w]);
        }
        assert(all_digits(rr));
        assert(cs@.subrange(b as int, n as int) =~= rr);
    }
    match e_digits_value(cs, b, n) {
        None => {
            proof {
                assert(!is_int_numeral(cs@));
            }
            None
        },
        Some(mag) => {
            if neg {
                if mag == 0x8000_0000_0000_0000u64 {
                    assert(is_int_numeral(cs@));
                    Some(i64::MIN)
                } else {
                    assert(is_int_numeral(cs@));
                    Some(-(mag as i64))
                }
            } else {
                if mag < 0x8000_0000_0000_0000u64 {
                    assert(is_int_numeral(cs@));
                    Some(mag as i64)
                } else {
                    proof {
                        assert(!is_int_numeral(cs@));
                    }
                    None
                }
            }
        },
    }
}

/// The decimal a text spells, when it spells one whose folded exponent
/// stays in machine range.
#[verifier::rlimit(100)]
fn e_frac_numeral(cs: &Vec<char>) -> (r: Option<Dec>)
    ensures
        (r is Some) == is_frac_numeral(cs@),
        r matches Some(d) ==> d.model() == frac_numeral_dec(cs@) && d.wf(),
{
    proof {
        assert(cs@.len() == cs.len());
    }
    let n = cs.len();
    let b: usize = if n > 0 && (cs[0] == '+' || cs[0] == '-') {
        1
    } else {
        0
    };
    assert(b as int == sign_off(cs@));
    let neg = n > 0 && cs[0] == '-';
    let ghost r = cs@.skip(b as int);
    // find the exponent marker
    let mut ep: usize = b;
    while ep < n && !(cs[ep] == 'e' || cs[ep] == 'E')
        invariant
            b <= ep <= n == cs@.len(),
            r == cs@.skip(b as int),
            forall|q: int| 0 <= q < ep - b ==> !((#[trigger] r[q]) == 'e' || r[q] == 'E'),
        decreases n - ep,
    {
        proof {
            assert(r[(ep - b) as int] == cs@[ep as int]);
        }
        ep = ep + 1;
    }
    proof {
        if ep < n {
            assert(r[(ep - b) as int] == cs@[ep as int]);
        }
        lemma_e_pos_first(r, (ep - b) as int);
    }
    let ghost mant = r.take((ep - b) as int);
    // scan the mantissa for points and stray characters
    let mut dots: usize = 0;
    let mut dotp: usize = ep;
    let mut w = b;
    while w < ep
        invariant
            b <= w <= ep <= n == cs@.len(),
            b as int == sign_off(cs@),
            r == cs@.skip(b as int),
            e_pos(r) == ep - b,
            mant == r.take((ep - b) as int),
            dots <= w - b,
            dots as int == dot_count(mant.take((w - b) as int)),
            dots == 0 ==> dotp == ep && (forall|q: int|
                0 <= q < w - b ==> (#[trigger] mant[q]) != '.'),
            dots > 0 ==> b <= dotp < w && mant[dotp - b] == '.' && (forall|q: int|
                0 <= q < dotp - b ==> (#[trigger] mant[q]) != '.'),
            dots == 1 ==> forall|q: int|
                0 <= q < w - b && q != dotp - b ==> (#[trigger] mant[q]) != '.',
            forall|q: int| 0 <= q < w - b ==> is_digit(#[trigger] mant[q]) || mant[q] == '.',
        decreases ep - w,
    {
        let c = cs[w];
        proof {
            assert(mant[(w - b) as int] == r[(w - b) as int]);
            assert(r[(w - b) as int] == cs@[w as int]);
            assert(mant.take((w - b + 1) as int).drop_last() =~= mant.take((w - b) as int));
        }
        if c == '.' {
            if dots == 0 {
                dotp = w;
            }
            dots = dots + 1;
        } else if '0' <= c && c <= '9' {
        } else {
            // neither a digit nor a point: not a numeral
            proof {
                assert(!(is_digit(mant[(w - b) as int]) || mant[(w - b) as int] == '.'));
                assert(!is_frac_numeral(cs@));
            }
            return None;
        }
        w = w + 1;
    }
    proof {
        assert(mant.take((ep - b) as int) =~= mant);
    }
    if ep == b || (ep - b) == dots || dots > 1 || (n as u64) > 0x7fff_ffff_ffff_ffffu64 {
        proof {
            assert(!is_frac_numeral(cs@));
        }
        return None;
    }
    // the optional exponent suffix
    let ghost x = r.skip((ep - b + 1) as int);
    let mut e_neg = false;
    let mut em: u64 = 0;
    if ep < n {
        proof {
            assert forall|q: int| 0 <= q < x.len() implies #[trigger] x[q] == cs@[ep + 1
                + q] by {}
        }
        let mut es: usize = ep + 1;
        if es < n && (cs[es] == '+' || cs[es] == '-') {
            e_neg = cs[es] == '-';
            es = es + 1;
        }
        proof {
            assert((es - (ep + 1)) as int == sign_off(x));
        }
        if es >= n {
            // no digits after the marker: not a numeral
            proof {
                assert(!exp_ok(x));
                assert(!is_frac_numeral(cs@));
            }
            return None;
        }
        let j2 = e_digits_end(cs, es);
        proof {
            lemma_digits_end_bounds(cs@, es as int);
        }
        if j2 < n {
            proof {
                assert(x.skip(sign_off(x))[(j2 - es) as int] == cs@[j2 as int]);
                assert(!all_digits(x.skip(sign_off(x))));
                assert(!is_frac_numeral(cs@));
            }
            return None;
        }
        proof {
            assert(cs@.subrange(es as int, n as int) =~= x.skip(sign_off(x)));
        }
        match e_digits_value(cs, es, n) {
            None => {
                proof {
                    assert(!is_frac_numeral(cs@));
                }
                return None;
            },
            Some(m) => {
                if m > 0x7fff_ffff_ffff_ffffu64 {
                    proof {
                        assert(!is_frac_numeral(cs@));
                    }
                    return None;
                }
                em = m;
            },
        }
    }
    let ev: i64 = if e_neg {
        -(em as i64)
    } else {
        em as i64
    };
    proof {
        if ep < n {
            assert(ev as int == exp_val(x));
        }
    }
    let fl: usize = if dotp < ep {
        ep - dotp - 1
    } else {
        0
    };
    let dc: usize = (ep - b) - dots;
    proof {
        if dots == 0 {
            lemma_dot_pos_first(mant, mant.len() as int);
        } else {
            lemma_dot_pos_first(mant, (dotp - b) as int);
        }
        assert(dc as int == mant.len() - dot_count(mant));
    }
    let exp0_w: i128 = ev as i128 - fl as i128;
    if exp0_w < i64::MIN as i128 {
        proof {
            assert(!is_frac_numeral(cs@));
        }
        return None;
    }
    if exp0_w + dc as i128 > i64::MAX as i128 {
        proof {
            assert(!is_frac_numeral(cs@));
        }
        return None;
    }
    let exp0: i64 = exp0_w as i64;
    proof {
        assert(is_frac_numeral(cs@));
    }
    // collect the mantissa digits
    let mut ds: Vec<u8> = Vec::new();
    let mut q1 = b;
    proof {
        assert(ds@.map(|_w: int, d: u8| d as int) =~= char_digits(
            cs@.subrange(b as int, b as int),
        ));
    }
    while q1 < dotp
        invariant
            b <= q1 <= dotp <= ep <= n == cs@.len(),
            r == cs@.skip(b as int),
            mant == r.take((ep - b) as int),
            forall|q: int| 0 <= q < ep - b ==> is_digit(#[trigger] mant[q]) || mant[q] == '.',
            forall|q: int| 0 <= q < dotp - b ==> (#[trigger] mant[q]) != '.',
            ds@.len() == q1 - b,
            ds@.map(|_w: int, d: u8| d as int) == char_digits(cs@.subrange(b as int, q1 as int)),
            forall|q: int| 0 <= q < ds@.len() ==> ds@[q] < 10,
        decreases dotp - q1,
    {
        let c = cs[q1];
        proof {
            assert(mant[(q1 - b) as int] == r[(q1 - b) as int]);
            assert(r[(q1 - b) as int] == cs@[q1 as int]);
            assert(is_digit(cs@[q1 as int]));
            assert(c as u32 >= 48 && c as u32 <= 57);
        }
        ds.push((c as u32 - 48) as u8);
        proof {
            assert(char_digits(cs@.subrange(b as int, q1 + 1 as int)) =~= char_digits(
                cs@.subrange(b as int, q1 as int),
            ).push(digit_val(cs@[q1 as int])));
            assert(ds@.map(|_w: int, d: u8| d as int) =~= char_digits(
                cs@.subrange(b as int, q1 as int),
            ).push(digit_val(cs@[q1 as int])));
        }
        q1 = q1 + 1;
    }
    let ghost ipart = char_digits(cs@.subrange(b as int, dotp as int));
    if dotp < ep {
        let mut q2 = dotp + 1;
        while q2 < ep
            invariant
                dotp + 1 <= q2 <= ep <= n == cs@.len(),
                r == cs@.skip(b as int),
                mant == r.take((ep - b) as int),
                b <= dotp,
                mant[dotp - b] == '.',
                dots == 1,
                forall|q: int| 0 <= q < ep - b ==> is_digit(#[trigger] mant[q]) || mant[q] == '.',
                forall|q: int| 0 <= q < ep - b && q != dotp - b ==> (#[trigger] mant[q]) != '.',
                ds@.len() == (dotp - b) + (q2 - (dotp + 1)),
                ds@.map(|_w: int, d: u8| d as int) == ipart + char_digits(
                    cs@.subrange(dotp + 1 as int, q2 as int),
                ),
                forall|q: int| 0 <= q < ds@.len() ==> ds@[q] < 10,
            decreases ep - q2,
        {
            let c = cs[q2];
            proof {
                assert(mant[(q2 - b) as int] == r[(q2 - b) as int]);
                assert(r[(q2 - b) as int] == cs@[q2 as int]);
                assert(is_digit(cs@[q2 as int]));
                assert(c as u32 >= 48 && c as u32 <= 57);
            }
            ds.push((c as u32 - 48) as u8);
            proof {
                assert(char_digits(cs@.subrange(dotp + 1 as int, q2 + 1 as int)) =~= char_digits(
                    cs@.subrange(dotp + 1 as int, q2 as int),
                ).push(digit_val(cs@[q2 as int])));
                assert(ds@.map(|_w: int, d: u8| d as int) =~= (ipart + char_digits(
                    cs@.subrange(dotp + 1 as int, q2 as int),
                )).push(digit_val(cs@[q2 as int])));
            }
            q2 = q2 + 1;
        }
    } else {
        proof {
            assert(ds@.map(|_w: int, d: u8| d as int) =~= ipart + char_digits(Seq::<
                char,
            >::empty()));
        }
    }
    let d = e_make_dec(neg, ds, exp0);
    proof {
        let p = dot_pos(mant);
        assert(mant.take(p) =~= cs@.subrange(b as int, dotp as int));
        if dotp < ep {
            assert(mant.skip(p + 1) =~= cs@.subrange(dotp + 1 as int, ep as int));
        }
        assert(d.model() == frac_numeral_dec(cs@));
    }
    Some(d)
}

/// The re-typing of a decoded string: the Integer or Float it spells, or
/// the string itself.
fn e_retype(s: String) -> (v: Value)
    ensures
        v.model() == retype(s@),
        v.wf(),
{
    let cs = chars_vec(s.as_str());
    match e_int_numeral(&cs) {
        Some(iv) => Value::Integer(iv),
        None => match e_frac_numeral(&cs) {
            Some(d) => Value::Float(d),
            None => Value::String(s),
        },
    }
}

/// Reads one value at `i`.
#[verifier::rlimit(100)]
fn e_parse_value(t: &Vec<char>, i: usize) -> (r: Option<(Value, usize)>)
    requires
        i <= t@.len(),
    ensures
        (r is Some) == (parse_value(t@, i as int) is Some),
        r matches Some(p) ==> parse_value(t@, i as int) == Some((p.0.model(), p.1 as int))
            && p.0.wf() && i < p.1 <= t@.len(),
    decreases t@.len() - i, 0nat,
{
    proof {
        assert(t@.len() == t.len());
    }
    if i >= t.len() {
        return None;
    }
    let c = t[i];
    if c == 'n' {
        if t.len() - i >= 4 && t[i + 1] == 'u' && t[i + 2] == 'l' && t[i + 3] == 'l' {
            Some((Value::Null, i + 4))
        } else {
            None
        }
    } else if c == 't' {
        if t.len() - i >= 4 && t[i + 1] == 'r' && t[i + 2] == 'u' && t[i + 3] == 'e' {
            Some((Value::Boolean(true), i + 4))
        } else {
            None
        }
    } else if c == 'f' {
        if t.len() - i >= 5 && t[i + 1] == 'a' && t[i + 2] == 'l' && t[i + 3] == 's' && t[i + 4]
            == 'e' {
            Some((Value::Boolean(false), i + 5))
        } else {
            None
        }
    } else if c == '"' {
        match e_scan_string(t, i + 1) {
            None => None,
            Some((sv, j)) => {
                let v = e_retype(sv);
                Some((v, j))
            },
        }
    } else if c == '-' || is_digit_e(c) {
        e_parse_number(t, i)
    } else if c == '[' {
        let j = e_skip_ws(t, i + 1);
        if j < t.len() && t[j] == ']' {
            let xs: Vec<Value> = Vec::new();
            proof {
                assert(crate::value::items_model(xs@) =~= Seq::<Val>::empty());
                assert(crate::value::items_wf(xs@));
            }
            Some((Value::List(xs), j + 1))
        } else {
            match e_parse_items(t, j) {
                Some((xs, k)) => Some((Value::List(xs), k)),
                None => None,
            }
        }
    } else if c == '{' {
        let j = e_skip_ws(t, i + 1);
        if j < t.len() && t[j] == '}' {
            let es: Vec<(String, Value)> = Vec::new();
            proof {
                assert(crate::value::entries_model(es@) =~= Seq::<(Seq<char>, Val)>::empty());
                assert(crate::value::entries_wf(es@));
            }
            Some((Value::Dictionary(es), j + 1))
        } else {
            match e_parse_entries(t, j) {
                Some((es, k)) => Some((Value::Dictionary(es), k)),
                None => None,
            }
        }
    } else {
        None
    }
}

/// Reads the elements of a list, up to and including the closing bracket.
#[verifier::rlimit(100)]
fn e_parse_items(t: &Vec<char>, i: usize) -> (r: Option<(Vec<Value>, usize)>)
    requires
        i <= t@.len(),
    ensures
        (r is Some) == (parse_items(t@, i as int) is Some),
        r matches Some(p) ==> parse_items(t@, i as int) == Some(
            (crate::value::items_model(p.0@), p.1 as int),
        ) && crate::value::items_wf(p.0@) && i < p.1 <= t@.len(),
    decreases t@.len() - i, 1nat,
{
    proof {
        assert(t@.len() == t.len());
    }
    match e_parse_value(t, i) {
        None => None,
        Some((v, j)) => {
            let j2 = e_skip_ws(t, j);
            if j2 >= t.len() {
                return None;
            }
            if t[j2] == ']' {
                let mut xs: Vec<Value> = Vec::new();
                xs.push(v);
                proof {
                    assert(xs@ =~= seq![v]);
                    assert(xs@[0] == v);
                    assert(xs@.drop_first() =~= Seq::<Value>::empty());
                    assert(crate::value::items_model(Seq::<Value>::empty())
                        =~= Seq::<Val>::empty());
                    assert(crate::value::items_model(xs@) =~= seq![v.model()]);
                    assert(crate::value::items_wf(Seq::<Value>::empty()));
                    assert(crate::value::items_wf(xs@));
                }
                Some((xs, j2 + 1))
            } else if t[j2] == ',' {
                let j3 = e_skip_ws(t, j2 + 1);
                if j3 < t.len() && t[j3] == ']' {
                    let mut xs: Vec<Value> = Vec::new();
                    xs.push(v);
                    proof {
                        assert(xs@ =~= seq![v]);
                        assert(xs@[0] == v);
                        assert(xs@.drop_first() =~= Seq::<Value>::empty());
                        assert(crate::value::items_model(Seq::<Value>::empty())
                            =~= Seq::<Val>::empty());
                        assert(crate::value::items_model(xs@) =~= seq![v.model()]);
                        assert(crate::value::items_wf(Seq::<Value>::empty()));
                        assert(crate::value::items_wf(xs@));
                    }
                    Some((xs, j3 + 1))
                } else {
                    match e_parse_items(t, j3) {
                        None => None,
                        Some((xs0, k)) => {
                            let ghost rest = xs0@;
                            let mut xs = xs0;
                            xs.insert(0, v);
                            proof {
                                assert(xs@ =~= seq![v] + rest);
                                assert(xs@[0] == v);
                                assert(xs@.drop_first() =~= rest);
                                assert(crate::value::items_model(xs@) =~= seq![v.model()]
                                    + crate::value::items_model(rest));
                                assert(crate::value::items_wf(xs@));
                            }
                            Some((xs, k))
                        },
                    }
                }
            } else {
                None
            }
        },
    }
}

/// Reads the entries of a dictionary, up to and including the closing
/// brace.
#[verifier::rlimit(100)]
fn e_parse_entries(t: &Vec<char>, i: usize) -> (r: Option<(Vec<(String, Value)>, usize)>)
    requires
        i <= t@.len(),
    ensures
        (r is Some) == (parse_entries(t@, i as int) is Some),
        r matches Some(p) ==> parse_entries(t@, i as int) == Some(
            (crate::value::entries_model(p.0@), p.1 as int),
        ) && crate::value::entries_wf(p.0@) && i < p.1 <= t@.len(),
    decreases t@.len() - i, 1nat,
{
    proof {
        assert(t@.len() == t.len());
    }
    if i >= t.len() || t[i] != '"' {
        return None;
    }
    match e_scan_string(t, i + 1) {
        None => None,
        Some((key, j)) => {
            let j2 = e_skip_ws(t, j);
            if j2 >= t.len() || t[j2] != ':' {
                return None;
            }
            let j3 = e_skip_ws(t, j2 + 1);
            match e_parse_value(t, j3) {
                None => None,
                Some((v, j4)) => {
                    let j5 = e_skip_ws(t, j4);
                    if j5 >= t.len() {
                        return None;
                    }
                    if t[j5] == '}' {
                        let mut es: Vec<(String, Value)> = Vec::new();
                        es.push((key, v));
                        proof {
                            assert(es@ =~= seq![(key, v)]);
                            assert(es@[0] == (key, v));
                            assert(es@.drop_first() =~= Seq::<(String, Value)>::empty());
                            assert(crate::value::entries_model(Seq::<(String, Value)>::empty())
                                =~= Seq::<(Seq<char>, Val)>::empty());
                            assert(crate::value::entries_model(es@) =~= seq![(key@, v.model())]);
                            assert(crate::value::entries_wf(Seq::<(String, Value)>::empty()));
                            assert(crate::value::entries_wf(es@));
                        }
                        Some((es, j5 + 1))
                    } else if t[j5] == ',' {
                        let j6 = e_skip_ws(t, j5 + 1);
                        if j6 < t.len() && t[j6] == '}' {
                            let mut es: Vec<(String, Value)> = Vec::new();
                            es.push((key, v));
                            proof {
                                assert(es@ =~= seq![(key, v)]);
                                assert(es@[0] == (key, v));
                                assert(es@.drop_first() =~= Seq::<(String, Value)>::empty());
                                assert(crate::value::entries_model(Seq::<(String, Value)>::empty())
                                    =~= Seq::<(Seq<char>, Val)>::empty());
                                assert(crate::value::entries_model(es@) =~= seq![
                                    (key@, v.model()),
                                ]);
                                assert(crate::value::entries_wf(Seq::<(String, Value)>::empty()));
                                assert(crate::value::entries_wf(es@));
                            }
                            Some((es, j6 + 1))
                        } else {
                            match e_parse_entries(t, j6) {
                                None => None,
                                Some((es0, k)) => {
                                    let ghost rest = es0@;
                                    let mut es = es0;
                                    es.insert(0, (key, v));
                                    proof {
                                        assert(es@ =~= seq![(key, v)] + rest);
                                        assert(es@[0].0 == key && es@[0].1 == v);
                                        assert(es@.drop_first() =~= rest);
                                        assert(crate::value::entries_model(es@) =~= seq![
                                            (key@, v.model()),
                                        ] + crate::value::entries_model(rest));
                                        assert(crate::value::entries_wf(es@));
                                    }
                                    Some((es, k))
                                },
                            }
                        }
                    } else {
                        None
                    }
                },
            }
        },
    }
}

impl Value {
    /// Decodes one value from interchange text: exactly what the spec
    /// grammar [`spec_decode`] denotes, or nothing when the text does not
    /// parse.
    pub fn from_json_value(text: &str) -> (r: Option<Value>)
        ensures
            (r is Some) == (spec_decode(text@) is Some),
            r matches Some(v) ==> spec_decode(text@) == Some(v.model()) && v.wf(),
    {
        let t = chars_vec(text);
        let i = e_skip_ws(&t, 0);
        match e_parse_value(&t, i) {
            None => None,
            Some((v, j)) => {
                let k = e_skip_ws(&t, j);
                if k == t.len() {
                    Some(v)
                } else {
                    None
                }
            },
        }
    }
}

} // verus!
