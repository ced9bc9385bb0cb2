//! The laws of the library, proved over the codec's model: the decoder
//! inverts the encoder on every well-behaved value, and distinct caller
//! processes never share a channel address.

use vstd::prelude::*;
use crate::text::all_digits;
use crate::text::digit_char;
use crate::text::digit_val;
use crate::text::digits_val;
use crate::text::int_text;
use crate::text::is_digit;
use crate::text::uint_text;
use crate::text::lemma_digits_val_uint_text;
use crate::text::lemma_uint_text_digits;
use crate::text::lemma_uint_text_injective;
use crate::codec::char_digits;
use crate::codec::digits_end;
use crate::codec::is_frac_numeral;
use crate::codec::is_int_numeral;
use crate::codec::is_ws;
use crate::codec::lemma_strip_lead_skip;
use crate::codec::lemma_trail_zeros_eq;
use crate::codec::make_dec;
use crate::codec::parse_entries;
use crate::codec::parse_items;
use crate::codec::parse_number;
use crate::codec::parse_value;
use crate::codec::retype;
use crate::codec::scan_string;
use crate::codec::skip_ws;
use crate::codec::spec_decode;
use crate::invoke::socket_path_text;
use crate::value::dec_text;
use crate::value::dec_wf;
use crate::value::digit_chars;
use crate::value::encoded;
use crate::value::entries_text;
use crate::value::entry_text;
use crate::value::item_text;
use crate::value::items_text;
use crate::value::zeros;
use crate::value::DecModel;
use crate::value::Val;

verus! {

/// A string payload the encoding carries faithfully: not numeral-shaped,
/// and free of the quote and backslash characters the encoder leaves
/// unescaped.
pub open spec fn good_str(s: Seq<char>) -> bool {
    &&& !is_int_numeral(s)
    &&& !is_frac_numeral(s)
    &&& forall|k: int| 0 <= k < s.len() ==> #[trigger] s[k] != '"' && s[k] != '\\'
}

/// The values the codec round-trips exactly: integers within machine
/// range, strings as [`good_str`] (keys too), and floats that actually
/// carry a fraction — an integer-valued float encodes without a point and
/// so comes back as an Integer.
pub open spec fn good(m: Val) -> bool
    decreases m,
{
    match m {
        Val::Int(iv) => i64::MIN as int <= iv <= i64::MAX as int,
        Val::Str(s) => good_str(s),
        Val::Flt(d) => dec_wf(d) && d.digits.len() > 0 && d.exp < 0 && d.digits.len()
            <= i64::MAX as int && -d.exp <= i64::MAX as int,
        Val::Dict(es) => good_entries(es),
        Val::Lst(xs) => good_items(xs),
        Val::Bool(_) => true,
        Val::Null => true,
    }
}

pub open spec fn good_entries(es: Seq<(Seq<char>, Val)>) -> bool
    decreases es,
{
    if es.len() == 0 {
        true
    } else {
        good_str(es[0].0) && good(es[0].1) && good_entries(es.drop_first())
    }
}

pub open spec fn good_items(xs: Seq<Val>) -> bool
    decreases xs,
{
    if xs.len() == 0 {
        true
    } else {
        good(xs[0]) && good_items(xs.drop_first())
    }
}

/// An encoded value is never empty, and its first character is neither
/// whitespace nor one of the punctuation marks that close or separate.
pub proof fn lemma_encoded_first(m: Val)
    requires
        good(m),
    ensures
        encoded(m).len() > 0,
        !is_ws(encoded(m)[0]),
        encoded(m)[0] != ']',
        encoded(m)[0] != '}',
        encoded(m)[0] != ',',
{
    match m {
        Val::Int(iv) => {
            if iv < 0 {
                lemma_uint_text_digits((-iv) as nat);
                assert(encoded(m)[0] == '-');
            } else {
                lemma_uint_text_digits(iv as nat);
                assert(is_digit(encoded(m)[0]));
            }
        },
        Val::Flt(d) => {
            let point = d.digits.len() + d.exp;
            if d.neg {
                assert(encoded(m)[0] == '-');
            } else if point > 0 {
                assert(encoded(m)[0] == digit_char(d.digits[0]));
                assert(is_digit(encoded(m)[0]));
            } else {
                assert(encoded(m)[0] == '0');
            }
        },
        Val::Str(s) => {
            assert(encoded(m)[0] == '"');
        },
        Val::Dict(es) => {
            assert(encoded(m)[0] == '{');
        },
        Val::Lst(xs) => {
            assert(encoded(m)[0] == '[');
        },
        Val::Bool(b) => {
            if b {
                assert(encoded(m)[0] == 't');
            } else {
                assert(encoded(m)[0] == 'f');
            }
        },
        Val::Null => {
            assert(encoded(m)[0] == 'n');
        },
    }
}

/// One character of a region known to hold a given text.
pub proof fn lemma_region_index(t: Seq<char>, i: int, e: Seq<char>, k: int)
    requires
        0 <= i,
        i + e.len() <= t.len(),
        t.subrange(i, i + e.len()) == e,
        i <= k < i + e.len(),
    ensures
        t[k] == e[k - i],
{
    assert(t[k] == t.subrange(i, i + e.len())[k - i]);
}

/// A sub-region of a region known to hold a given text.
pub proof fn lemma_region_sub(t: Seq<char>, i: int, e: Seq<char>, a: int, b: int)
    requires
        0 <= i,
        i + e.len() <= t.len(),
        t.subrange(i, i + e.len()) == e,
        i <= a <= b <= i + e.len(),
    ensures
        t.subrange(a, b) == e.subrange(a - i, b - i),
{
    assert forall|q: int| 0 <= q < b - a implies t.subrange(a, b)[q] == e.subrange(
        a - i,
        b - i,
    )[q] by {
        lemma_region_index(t, i, e, a + q);
    }
    assert(t.subrange(a, b) =~= e.subrange(a - i, b - i));
}

/// A run of `n` digits at `i`, not followed by a digit, ends the digit
/// scan exactly at `i + n`.
pub proof fn lemma_digits_end_run(t: Seq<char>, i: int, n: int)
    requires
        0 <= i,
        0 <= n,
        i + n <= t.len(),
        forall|k: int| i <= k < i + n ==> is_digit(#[trigger] t[k]),
        i + n < t.len() ==> !is_digit(t[i + n]),
    ensures
        digits_end(t, i) == i + n,
    decreases n,
{
    if n > 0 {
        lemma_digits_end_run(t, i + 1, n - 1);
    }
}

/// Scanning a quote-free, escape-free region closed by a quote returns
/// the region verbatim.
pub proof fn lemma_scan_verbatim(t: Seq<char>, i: int, s: Seq<char>)
    requires
        0 <= i,
        i + s.len() + 1 <= t.len(),
        t.subrange(i, i + s.len()) == s,
        forall|k: int| 0 <= k < s.len() ==> #[trigger] s[k] != '"' && s[k] != '\\',
        t[i + s.len()] == '"',
    ensures
        scan_string(t, i) == Some((s, i + s.len() + 1)),
    decreases s.len(),
{
    if s.len() == 0 {
        assert(t[i] == '"');
        assert(s =~= Seq::<char>::empty());
    } else {
        assert(t[i] == s[0]);
        assert(t.subrange(i + 1, i + 1 + s.drop_first().len()) =~= s.drop_first());
        lemma_scan_verbatim(t, i + 1, s.drop_first());
        assert(seq![t[i]] + s.drop_first() =~= s);
    }
}

/// Reading back digit characters gives the digits.
pub proof fn lemma_char_digits_roundtrip(ds: Seq<int>)
    requires
        forall|k: int| 0 <= k < ds.len() ==> 0 <= #[trigger] ds[k] < 10,
    ensures
        char_digits(digit_chars(ds)) == ds,
        forall|k: int| 0 <= k < ds.len() ==> is_digit(#[trigger] digit_chars(ds)[k]),
{
    assert forall|k: int| 0 <= k < ds.len() implies is_digit(#[trigger] digit_chars(ds)[k]) by {
        assert(digit_chars(ds)[k] == digit_char(ds[k]));
    }
    assert(char_digits(digit_chars(ds)) =~= ds);
}

proof fn proof_region_uint(t: Seq<char>, i: int, iv: int, s: int)
    requires
        0 <= i,
        i + int_text(iv).len() <= t.len(),
        t.subrange(i, i + int_text(iv).len()) == int_text(iv),
        s == if iv < 0 { i + 1 } else { i },
    ensures
        t.subrange(s, i + int_text(iv).len()) == uint_text(
            if iv < 0 { (-iv) as nat } else { iv as nat },
        ),
{
    let mag: nat = if iv < 0 { (-iv) as nat } else { iv as nat };
    let u = uint_text(mag);
    let L = int_text(iv).len();
    lemma_region_sub(t, i, int_text(iv), s, i + L);
    assert(int_text(iv).subrange(s - i, L as int) =~= u);
}

/// Reading back an encoded integer gives the integer.
pub proof fn lemma_parse_number_int(t: Seq<char>, i: int, iv: int)
    requires
        i64::MIN as int <= iv <= i64::MAX as int,
        0 <= i,
        i + int_text(iv).len() <= t.len(),
        t.subrange(i, i + int_text(iv).len()) == int_text(iv),
        i + int_text(iv).len() < t.len() ==> !is_digit(t[i + int_text(iv).len()]) && t[i
            + int_text(iv).len()] != '.' && t[i + int_text(iv).len()] != 'e' && t[i + int_text(
            iv,
        ).len()] != 'E',
    ensures
        parse_number(t, i) == Some((Val::Int(iv), i + int_text(iv).len())),
{
    let mag: nat = if iv < 0 {
        (-iv) as nat
    } else {
        iv as nat
    };
    let u = uint_text(mag);
    lemma_uint_text_digits(mag);
    lemma_digits_val_uint_text(mag);
    let L = int_text(iv).len();
    let s = if iv < 0 {
        i + 1
    } else {
        i
    };
    assert forall|k: int| s <= k < i + L implies is_digit(#[trigger] t[k]) by {
        assert(t[k] == int_text(iv)[k - i]);
        if iv < 0 {
            assert(int_text(iv)[k - i] == u[k - i - 1]);
        }
    }
    if iv < 0 {
        assert(t[i] == int_text(iv)[0]);
        assert(t[i] == '-');
    } else {
        assert(t[i] == int_text(iv)[0]);
        assert(is_digit(t[i]));
        assert(t[i] != '-');
    }
    lemma_digits_end_run(t, s, i + L - s);
    assert(digits_end(t, s) == i + L);
    let j = i + L;
    assert(!(j < t.len() && t[j] == '.' && digits_end(t, j + 1) > j + 1));
    assert(!(j < t.len() && (t[j] == 'e' || t[j] == 'E')));
    proof_region_uint(t, i, iv, s);
    assert(digits_val(t.subrange(s, i + L)) == mag);
    if iv < 0 {
        assert(mag <= 0x8000_0000_0000_0000);
    } else {
        assert(mag <= i64::MAX as int);
    }
}

/// Reading back an encoded fractional decimal gives the decimal.
#[verifier::rlimit(100)]
pub proof fn lemma_parse_number_flt(t: Seq<char>, i: int, d: DecModel)
    requires
        dec_wf(d),
        d.digits.len() > 0,
        d.exp < 0,
        d.digits.len() <= i64::MAX as int,
        -d.exp <= i64::MAX as int,
        0 <= i,
        i + dec_text(d).len() <= t.len(),
        t.subrange(i, i + dec_text(d).len()) == dec_text(d),
        i + dec_text(d).len() < t.len() ==> !is_digit(t[i + dec_text(d).len()]) && t[i
            + dec_text(d).len()] != '.' && t[i + dec_text(d).len()] != 'e' && t[i + dec_text(
            d,
        ).len()] != 'E',
    ensures
        parse_number(t, i) == Some((Val::Flt(d), i + dec_text(d).len())),
{
    let enc = dec_text(d);
    let L = enc.len();
    let point = d.digits.len() + d.exp;
    let s = if d.neg {
        i + 1
    } else {
        i
    };
    lemma_char_digits_roundtrip(d.digits);
    if point > 0 {
        // the point falls inside the digit run
        let irun = digit_chars(d.digits.take(point));
        let frun = digit_chars(d.digits.skip(point));
        lemma_char_digits_roundtrip(d.digits.take(point));
        lemma_char_digits_roundtrip(d.digits.skip(point));
        assert(enc.len() == (if d.neg { 1int } else { 0int }) + point + 1 + (d.digits.len()
            - point));
        if d.neg {
            assert(t[i] == enc[0]);
            assert(t[i] == '-');
        } else {
            assert(t[i] == enc[0]);
            assert(enc[0] == irun[0]);
            assert(is_digit(t[i]));
            assert(t[i] != '-');
        }
        assert forall|k: int| s <= k < s + point implies is_digit(#[trigger] t[k]) by {
            assert(t[k] == enc[k - i]);
            assert(enc[k - i] == irun[k - s]);
        }
        assert(t[s + point] == enc[s + point - i]);
        assert(t[s + point] == '.');
        lemma_digits_end_run(t, s, point);
        let j = s + point;
        assert forall|k: int| j + 1 <= k < i + L implies is_digit(#[trigger] t[k]) by {
            assert(t[k] == enc[k - i]);
            assert(enc[k - i] == frun[k - (j + 1)]);
        }
        lemma_digits_end_run(t, j + 1, i + L - (j + 1));
        let kk = i + L;
        assert(kk - (j + 1) == -d.exp);
        assert(kk > j + 1);
        // the digits handed to normalization are exactly the decimal's
        lemma_region_sub(t, i, enc, s, j);
        assert(enc.subrange(s - i, j - i) =~= irun);
        lemma_region_sub(t, i, enc, j + 1, kk);
        assert(enc.subrange(j + 1 - i, kk - i) =~= frun);
        assert(char_digits(t.subrange(s, j)) + char_digits(t.subrange(j + 1, kk)) =~= d.digits) by {
            assert(char_digits(t.subrange(s, j)) == d.digits.take(point));
            assert(char_digits(t.subrange(j + 1, kk)) == d.digits.skip(point));
        }
        assert((j + 1) - kk == d.exp);
        assert(!(kk < t.len() && (t[kk] == 'e' || t[kk] == 'E')));
        lemma_strip_lead_skip(d.digits, 0);
        assert(d.digits.skip(0) =~= d.digits);
        lemma_trail_zeros_eq(d.digits, 0);
        assert(d.digits.take(d.digits.len() as int) =~= d.digits);
        assert(make_dec(d.neg, d.digits, d.exp) == d);
    } else {
        // the value is below one: a zero, the point, filler zeros, digits
        let zrun = zeros(-point);
        let drun = digit_chars(d.digits);
        assert(enc.len() == (if d.neg { 1int } else { 0int }) + 2 + (-point) + d.digits.len());
        if d.neg {
            assert(t[i] == enc[0]);
            assert(t[i] == '-');
        } else {
            assert(t[i] == enc[0]);
            assert(t[i] == '0');
            assert(t[i] != '-');
        }
        assert(t[s] == enc[s - i]);
        assert(t[s] == '0');
        assert(t[s + 1] == enc[s + 1 - i]);
        assert(t[s + 1] == '.');
        lemma_digits_end_run(t, s, 1);
        let j = s + 1;
        assert forall|k: int| j + 1 <= k < i + L implies is_digit(#[trigger] t[k]) by {
            assert(t[k] == enc[k - i]);
            if k - (j + 1) < -point {
                assert(enc[k - i] == zrun[k - (j + 1)]);
                assert(zrun[k - (j + 1)] == '0');
            } else {
                assert(enc[k - i] == drun[k - (j + 1) - (-point)]);
            }
        }
        lemma_digits_end_run(t, j + 1, i + L - (j + 1));
        let kk = i + L;
        assert(kk - (j + 1) == -d.exp);
        assert(kk > j + 1);
        lemma_region_sub(t, i, enc, s, j);
        lemma_region_sub(t, i, enc, j + 1, kk);
        let ds = char_digits(t.subrange(s, j)) + char_digits(t.subrange(j + 1, kk));
        let m0 = 1 + (-point);
        assert(ds.len() == 1 + (-point) + d.digits.len());
        assert forall|k: int| 0 <= k < m0 implies ds[k] == 0 by {
            if k == 0 {
                assert(t.subrange(s, j)[0] == '0');
                assert(ds[0] == digit_val('0'));
            } else {
                assert(ds[k] == char_digits(t.subrange(j + 1, kk))[k - 1]);
                assert(t.subrange(j + 1, kk)[k - 1] == t[j + 1 + k - 1]);
                assert(t[j + k] == enc[j + k - i]);
                assert(enc[j + k - i] == zrun[k - 1]);
                assert(ds[k] == digit_val('0'));
            }
        }
        assert forall|k: int| m0 <= k < ds.len() implies ds[k] == d.digits[k - m0] by {
            assert(ds[k] == char_digits(t.subrange(j + 1, kk))[k - 1]);
            assert(t.subrange(j + 1, kk)[k - 1] == t[j + k]);
            assert(t[j + k] == enc[j + k - i]);
            assert(enc[j + k - i] == drun[k - 1 - (-point)]);
            assert(ds[k] == digit_val(digit_char(d.digits[k - m0])));
        }
        assert(ds[m0] == d.digits[0]);
        assert(ds[m0] != 0);
        lemma_strip_lead_skip(ds, m0);
        assert(ds.skip(m0) =~= d.digits);
        lemma_trail_zeros_eq(d.digits, 0);
        assert(d.digits.take(d.digits.len() as int) =~= d.digits);
        assert((j + 1) - kk == d.exp);
        assert(!(kk < t.len() && (t[kk] == 'e' || t[kk] == 'E')));
        assert(make_dec(d.neg, ds, (j + 1) - kk) == d);
    }
}


/// Parsing at a region that holds an encoded good value yields that value
/// and stops right after it, whatever follows — as long as what follows
/// cannot extend a number token.
#[verifier::rlimit(100)]
pub proof fn lemma_parse_encoded(m: Val, t: Seq<char>, i: int)
    requires
        good(m),
        0 <= i,
        i + encoded(m).len() <= t.len(),
        t.subrange(i, i + encoded(m).len()) == encoded(m),
        i + encoded(m).len() < t.len() ==> !is_digit(t[i + encoded(m).len()]) && t[i + encoded(
            m,
        ).len()] != '.' && t[i + encoded(m).len()] != 'e' && t[i + encoded(m).len()] != 'E',
    ensures
        parse_value(t, i) == Some((m, i + encoded(m).len())),
    decreases m, 0nat,
{
    lemma_encoded_first(m);
    let e = encoded(m);
    let L = e.len();
    lemma_region_index(t, i, e, i);
    match m {
        Val::Int(iv) => {
            lemma_parse_number_int(t, i, iv);
            if iv < 0 {
                assert(t[i] == '-');
            } else {
                lemma_uint_text_digits(iv as nat);
                assert(is_digit(t[i]));
            }
        },
        Val::Flt(d) => {
            lemma_parse_number_flt(t, i, d);
            let point = d.digits.len() + d.exp;
            if d.neg {
                assert(t[i] == '-');
            } else if point > 0 {
                assert(t[i] == digit_char(d.digits[0]));
                assert(is_digit(t[i]));
            } else {
                assert(t[i] == '0');
                assert(is_digit(t[i]));
            }
        },
        Val::Str(s) => {
            assert(t[i] == '"');
            let sl = s.len() as int;
            lemma_region_sub(t, i, e, i + 1, i + 1 + sl);
            assert(e.subrange(1, 1 + sl) =~= s);
            lemma_region_index(t, i, e, i + 1 + sl);
            assert(t[i + 1 + sl] == '"');
            lemma_scan_verbatim(t, i + 1, s);
            assert(retype(s) == Val::Str(s));
        },
        Val::Bool(b) => {
            if b {
                assert(t[i] == 't');
                lemma_region_index(t, i, e, i + 1);
                lemma_region_index(t, i, e, i + 2);
                lemma_region_index(t, i, e, i + 3);
                assert(t[i + 1] == 'r' && t[i + 2] == 'u' && t[i + 3] == 'e');
            } else {
                assert(t[i] == 'f');
                lemma_region_index(t, i, e, i + 1);
                lemma_region_index(t, i, e, i + 2);
                lemma_region_index(t, i, e, i + 3);
                lemma_region_index(t, i, e, i + 4);
                assert(t[i + 1] == 'a' && t[i + 2] == 'l' && t[i + 3] == 's' && t[i + 4] == 'e');
            }
        },
        Val::Null => {
            assert(t[i] == 'n');
            lemma_region_index(t, i, e, i + 1);
            lemma_region_index(t, i, e, i + 2);
            lemma_region_index(t, i, e, i + 3);
            assert(t[i + 1] == 'u' && t[i + 2] == 'l' && t[i + 3] == 'l');
        },
        Val::Lst(xs) => {
            assert(t[i] == '[');
            lemma_region_index(t, i, e, i + 1);
            if xs.len() == 0 {
                assert(e[1] == ']');
                assert(t[i + 1] == ']');
                assert(skip_ws(t, i + 1) == i + 1);
                assert(xs =~= Seq::<Val>::empty());
            } else {
                assert(good(xs[0]));
                lemma_encoded_first(xs[0]);
                assert(e[1] == items_text(xs)[0]);
                assert(items_text(xs)[0] == encoded(xs[0])[0]);
                assert(!is_ws(t[i + 1]));
                assert(skip_ws(t, i + 1) == i + 1);
                assert(t[i + 1] != ']');
                lemma_region_sub(t, i, e, i + 1, i + L);
                assert(e.subrange(1, L as int) =~= items_text(xs) + seq![']']);
                lemma_parse_items_encoded(xs, t, i + 1);
            }
        },
        Val::Dict(es) => {
            assert(t[i] == '{');
            lemma_region_index(t, i, e, i + 1);
            if es.len() == 0 {
                assert(e[1] == '}');
                assert(t[i + 1] == '}');
                assert(skip_ws(t, i + 1) == i + 1);
                assert(es =~= Seq::<(Seq<char>, Val)>::empty());
            } else {
                assert(e[1] == entries_text(es)[0]);
                assert(entries_text(es)[0] == entry_text(es[0])[0]);
                assert(entry_text(es[0])[0] == '"');
                assert(t[i + 1] == '"');
                assert(skip_ws(t, i + 1) == i + 1);
                assert(t[i + 1] != '}');
                lemma_region_sub(t, i, e, i + 1, i + L);
                assert(e.subrange(1, L as int) =~= entries_text(es) + seq!['}']);
                lemma_parse_entries_encoded(es, t, i + 1);
            }
        },
    }
}

/// Parsing at a region that holds encoded list elements followed by the
/// closing bracket yields exactly those elements.
#[verifier::rlimit(100)]
pub proof fn lemma_parse_items_encoded(xs: Seq<Val>, t: Seq<char>, i: int)
    requires
        good_items(xs),
        xs.len() > 0,
        0 <= i,
        i + items_text(xs).len() + 1 <= t.len(),
        t.subrange(i, i + items_text(xs).len() + 1) == items_text(xs) + seq![']'],
    ensures
        parse_items(t, i) == Some((xs, i + items_text(xs).len() + 1)),
    decreases xs, 0nat,
{
    let v = xs[0];
    let rest = xs.drop_first();
    let ev = encoded(v);
    let lv = ev.len();
    let r = items_text(xs) + seq![']'];
    let rl = r.len();
    assert(items_text(xs) == item_text(v) + items_text(rest));
    // the element's own region, followed by the comma
    assert forall|q: int| 0 <= q < lv implies r[q] == ev[q] by {}
    lemma_region_sub(t, i, r, i, i + lv);
    assert(r.subrange(0, lv as int) =~= ev);
    lemma_region_index(t, i, r, i + lv);
    assert(r[lv as int] == ',');
    assert(i + lv < t.len());
    assert(!is_digit(t[i + lv]) && t[i + lv] != '.' && t[i + lv] != 'e' && t[i + lv] != 'E');
    lemma_parse_encoded(v, t, i);
    let j = i + lv;
    assert(skip_ws(t, j) == j);
    assert(t[j] == ',');
    lemma_region_index(t, i, r, j + 1);
    assert(t[j + 1] == ' ');
    if rest.len() == 0 {
        assert(items_text(rest) == Seq::<char>::empty());
        assert(rl == lv + 3);
        lemma_region_index(t, i, r, j + 2);
        assert(t[j + 2] == ']');
        assert(skip_ws(t, j + 1) == skip_ws(t, j + 2));
        assert(skip_ws(t, j + 2) == j + 2);
        assert(seq![v] =~= xs);
    } else {
        assert(good_items(rest));
        assert(good(rest[0]));
        lemma_encoded_first(rest[0]);
        assert(items_text(rest) == item_text(rest[0]) + items_text(rest.drop_first()));
        assert(item_text(rest[0]) == encoded(rest[0]) + seq![',', ' ']);
        assert(items_text(rest).len() > 0);
        assert(item_text(rest[0])[0] == encoded(rest[0])[0]);
        assert(items_text(rest)[0] == item_text(rest[0])[0]);
        lemma_region_index(t, i, r, j + 2);
        assert(r[j + 2 - i] == items_text(rest)[0]);
        assert(!is_ws(t[j + 2]));
        assert(skip_ws(t, j + 1) == skip_ws(t, j + 2));
        assert(skip_ws(t, j + 2) == j + 2);
        assert(t[j + 2] != ']');
        lemma_region_sub(t, i, r, j + 2, i + rl);
        assert(r.subrange(j + 2 - i, rl as int) =~= items_text(rest) + seq![']']);
        lemma_parse_items_encoded(rest, t, j + 2);
        assert(seq![v] + rest =~= xs);
    }
}

/// Parsing at a region that holds encoded dictionary entries followed by
/// the closing brace yields exactly those entries.
#[verifier::rlimit(100)]
pub proof fn lemma_parse_entries_encoded(es: Seq<(Seq<char>, Val)>, t: Seq<char>, i: int)
    requires
        good_entries(es),
        es.len() > 0,
        0 <= i,
        i + entries_text(es).len() + 1 <= t.len(),
        t.subrange(i, i + entries_text(es).len() + 1) == entries_text(es) + seq!['}'],
    ensures
        parse_entries(t, i) == Some((es, i + entries_text(es).len() + 1)),
    decreases es, 0nat,
{
    let key = es[0].0;
    let v = es[0].1;
    let rest = es.drop_first();
    let kl = key.len() as int;
    let ev = encoded(v);
    let lv = ev.len();
    let r = entries_text(es) + seq!['}'];
    let rl = r.len();
    assert(entries_text(es) == entry_text(es[0]) + entries_text(rest));
    assert(entry_text(es[0]) == seq!['"'] + key + seq!['"', ':', ' '] + ev + seq![',', ' ']);
    lemma_region_index(t, i, r, i);
    assert(t[i] == '"');
    // the key's region, closed by its quote
    lemma_region_sub(t, i, r, i + 1, i + 1 + kl);
    assert(r.subrange(1, 1 + kl) =~= key);
    lemma_region_index(t, i, r, i + 1 + kl);
    assert(r[1 + kl] == '"');
    assert(good_str(key));
    lemma_scan_verbatim(t, i + 1, key);
    let j = i + kl + 2;
    lemma_region_index(t, i, r, j);
    assert(r[j - i] == ':');
    assert(skip_ws(t, j) == j);
    lemma_region_index(t, i, r, j + 1);
    assert(t[j + 1] == ' ');
    assert(good(v));
    lemma_encoded_first(v);
    let j3 = j + 2;
    lemma_region_sub(t, i, r, j3, j3 + lv);
    assert(r.subrange(j3 - i, j3 - i + lv) =~= ev);
    lemma_region_index(t, i, r, j3);
    assert(r[j3 - i] == ev[0]);
    assert(!is_ws(t[j3]));
    assert(skip_ws(t, j + 1) == skip_ws(t, j3));
    assert(skip_ws(t, j3) == j3);
    lemma_region_index(t, i, r, j3 + lv);
    assert(r[j3 + lv - i] == ',');
    assert(!is_digit(t[j3 + lv]) && t[j3 + lv] != '.' && t[j3 + lv] != 'e' && t[j3 + lv] != 'E');
    lemma_parse_encoded(v, t, j3);
    let j4 = j3 + lv;
    assert(skip_ws(t, j4) == j4);
    assert(t[j4] == ',');
    lemma_region_index(t, i, r, j4 + 1);
    assert(t[j4 + 1] == ' ');
    if rest.len() == 0 {
        assert(entries_text(rest) == Seq::<char>::empty());
        assert(rl == kl + lv + 7);
        lemma_region_index(t, i, r, j4 + 2);
        assert(t[j4 + 2] == '}');
        assert(skip_ws(t, j4 + 1) == skip_ws(t, j4 + 2));
        assert(skip_ws(t, j4 + 2) == j4 + 2);
        assert(seq![(key, v)] =~= es);
    } else {
        assert(good_entries(rest));
        assert(entries_text(rest) == entry_text(rest[0]) + entries_text(rest.drop_first()));
        assert(entry_text(rest[0]) == seq!['"'] + rest[0].0 + seq!['"', ':', ' '] + encoded(
            rest[0].1,
        ) + seq![',', ' ']);
        assert(entries_text(rest).len() > 0);
        assert(entry_text(rest[0])[0] == '"');
        assert(entries_text(rest)[0] == entry_text(rest[0])[0]);
        lemma_region_index(t, i, r, j4 + 2);
        assert(r[j4 + 2 - i] == entries_text(rest)[0]);
        assert(t[j4 + 2] == '"');
        assert(skip_ws(t, j4 + 1) == skip_ws(t, j4 + 2));
        assert(skip_ws(t, j4 + 2) == j4 + 2);
        assert(t[j4 + 2] != '}');
        lemma_region_sub(t, i, r, j4 + 2, i + rl);
        assert(r.subrange(j4 + 2 - i, rl as int) =~= entries_text(rest) + seq!['}']);
        lemma_parse_entries_encoded(rest, t, j4 + 2);
        assert(seq![(key, v)] + rest =~= es);
    }
}

/// Law: the decoder inverts the encoder. For every well-behaved value —
/// strings (and keys) not numeral-shaped and free of quote and backslash,
/// floats carrying a fraction — decoding the encoded text yields the value
/// back.
pub proof fn lemma_decode_encoded(m: Val)
    requires
        good(m),
    ensures
        spec_decode(encoded(m)) == Some(m),
{
    let t = encoded(m);
    lemma_encoded_first(m);
    assert(skip_ws(t, 0) == 0);
    assert(t.subrange(0, t.len() as int) =~= t);
    lemma_parse_encoded(m, t, 0);
    assert(skip_ws(t, t.len() as int) == t.len());
}

/// Law: the argument array survives the trip through the child's
/// environment. The list-shaped text the invoker builds from well-behaved
/// arguments decodes, on the callee's side, to exactly those arguments.
pub proof fn lemma_args_round_trip(ms: Seq<Val>)
    requires
        good_items(ms),
    ensures
        spec_decode(encoded(Val::Lst(ms))) == Some(Val::Lst(ms)),
{
    lemma_decode_encoded(Val::Lst(ms));
}

/// Law: distinct caller process ids never collide on a channel address.
pub proof fn lemma_distinct_pids_distinct_paths(p1: u64, p2: u64)
    requires
        p1 != p2,
    ensures
        socket_path_text(p1) != socket_path_text(p2),
{
    lemma_uint_text_injective(p1 as nat, p2 as nat);
    let pre = seq!['/', 't', 'm', 'p', '/', 'u', 'f', 'f', 'i', '_'];
    let a = uint_text(p1 as nat);
    let b = uint_text(p2 as nat);
    if a.len() == b.len() {
        if socket_path_text(p1) == socket_path_text(p2) {
            assert forall|q: int| 0 <= q < a.len() implies a[q] == b[q] by {
                assert((pre + a)[pre.len() + q] == (pre + b)[pre.len() + q]);
            }
            assert(a =~= b);
        }
    } else {
        assert(socket_path_text(p1).len() != socket_path_text(p2).len());
    }
}

} // verus!
