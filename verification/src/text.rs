//! Decimal numerals: the spec-level text of an integer, executable rendering,
//! and the facts about digit runs that the codec's proofs lean on.

use vstd::prelude::*;
use vstd::string::StringExecFns;

verus! {

/// Relies on std's `String::push`: appends the given character to the string.
pub assume_specification[ std::string::String::push ](
    s: &mut std::string::String,
    ch: char,
)
    ensures
        final(s)@ == old(s)@.push(ch),
;

pub open spec fn is_digit(c: char) -> bool {
    '0' <= c && c <= '9'
}

pub open spec fn digit_val(c: char) -> int {
    c as int - '0' as int
}

pub open spec fn digit_char(d: int) -> char {
    ((d + 48) as u8) as char
}

/// The decimal text of a nonnegative integer, most significant digit first.
pub open spec fn uint_text(n: nat) -> Seq<char>
    decreases n,
{
    if n < 10 {
        seq![digit_char(n as int)]
    } else {
        uint_text(n / 10).push(digit_char((n % 10) as int))
    }
}

/// The decimal text of an integer, with a leading minus sign when negative.
pub open spec fn int_text(i: int) -> Seq<char> {
    if i < 0 {
        seq!['-'] + uint_text((-i) as nat)
    } else {
        uint_text(i as nat)
    }
}

/// The integer a run of digit characters denotes.
pub open spec fn digits_val(s: Seq<char>) -> int
    decreases s.len(),
{
    if s.len() == 0 {
        0
    } else {
        digits_val(s.drop_last()) * 10 + digit_val(s.last())
    }
}

pub open spec fn all_digits(s: Seq<char>) -> bool {
    forall|k: int| 0 <= k < s.len() ==> is_digit(#[trigger] s[k])
}

pub proof fn lemma_uint_text_digits(n: nat)
    ensures
        uint_text(n).len() >= 1,
        all_digits(uint_text(n)),
    decreases n,
{
    if n >= 10 {
        lemma_uint_text_digits(n / 10);
        assert forall|k: int| 0 <= k < uint_text(n).len() implies is_digit(
            #[trigger] uint_text(n)[k],
        ) by {
            if k < uint_text(n / 10).len() {
                assert(uint_text(n)[k] == uint_text(n / 10)[k]);
            }
        }
    }
}

/// Reading back the rendered text of `n` yields `n`.
pub proof fn lemma_digits_val_uint_text(n: nat)
    ensures
        digits_val(uint_text(n)) == n,
    decreases n,
{
    if n < 10 {
        assert(uint_text(n).drop_last() =~= Seq::<char>::empty());
        assert(digits_val(Seq::<char>::empty()) == 0);
        assert(uint_text(n).last() == digit_char(n as int));
        assert(digit_val(digit_char(n as int)) == n);
    } else {
        lemma_digits_val_uint_text(n / 10);
        assert(uint_text(n).drop_last() =~= uint_text(n / 10));
        assert(uint_text(n).last() == digit_char((n % 10) as int));
        assert(digit_val(digit_char((n % 10) as int)) == n % 10);
        assert(n / 10 * 10 + n % 10 == n) by {
            vstd::arithmetic::div_mod::lemma_fundamental_div_mod(n as int, 10);
        }
    }
}

/// Distinct nonnegative integers render as distinct texts.
pub proof fn lemma_uint_text_injective(a: nat, b: nat)
    requires
        a != b,
    ensures
        uint_text(a) != uint_text(b),
{
    lemma_digits_val_uint_text(a);
    lemma_digits_val_uint_text(b);
}

/// The decimal text of a 64-bit unsigned integer.
pub fn u64_string(n: u64) -> (r: String)
    ensures
        r@ == uint_text(n as nat),
    decreases n,
{
    if n < 10 {
        let mut s = String::new();
        s.push((n as u8 + 48) as char);
        s
    } else {
        let mut s = u64_string(n / 10);
        s.push(((n % 10) as u8 + 48) as char);
        s
    }
}

/// The decimal text of a 64-bit signed integer.
pub fn i64_string(i: i64) -> (r: String)
    ensures
        r@ == int_text(i as int),
{
    if i >= 0 {
        u64_string(i as u64)
    } else {
        let m: u64 = (-(i as i128)) as u64;
        let mut s = String::new();
        s.push('-');
        let t = u64_string(m);
        s.append(t.as_str());
        s
    }
}

} // verus!
