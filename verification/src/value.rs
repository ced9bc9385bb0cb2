//! The data model of the protocol: a closed tagged union of JSON-like
//! values, together with the spec-level text each value encodes to and the
//! executable encoder.

use vstd::prelude::*;
use vstd::string::StringExecFns;
use crate::text::digit_char;
use crate::text::int_text;
use crate::text::i64_string;

verus! {

/// A decimal floating-point number, the library's stand-in for a 64-bit
/// float: the value is `digits * 10^exp`, negated when `neg` holds, with
/// the significant digits most significant first.
#[derive(Debug, PartialEq)]
pub struct Dec {
    pub neg: bool,
    pub digits: Vec<u8>,
    pub exp: i64,
}

/// Spec-level mirror of [`Dec`].
pub struct DecModel {
    pub neg: bool,
    pub digits: Seq<int>,
    pub exp: int,
}

/// A canonical decimal: digits below ten, no leading and no trailing zero
/// digit, and zero itself written with no digits, exponent zero, unsigned.
pub open spec fn dec_wf(d: DecModel) -> bool {
    &&& forall|k: int| 0 <= k < d.digits.len() ==> 0 <= #[trigger] d.digits[k] < 10
    &&& d.digits.len() > 0 ==> d.digits[0] != 0 && d.digits[d.digits.len() - 1] != 0
    &&& d.digits.len() == 0 ==> d.exp == 0 && !d.neg
}

impl Dec {
    pub open spec fn model(&self) -> DecModel {
        DecModel {
            neg: self.neg,
            digits: self.digits@.map(|_k: int, d: u8| d as int),
            exp: self.exp as int,
        }
    }

    pub open spec fn wf(&self) -> bool {
        dec_wf(self.model())
    }
}

/// A value exchanged with the foreign routine, in either direction.
#[derive(Debug, PartialEq)]
pub enum Value {
    Integer(i64),
    String(String),
    Float(Dec),
    Dictionary(Vec<(String, Value)>),
    List(Vec<Value>),
    Boolean(bool),
    Null,
}

/// Spec-level mirror of [`Value`]: payloads are mathematical sequences and
/// integers, so contracts can speak of a value's shape directly.
pub enum Val {
    Int(int),
    Str(Seq<char>),
    Flt(DecModel),
    Dict(Seq<(Seq<char>, Val)>),
    Lst(Seq<Val>),
    Bool(bool),
    Null,
}

impl Value {
    /// The mathematical value this tree stands for.
    pub open spec fn model(self) -> Val
        decreases self,
    {
        match self {
            Value::Integer(i) => Val::Int(i as int),
            Value::String(s) => Val::Str(s@),
            Value::Float(d) => Val::Flt(d.model()),
            Value::Dictionary(es) => Val::Dict(entries_model(es@)),
            Value::List(xs) => Val::Lst(items_model(xs@)),
            Value::Boolean(b) => Val::Bool(b),
            Value::Null => Val::Null,
        }
    }

    /// Every float payload in the tree is a canonical decimal.
    pub open spec fn wf(self) -> bool
        decreases self,
    {
        match self {
            Value::Float(d) => d.wf(),
            Value::Dictionary(es) => entries_wf(es@),
            Value::List(xs) => items_wf(xs@),
            _ => true,
        }
    }
}

pub open spec fn entries_model(es: Seq<(String, Value)>) -> Seq<(Seq<char>, Val)>
    decreases es,
{
    if es.len() == 0 {
        Seq::empty()
    } else {
        seq![(es[0].0@, es[0].1.model())] + entries_model(es.drop_first())
    }
}

pub open spec fn items_model(xs: Seq<Value>) -> Seq<Val>
    decreases xs,
{
    if xs.len() == 0 {
        Seq::empty()
    } else {
        seq![xs[0].model()] + items_model(xs.drop_first())
    }
}

pub open spec fn entries_wf(es: Seq<(String, Value)>) -> bool
    decreases es,
{
    if es.len() == 0 {
        true
    } else {
        es[0].1.wf() && entries_wf(es.drop_first())
    }
}

pub open spec fn items_wf(xs: Seq<Value>) -> bool
    decreases xs,
{
    if xs.len() == 0 {
        true
    } else {
        xs[0].wf() && items_wf(xs.drop_first())
    }
}

/// `n` zero digits.
pub open spec fn zeros(n: int) -> Seq<char> {
    Seq::new(if n >= 0 { n as nat } else { 0 }, |_k: int| '0')
}

pub open spec fn digit_chars(ds: Seq<int>) -> Seq<char> {
    ds.map(|_k: int, d: int| digit_char(d))
}

/// The natural decimal text of a canonical decimal: no point when the
/// value is an integer, otherwise the digits with the point placed by the
/// exponent.
pub open spec fn dec_text(d: DecModel) -> Seq<char> {
    if d.digits.len() == 0 {
        seq!['0']
    } else {
        let sign: Seq<char> = if d.neg { seq!['-'] } else { Seq::empty() };
        let point = d.digits.len() + d.exp;
        if d.exp >= 0 {
            sign + digit_chars(d.digits) + zeros(d.exp)
        } else if point > 0 {
            sign + digit_chars(d.digits.take(point)) + seq!['.'] + digit_chars(
                d.digits.skip(point),
            )
        } else {
            sign + seq!['0', '.'] + zeros(-point) + digit_chars(d.digits)
        }
    }
}

/// The interchange text of a value: numbers in decimal, strings wrapped in
/// quotes with their characters taken verbatim, dictionaries and lists with
/// a `", "` separator trailing each element.
pub open spec fn encoded(m: Val) -> Seq<char>
    decreases m, 0nat,
{
    match m {
        Val::Int(i) => int_text(i),
        Val::Str(s) => seq!['"'] + s + seq!['"'],
        Val::Flt(d) => dec_text(d),
        Val::Dict(es) => seq!['{'] + entries_text(es) + seq!['}'],
        Val::Lst(xs) => seq!['['] + items_text(xs) + seq![']'],
        Val::Bool(b) => if b {
            seq!['t', 'r', 'u', 'e']
        } else {
            seq!['f', 'a', 'l', 's', 'e']
        },
        Val::Null => seq!['n', 'u', 'l', 'l'],
    }
}

pub open spec fn entry_text(e: (Seq<char>, Val)) -> Seq<char>
    decreases e, 1nat,
{
    seq!['"'] + e.0 + seq!['"', ':', ' '] + encoded(e.1) + seq![',', ' ']
}

pub open spec fn entries_text(es: Seq<(Seq<char>, Val)>) -> Seq<char>
    decreases es, 0nat,
{
    if es.len() == 0 {
        Seq::empty()
    } else {
        entry_text(es[0]) + entries_text(es.drop_first())
    }
}

pub open spec fn item_text(m: Val) -> Seq<char>
    decreases m, 1nat,
{
    encoded(m) + seq![',', ' ']
}

pub open spec fn items_text(xs: Seq<Val>) -> Seq<char>
    decreases xs, 0nat,
{
    if xs.len() == 0 {
        Seq::empty()
    } else {
        item_text(xs[0]) + items_text(xs.drop_first())
    }
}

pub proof fn lemma_items_model_push(xs: Seq<Value>, v: Value)
    ensures
        items_model(xs.push(v)) == items_model(xs).push(v.model()),
    decreases xs,
{
    if xs.len() == 0 {
        assert(xs.push(v).drop_first() =~= Seq::<Value>::empty());
        assert(xs.push(v)[0] == v);
        assert(xs.push(v).len() == 1);
        assert(items_model(Seq::<Value>::empty()) == Seq::<Val>::empty());
        assert(items_model(xs.push(v)) =~= items_model(xs).push(v.model()));
    } else {
        assert(xs.push(v).drop_first() =~= xs.drop_first().push(v));
        lemma_items_model_push(xs.drop_first(), v);
        assert(items_model(xs.push(v)) =~= items_model(xs).push(v.model()));
    }
}

pub proof fn lemma_entries_model_push(es: Seq<(String, Value)>, e: (String, Value))
    ensures
        entries_model(es.push(e)) == entries_model(es).push((e.0@, e.1.model())),
    decreases es,
{
    if es.len() == 0 {
        assert(es.push(e).drop_first() =~= Seq::<(String, Value)>::empty());
        assert(es.push(e)[0] == e);
        assert(es.push(e).len() == 1);
        assert(entries_model(Seq::<(String, Value)>::empty()) == Seq::<(Seq<char>, Val)>::empty());
        assert(entries_model(es.push(e)) =~= entries_model(es).push((e.0@, e.1.model())));
    } else {
        assert(es.push(e).drop_first() =~= es.drop_first().push(e));
        lemma_entries_model_push(es.drop_first(), e);
        assert(entries_model(es.push(e)) =~= entries_model(es).push((e.0@, e.1.model())));
    }
}

pub proof fn lemma_items_text_push(xs: Seq<Val>, m: Val)
    ensures
        items_text(xs.push(m)) == items_text(xs) + item_text(m),
    decreases xs,
{
    if xs.len() == 0 {
        assert(xs.push(m).drop_first() =~= Seq::<Val>::empty());
        assert(xs.push(m)[0] == m);
        assert(xs.push(m).len() == 1);
        assert(items_text(Seq::<Val>::empty()) == Seq::<char>::empty());
        assert(items_text(xs.push(m)) =~= items_text(xs) + item_text(m));
    } else {
        assert(xs.push(m).drop_first() =~= xs.drop_first().push(m));
        assert(xs.push(m)[0] == xs[0]);
        lemma_items_text_push(xs.drop_first(), m);
        assert(items_text(xs.push(m)) =~= items_text(xs) + item_text(m));
    }
}

pub proof fn lemma_entries_text_push(es: Seq<(Seq<char>, Val)>, e: (Seq<char>, Val))
    ensures
        entries_text(es.push(e)) == entries_text(es) + entry_text(e),
    decreases es,
{
    if es.len() == 0 {
        assert(es.push(e).drop_first() =~= Seq::<(Seq<char>, Val)>::empty());
        assert(es.push(e)[0] == e);
        assert(es.push(e).len() == 1);
        assert(entries_text(Seq::<(Seq<char>, Val)>::empty()) == Seq::<char>::empty());
        assert(entries_text(es.push(e)) =~= entries_text(es) + entry_text(e));
    } else {
        assert(es.push(e).drop_first() =~= es.drop_first().push(e));
        assert(es.push(e)[0] == es[0]);
        lemma_entries_text_push(es.drop_first(), e);
        assert(entries_text(es.push(e)) =~= entries_text(es) + entry_text(e));
    }
}

pub proof fn lemma_items_wf_index(xs: Seq<Value>, k: int)
    requires
        items_wf(xs),
        0 <= k < xs.len(),
    ensures
        xs[k].wf(),
    decreases xs,
{
    if k > 0 {
        lemma_items_wf_index(xs.drop_first(), k - 1);
    }
}

pub proof fn lemma_entries_wf_index(es: Seq<(String, Value)>, k: int)
    requires
        entries_wf(es),
        0 <= k < es.len(),
    ensures
        es[k].1.wf(),
    decreases es,
{
    if k > 0 {
        lemma_entries_wf_index(es.drop_first(), k - 1);
    }
}

/// The natural decimal rendering of a canonical decimal.
fn dec_string(d: &Dec) -> (r: String)
    requires
        d.wf(),
    ensures
        r@ == dec_text(d.model()),
{
    let ghost dm = d.model();
    if d.digits.len() == 0 {
        let mut r = String::new();
        r.push('0');
        r
    } else {
        let mut r = String::new();
        if d.neg {
            r.push('-');
        }
        let ghost sign: Seq<char> = if d.neg { seq!['-'] } else { Seq::empty() };
        assert(r@ =~= sign);
        let len: usize = d.digits.len();
        if d.exp >= 0 {
            let mut k: usize = 0;
            while k < len
                invariant
                    k <= len == d.digits.len(),
                    d.wf(),
                    dm == d.model(),
                    r@ == sign + digit_chars(dm.digits.take(k as int)),
                decreases len - k,
            {
                let dig = d.digits[k];
                assert(0 <= dm.digits[k as int] < 10);
                r.push((dig + 48) as char);
                proof {
                    assert(dm.digits.take(k + 1 as int) =~= dm.digits.take(k as int).push(
                        dm.digits[k as int],
                    ));
                    assert(digit_chars(dm.digits.take(k + 1 as int)) =~= digit_chars(
                        dm.digits.take(k as int),
                    ).push(digit_char(dm.digits[k as int])));
                }
                k = k + 1;
            }
            assert(dm.digits.take(len as int) =~= dm.digits);
            let mut j: i64 = 0;
            while j < d.exp
                invariant
                    0 <= j <= d.exp,
                    dm == d.model(),
                    r@ == sign + digit_chars(dm.digits) + zeros(j as int),
                decreases d.exp - j,
            {
                r.push('0');
                proof {
                    assert(zeros(j + 1 as int) =~= zeros(j as int).push('0'));
                }
                j = j + 1;
            }
            r
        } else {
            // magnitude of the (negative) exponent, as a width-safe integer
            let mag: u64 = (-(d.exp as i128)) as u64;
            let len64: u64 = len as u64;
            if mag < len64 {
                // the point falls inside the digit run
                let point: usize = len - (mag as usize);
                let ghost p = point as int;
                assert(p == dm.digits.len() + dm.exp);
                let mut k: usize = 0;
                while k < point
                    invariant
                        k <= point <= len == d.digits.len(),
                        d.wf(),
                        dm == d.model(),
                        r@ == sign + digit_chars(dm.digits.take(k as int)),
                    decreases point - k,
                {
                    let dig = d.digits[k];
                    assert(0 <= dm.digits[k as int] < 10);
                    r.push((dig + 48) as char);
                    proof {
                        assert(dm.digits.take(k + 1 as int) =~= dm.digits.take(k as int).push(
                            dm.digits[k as int],
                        ));
                        assert(digit_chars(dm.digits.take(k + 1 as int)) =~= digit_chars(
                            dm.digits.take(k as int),
                        ).push(digit_char(dm.digits[k as int])));
                    }
                    k = k + 1;
                }
                r.push('.');
                let mut k2: usize = point;
                while k2 < len
                    invariant
                        point <= k2 <= len == d.digits.len(),
                        d.wf(),
                        dm == d.model(),
                        p == point as int,
                        r@ == sign + digit_chars(dm.digits.take(p)) + seq!['.'] + digit_chars(
                            dm.digits.subrange(p, k2 as int),
                        ),
                    decreases len - k2,
                {
                    let dig = d.digits[k2];
                    assert(0 <= dm.digits[k2 as int] < 10);
                    r.push((dig + 48) as char);
                    proof {
                        assert(dm.digits.subrange(p, k2 + 1 as int) =~= dm.digits.subrange(
                            p,
                            k2 as int,
                        ).push(dm.digits[k2 as int]));
                        assert(digit_chars(dm.digits.subrange(p, k2 + 1 as int)) =~= digit_chars(
                            dm.digits.subrange(p, k2 as int),
                        ).push(digit_char(dm.digits[k2 as int])));
                    }
                    k2 = k2 + 1;
                }
                proof {
                    assert(dm.digits.subrange(p, len as int) =~= dm.digits.skip(p));
                }
                r
            } else {
                // the value is below one: a leading zero, then filler zeros
                let fill: u64 = mag - len64;
                r.push('0');
                r.push('.');
                assert(r@ =~= sign + seq!['0', '.']);
                let mut c: u64 = 0;
                while c < fill
                    invariant
                        c <= fill,
                        dm == d.model(),
                        r@ == sign + seq!['0', '.'] + zeros(c as int),
                    decreases fill - c,
                {
                    r.push('0');
                    proof {
                        assert(zeros(c + 1 as int) =~= zeros(c as int).push('0'));
                    }
                    c = c + 1;
                }
                assert(fill as int == -(dm.digits.len() + dm.exp));
                let mut k: usize = 0;
                while k < len
                    invariant
                        k <= len == d.digits.len(),
                        d.wf(),
                        dm == d.model(),
                        fill as int == -(dm.digits.len() + dm.exp),
                        r@ == sign + seq!['0', '.'] + zeros(fill as int) + digit_chars(
                            dm.digits.take(k as int),
                        ),
                    decreases len - k,
                {
                    let dig = d.digits[k];
                    assert(0 <= dm.digits[k as int] < 10);
                    r.push((dig + 48) as char);
                    proof {
                        assert(dm.digits.take(k + 1 as int) =~= dm.digits.take(k as int).push(
                            dm.digits[k as int],
                        ));
                        assert(digit_chars(dm.digits.take(k + 1 as int)) =~= digit_chars(
                            dm.digits.take(k as int),
                        ).push(digit_char(dm.digits[k as int])));
                    }
                    k = k + 1;
                }
                assert(dm.digits.take(len as int) =~= dm.digits);
                r
            }
        }
    }
}

impl Value {
    /// The interchange text of this value.
    #[verifier::loop_isolation(false)]
    pub fn to_json(&self) -> (r: String)
        requires
            self.wf(),
        ensures
            r@ == encoded(self.model()),
        decreases *self,
    {
        match self {
            Value::Integer(i) => i64_string(*i),
            Value::String(s) => {
                let mut r = String::new();
                r.push('"');
                r.append(s.as_str());
                r.push('"');
                assert(r@ =~= seq!['"'] + s@ + seq!['"']);
                r
            },
            Value::Float(d) => dec_string(d),
            Value::Boolean(b) => {
                proof {
                    reveal_strlit("true");
                    reveal_strlit("false");
                }
                if *b {
                    let r = String::from_str("true");
                    assert(r@ =~= seq!['t', 'r', 'u', 'e']);
                    r
                } else {
                    let r = String::from_str("false");
                    assert(r@ =~= seq!['f', 'a', 'l', 's', 'e']);
                    r
                }
            },
            Value::Null => {
                proof {
                    reveal_strlit("null");
                }
                let r = String::from_str("null");
                assert(r@ =~= seq!['n', 'u', 'l', 'l']);
                r
            },
            Value::Dictionary(es) => {
                let mut r = String::new();
                r.push('{');
                assert(r@ =~= seq!['{'] + entries_text(entries_model(es@.take(0))));
                let mut k: usize = 0;
                while k < es.len()
                    invariant
                        k <= es@.len(),
                        entries_wf(es@),
                        r@ == seq!['{'] + entries_text(entries_model(es@.take(k as int))),
                    decreases es@.len() - k,
                {
                    proof {
                        lemma_entries_wf_index(es@, k as int);
                        assert(decreases_to!(*self => self->Dictionary_0));
                        assert(self->Dictionary_0 == *es);
                        assert(decreases_to!(*es => es@[k as int]));
                        assert(decreases_to!(es@[k as int] => es@[k as int].1));
                        assert(decreases_to!(*self => es@[k as int].1));
                    }
                    let pair = &es[k];
                    r.push('"');
                    r.append(pair.0.as_str());
                    r.push('"');
                    r.push(':');
                    r.push(' ');
                    let vt = pair.1.to_json();
                    r.append(vt.as_str());
                    r.push(',');
                    r.push(' ');
                    proof {
                        assert(es@.take(k + 1 as int) =~= es@.take(k as int).push(es@[k as int]));
                        lemma_entries_model_push(es@.take(k as int), es@[k as int]);
                        lemma_entries_text_push(
                            entries_model(es@.take(k as int)),
                            (es@[k as int].0@, es@[k as int].1.model()),
                        );
                        assert(r@ =~= seq!['{'] + entries_text(
                            entries_model(es@.take(k + 1 as int)),
                        ));
                    }
                    k = k + 1;
                }
                assert(es@.take(es@.len() as int) =~= es@);
                r.push('}');
                r
            },
            Value::List(xs) => {
                let mut r = String::new();
                r.push('[');
                assert(r@ =~= seq!['['] + items_text(items_model(xs@.take(0))));
                let mut k: usize = 0;
                while k < xs.len()
                    invariant
                        k <= xs@.len(),
                        items_wf(xs@),
                        r@ == seq!['['] + items_text(items_model(xs@.take(k as int))),
                    decreases xs@.len() - k,
                {
                    proof {
                        lemma_items_wf_index(xs@, k as int);
                        assert(decreases_to!(*self => self->List_0));
                        assert(self->List_0 == *xs);
                        assert(decreases_to!(*xs => xs@[k as int]));
                        assert(decreases_to!(*self => xs@[k as int]));
                    }
                    let v = &xs[k];
                    let vt = v.to_json();
                    r.append(vt.as_str());
                    r.push(',');
                    r.push(' ');
                    proof {
                        assert(xs@.take(k + 1 as int) =~= xs@.take(k as int).push(xs@[k as int]));
                        lemma_items_model_push(xs@.take(k as int), xs@[k as int]);
                        lemma_items_text_push(
                            items_model(xs@.take(k as int)),
                            xs@[k as int].model(),
                        );
                        assert(r@ =~= seq!['['] + items_text(items_model(xs@.take(k + 1 as int))));
                    }
                    k = k + 1;
                }
                assert(xs@.take(xs@.len() as int) =~= xs@);
                r.push(']');
                r
            },
        }
    }

    /// The interchange text of an argument array: every element's text in
    /// order, as one list-shaped encoding.
    pub fn as_json(value: &[Value]) -> (r: String)
        requires
            items_wf(value@),
        ensures
            r@ == encoded(Val::Lst(items_model(value@))),
    {
        let mut r = String::new();
        r.push('[');
        assert(r@ =~= seq!['['] + items_text(items_model(value@.take(0))));
        let mut k: usize = 0;
        while k < value.len()
            invariant
                k <= value@.len(),
                items_wf(value@),
                r@ == seq!['['] + items_text(items_model(value@.take(k as int))),
            decreases value@.len() - k,
        {
            proof {
                lemma_items_wf_index(value@, k as int);
            }
            let v = vstd::slice::slice_index_get(value, k);
            let vt = v.to_json();
            r.append(vt.as_str());
            r.push(',');
            r.push(' ');
            proof {
                assert(value@.take(k + 1 as int) =~= value@.take(k as int).push(value@[k as int]));
                lemma_items_model_push(value@.take(k as int), value@[k as int]);
                lemma_items_text_push(items_model(value@.take(k as int)), value@[k as int].model());
                assert(r@ =~= seq!['['] + items_text(items_model(value@.take(k + 1 as int))));
            }
            k = k + 1;
        }
        assert(value@.take(value@.len() as int) =~= value@);
        r.push(']');
        r
    }
}


pub proof fn lemma_items_wf_all(xs: Seq<Value>)
    ensures
        items_wf(xs) == (forall|k: int| 0 <= k < xs.len() ==> (#[trigger] xs[k]).wf()),
    decreases xs,
{
    if xs.len() > 0 {
        lemma_items_wf_all(xs.drop_first());
        if items_wf(xs) {
            assert forall|k: int| 0 <= k < xs.len() implies (#[trigger] xs[k]).wf() by {
                if k > 0 {
                    assert(xs[k] == xs.drop_first()[k - 1]);
                }
            }
        }
        if forall|k: int| 0 <= k < xs.len() ==> (#[trigger] xs[k]).wf() {
            assert forall|k: int|
                0 <= k < xs.drop_first().len() implies (#[trigger] xs.drop_first()[k]).wf() by {
                assert(xs.drop_first()[k] == xs[k + 1]);
            }
        }
    }
}

pub proof fn lemma_entries_wf_all(es: Seq<(String, Value)>)
    ensures
        entries_wf(es) == (forall|k: int| 0 <= k < es.len() ==> (#[trigger] es[k]).1.wf()),
    decreases es,
{
    if es.len() > 0 {
        lemma_entries_wf_all(es.drop_first());
        if entries_wf(es) {
            assert forall|k: int| 0 <= k < es.len() implies (#[trigger] es[k]).1.wf() by {
                if k > 0 {
                    assert(es[k] == es.drop_first()[k - 1]);
                }
            }
        }
        if forall|k: int| 0 <= k < es.len() ==> (#[trigger] es[k]).1.wf() {
            assert forall|k: int|
                0 <= k < es.drop_first().len() implies (#[trigger] es.drop_first()[k]).1.wf() by {
                assert(es.drop_first()[k] == es[k + 1]);
            }
        }
    }
}

impl Dec {
    /// Whether this decimal is in the canonical form the encoder expects.
    pub fn check_wf(&self) -> (r: bool)
        ensures
            r == self.wf(),
    {
        let n = self.digits.len();
        if n == 0 {
            return self.exp == 0 && !self.neg;
        }
        if self.digits[0] == 0 || self.digits[n - 1] == 0 {
            return false;
        }
        let mut k: usize = 0;
        while k < n
            invariant
                k <= n == self.digits@.len(),
                forall|q: int| 0 <= q < k ==> #[trigger] self.digits@[q] < 10,
            decreases n - k,
        {
            if self.digits[k] >= 10 {
                assert(self.model().digits[k as int] >= 10);
                return false;
            }
            k = k + 1;
        }
        assert forall|q: int| 0 <= q < self.model().digits.len() implies 0 <= #[trigger] self.model().digits[q]
            < 10 by {
            assert(self.model().digits[q] == self.digits@[q] as int);
        }
        true
    }
}

impl Value {
    /// Whether every float payload in the tree is canonical, so the tree
    /// can be encoded.
    #[verifier::loop_isolation(false)]
    pub fn check_wf(&self) -> (r: bool)
        ensures
            r == self.wf(),
        decreases *self,
    {
        match self {
            Value::Float(d) => d.check_wf(),
            Value::Dictionary(es) => {
                proof {
                    lemma_entries_wf_all(es@);
                }
                let mut k: usize = 0;
                while k < es.len()
                    invariant
                        k <= es@.len(),
                        forall|q: int| 0 <= q < k ==> (#[trigger] es@[q]).1.wf(),
                    decreases es@.len() - k,
                {
                    proof {
                        assert(decreases_to!(*self => self->Dictionary_0));
                        assert(self->Dictionary_0 == *es);
                        assert(decreases_to!(*es => es@[k as int]));
                        assert(decreases_to!(es@[k as int] => es@[k as int].1));
                        assert(decreases_to!(*self => es@[k as int].1));
                    }
                    let pair = &es[k];
                    if !pair.1.check_wf() {
                        return false;
                    }
                    k = k + 1;
                }
                true
            },
            Value::List(xs) => {
                proof {
                    lemma_items_wf_all(xs@);
                }
                let mut k: usize = 0;
                while k < xs.len()
                    invariant
                        k <= xs@.len(),
                        forall|q: int| 0 <= q < k ==> (#[trigger] xs@[q]).wf(),
                    decreases xs@.len() - k,
                {
                    proof {
                        assert(decreases_to!(*self => self->List_0));
                        assert(self->List_0 == *xs);
                        assert(decreases_to!(*xs => xs@[k as int]));
                        assert(decreases_to!(*self => xs@[k as int]));
                    }
                    let v = &xs[k];
                    if !v.check_wf() {
                        return false;
                    }
                    k = k + 1;
                }
                true
            },
            _ => true,
        }
    }
}

} // verus!
