//! Value types of the tree: the `ValType` tags and the grammar of `<type>`
//! tokens.

use vstd::prelude::*;

verus! {

use crate::node::Node;
use crate::text::{
    str_eq, parse_i64_text, parse_i64, i64_text, i64_to_string, find_index, lemma_find_index,
    find_char, all_dec_digits, all_digits_check,
};
use vstd::string::StrSliceExecFns;

/// The type tag of a tree value. It determines both the storage
/// representation and how an `update` parses its text argument.
#[derive(Clone, Copy, Debug, PartialEq, Eq, Structural)]
pub enum ValType {
    Empty,
    Boolean,
    Integer,
    Float,
    String,
    Mapping,
}

/// The value type named by a `<type>` token of the protocol, if any.
pub open spec fn valtype_of_text(s: Seq<char>) -> Option<ValType> {
    if s == "empty"@ {
        Some(ValType::Empty)
    } else if s == "boolean"@ {
        Some(ValType::Boolean)
    } else if s == "integer"@ {
        Some(ValType::Integer)
    } else if s == "float"@ {
        Some(ValType::Float)
    } else if s == "string"@ {
        Some(ValType::String)
    } else if s == "map"@ {
        Some(ValType::Mapping)
    } else {
        None
    }
}

impl ValType {
    /// Parse a `<type>` token: one of `empty|boolean|integer|float|string|map`.
    pub fn from_str(s: &str) -> (r: Result<ValType, &'static str>)
        ensures
            match r {
                Ok(vt) => valtype_of_text(s@) == Some(vt),
                Err(m) => valtype_of_text(s@) is None && m@ == "invalid type"@,
            },
    {
        if str_eq(s, "empty") {
            Ok(ValType::Empty)
        } else if str_eq(s, "boolean") {
            Ok(ValType::Boolean)
        } else if str_eq(s, "integer") {
            Ok(ValType::Integer)
        } else if str_eq(s, "float") {
            Ok(ValType::Float)
        } else if str_eq(s, "string") {
            Ok(ValType::String)
        } else if str_eq(s, "map") {
            Ok(ValType::Mapping)
        } else {
            Err("invalid type")
        }
    }
}

/// The mathematical content of a tree value: payloads as sequences and
/// unbounded integers, a mapping as a finite map from child name to child
/// value (insertion order is irrelevant, names are unique).
pub ghost enum ValueView {
    Empty,
    Boolean(bool),
    Integer(int),
    Float(Seq<char>),
    String(Seq<char>),
    Mapping(Map<Seq<char>, ValueView>),
}

/// A tree value: the payload of one node. A `Float` holds the literal text
/// of the floating-point number, checked against the float grammar when it
/// was stored; a `Mapping` holds the children as a list of pairs whose
/// names are unique (see `value_wf`).
#[derive(Debug)]
pub enum Value {
    Empty,
    Boolean(bool),
    Integer(i64),
    Float(String),
    String(String),
    Mapping(Vec<(String, Node)>),
}

pub open spec fn value_view(v: Value) -> ValueView
    decreases v,
{
    match v {
        Value::Empty => ValueView::Empty,
        Value::Boolean(b) => ValueView::Boolean(b),
        Value::Integer(i) => ValueView::Integer(i as int),
        Value::Float(t) => ValueView::Float(t@),
        Value::String(s) => ValueView::String(s@),
        Value::Mapping(es) => ValueView::Mapping(entries_view(es@)),
    }
}

/// The finite map written by a list of child entries; with a duplicated
/// name (which `value_wf` rules out) the later entry wins.
pub open spec fn entries_view(es: Seq<(String, Node)>) -> Map<Seq<char>, ValueView>
    decreases es,
{
    if es.len() == 0 {
        Map::empty()
    } else {
        entries_view(es.drop_last()).insert(es.last().0@, value_view(es.last().1.value))
    }
}

impl View for Value {
    type V = ValueView;

    open spec fn view(&self) -> ValueView {
        value_view(*self)
    }
}

/// Child names are unique within each entry list.
pub open spec fn entries_unique(es: Seq<(String, Node)>) -> bool {
    forall|i: int, j: int|
        0 <= i < j < es.len() ==> (#[trigger] es[i].0)@ != (#[trigger] es[j].0)@
}

/// Well-formedness of a value: every mapping in it has unique child names.
pub open spec fn value_wf(v: Value) -> bool
    decreases v,
{
    match v {
        Value::Mapping(es) => entries_unique(es@) && (forall|i: int|
            0 <= i < es@.len() ==> value_wf((#[trigger] es@[i]).1.value)),
        _ => true,
    }
}

/// The type tag of a value.
pub open spec fn valtype_of(v: ValueView) -> ValType {
    match v {
        ValueView::Empty => ValType::Empty,
        ValueView::Boolean(_) => ValType::Boolean,
        ValueView::Integer(_) => ValType::Integer,
        ValueView::Float(_) => ValType::Float,
        ValueView::String(_) => ValType::String,
        ValueView::Mapping(_) => ValType::Mapping,
    }
}

/// The default value a `create` gives a fresh node of each type.
pub open spec fn default_view(vt: ValType) -> ValueView {
    match vt {
        ValType::Empty => ValueView::Empty,
        ValType::Boolean => ValueView::Boolean(false),
        ValType::Integer => ValueView::Integer(0),
        ValType::Float => ValueView::Float("0"@),
        ValType::String => ValueView::String(Seq::empty()),
        ValType::Mapping => ValueView::Mapping(Map::empty()),
    }
}

/// The textual form of a value on the wire: primitives print their natural
/// text form, `Empty` prints a fixed token, and a mapping (which the
/// protocol never needs to print) a fixed token of its own.
pub open spec fn val_text(v: ValueView) -> Seq<char> {
    match v {
        ValueView::Empty => "empty"@,
        ValueView::Boolean(b) => if b {
            "true"@
        } else {
            "false"@
        },
        ValueView::Integer(i) => i64_text(i),
        ValueView::Float(t) => t,
        ValueView::String(s) => s,
        ValueView::Mapping(_) => "map"@,
    }
}

/// The lower-case form of an ASCII letter, any other character unchanged.
pub open spec fn ascii_lower(c: char) -> char {
    if 65 <= c as u32 <= 90 {
        ((c as u32 + 32) as u8) as char
    } else {
        c
    }
}

/// `a` equals `b` up to ASCII case.
pub open spec fn eq_ignorecase(a: Seq<char>, b: Seq<char>) -> bool {
    a.len() == b.len() && forall|j: int| 0 <= j < a.len() ==> ascii_lower(#[trigger] a[j]) == ascii_lower(b[j])
}

/// The digits of a float literal's mantissa, with at most one point and at
/// least one digit: `Digit+`, `Digit+ '.' Digit*` or `Digit* '.' Digit+`.
pub open spec fn mantissa_valid(m: Seq<char>) -> bool {
    match find_index(m, '.') {
        None => m.len() > 0 && all_dec_digits(m),
        Some(i) => {
            let a = m.take(i);
            let b = m.skip(i + 1);
            all_dec_digits(a) && all_dec_digits(b) && (a.len() > 0 || b.len() > 0)
        },
    }
}

/// An exponent part after the marker: an optional sign, then digits.
pub open spec fn exponent_valid(x: Seq<char>) -> bool {
    let d = if x.len() > 0 && (x[0] == '+' || x[0] == '-') {
        x.skip(1)
    } else {
        x
    };
    d.len() > 0 && all_dec_digits(d)
}

/// Position of the first exponent marker `e` or `E`, if any.
pub open spec fn find_exp_marker(s: Seq<char>) -> Option<int>
    decreases s.len(),
{
    if s.len() == 0 {
        None
    } else if s[0] == 'e' || s[0] == 'E' {
        Some(0int)
    } else {
        match find_exp_marker(s.skip(1)) {
            Some(i) => Some(i + 1),
            None => None,
        }
    }
}

/// Whether `s` is a float literal under the grammar `std` documents for
/// `f64::from_str`: an optional sign, then `inf`, `infinity` or `nan` up to
/// case, or a mantissa with an optional exponent. Every literal of that
/// grammar parses to some 64-bit floating-point number.
pub open spec fn float_text_valid(s: Seq<char>) -> bool {
    let body = if s.len() > 0 && (s[0] == '+' || s[0] == '-') {
        s.skip(1)
    } else {
        s
    };
    ||| eq_ignorecase(body, "inf"@)
    ||| eq_ignorecase(body, "infinity"@)
    ||| eq_ignorecase(body, "nan"@)
    ||| match find_exp_marker(body) {
        None => mantissa_valid(body),
        Some(i) => mantissa_valid(body.take(i)) && exponent_valid(body.skip(i + 1)),
    }
}

proof fn lemma_find_exp_marker(s: Seq<char>)
    ensures
        match find_exp_marker(s) {
            Some(i) => 0 <= i < s.len() && (s[i] == 'e' || s[i] == 'E') && (forall|j: int|
                0 <= j < i ==> !(#[trigger] s[j] == 'e' || s[j] == 'E')),
            None => forall|j: int| 0 <= j < s.len() ==> !(#[trigger] s[j] == 'e' || s[j] == 'E'),
        },
    decreases s.len(),
{
    if s.len() > 0 && !(s[0] == 'e' || s[0] == 'E') {
        lemma_find_exp_marker(s.skip(1));
        assert(forall|j: int| 1 <= j < s.len() ==> s[j] == s.skip(1)[j - 1]);
    }
}

/// Position of the first `e` or `E` of `s`, if any.
fn find_exp_marker_char(s: &str) -> (r: Option<usize>)
    ensures
        match r {
            Some(i) => find_exp_marker(s@) == Some(i as int),
            None => find_exp_marker(s@) is None,
        },
{
    proof {
        lemma_find_exp_marker(s@);
    }
    let len = s.unicode_len();
    let mut i: usize = 0;
    while i < len
        invariant
            len == s@.len(),
            0 <= i <= len,
            forall|j: int| 0 <= j < i ==> !(#[trigger] s@[j] == 'e' || s@[j] == 'E'),
        decreases len - i,
    {
        let c = s.get_char(i);
        if c == 'e' || c == 'E' {
            proof {
                lemma_find_exp_marker(s@);
            }
            return Some(i);
        }
        i += 1;
    }
    None
}

fn lower_char(c: char) -> (r: char)
    ensures
        r == ascii_lower(c),
{
    let u = c as u32;
    if 65 <= u && u <= 90 {
        ((u + 32) as u8) as char
    } else {
        c
    }
}

fn str_eq_ignorecase(a: &str, b: &str) -> (r: bool)
    ensures
        r == eq_ignorecase(a@, b@),
{
    let alen = a.unicode_len();
    let blen = b.unicode_len();
    if alen != blen {
        return false;
    }
    let mut i: usize = 0;
    while i < alen
        invariant
            a@.len() == alen,
            b@.len() == blen,
            alen == blen,
            0 <= i <= alen,
            forall|j: int| 0 <= j < i ==> ascii_lower(#[trigger] a@[j]) == ascii_lower(b@[j]),
        decreases alen - i,
    {
        if lower_char(a.get_char(i)) != lower_char(b.get_char(i)) {
            return false;
        }
        i += 1;
    }
    true
}

fn mantissa_check(m: &str) -> (r: bool)
    ensures
        r == mantissa_valid(m@),
{
    let len = m.unicode_len();
    match find_char(m, '.') {
        None => len > 0 && all_digits_check(m),
        Some(i) => {
            proof {
                lemma_find_index(m@, '.');
            }
            let a = m.substring_char(0, i);
            let b = m.substring_char(i + 1, len);
            proof {
                assert(a@ =~= m@.take(i as int));
                assert(b@ =~= m@.skip(i + 1));
            }
            let ra = all_digits_check(a);
            let rb = all_digits_check(b);
            ra && rb && (i > 0 || i + 1 < len)
        },
    }
}

fn exponent_check(x: &str) -> (r: bool)
    ensures
        r == exponent_valid(x@),
{
    let len = x.unicode_len();
    let start: usize = if len > 0 && (x.get_char(0) == '+' || x.get_char(0) == '-') {
        1
    } else {
        0
    };
    let d = x.substring_char(start, len);
    proof {
        if start == 1 {
            assert(d@ =~= x@.skip(1));
        } else {
            assert(d@ =~= x@);
        }
    }
    let rd = all_digits_check(d);
    start < len && rd
}

/// Whether `s` is a float literal: the executable form of
/// `float_text_valid`.
fn float_text_check(s: &str) -> (r: bool)
    ensures
        r == float_text_valid(s@),
{
    let len = s.unicode_len();
    let start: usize = if len > 0 && (s.get_char(0) == '+' || s.get_char(0) == '-') {
        1
    } else {
        0
    };
    let body = s.substring_char(start, len);
    proof {
        if start == 1 {
            assert(body@ =~= s@.skip(1));
        } else {
            assert(body@ =~= s@);
        }
    }
    if str_eq_ignorecase(body, "inf") || str_eq_ignorecase(body, "infinity") || str_eq_ignorecase(
        body,
        "nan",
    ) {
        return true;
    }
    let blen = body.unicode_len();
    let marker = find_exp_marker_char(body);
    proof {
        lemma_find_exp_marker(body@);
    }
    match marker {
        None => mantissa_check(body),
        Some(i) => {
            let mant = body.substring_char(0, i);
            let exp = body.substring_char(i + 1, blen);
            proof {
                assert(mant@ =~= body@.take(i as int));
                assert(exp@ =~= body@.skip(i + 1));
            }
            let rm = mantissa_check(mant);
            let re = exponent_check(exp);
            rm && re
        },
    }
}

/// The value written by the text `s` read at type `vt`, or the error the
/// store reports: `update` parses its argument against the current type of
/// the target node, and a mapping has no textual form at all.
pub open spec fn parse_value_text(s: Seq<char>, vt: ValType) -> Result<ValueView, Seq<char>> {
    match vt {
        ValType::Empty => Ok(ValueView::Empty),
        ValType::Boolean => if s == "true"@ {
            Ok(ValueView::Boolean(true))
        } else if s == "false"@ {
            Ok(ValueView::Boolean(false))
        } else {
            Err("invalid boolean"@)
        },
        ValType::Integer => match parse_i64_text(s) {
            Some(v) => Ok(ValueView::Integer(v)),
            None => Err("invalid integer"@),
        },
        ValType::Float => if float_text_valid(s) {
            Ok(ValueView::Float(s))
        } else {
            Err("invalid float"@)
        },
        ValType::String => Ok(ValueView::String(s)),
        ValType::Mapping => Err("can't update a map node"@),
    }
}

impl Value {
    /// The type tag of this value.
    pub fn valtype(&self) -> (t: ValType)
        ensures
            t == valtype_of(self@),
    {
        match *self {
            Value::Empty => ValType::Empty,
            Value::Boolean(_) => ValType::Boolean,
            Value::Integer(_) => ValType::Integer,
            Value::Float(_) => ValType::Float,
            Value::String(_) => ValType::String,
            Value::Mapping(_) => ValType::Mapping,
        }
    }

    /// Parse `s` as a value of type `valtype`.
    pub fn from_str(s: &str, valtype: &ValType) -> (r: Result<Value, &'static str>)
        ensures
            match r {
                Ok(v) => parse_value_text(s@, *valtype) == Ok::<ValueView, Seq<char>>(v@)
                    && value_wf(v),
                Err(m) => parse_value_text(s@, *valtype) == Err::<ValueView, Seq<char>>(m@),
            },
    {
        match *valtype {
            ValType::Empty => Ok(Value::Empty),
            ValType::Boolean => if str_eq(s, "true") {
                Ok(Value::Boolean(true))
            } else if str_eq(s, "false") {
                Ok(Value::Boolean(false))
            } else {
                Err("invalid boolean")
            },
            ValType::Integer => match parse_i64(s) {
                Some(v) => Ok(Value::Integer(v)),
                None => Err("invalid integer"),
            },
            ValType::Float => if float_text_check(s) {
                Ok(Value::Float(s.to_owned()))
            } else {
                Err("invalid float")
            },
            ValType::String => Ok(Value::String(s.to_owned())),
            ValType::Mapping => Err("can't update a map node"),
        }
    }

    /// The textual form of this value on the wire.
    pub fn to_text(&self) -> (r: String)
        ensures
            r@ == val_text(self@),
    {
        match self {
            Value::Empty => "empty".to_owned(),
            Value::Boolean(b) => if *b {
                "true".to_owned()
            } else {
                "false".to_owned()
            },
            Value::Integer(i) => i64_to_string(*i),
            Value::Float(t) => t.clone(),
            Value::String(s) => s.clone(),
            Value::Mapping(_) => "map".to_owned(),
        }
    }

    /// A structural copy: the same view, and well-formed where the original
    /// is.
    pub fn deep_clone(&self) -> (r: Value)
        ensures
            r@ == self@,
            value_wf(*self) ==> value_wf(r),
        decreases self,
    {
        match self {
            Value::Empty => Value::Empty,
            Value::Boolean(b) => Value::Boolean(*b),
            Value::Integer(i) => Value::Integer(*i),
            Value::Float(t) => Value::Float(t.clone()),
            Value::String(s) => Value::String(s.clone()),
            Value::Mapping(es) => {
                let mut out: Vec<(String, Node)> = Vec::new();
                let mut i: usize = 0;
                while i < es.len()
                    invariant
                        *self == Value::Mapping(*es),
                        out@.len() == i,
                        0 <= i <= es@.len(),
                        forall|j: int|
                            0 <= j < i ==> (#[trigger] out@[j]).0@ == es@[j].0@ && out@[j].1.value@
                                == es@[j].1.value@ && (value_wf(es@[j].1.value) ==> value_wf(
                                out@[j].1.value,
                            )),
                    decreases es@.len() - i,
                {
                    proof {
                        assert(decreases_to!(*self => (*self)->Mapping_0));
                        assert((*self)->Mapping_0 == *es);
                        assert(decreases_to!(*es => es@));
                        assert(decreases_to!(es@ => es@[i as int]));
                        assert(decreases_to!(es@[i as int] => es@[i as int].1));
                        assert(decreases_to!(es@[i as int].1 => es@[i as int].1.value));
                        assert(decreases_to!(*self => es@[i as int].1.value));
                    }
                    let key = es[i].0.clone();
                    let child = es[i].1.value.deep_clone();
                    out.push((key, Node { value: child }));
                    i += 1;
                }
                proof {
                    lemma_entries_view_congruent(out@, es@);
                    if value_wf(*self) {
                        assert(entries_unique(out@));
                    }
                }
                Value::Mapping(out)
            },
        }
    }
}

/// For every type tag, the default value a `create` installs has that same
/// tag, and its textual form is the fixed default for the tag: `empty`'s
/// token, `false`, `0`, `0` for the float, the empty string, and the empty
/// mapping's token.
pub proof fn lemma_default_value(vt: ValType)
    ensures
        valtype_of(default_view(vt)) == vt,
        val_text(default_view(vt)) == match vt {
            ValType::Empty => "empty"@,
            ValType::Boolean => "false"@,
            ValType::Integer => "0"@,
            ValType::Float => "0"@,
            ValType::String => Seq::<char>::empty(),
            ValType::Mapping => "map"@,
        },
{
    reveal_strlit("0");
    assert(i64_text(0) =~= "0"@);
}

/// Entry lists whose names and child values agree pointwise write the same
/// finite map.
pub proof fn lemma_entries_view_congruent(a: Seq<(String, Node)>, b: Seq<(String, Node)>)
    requires
        a.len() == b.len(),
        forall|j: int|
            0 <= j < a.len() ==> (#[trigger] a[j]).0@ == b[j].0@ && a[j].1.value@ == b[j].1.value@,
    ensures
        entries_view(a) == entries_view(b),
    decreases a.len(),
{
    if a.len() > 0 {
        assert(forall|j: int|
            0 <= j < a.drop_last().len() ==> (#[trigger] a.drop_last()[j]) == a[j]
                && b.drop_last()[j] == b[j]);
        lemma_entries_view_congruent(a.drop_last(), b.drop_last());
    }
}

} // verus!
