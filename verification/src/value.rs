//! Values, and what they stand for.

use crate::grammar::{is_digit, MAX_DEPTH};
use vstd::prelude::*;
use vstd::std_specs::cmp::PartialEqSpecImpl;
use vstd::string::StringExecFns;

verus! {

/// The exponent of a number: its sign and its digits.
pub struct ExponentModel {
    pub negative: bool,
    pub digits: Seq<char>,
}

/// A number as it was written: the sign, the digits before the decimal
/// point, those after it, and the exponent.
pub struct NumberModel {
    pub negative: bool,
    pub whole: Seq<char>,
    pub fraction: Option<Seq<char>>,
    pub exponent: Option<ExponentModel>,
}

/// The members of an object: keys with their values, each key once.
pub type Members = Seq<(Seq<char>, ValueModel)>;

/// What a `Value` stands for.
pub enum ValueModel {
    Text(Seq<char>),
    Number(NumberModel),
    Object(Members),
    Array(Seq<ValueModel>),
    Bool(bool),
    Null,
}

/// Whether `t` is made of decimal digits, and of at least one.
pub open spec fn is_digits(t: Seq<char>) -> bool {
    t.len() > 0 && forall|i: int| 0 <= i < t.len() ==> is_digit(#[trigger] t[i])
}

impl NumberModel {
    pub open spec fn valid(self) -> bool {
        &&& is_digits(self.whole)
        &&& self.fraction matches Some(f) ==> is_digits(f)
        &&& self.exponent matches Some(e) ==> is_digits(e.digits)
    }

    /// The number without its sign, written with `e` and without `+`.
    pub open spec fn magnitude(self) -> Seq<char> {
        self.whole + match self.fraction {
            Some(f) => seq!['.'] + f,
            None => Seq::empty(),
        } + match self.exponent {
            Some(e) => seq!['e'] + (if e.negative {
                seq!['-']
            } else {
                Seq::empty()
            }) + e.digits,
            None => Seq::empty(),
        }
    }
}

/// The first index at or after `from` at which `m` holds `key`, or the
/// length of `m`.
pub open spec fn key_index_from(m: Members, key: Seq<char>, from: int) -> int
    decreases m.len() - from,
{
    if 0 <= from < m.len() && m[from].0 != key {
        key_index_from(m, key, from + 1)
    } else {
        from
    }
}

/// The first index at which `m` holds `key`, or the length of `m`.
pub open spec fn key_index(m: Members, key: Seq<char>) -> int {
    key_index_from(m, key, 0)
}

/// What `m` holds for `key`.
pub open spec fn member(m: Members, key: Seq<char>) -> Option<ValueModel> {
    let i = key_index(m, key);
    if i < m.len() {
        Some(m[i].1)
    } else {
        None
    }
}

/// `m` with `value` for `key`: in the place of the value that `m` held for
/// `key`, or at the end.
pub open spec fn with_member(m: Members, key: Seq<char>, value: ValueModel) -> Members {
    let i = key_index(m, key);
    if i < m.len() {
        m.update(i, (key, value))
    } else {
        m.push((key, value))
    }
}

pub open spec fn distinct_keys(m: Members) -> bool {
    forall|i: int, j: int| 0 <= i < j < m.len() ==> (#[trigger] m[i]).0 != (#[trigger] m[j]).0
}

/// Whether two values are the same: strings, numbers and booleans alike,
/// arrays element by element, objects key by key, whatever the order of
/// their members.
pub open spec fn same_model(a: ValueModel, b: ValueModel) -> bool
    decreases a,
{
    match (a, b) {
        (ValueModel::Text(x), ValueModel::Text(y)) => x == y,
        (ValueModel::Number(x), ValueModel::Number(y)) => x == y,
        (ValueModel::Bool(x), ValueModel::Bool(y)) => x == y,
        (ValueModel::Null, ValueModel::Null) => true,
        (ValueModel::Array(x), ValueModel::Array(y)) => x.len() == y.len() && forall|i: int|
            0 <= i < x.len() ==> same_model(#[trigger] x[i], y[i]),
        (ValueModel::Object(x), ValueModel::Object(y)) => same_members(x, y),
        _ => false,
    }
}

/// Whether `x` and `y` have as many members, and `y` holds for each key of
/// `x` the same value as `x`.
pub open spec fn same_members(x: Members, y: Members) -> bool
    decreases x,
{
    x.len() == y.len() && forall|i: int|
        0 <= i < x.len() ==> key_index(y, (#[trigger] x[i]).0) < y.len() && same_model(
            x[i].1,
            y[key_index(y, x[i].0)].1,
        )
}

/// `key_index_from` is the first index from `from` on that holds `key`.
pub proof fn lemma_key_index_from(m: Members, key: Seq<char>, from: int)
    requires
        0 <= from <= m.len(),
    ensures
        from <= key_index_from(m, key, from) <= m.len(),
        key_index_from(m, key, from) < m.len() ==> m[key_index_from(m, key, from)].0 == key,
        forall|j: int| from <= j < key_index_from(m, key, from) ==> (#[trigger] m[j]).0 != key,
    decreases m.len() - from,
{
    if from < m.len() && m[from].0 != key {
        lemma_key_index_from(m, key, from + 1);
    }
}

/// `key_index` is the one index that holds `key` with none before it.
pub proof fn lemma_key_index(m: Members, key: Seq<char>, i: int)
    requires
        0 <= i <= m.len(),
        i < m.len() ==> m[i].0 == key,
        forall|j: int| 0 <= j < i ==> (#[trigger] m[j]).0 != key,
    ensures
        key_index(m, key) == i,
{
    lemma_key_index_from(m, key, 0);
}

/// Setting the value for a key keeps the keys distinct, and that value is
/// then what is held for the key.
pub proof fn lemma_with_member_distinct(m: Members, key: Seq<char>, value: ValueModel)
    requires
        distinct_keys(m),
    ensures
        distinct_keys(with_member(m, key, value)),
        member(with_member(m, key, value), key) == Some(value),
{
    lemma_key_index_from(m, key, 0);
    let i = key_index(m, key);
    let n = with_member(m, key, value);
    assert forall|a: int, b: int| 0 <= a < b < n.len() implies (#[trigger] n[a]).0 != (
    #[trigger] n[b]).0 by {
        if i < m.len() {
            assert(n[a].0 == m[a].0);
            assert(n[b].0 == m[b].0);
        } else if b < m.len() {
            assert(n[a] == m[a]);
            assert(n[b] == m[b]);
        } else {
            assert(n[a] == m[a]);
        }
    }
    assert forall|j: int| 0 <= j < i implies (#[trigger] n[j]).0 != key by {
        assert(n[j] == m[j]);
    }
    lemma_key_index(n, key, i);
}

/// Whether a value, inside `depth` arrays and objects, is one that a
/// document can hold: the parts of its numbers are digits, the keys of each
/// of its objects are distinct, and it is nested no deeper than `MAX_DEPTH`.
pub open spec fn value_valid(v: ValueModel, depth: nat) -> bool
    decreases v,
{
    match v {
        ValueModel::Number(n) => n.valid(),
        ValueModel::Array(items) => depth < MAX_DEPTH && forall|i: int|
            0 <= i < items.len() ==> value_valid(#[trigger] items[i], depth + 1),
        ValueModel::Object(members) => depth < MAX_DEPTH && distinct_keys(members) && forall|
            i: int,
        |
            0 <= i < members.len() ==> value_valid((#[trigger] members[i]).1, depth + 1),
        _ => true,
    }
}

/// Setting the value for one key leaves what is held for the other keys.
pub proof fn lemma_with_member_other(
    m: Members,
    key: Seq<char>,
    value: ValueModel,
    other: Seq<char>,
)
    requires
        other != key,
    ensures
        member(with_member(m, key, value), other) == member(m, other),
{
    lemma_key_index_from(m, key, 0);
    lemma_key_index_from(m, other, 0);
    let n = with_member(m, key, value);
    let at = key_index(m, other);
    assert forall|j: int| 0 <= j < at implies (#[trigger] n[j]).0 != other by {
        if j != key_index(m, key) {
            assert(n[j] == m[j]);
        }
    }
    if at < m.len() {
        assert(n[at] == m[at]);
        lemma_key_index(n, other, at);
    } else {
        lemma_key_index(n, other, n.len() as int);
    }
}

/// The exponent of a number: its sign and its digits.
#[derive(Debug, PartialEq)]
pub struct Exponent {
    pub negative: bool,
    pub digits: String,
}

impl View for Exponent {
    type V = ExponentModel;

    open spec fn view(&self) -> ExponentModel {
        ExponentModel { negative: self.negative, digits: self.digits@ }
    }
}

/// A number, held as it was written.
#[derive(Debug, PartialEq)]
pub struct Number {
    negative: bool,
    whole: String,
    fraction: Option<String>,
    exponent: Option<Exponent>,
}

/// An object: keys with their values, each key once, in the order in which
/// the keys came first. Two objects are equal when they hold the same value
/// for each key, whatever the order.
#[derive(Debug)]
pub struct Object {
    entries: Vec<(String, Value)>,
}

/// An array: values in their order.
pub type Array = Vec<Value>;

/// A JSON value.
#[derive(Debug)]
pub enum Value {
    VString(String),
    VNumber(Number),
    VObject(Object),
    VArray(Array),
    VBool(bool),
    VNull,
}

impl View for Number {
    type V = NumberModel;

    closed spec fn view(&self) -> NumberModel {
        NumberModel {
            negative: self.negative,
            whole: self.whole@,
            fraction: match self.fraction {
                Some(f) => Some(f@),
                None => None,
            },
            exponent: match self.exponent {
                Some(e) => Some(e@),
                None => None,
            },
        }
    }
}

/// What the values of `vs` stand for, in order.
pub open spec fn models(vs: Seq<Value>) -> Seq<ValueModel>
    decreases vs,
{
    Seq::new(
        vs.len(),
        |i: int|
            if 0 <= i < vs.len() {
                value_model(vs[i])
            } else {
                ValueModel::Null
            },
    )
}

/// What the entries `es` stand for, in order.
pub open spec fn member_models(es: Seq<(String, Value)>) -> Members
    decreases es,
{
    Seq::new(
        es.len(),
        |i: int|
            if 0 <= i < es.len() {
                (es[i].0@, value_model(es[i].1))
            } else {
                (Seq::empty(), ValueModel::Null)
            },
    )
}

pub open spec fn value_model(v: Value) -> ValueModel
    decreases v,
{
    match v {
        Value::VString(s) => ValueModel::Text(s@),
        Value::VNumber(n) => ValueModel::Number(n@),
        Value::VObject(o) => ValueModel::Object(o.members()),
        Value::VArray(a) => ValueModel::Array(models(a@)),
        Value::VBool(b) => ValueModel::Bool(b),
        Value::VNull => ValueModel::Null,
    }
}

impl View for Value {
    type V = ValueModel;

    open spec fn view(&self) -> ValueModel {
        value_model(*self)
    }
}

impl View for Object {
    type V = Members;

    open spec fn view(&self) -> Members {
        self.members()
    }
}

impl Number {
    #[verifier::type_invariant]
    spec fn inv(&self) -> bool {
        self@.valid()
    }

    /// The number made of these parts.
    pub(crate) fn from_parts(
        negative: bool,
        whole: String,
        fraction: Option<String>,
        exponent: Option<Exponent>,
    ) -> (n: Number)
        requires
            (NumberModel {
                negative,
                whole: whole@,
                fraction: match fraction {
                    Some(f) => Some(f@),
                    None => None,
                },
                exponent: match exponent {
                    Some(e) => Some(e@),
                    None => None,
                },
            }).valid(),
        ensures
            n@ == (NumberModel {
                negative,
                whole: whole@,
                fraction: match fraction {
                    Some(f) => Some(f@),
                    None => None,
                },
                exponent: match exponent {
                    Some(e) => Some(e@),
                    None => None,
                },
            }),
    {
        Number { negative, whole, fraction, exponent }
    }

    /// Whether the number has a minus sign; the parts of a number are made
    /// of digits.
    pub fn is_negative(&self) -> (b: bool)
        ensures
            b == self@.negative,
            self@.valid(),
    {
        proof {
            use_type_invariant(self);
        }
        self.negative
    }

    /// The digits before the decimal point.
    pub fn whole(&self) -> (t: &str)
        ensures
            t@ == self@.whole,
    {
        self.whole.as_str()
    }

    /// The digits after the decimal point.
    pub fn fraction(&self) -> (t: Option<&str>)
        ensures
            match t {
                Some(f) => self@.fraction == Some(f@),
                None => self@.fraction is None,
            },
    {
        match &self.fraction {
            Some(f) => Some(f.as_str()),
            None => None,
        }
    }

    /// The exponent.
    pub fn exponent(&self) -> (t: Option<&Exponent>)
        ensures
            match t {
                Some(e) => self@.exponent == Some(e@),
                None => self@.exponent is None,
            },
    {
        match &self.exponent {
            Some(e) => Some(e),
            None => None,
        }
    }
}

impl Number {
    /// The number without its sign, written with `e` and without `+`.
    pub fn magnitude(&self) -> (t: String)
        ensures
            t@ == self@.magnitude(),
    {
        let mut t = self.whole.clone();
        match &self.fraction {
            Some(f) => {
                t.push('.');
                t.append(f.as_str());
            },
            None => {},
        }
        let ghost head = t@;
        assert(head =~= self@.whole + match self@.fraction {
            Some(f) => seq!['.'] + f,
            None => Seq::empty(),
        });
        match &self.exponent {
            Some(e) => {
                t.push('e');
                if e.negative {
                    t.push('-');
                }
                t.append(e.digits.as_str());
                assert(t@ =~= head + (seq!['e'] + (if e.negative {
                    seq!['-']
                } else {
                    Seq::empty()
                }) + e.digits@));
            },
            None => {
                assert(t@ =~= head + Seq::<char>::empty());
            },
        }
        t
    }
}

impl Object {
    /// The members of the object, in the order in which their keys came
    /// first.
    pub closed spec fn members(&self) -> Members
        decreases self,
    {
        member_models(self.entries@)
    }

    #[verifier::type_invariant]
    spec fn inv(&self) -> bool {
        distinct_keys(self.members())
    }

    pub fn new() -> (o: Object)
        ensures
            o@ == Seq::<(Seq<char>, ValueModel)>::empty(),
    {
        Object { entries: Vec::new() }
    }

    /// The number of members; the keys are distinct.
    pub fn len(&self) -> (n: usize)
        ensures
            n == self@.len(),
            distinct_keys(self@),
    {
        proof {
            use_type_invariant(self);
        }
        self.entries.len()
    }

    /// The `i`-th member, if there are that many.
    pub fn entry(&self, i: usize) -> (r: Option<(&String, &Value)>)
        ensures
            r is Some <==> i < self@.len(),
            r matches Some((k, v)) ==> self@[i as int] == (k@, v@),
    {
        if i < self.entries.len() {
            Some((&self.entries[i].0, &self.entries[i].1))
        } else {
            None
        }
    }

    /// The value that the object holds for `key`.
    pub fn get(&self, key: &str) -> (r: Option<&Value>)
        ensures
            match r {
                Some(v) => member(self@, key@) == Some(v@),
                None => member(self@, key@) is None,
            },
    {
        let wanted = key.to_owned();
        let mut i: usize = 0;
        while i < self.entries.len() && !(self.entries[i].0 == wanted)
            invariant
                i <= self.entries.len(),
                wanted@ == key@,
                forall|j: int| 0 <= j < i ==> (#[trigger] self@[j]).0 != key@,
            decreases self.entries.len() - i,
        {
            assert(self@[i as int].0 == self.entries@[i as int].0@);
            i += 1;
        }
        proof {
            if i < self.entries.len() {
                assert(self@[i as int].0 == self.entries@[i as int].0@);
            }
            lemma_key_index(self@, key@, i as int);
        }
        if i < self.entries.len() {
            Some(&self.entries[i].1)
        } else {
            None
        }
    }

    /// The object with `value` for `key`: a key that the object holds keeps
    /// its place and gets the new value, a new key goes to the end.
    pub fn insert(self, key: String, value: Value) -> (o: Object)
        ensures
            o@ == with_member(self@, key@, value@),
            distinct_keys(o@),
    {
        proof {
            use_type_invariant(&self);
            lemma_with_member_distinct(self@, key@, value@);
        }
        let mut entries = self.entries;
        let mut i: usize = 0;
        while i < entries.len() && !(entries[i].0 == key)
            invariant
                i <= entries.len(),
                forall|j: int| 0 <= j < i ==> (#[trigger] member_models(entries@)[j]).0 != key@,
            decreases entries.len() - i,
        {
            assert(member_models(entries@)[i as int].0 == entries@[i as int].0@);
            i += 1;
        }
        proof {
            if i < entries.len() {
                assert(member_models(entries@)[i as int].0 == entries@[i as int].0@);
            }
            lemma_key_index(member_models(entries@), key@, i as int);
        }
        let ghost before = entries@;
        if i < entries.len() {
            entries.set(i, (key, value));
        } else {
            entries.push((key, value));
        }
        assert(member_models(entries@) =~= with_member(member_models(before), key@, value@));
        Object { entries }
    }
}

/// A copy of `v`.
#[verifier::loop_isolation(false)]
fn copy_value(v: &Value) -> (r: Value)
    ensures
        r@ == v@,
    decreases v,
{
    match v {
        Value::VString(s) => Value::VString(s.clone()),
        Value::VNumber(n) => Value::VNumber(n.clone()),
        Value::VObject(o) => {
            proof {
                use_type_invariant(o);
            }
            let entries = copy_entries(&o.entries);
            Value::VObject(Object { entries })
        },
        Value::VArray(a) => {
            let mut items: Vec<Value> = Vec::new();
            let mut i: usize = 0;
            while i < a.len()
                invariant
                    i <= a.len(),
                    items@.len() == i,
                    forall|k: int| 0 <= k < i ==> (#[trigger] items@[k])@ == a@[k]@,
                decreases a.len() - i,
            {
                items.push(copy_value(&a[i]));
                i += 1;
            }
            assert(models(items@) =~= models(a@));
            Value::VArray(items)
        },
        Value::VBool(b) => Value::VBool(*b),
        Value::VNull => Value::VNull,
    }
}

/// A copy of `entries`.
fn copy_entries(entries: &Vec<(String, Value)>) -> (r: Vec<(String, Value)>)
    ensures
        member_models(r@) == member_models(entries@),
    decreases entries,
{
    let mut all: Vec<(String, Value)> = Vec::new();
    let mut i: usize = 0;
    while i < entries.len()
        invariant
            i <= entries.len(),
            all@.len() == i,
            forall|k: int|
                0 <= k < i ==> (#[trigger] all@[k]).0@ == entries@[k].0@ && all@[k].1@
                    == entries@[k].1@,
        decreases entries.len() - i,
    {
        all.push((entries[i].0.clone(), copy_value(&entries[i].1)));
        i += 1;
    }
    assert(member_models(all@) =~= member_models(entries@));
    all
}

impl Clone for Exponent {
    fn clone(&self) -> (r: Exponent)
        ensures
            r@ == self@,
    {
        Exponent { negative: self.negative, digits: self.digits.clone() }
    }
}

impl Clone for Number {
    fn clone(&self) -> (r: Number)
        ensures
            r@ == self@,
    {
        proof {
            use_type_invariant(self);
        }
        Number {
            negative: self.negative,
            whole: self.whole.clone(),
            fraction: match &self.fraction {
                Some(f) => Some(f.clone()),
                None => None,
            },
            exponent: match &self.exponent {
                Some(e) => Some(e.clone()),
                None => None,
            },
        }
    }
}

impl Clone for Object {
    fn clone(&self) -> (r: Object)
        ensures
            r@ == self@,
    {
        proof {
            use_type_invariant(self);
        }
        Object { entries: copy_entries(&self.entries) }
    }
}

impl Clone for Value {
    fn clone(&self) -> (r: Value)
        ensures
            r@ == self@,
    {
        copy_value(self)
    }
}

/// Whether `a` and `b` are the same number, part by part.
fn same_number(a: &Number, b: &Number) -> (r: bool)
    ensures
        r == (a@ == b@),
{
    let fraction = match (&a.fraction, &b.fraction) {
        (Some(x), Some(y)) => {
            let same = *x == *y;
            assert(same == (x@ == y@));
            same
        },
        (None, None) => true,
        _ => false,
    };
    let exponent = match (&a.exponent, &b.exponent) {
        (Some(x), Some(y)) => x.negative == y.negative && x.digits == y.digits,
        (None, None) => true,
        _ => false,
    };
    assert(fraction == (a@.fraction == b@.fraction));
    assert(exponent == (a@.exponent == b@.exponent));
    a.negative == b.negative && a.whole == b.whole && fraction && exponent
}

/// Whether `a` and `b` are the same value.
#[verifier::loop_isolation(false)]
fn same_value(a: &Value, b: &Value) -> (r: bool)
    ensures
        r == same_model(a@, b@),
    decreases a,
{
    match (a, b) {
        (Value::VString(x), Value::VString(y)) => {
            let same = *x == *y;
            assert(same == same_model(a@, b@));
            same
        },
        (Value::VNumber(x), Value::VNumber(y)) => {
            let same = same_number(x, y);
            assert(same == same_model(a@, b@));
            same
        },
        (Value::VBool(x), Value::VBool(y)) => {
            let same = *x == *y;
            assert(same == same_model(a@, b@));
            same
        },
        (Value::VNull, Value::VNull) => true,
        (Value::VArray(x), Value::VArray(y)) => {
            if x.len() != y.len() {
                assert(!same_model(a@, b@));
                return false;
            }
            let mut i: usize = 0;
            while i < x.len()
                invariant
                    i <= x.len(),
                    forall|k: int| 0 <= k < i ==> same_model(#[trigger] models(x@)[k], models(y@)[k]),
                decreases x.len() - i,
            {
                if !same_value(&x[i], &y[i]) {
                    assert(!same_model(models(x@)[i as int], models(y@)[i as int]));
                    return false;
                }
                i += 1;
            }
            assert(a@ == ValueModel::Array(models(x@)) && b@ == ValueModel::Array(models(y@)));
            assert(models(x@).len() == models(y@).len());
            assert(same_model(a@, b@));
            true
        },
        (Value::VObject(x), Value::VObject(y)) => {
            let same = same_object(x, y);
            assert(same == same_model(a@, b@));
            same
        },
        _ => {
            assert(!same_model(a@, b@));
            false
        },
    }
}

/// Whether `x` and `y` hold the same value for each key.
#[verifier::loop_isolation(false)]
fn same_object(x: &Object, y: &Object) -> (r: bool)
    ensures
        r == same_members(x@, y@),
    decreases x,
{
    if x.entries.len() != y.entries.len() {
        return false;
    }
    let mut i: usize = 0;
    while i < x.entries.len()
        invariant
            i <= x.entries.len(),
            forall|k: int|
                0 <= k < i ==> key_index(y@, (#[trigger] x@[k]).0) < y@.len() && same_model(
                    x@[k].1,
                    y@[key_index(y@, x@[k].0)].1,
                ),
        decreases x.entries.len() - i,
    {
        assert(x@[i as int] == (x.entries@[i as int].0@, x.entries@[i as int].1@));
        match y.get(x.entries[i].0.as_str()) {
            None => {
                return false;
            },
            Some(v) => {
                if !same_value(&x.entries[i].1, v) {
                    return false;
                }
            },
        }
        i += 1;
    }
    true
}

impl PartialEq for Object {
    fn eq(&self, other: &Object) -> (r: bool) {
        same_object(self, other)
    }
}

impl PartialEqSpecImpl for Object {
    open spec fn obeys_eq_spec() -> bool {
        true
    }

    open spec fn eq_spec(&self, other: &Object) -> bool {
        same_members(self@, other@)
    }
}

impl PartialEq for Value {
    fn eq(&self, other: &Value) -> (r: bool) {
        same_value(self, other)
    }
}

impl PartialEqSpecImpl for Value {
    open spec fn obeys_eq_spec() -> bool {
        true
    }

    open spec fn eq_spec(&self, other: &Value) -> bool {
        same_model(self@, other@)
    }
}

} // verus!
