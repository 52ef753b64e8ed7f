//! Attributes: a key with a value.

use vstd::prelude::*;

verus! {

/// What an [`Array`] holds.
pub enum ArrayView {
    Bool(Seq<bool>),
    I64(Seq<i64>),
    F64(Seq<u64>),
    String(Seq<Seq<char>>),
}

/// What a [`Value`] holds.
pub enum ValueView {
    Bool(bool),
    I64(i64),
    F64(u64),
    String(Seq<char>),
    Array(ArrayView),
}

/// What a [`KeyValue`] holds.
pub struct KeyValueView {
    pub key: Seq<char>,
    pub value: ValueView,
}

/// The key of an attribute.
#[derive(Debug)]
pub struct Key(String);

/// An array of values of one kind. Floating-point values are held by their bits.
#[derive(Debug)]
pub enum Array {
    Bool(Vec<bool>),
    I64(Vec<i64>),
    F64(Vec<u64>),
    String(Vec<String>),
}

/// The value of an attribute. A floating-point value is held by its bits, and two such
/// values are the same when their bits are.
#[derive(Debug)]
pub enum Value {
    Bool(bool),
    I64(i64),
    F64(u64),
    String(String),
    Array(Array),
}

/// One attribute.
#[derive(Debug)]
pub struct KeyValue {
    pub key: Key,
    pub value: Value,
}

/// What the strings of `s` hold, one by one.
pub open spec fn string_views(s: Seq<String>) -> Seq<Seq<char>> {
    s.map_values(|x: String| x@)
}

/// What the attributes of `s` hold, one by one.
pub open spec fn attr_views(s: Seq<KeyValue>) -> Seq<KeyValueView> {
    s.map_values(|x: KeyValue| x@)
}

impl View for Key {
    type V = Seq<char>;

    closed spec fn view(&self) -> Seq<char> {
        self.0@
    }
}

impl View for Array {
    type V = ArrayView;

    open spec fn view(&self) -> ArrayView {
        match *self {
            Array::Bool(v) => ArrayView::Bool(v@),
            Array::I64(v) => ArrayView::I64(v@),
            Array::F64(v) => ArrayView::F64(v@),
            Array::String(v) => ArrayView::String(string_views(v@)),
        }
    }
}

impl View for Value {
    type V = ValueView;

    open spec fn view(&self) -> ValueView {
        match *self {
            Value::Bool(b) => ValueView::Bool(b),
            Value::I64(i) => ValueView::I64(i),
            Value::F64(bits) => ValueView::F64(bits),
            Value::String(s) => ValueView::String(s@),
            Value::Array(a) => ValueView::Array(a@),
        }
    }
}

impl View for KeyValue {
    type V = KeyValueView;

    open spec fn view(&self) -> KeyValueView {
        KeyValueView { key: self.key@, value: self.value@ }
    }
}

impl Key {
    /// The key as a string slice.
    pub fn as_str(&self) -> (s: &str)
        ensures
            s@ == self@,
    {
        self.0.as_str()
    }
}

impl Clone for Key {
    fn clone(&self) -> (copy: Self)
        ensures
            copy@ == self@,
    {
        Key(self.0.clone())
    }
}

impl From<&str> for Key {
    fn from(s: &str) -> (key: Self)
        ensures
            key@ == s@,
    {
        Key(s.to_string())
    }
}

impl vstd::std_specs::convert::FromSpecImpl<&str> for Key {
    open spec fn obeys_from_spec() -> bool {
        false
    }

    open spec fn from_spec(s: &str) -> Self {
        arbitrary()
    }
}

impl From<String> for Key {
    fn from(s: String) -> (key: Self)
        ensures
            key@ == s@,
    {
        Key(s)
    }
}

impl vstd::std_specs::convert::FromSpecImpl<String> for Key {
    open spec fn obeys_from_spec() -> bool {
        false
    }

    open spec fn from_spec(s: String) -> Self {
        arbitrary()
    }
}

impl KeyValue {
    /// The attribute with this key and this value.
    pub fn new<K: Into<Key>, V: Into<Value>>(key: K, value: V) -> (kv: Self)
        ensures
            call_ensures(K::into, (key,), kv.key),
            call_ensures(V::into, (value,), kv.value),
    {
        KeyValue { key: key.into(), value: value.into() }
    }
}

impl From<bool> for Value {
    fn from(b: bool) -> (value: Self) {
        Value::Bool(b)
    }
}

impl vstd::std_specs::convert::FromSpecImpl<bool> for Value {
    open spec fn obeys_from_spec() -> bool {
        true
    }

    open spec fn from_spec(b: bool) -> Self {
        Value::Bool(b)
    }
}

impl From<i64> for Value {
    fn from(i: i64) -> (value: Self) {
        Value::I64(i)
    }
}

impl vstd::std_specs::convert::FromSpecImpl<i64> for Value {
    open spec fn obeys_from_spec() -> bool {
        true
    }

    open spec fn from_spec(i: i64) -> Self {
        Value::I64(i)
    }
}

impl From<String> for Value {
    fn from(s: String) -> (value: Self) {
        Value::String(s)
    }
}

impl vstd::std_specs::convert::FromSpecImpl<String> for Value {
    open spec fn obeys_from_spec() -> bool {
        true
    }

    open spec fn from_spec(s: String) -> Self {
        Value::String(s)
    }
}

impl From<&str> for Value {
    fn from(s: &str) -> (value: Self)
        ensures
            value@ == ValueView::String(s@),
    {
        Value::String(s.to_string())
    }
}

impl vstd::std_specs::convert::FromSpecImpl<&str> for Value {
    open spec fn obeys_from_spec() -> bool {
        false
    }

    open spec fn from_spec(s: &str) -> Self {
        arbitrary()
    }
}

impl From<Array> for Value {
    fn from(a: Array) -> (value: Self) {
        Value::Array(a)
    }
}

impl vstd::std_specs::convert::FromSpecImpl<Array> for Value {
    open spec fn obeys_from_spec() -> bool {
        true
    }

    open spec fn from_spec(a: Array) -> Self {
        Value::Array(a)
    }
}

impl Clone for Array {
    fn clone(&self) -> (copy: Self)
        ensures
            copy@ == self@,
    {
        match self {
            Array::Bool(v) => Array::Bool(v.clone()),
            Array::I64(v) => Array::I64(v.clone()),
            Array::F64(v) => Array::F64(v.clone()),
            Array::String(v) => {
                let copy: Vec<String> = v.clone();
                assert(string_views(copy@) =~= string_views(v@));
                Array::String(copy)
            },
        }
    }
}

impl Clone for Value {
    fn clone(&self) -> (copy: Self)
        ensures
            copy@ == self@,
    {
        match self {
            Value::Bool(b) => Value::Bool(*b),
            Value::I64(i) => Value::I64(*i),
            Value::F64(bits) => Value::F64(*bits),
            Value::String(s) => Value::String(s.clone()),
            Value::Array(a) => Value::Array(a.clone()),
        }
    }
}

impl Clone for KeyValue {
    fn clone(&self) -> (copy: Self)
        ensures
            copy@ == self@,
    {
        KeyValue { key: self.key.clone(), value: self.value.clone() }
    }
}

/// Whether two lists of strings are the same.
fn strings_equal(a: &Vec<String>, b: &Vec<String>) -> (equal: bool)
    ensures
        equal == (string_views(a@) == string_views(b@)),
{
    if a.len() != b.len() {
        assert(string_views(a@).len() != string_views(b@).len());
        return false;
    }
    let mut i: usize = 0;
    while i < a.len()
        invariant
            a.len() == b.len(),
            i <= a.len(),
            forall|j: int| 0 <= j < i ==> a[j]@ == b[j]@,
        decreases a.len() - i,
    {
        if a[i] != b[i] {
            assert(string_views(a@)[i as int] != string_views(b@)[i as int]);
            return false;
        }
        i += 1;
    }
    assert(string_views(a@) =~= string_views(b@));
    true
}

impl PartialEq for Key {
    fn eq(&self, other: &Self) -> (equal: bool) {
        self.0 == other.0
    }
}

impl Eq for Key {

}

impl vstd::std_specs::cmp::PartialEqSpecImpl for Key {
    open spec fn obeys_eq_spec() -> bool {
        true
    }

    open spec fn eq_spec(&self, other: &Self) -> bool {
        self@ == other@
    }
}

impl PartialEq for Array {
    fn eq(&self, other: &Self) -> (equal: bool) {
        match (self, other) {
            (Array::Bool(a), Array::Bool(b)) => {
                let equal: bool = a == b;
                assert(equal == (a@ =~= b@));
                equal
            },
            (Array::I64(a), Array::I64(b)) => {
                let equal: bool = a == b;
                assert(equal == (a@ =~= b@));
                equal
            },
            (Array::F64(a), Array::F64(b)) => {
                let equal: bool = a == b;
                assert(equal == (a@ =~= b@));
                equal
            },
            (Array::String(a), Array::String(b)) => strings_equal(a, b),
            _ => false,
        }
    }
}

impl Eq for Array {

}

impl vstd::std_specs::cmp::PartialEqSpecImpl for Array {
    open spec fn obeys_eq_spec() -> bool {
        true
    }

    open spec fn eq_spec(&self, other: &Self) -> bool {
        self@ == other@
    }
}

impl PartialEq for Value {
    fn eq(&self, other: &Self) -> (equal: bool) {
        match (self, other) {
            (Value::Bool(a), Value::Bool(b)) => *a == *b,
            (Value::I64(a), Value::I64(b)) => *a == *b,
            (Value::F64(a), Value::F64(b)) => *a == *b,
            (Value::String(a), Value::String(b)) => *a == *b,
            (Value::Array(a), Value::Array(b)) => *a == *b,
            _ => false,
        }
    }
}

impl Eq for Value {

}

impl vstd::std_specs::cmp::PartialEqSpecImpl for Value {
    open spec fn obeys_eq_spec() -> bool {
        true
    }

    open spec fn eq_spec(&self, other: &Self) -> bool {
        self@ == other@
    }
}

impl PartialEq for KeyValue {
    fn eq(&self, other: &Self) -> (equal: bool) {
        self.key == other.key && self.value == other.value
    }
}

impl Eq for KeyValue {

}

impl vstd::std_specs::cmp::PartialEqSpecImpl for KeyValue {
    open spec fn obeys_eq_spec() -> bool {
        true
    }

    open spec fn eq_spec(&self, other: &Self) -> bool {
        self@ == other@
    }
}

} // verus!
