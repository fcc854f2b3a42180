//! Scalar values held in tuples, and tuples of them.
use vstd::prelude::*;

verus! {

/// A scalar entry of a tuple.
#[derive(Clone, Debug, Hash, PartialEq, Eq, PartialOrd, Ord)]
pub enum Value {
    /// A string
    String(String),
    /// A boolean
    Bool(bool),
    /// A 64 bit signed integer
    Number(i64),
}

/// The mathematical content of a `Value`.
pub enum ValueModel {
    Text(Seq<char>),
    Flag(bool),
    Int(i64),
}

impl View for Value {
    type V = ValueModel;

    open spec fn view(&self) -> ValueModel {
        match self {
            Value::String(s) => ValueModel::Text(s@),
            Value::Bool(b) => ValueModel::Flag(*b),
            Value::Number(n) => ValueModel::Int(*n),
        }
    }
}

/// Rank of a value's variant in the value order: strings, then booleans, then numbers.
pub open spec fn rank(v: ValueModel) -> int {
    match v {
        ValueModel::Text(_) => 0,
        ValueModel::Flag(_) => 1,
        ValueModel::Int(_) => 2,
    }
}

/// Lexicographic order on character sequences, comparing from position `i` on.
pub open spec fn text_lt_from(a: Seq<char>, b: Seq<char>, i: int) -> bool
    decreases a.len() - i,
{
    if i < 0 || i >= a.len() {
        i >= 0 && i < b.len()
    } else if i >= b.len() {
        false
    } else if a[i] != b[i] {
        (a[i] as u32) < (b[i] as u32)
    } else {
        text_lt_from(a, b, i + 1)
    }
}

/// Lexicographic order on character sequences (code point order).
pub open spec fn text_lt(a: Seq<char>, b: Seq<char>) -> bool {
    text_lt_from(a, b, 0)
}

/// Strict total order on values: by variant, then by payload.
pub open spec fn value_lt(a: ValueModel, b: ValueModel) -> bool {
    if rank(a) != rank(b) {
        rank(a) < rank(b)
    } else {
        match (a, b) {
            (ValueModel::Text(x), ValueModel::Text(y)) => text_lt(x, y),
            (ValueModel::Flag(x), ValueModel::Flag(y)) => !x && y,
            (ValueModel::Int(x), ValueModel::Int(y)) => x < y,
            _ => false,
        }
    }
}

/// The mathematical content of a tuple.
pub open spec fn tuple_model(t: Seq<Value>) -> Seq<ValueModel> {
    t.map_values(|v: Value| v@)
}

impl Value {
    /// A copy of this value.
    pub fn duplicate(&self) -> (r: Value)
        ensures
            r@ == self@,
    {
        match self {
            Value::String(s) => Value::String(s.clone()),
            Value::Bool(b) => Value::Bool(*b),
            Value::Number(n) => Value::Number(*n),
        }
    }

    /// Structural equality of two values.
    pub fn same(&self, other: &Value) -> (r: bool)
        ensures
            r == (self@ == other@),
    {
        match (self, other) {
            (Value::String(x), Value::String(y)) => x.eq(y),
            (Value::Bool(x), Value::Bool(y)) => *x == *y,
            (Value::Number(x), Value::Number(y)) => *x == *y,
            _ => false,
        }
    }

    /// Whether this value comes strictly before `other` in the value order.
    pub fn less_than(&self, other: &Value) -> (r: bool)
        ensures
            r == value_lt(self@, other@),
    {
        match (self, other) {
            (Value::String(x), Value::String(y)) => text_less(x.as_str(), y.as_str()),
            (Value::Bool(x), Value::Bool(y)) => !*x && *y,
            (Value::Number(x), Value::Number(y)) => *x < *y,
            (Value::String(_), _) => true,
            (Value::Bool(_), Value::Number(_)) => true,
            _ => false,
        }
    }
}

fn text_less(a: &str, b: &str) -> (r: bool)
    ensures
        r == text_lt(a@, b@),
{
    let la = a.unicode_len();
    let lb = b.unicode_len();
    let mut i: usize = 0;
    while i < la && i < lb
        invariant
            la == a@.len(),
            lb == b@.len(),
            i <= la,
            i <= lb,
            text_lt(a@, b@) == text_lt_from(a@, b@, i as int),
        decreases la - i,
    {
        let ca = a.get_char(i);
        let cb = b.get_char(i);
        if ca != cb {
            return (ca as u32) < (cb as u32);
        }
        i = i + 1;
    }
    i < lb && i >= la
}

/// A copy of a tuple.
pub fn copy_tuple(t: &Vec<Value>) -> (r: Vec<Value>)
    ensures
        tuple_model(r@) == tuple_model(t@),
{
    let mut r: Vec<Value> = Vec::new();
    let mut i: usize = 0;
    while i < t.len()
        invariant
            i <= t.len(),
            r@.len() == i,
            forall|j: int| 0 <= j < i ==> r@[j]@ == t@[j]@,
        decreases t.len() - i,
    {
        let v = t[i].duplicate();
        r.push(v);
        i = i + 1;
    }
    assert(tuple_model(r@) =~= tuple_model(t@));
    r
}

/// Structural equality of two tuples.
pub fn same_tuple(a: &Vec<Value>, b: &Vec<Value>) -> (r: bool)
    ensures
        r == (tuple_model(a@) == tuple_model(b@)),
{
    if a.len() != b.len() {
        assert(tuple_model(a@).len() != tuple_model(b@).len());
        return false;
    }
    let mut i: usize = 0;
    while i < a.len()
        invariant
            a.len() == b.len(),
            i <= a.len(),
            forall|j: int| 0 <= j < i ==> a@[j]@ == b@[j]@,
        decreases a.len() - i,
    {
        if !a[i].same(&b[i]) {
            assert(tuple_model(a@)[i as int] != tuple_model(b@)[i as int]);
            return false;
        }
        i = i + 1;
    }
    assert(tuple_model(a@) =~= tuple_model(b@));
    true
}

} // verus!
