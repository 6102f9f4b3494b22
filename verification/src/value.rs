//! Scalar values held by columns, their mathematical model, and a total
//! order over them used by sorting and pivoting.
use vstd::prelude::*;

verus! {

/// The type tag of a column: every value in a column carries this kind.
#[derive(Clone, Copy, PartialEq, Eq, Structural, Debug)]
pub enum ValueKind {
    Int,
    Str,
    Bool,
}

/// One scalar cell value.
#[derive(Debug, PartialEq)]
pub enum Value {
    Int(i64),
    Str(String),
    Bool(bool),
}

/// The mathematical model of a `Value`: an unbounded integer, a character
/// sequence, or a boolean.
pub enum SpecValue {
    Int(int),
    Str(Seq<char>),
    Bool(bool),
}

impl View for Value {
    type V = SpecValue;

    open spec fn view(&self) -> SpecValue {
        match self {
            Value::Int(n) => SpecValue::Int(*n as int),
            Value::Str(s) => SpecValue::Str(s@),
            Value::Bool(b) => SpecValue::Bool(*b),
        }
    }
}

/// The kind a modelled value belongs to.
pub open spec fn kind_of(v: SpecValue) -> ValueKind {
    match v {
        SpecValue::Int(_) => ValueKind::Int,
        SpecValue::Str(_) => ValueKind::Str,
        SpecValue::Bool(_) => ValueKind::Bool,
    }
}

/// Rank of a kind, ordering values of different kinds below one another so
/// that the value order is total over all values.
pub open spec fn kind_rank(v: SpecValue) -> int {
    match v {
        SpecValue::Int(_) => 0,
        SpecValue::Str(_) => 1,
        SpecValue::Bool(_) => 2,
    }
}

/// Strict lexicographic order on character sequences, by code point.
pub open spec fn str_lt(a: Seq<char>, b: Seq<char>) -> bool
    decreases a.len(),
{
    if b.len() == 0 {
        false
    } else if a.len() == 0 {
        true
    } else if (a[0] as int) < (b[0] as int) {
        true
    } else if (b[0] as int) < (a[0] as int) {
        false
    } else {
        str_lt(a.drop_first(), b.drop_first())
    }
}

/// Strict total order on values: values of the same kind compare naturally
/// (integer order, lexicographic order, `false < true`); values of
/// different kinds compare by kind rank.
pub open spec fn val_lt(a: SpecValue, b: SpecValue) -> bool {
    if kind_rank(a) != kind_rank(b) {
        kind_rank(a) < kind_rank(b)
    } else {
        match (a, b) {
            (SpecValue::Int(x), SpecValue::Int(y)) => x < y,
            (SpecValue::Str(x), SpecValue::Str(y)) => str_lt(x, y),
            (SpecValue::Bool(x), SpecValue::Bool(y)) => !x && y,
            _ => false,
        }
    }
}

pub proof fn lemma_str_lt_asym(a: Seq<char>, b: Seq<char>)
    ensures
        str_lt(a, b) ==> !str_lt(b, a),
    decreases a.len(),
{
    if a.len() > 0 && b.len() > 0 && a[0] == b[0] {
        lemma_str_lt_asym(a.drop_first(), b.drop_first());
    }
}

pub proof fn lemma_str_lt_connected(a: Seq<char>, b: Seq<char>)
    ensures
        !str_lt(a, b) && !str_lt(b, a) ==> a == b,
    decreases a.len(),
{
    if !str_lt(a, b) && !str_lt(b, a) {
        if a.len() == 0 || b.len() == 0 {
            assert(a =~= b);
        } else {
            assert(a[0] == b[0]);
            lemma_str_lt_connected(a.drop_first(), b.drop_first());
            assert(a =~= seq![a[0]] + a.drop_first());
            assert(b =~= seq![b[0]] + b.drop_first());
        }
    }
}

pub proof fn lemma_str_lt_trans(a: Seq<char>, b: Seq<char>, c: Seq<char>)
    ensures
        str_lt(a, b) && str_lt(b, c) ==> str_lt(a, c),
    decreases a.len() + b.len() + c.len(),
{
    if str_lt(a, b) && str_lt(b, c) {
        if a.len() > 0 && b.len() > 0 && c.len() > 0 {
            lemma_str_lt_trans(a.drop_first(), b.drop_first(), c.drop_first());
        }
    }
}

pub proof fn lemma_val_lt_asym(a: SpecValue, b: SpecValue)
    ensures
        val_lt(a, b) ==> !val_lt(b, a),
{
    match (a, b) {
        (SpecValue::Str(x), SpecValue::Str(y)) => lemma_str_lt_asym(x, y),
        _ => {},
    }
}

/// The value order is connected: two values neither of which is below the
/// other are equal.
pub proof fn lemma_val_lt_connected(a: SpecValue, b: SpecValue)
    ensures
        !val_lt(a, b) && !val_lt(b, a) ==> a == b,
{
    match (a, b) {
        (SpecValue::Str(x), SpecValue::Str(y)) => lemma_str_lt_connected(x, y),
        _ => {},
    }
}

pub proof fn lemma_val_lt_trans(a: SpecValue, b: SpecValue, c: SpecValue)
    ensures
        val_lt(a, b) && val_lt(b, c) ==> val_lt(a, c),
{
    match (a, b, c) {
        (SpecValue::Str(x), SpecValue::Str(y), SpecValue::Str(z)) => lemma_str_lt_trans(x, y, z),
        _ => {},
    }
}

impl Value {
    /// The kind this value belongs to.
    pub fn kind(&self) -> (k: ValueKind)
        ensures
            k == kind_of(self@),
    {
        match self {
            Value::Int(_) => ValueKind::Int,
            Value::Str(_) => ValueKind::Str,
            Value::Bool(_) => ValueKind::Bool,
        }
    }
}

impl Clone for Value {
    fn clone(&self) -> (r: Self)
        ensures
            r@ == self@,
    {
        match self {
            Value::Int(n) => Value::Int(*n),
            Value::Str(s) => Value::Str(s.clone()),
            Value::Bool(b) => Value::Bool(*b),
        }
    }
}

/// Result of a three-way comparison.
#[derive(Clone, Copy, PartialEq, Eq, Structural, Debug)]
pub enum Cmp {
    Lt,
    Eq,
    Gt,
}

/// Whether two values model the same mathematical value.
pub fn value_eq(a: &Value, b: &Value) -> (r: bool)
    ensures
        r == (a@ == b@),
{
    match (a, b) {
        (Value::Int(x), Value::Int(y)) => x == y,
        (Value::Str(x), Value::Str(y)) => *x == *y,
        (Value::Bool(x), Value::Bool(y)) => x == y,
        _ => false,
    }
}

/// Restricting a lexicographic comparison to the suffixes after a common
/// prefix does not change its outcome.
proof fn lemma_str_lt_skip(a: Seq<char>, b: Seq<char>, k: int)
    requires
        0 <= k <= a.len(),
        k <= b.len(),
        forall|j: int| 0 <= j < k ==> a[j] == b[j],
    ensures
        str_lt(a, b) == str_lt(a.skip(k), b.skip(k)),
    decreases k,
{
    if k == 0 {
        assert(a.skip(0) =~= a);
        assert(b.skip(0) =~= b);
    } else {
        assert(a.len() > 0 && b.len() > 0 && a[0] == b[0]);
        lemma_str_lt_skip(a.drop_first(), b.drop_first(), k - 1);
        assert(a.drop_first().skip(k - 1) =~= a.skip(k));
        assert(b.drop_first().skip(k - 1) =~= b.skip(k));
    }
}

fn str_cmp(a: &str, b: &str) -> (c: Cmp)
    ensures
        (c == Cmp::Lt) == str_lt(a@, b@),
        (c == Cmp::Gt) == str_lt(b@, a@),
        (c == Cmp::Eq) == (a@ == b@),
{
    let la = a.unicode_len();
    let lb = b.unicode_len();
    let mut i: usize = 0;
    while i < la && i < lb
        invariant
            i <= la,
            i <= lb,
            la == a@.len(),
            lb == b@.len(),
            forall|j: int| 0 <= j < i ==> a@[j] == b@[j],
        decreases la - i,
    {
        let ca = a.get_char(i);
        let cb = b.get_char(i);
        if (ca as u32) < (cb as u32) {
            proof {
                lemma_str_lt_skip(a@, b@, i as int);
                lemma_str_lt_skip(b@, a@, i as int);
                lemma_str_lt_asym(a@.skip(i as int), b@.skip(i as int));
            }
            return Cmp::Lt;
        } else if (cb as u32) < (ca as u32) {
            proof {
                lemma_str_lt_skip(a@, b@, i as int);
                lemma_str_lt_skip(b@, a@, i as int);
                lemma_str_lt_asym(b@.skip(i as int), a@.skip(i as int));
            }
            return Cmp::Gt;
        }
        i = i + 1;
    }
    proof {
        lemma_str_lt_skip(a@, b@, i as int);
        lemma_str_lt_skip(b@, a@, i as int);
    }
    if la < lb {
        Cmp::Lt
    } else if lb < la {
        Cmp::Gt
    } else {
        proof {
            assert(a@ =~= b@);
        }
        Cmp::Eq
    }
}

/// Three-way comparison of two values under the total value order.
pub fn value_cmp(a: &Value, b: &Value) -> (c: Cmp)
    ensures
        (c == Cmp::Lt) == val_lt(a@, b@),
        (c == Cmp::Gt) == val_lt(b@, a@),
        (c == Cmp::Eq) == (a@ == b@),
{
    match (a, b) {
        (Value::Int(x), Value::Int(y)) => {
            if x < y {
                Cmp::Lt
            } else if y < x {
                Cmp::Gt
            } else {
                Cmp::Eq
            }
        },
        (Value::Str(x), Value::Str(y)) => str_cmp(x.as_str(), y.as_str()),
        (Value::Bool(x), Value::Bool(y)) => {
            if !*x && *y {
                Cmp::Lt
            } else if *x && !*y {
                Cmp::Gt
            } else {
                Cmp::Eq
            }
        },
        (Value::Int(_), _) => Cmp::Lt,
        (_, Value::Int(_)) => Cmp::Gt,
        (Value::Str(_), _) => Cmp::Lt,
        (_, Value::Str(_)) => Cmp::Gt,
    }
}

} // verus!
