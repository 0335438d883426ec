use vstd::prelude::*;

verus! {

/// An application-level datum carried by the engine: an atom, a coordinate
/// pair, or a triple. A triple `Triple(x, y, m)` is how the count operator
/// reports that the pair `(x, y)` currently occurs `m` times; a pair
/// `Pair(n, m)` likewise reports the count `m` of the atom `n`.
///
/// Every variant is built from integers, so equality of values is plain
/// structural equality, both in contracts and in executable code.
#[derive(Clone, Copy, Debug, PartialEq, Eq, Structural, Hash)]
pub enum Value {
    /// A single totally-ordered atom.
    Int(i64),
    /// A coordinate pair, or an atom paired with its count.
    Pair(i64, i64),
    /// A coordinate pair paired with its count.
    Triple(i64, i64, i64),
}

/// The key a value is grouped under when it meets a join: a count report
/// `Triple(x, y, m)` is keyed by the pair it counts; atoms and pairs stand
/// for themselves.
pub open spec fn spec_key_of(v: Value) -> Value {
    match v {
        Value::Int(n) => Value::Int(n),
        Value::Pair(a, b) => Value::Pair(a, b),
        Value::Triple(a, b, _) => Value::Pair(a, b),
    }
}

/// Executable form of `spec_key_of`.
pub fn key_of(v: &Value) -> (k: Value)
    ensures
        k == spec_key_of(*v),
{
    match v {
        Value::Int(n) => Value::Int(*n),
        Value::Pair(a, b) => Value::Pair(*a, *b),
        Value::Triple(a, b, _) => Value::Pair(*a, *b),
    }
}

} // verus!
