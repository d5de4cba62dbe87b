//! Bitmap indexes, lock management and distributed-operator routing.

pub mod dist_operator;
pub mod index;
pub mod locking;

use vstd::prelude::*;

verus! {

/// Position of a row inside a table.
#[derive(Clone, Copy, Debug, PartialEq, Eq, Hash, Structural)]
pub struct RowID(pub usize);

/// A column value.
#[derive(Clone, Copy, Debug, PartialEq, Eq, Hash, Structural)]
pub enum Value {
    Int(i32),
    UInt(usize),
    RowID(RowID),
}

/// A row: one value per column.
pub type Record = Vec<Value>;

/// A table held in memory, read row by row.
pub struct DummyTable {
    pub records: Vec<Record>,
}

impl DummyTable {
    /// Number of rows.
    pub fn get_number_of_records(&self) -> (n: usize)
        ensures
            n == self.records.len(),
    {
        self.records.len()
    }
}

/// Rank of a value's variant in the value order.
pub open spec fn variant_rank(v: Value) -> int {
    match v {
        Value::Int(_) => 0,
        Value::UInt(_) => 1,
        Value::RowID(_) => 2,
    }
}

/// The order of values: by variant first (`Int < UInt < RowID`), then by
/// payload.
pub open spec fn value_le(a: Value, b: Value) -> bool {
    if variant_rank(a) != variant_rank(b) {
        variant_rank(a) < variant_rank(b)
    } else {
        match (a, b) {
            (Value::Int(x), Value::Int(y)) => x <= y,
            (Value::UInt(x), Value::UInt(y)) => x <= y,
            (Value::RowID(x), Value::RowID(y)) => x.0 <= y.0,
            _ => false,
        }
    }
}

/// `a <= b` in the value order.
pub fn value_less_eq(a: &Value, b: &Value) -> (r: bool)
    ensures
        r == value_le(*a, *b),
{
    match (a, b) {
        (Value::Int(x), Value::Int(y)) => *x <= *y,
        (Value::UInt(x), Value::UInt(y)) => *x <= *y,
        (Value::RowID(x), Value::RowID(y)) => x.0 <= y.0,
        (Value::Int(_), _) => true,
        (Value::UInt(_), Value::RowID(_)) => true,
        _ => false,
    }
}

/// The value order is a total order.
pub proof fn lemma_value_order(a: Value, b: Value, c: Value)
    ensures
        value_le(a, a),
        value_le(a, b) || value_le(b, a),
        value_le(a, b) && value_le(b, a) ==> a == b,
        value_le(a, b) && value_le(b, c) ==> value_le(a, c),
{
}

/// The value order agrees with the numeric order on the payloads of one
/// variant, and puts every `Int` below every `UInt` and every `UInt` below
/// every `RowID`.
pub proof fn lemma_value_le_numeric(x: i32, y: i32, u: usize, v: usize, p: usize, q: usize)
    ensures
        value_le(Value::Int(x), Value::Int(y)) <==> x <= y,
        value_le(Value::UInt(u), Value::UInt(v)) <==> u <= v,
        value_le(Value::RowID(RowID(p)), Value::RowID(RowID(q))) <==> p <= q,
        value_le(Value::Int(x), Value::UInt(u)) && !value_le(Value::UInt(u), Value::Int(x)),
        value_le(Value::UInt(u), Value::RowID(RowID(p))) && !value_le(Value::RowID(RowID(p)), Value::UInt(u)),
        value_le(Value::Int(x), Value::RowID(RowID(p))) && !value_le(Value::RowID(RowID(p)), Value::Int(x)),
{
}

} // verus!
