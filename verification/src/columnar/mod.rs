//! Columnar storage engine with versioned table metadata: immutable data
//! files in a little-endian columnar format, per-file Min/Max statistics,
//! manifests recording added and deleted files, and chunked query operators.

pub mod data;
pub mod engine;
pub mod manifest;
pub mod operators;
pub mod optimizer;
pub mod stats;
pub mod table_metadata;
pub mod value_order;

use vstd::prelude::*;

verus! {

/// Identifier of a row.
#[derive(Clone, Copy, Debug, PartialEq, Eq, Hash, Structural)]
pub struct RowID(pub u64);

/// Type of a column.
#[derive(Clone, Copy, Debug, PartialEq, Eq, Hash, Structural)]
pub enum TypeID {
    Int,
    UInt,
    RowID,
    Varchar,
}

/// A value of a column.
#[derive(Debug)]
pub enum Value {
    Int(i32),
    UInt(u32),
    RowID(RowID),
    Varchar(String),
}

/// Mathematical view of a [`Value`]: a string is its characters.
pub enum ValueView {
    Int(i32),
    UInt(u32),
    RowID(u64),
    Varchar(Seq<char>),
}

impl View for Value {
    type V = ValueView;

    open spec fn view(&self) -> ValueView {
        match self {
            Value::Int(x) => ValueView::Int(*x),
            Value::UInt(x) => ValueView::UInt(*x),
            Value::RowID(r) => ValueView::RowID(r.0),
            Value::Varchar(s) => ValueView::Varchar(s@),
        }
    }
}

/// The type of a value.
pub open spec fn type_of(v: ValueView) -> TypeID {
    match v {
        ValueView::Int(_) => TypeID::Int,
        ValueView::UInt(_) => TypeID::UInt,
        ValueView::RowID(_) => TypeID::RowID,
        ValueView::Varchar(_) => TypeID::Varchar,
    }
}

/// The values of a column, by view.
pub open spec fn column_view(c: Seq<Value>) -> Seq<ValueView> {
    c.map_values(|v: Value| v@)
}

/// The columns of a chunk, by view.
pub open spec fn chunk_view(ch: Seq<Vec<Value>>) -> Seq<Seq<ValueView>> {
    ch.map_values(|c: Vec<Value>| column_view(c@))
}

impl Value {
    /// The type of this value.
    pub fn get_id(&self) -> (t: TypeID)
        ensures
            t == type_of(self@),
    {
        match self {
            Value::Int(_) => TypeID::Int,
            Value::UInt(_) => TypeID::UInt,
            Value::RowID(_) => TypeID::RowID,
            Value::Varchar(_) => TypeID::Varchar,
        }
    }

    /// A copy of this value.
    pub fn copy(&self) -> (v: Value)
        ensures
            v@ == self@,
    {
        match self {
            Value::Int(x) => Value::Int(*x),
            Value::UInt(x) => Value::UInt(*x),
            Value::RowID(r) => Value::RowID(*r),
            Value::Varchar(s) => Value::Varchar(s.clone()),
        }
    }
}

/// A copy of a column.
pub fn copy_column(c: &Vec<Value>) -> (r: Vec<Value>)
    ensures
        column_view(r@) == column_view(c@),
{
    let mut r: Vec<Value> = Vec::new();
    let mut i: usize = 0;
    while i < c.len()
        invariant
            i <= c@.len(),
            r@.len() == i,
            forall|j: int| 0 <= j < i ==> (#[trigger] r@[j])@ == c@[j]@,
        decreases c@.len() - i,
    {
        r.push(c[i].copy());
        i = i + 1;
    }
    proof {
        assert(column_view(r@) =~= column_view(c@));
    }
    r
}

/// A row of a table.
pub struct Record {
    pub record: Vec<Value>,
}

/// Column-major part of a table: one vector of values per column.
pub type TableChunk = Vec<Vec<Value>>;

/// Names and types of a table's columns.
pub type Schema = Vec<(String, TypeID)>;

/// Errors of the engine.
#[derive(Clone, Copy, Debug, PartialEq, Eq, Structural)]
pub enum DatabaseError {
    /// Reading or writing storage failed, or a file ended early.
    IOError,
    /// A string in a data file is not valid UTF-8.
    InvalidUTF8,
    /// A modification was refused.
    EngineError,
    /// A data file is malformed.
    Unknown,
    /// A concurrent modification conflicted.
    OptimisticFail,
}

/// Identifier of a data file (a UUID).
#[derive(Clone, Copy, Debug, PartialEq, Eq, Hash, Structural)]
pub struct FileHandle(pub u128);

/// Which columns to read.
pub enum Columns {
    All,
    Selection(Vec<usize>),
}

} // verus!
