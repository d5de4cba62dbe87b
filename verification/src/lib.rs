//! Storage, indexing, locking and query-execution building blocks of a small
//! relational engine, with their behaviour stated as Verus contracts.

pub mod bufferpool;
pub mod distributed;
pub mod execution;
pub mod columnar;
