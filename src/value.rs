use vstd::prelude::*;

verus! {

/// A reference to one record: the table it lives in and the SurrealQL text
/// of its key.
#[derive(Debug, Clone)]
pub struct RecordId {
    pub table: String,
    pub key: String,
}

/// The values that can be sent to the database as bound parameters.
#[derive(Debug)]
pub enum Value {
    Null,
    Bool(bool),
    Number(i64),
    Strand(String),
    Array(Vec<Value>),
    Object(Vec<(String, Value)>),
    Thing(RecordId),
}

impl RecordId {
    /// The identifier as a value to bind.
    pub fn into_value(self) -> (r: Value)
        ensures
            r == Value::Thing(self),
    {
        Value::Thing(self)
    }
}

/// Failures of binding and of assembling a query.
#[derive(Debug, Clone, Copy, PartialEq, Eq, Structural)]
pub enum Error {
    /// The text handed to `query` is not valid SurrealQL.
    Parse,
    /// A value given for field decomposition is not an object.
    UnsupportedShape,
}

} // verus!
