use vstd::prelude::*;

verus! {

/// Every fallible operation of the crate reports one of these values;
/// nothing is signalled by panicking.
#[derive(Debug, PartialEq, Eq)]
pub enum Error {
    /// A document-only method was called on a delta that contains a
    /// `retain` or `delete` operation.
    NotADocument,
    /// The caller asked an attribute value for a variant it does not hold;
    /// the field names the requested variant.
    GetValueWrongType { tpe: String },
    /// Decoding found a map nested where the schema forbids one.
    SerdeNestedMap { value: String },
    /// Decoding found a value shape outside the schema, such as an array.
    SerdeUnknownType { tpe: String },
    /// An attribute key that was expected to be present is missing.
    NotFoundAttributeKey { attr_key: String },
    /// A number was negative or fractional where an unsigned integer is
    /// required.
    NotAnUnsigned,
    /// Defensive check: a minimum was requested of an empty collection.
    EmptyVectorMinOp,
    /// Defensive check: the last element was requested of an empty
    /// collection.
    EmptyVectorLastOp,
    /// Defensive check: an exhausted iterator was asked for its element.
    IteratorIsEmpty,
}

} // verus!
