use vstd::prelude::*;

verus! {

/// Why a traversal stopped.  Every error aborts the whole call.
#[derive(Debug, Clone, Copy, PartialEq, Eq, Structural)]
pub enum Error {
    /// The schema uses the `flatten` annotation, which is not implemented.
    FlattenUnsupported,
    /// A display name used to build an identifier holds a non-ASCII character.
    NonAsciiName,
    /// A value holds an enum ordinal that the reading schema does not define.
    EnumerantNotInSchema(u16),
    /// JSON names an enumerant that the target schema does not have.
    UnknownEnumerant,
    /// The JSON value's shape does not fit the schema position.
    ShapeMismatch,
    /// Text given for `Data` is not valid hex or base64.
    BadEncoding,
    /// The value does not fit the schema it is bound to.
    ValueMismatch,
    /// A type names a struct or enum that the schema set does not hold.
    BadReference,
    /// A declaration would reuse an identifier already declared in the
    /// session, such as a union variant's interface named like a struct.
    DuplicateIdentifier,
}

} // verus!
