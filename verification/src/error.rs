use vstd::prelude::*;

verus! {

/// Everything that can go wrong while reading or writing a stream.
#[derive(Clone, Copy, Debug, PartialEq, Eq, Structural)]
pub enum GobError {
    /// The source ended inside a frame's length prefix, or before the end of
    /// a frame whose value had already been read.
    TruncatedStream,
    /// A read needed more bytes than the current message still holds.
    TruncatedMessage,
    /// The bytes do not follow the wire format.
    InvalidData,
    /// A value refers to a type identifier that the registry does not hold.
    UnknownType,
    /// A definition tries to bind an identifier that is already bound to a
    /// different schema.
    Redefinition,
    /// A wire value cannot be stored in the record field it is bound to.
    TypeMismatch,
    /// The stream or the value uses a construct that this codec recognises
    /// but does not handle.
    Unsupported,
    /// The registry's cap on the number of types is reached.
    TooManyTypes,
    /// Two fields of one record binding share a wire name.
    DuplicateFieldName,
}

} // verus!
