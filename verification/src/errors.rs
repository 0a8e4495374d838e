//! The error taxonomy: every failure is terminal and categorized.

use vstd::prelude::*;

verus! {

/// Every way a decode can fail. A failure is terminal: the whole message is
/// rejected, no partial table or partial skip is ever returned.
#[derive(Clone, Copy, Debug, PartialEq, Eq, Structural)]
pub enum IdlError {
    /// The input was empty before the magic marker could be read.
    EmptyInput,
    /// The four magic bytes did not match the format identifier.
    MissingMagic,
    /// The declared type count cannot plausibly fit in the remaining bytes.
    TooManyTypes,
    /// A non-negative constructor tag outside the recognized grammar.
    IllegalTypeTable,
    /// A primitive sentinel appeared where only a constructor belongs.
    PrimitiveInTable,
    /// A type argument is neither a primitive sentinel nor an in-bounds index.
    InvalidTypeArg,
    /// Field tags out of order, duplicated, or a misused maximal tag.
    TagOutOfOrder,
    /// A variable-length integer does not fit its target width.
    VarintOverflow,
    /// A read would cross the end of the buffer.
    BufferExhausted,
    /// A byte that must be 0 or 1 was something else.
    InvalidByteTag,
    /// Text content is not valid UTF-8.
    InvalidUtf8,
    /// No value can inhabit the empty type.
    SkipEmpty,
    /// A negative type outside the known primitive sentinels.
    UnknownPrimitive,
    /// A variant selector at least as large as the declared field count.
    VariantTagTooLarge,
    /// A record whose field type argument is the record's own index.
    RecursiveRecord,
    /// Record nesting deeper than the recursion-depth limit.
    TooDeeplyNested,
    /// Function reference values cannot be skipped.
    SkipFunc,
    /// Service reference values cannot be skipped.
    SkipService,
    /// A future type whose value carries references cannot be skipped.
    FutureReferences,
}

} // verus!
