//! What can be wrong with the debugging information and the symbol list of
//! a binary.

use vstd::prelude::*;

verus! {

/// The reason why no result could be produced.
///
/// Offsets are local to the compilation unit in which the fault lies; lines
/// of a symbol list are counted from 0.
#[derive(Clone, Debug, PartialEq, Eq)]
pub enum Fault {
    /// A type chain reached an entry without a name whose tag, given here by
    /// its code, is no type qualifier.
    UnknownTag(u16),
    /// The function entry at this offset has no name.
    MissingName(usize),
    /// The entry at this offset has a name attribute whose text cannot be
    /// read.
    UnreadableName(usize),
    /// The entry at this offset has a type attribute that is no reference
    /// into its own unit.
    UnsupportedReference(usize),
    /// A type attribute refers to this offset, at which the unit has no
    /// entry.
    DanglingReference(usize),
    /// A chain of type references, or a nest of function pointer types, runs
    /// in a circle.
    EndlessType,
    /// The binary or its debug sections are malformed; the text says how.
    Malformed(String),
    /// This line of a symbol list has an address and nothing after it.
    MissingType(usize),
    /// This line of a symbol list has the type of a code symbol or of a weak
    /// symbol, and no name after it.
    MissingSymbol(usize),
}

} // verus!
