//! Error taxonomy of the codec: decode failures, dictionary-resolution
//! failures, and packing failures.

use vstd::prelude::*;

verus! {

/// A failure while decoding an instruction stream from a cell. Each variant
/// carries its position context: the bit offset, within the cell being read,
/// at which the failing read began.
#[derive(Clone, Copy, Debug, PartialEq, Eq, Structural)]
pub enum DecodeError {
    /// The cursor ran out of bits in the middle of an instruction.
    CursorExhausted { bit: u64 },
    /// No opcode table entry matches the bit prefix at the cursor.
    UnknownOpcode { bit: u64 },
    /// An instruction needs a child reference that the cell does not have.
    MissingReference { bit: u64 },
}

impl DecodeError {
    /// A short human-readable description.
    pub fn describe(&self) -> &'static str {
        match self {
            DecodeError::CursorExhausted { .. } => "cursor exhausted mid-instruction",
            DecodeError::UnknownOpcode { .. } => "no opcode matches the bit prefix",
            DecodeError::MissingReference { .. } => "required reference is absent",
        }
    }

    /// The bit offset at which the failure occurred.
    pub fn position(&self) -> (r: u64)
        ensures
            r == match *self {
                DecodeError::CursorExhausted { bit } => bit,
                DecodeError::UnknownOpcode { bit } => bit,
                DecodeError::MissingReference { bit } => bit,
            },
    {
        match self {
            DecodeError::CursorExhausted { bit } => *bit,
            DecodeError::UnknownOpcode { bit } => *bit,
            DecodeError::MissingReference { bit } => *bit,
        }
    }
}

/// A failure while resolving an embedded jump-table dictionary.
#[derive(Clone, Copy, Debug, PartialEq, Eq, Structural)]
pub enum DictError {
    /// The dictionary cell tree does not follow the recognized prefix-tree
    /// layout.
    Malformed,
    /// A value's physical location could not be found in the dictionary tree.
    NotFound,
    /// Two keys resolved to the same physical location.
    NonUniquePath,
    /// A value slice failed to decode as code.
    Decode(DecodeError),
}

impl DictError {
    /// A short human-readable description.
    pub fn describe(&self) -> &'static str {
        match self {
            DictError::Malformed => "malformed dictionary",
            DictError::NotFound => "not found",
            DictError::NonUniquePath => "non-unique path found",
            DictError::Decode(_) => "failed to decode a dictionary value",
        }
    }
}

/// A failure while packing commands into cells.
#[derive(Clone, Copy, Debug, PartialEq, Eq, Structural)]
pub enum PackError {
    /// A single command with its subtrees cannot fit even in an empty cell.
    NotFitInSlice,
}

impl PackError {
    /// A short human-readable description.
    pub fn describe(&self) -> &'static str {
        match self {
            PackError::NotFitInSlice => "payload does not fit in a cell",
        }
    }
}

} // verus!
