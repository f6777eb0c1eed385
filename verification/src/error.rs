//! The ways in which an arena operation can fail.

use vstd::prelude::*;

verus! {

/// Why an arena could not be built or a region could not be handed out.
#[derive(Debug, Clone, Copy, PartialEq, Eq, Structural)]
pub enum ArenaError {
    /// A size of zero bytes, or an array whose total size cannot be represented.
    InvalidSize,
    /// A size and alignment that no allocation can have.
    InvalidAlignment,
    /// The system had no memory for the backing buffer.
    AllocationFailed,
    /// The arena has too little room left for the region and its padding.
    OutOfMemory,
}

impl ArenaError {
    /// The text that describes each failure.
    pub open spec fn text(self) -> Seq<char> {
        match self {
            ArenaError::InvalidSize => "Invalid size specified"@,
            ArenaError::InvalidAlignment => "Invalid alignment"@,
            ArenaError::AllocationFailed => "Failed to allocate memory"@,
            ArenaError::OutOfMemory => "Arena out of memory"@,
        }
    }

    /// A short description of the failure, fit for showing to a person.
    pub fn message(&self) -> (s: &'static str)
        ensures
            s@ == self.text(),
    {
        match self {
            ArenaError::InvalidSize => "Invalid size specified",
            ArenaError::InvalidAlignment => "Invalid alignment",
            ArenaError::AllocationFailed => "Failed to allocate memory",
            ArenaError::OutOfMemory => "Arena out of memory",
        }
    }
}

} // verus!
