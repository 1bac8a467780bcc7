//! The failures that the simulator reports.

use vstd::prelude::*;

verus! {

/// Why an instruction text was refused.
#[derive(Clone, Copy, Debug, PartialEq, Eq, Structural)]
pub enum DecodeError {
    /// No unit has registered the mnemonic of the text.
    UnknownMnemonic,
    /// The operand list is not well formed, or does not have the shape that
    /// the mnemonic was registered with.
    MalformedOperands,
}

/// Why a unit did not take an instruction. This is ordinary back pressure:
/// the caller stalls and offers the instruction again.
#[derive(Clone, Copy, Debug, PartialEq, Eq, Structural)]
pub enum IssueError {
    /// Every reservation-station slot of the unit is occupied.
    NoFreeSlot,
    /// The unit executes no instruction of that mnemonic and operand count.
    Unsupported,
}

/// The errors of the processor and of its parts.
#[derive(Clone, Copy, Debug, PartialEq, Eq, Structural)]
pub enum Error {
    /// A unit of the same name is registered already.
    DuplicateUnitName,
    /// The same owner offers one mnemonic twice.
    DuplicateMnemonic,
    /// The mnemonic is registered already with another operand shape.
    ConflictingFormat,
    /// The factory knows no unit of the function asked for.
    UnsupportedUnit,
    /// The instruction text could not be decoded.
    Decode(DecodeError),
    /// The destination of the instruction is not a register.
    InvalidWritebackTarget,
    /// A bus response arrived while no request was outstanding.
    MissingResponseHandler,
    /// A bus response was addressed to a unit that is not registered.
    UnknownBusHandler,
    /// A unit reported a fault while it was stepped.
    UnitFault,
}

impl Error {
    /// A one-line description for the user.
    pub fn message(&self) -> (text: String)
        ensures
            text@ == self.spec_message()@,
    {
        match self {
            Error::DuplicateUnitName => "a unit of this name is registered already".to_owned(),
            Error::DuplicateMnemonic => "a mnemonic is offered twice by one unit".to_owned(),
            Error::ConflictingFormat => "a mnemonic is registered with another operand shape".to_owned(),
            Error::UnsupportedUnit => "no unit of this function is known".to_owned(),
            Error::Decode(DecodeError::UnknownMnemonic) => "unknown mnemonic".to_owned(),
            Error::Decode(DecodeError::MalformedOperands) => "malformed operand list".to_owned(),
            Error::InvalidWritebackTarget => "the destination is not a register".to_owned(),
            Error::MissingResponseHandler => "no bus request is outstanding".to_owned(),
            Error::UnknownBusHandler => "the bus response names an unknown unit".to_owned(),
            Error::UnitFault => "a unit reported a fault".to_owned(),
        }
    }

    /// The text of [`Error::message`].
    pub open spec fn spec_message(&self) -> &'static str {
        match self {
            Error::DuplicateUnitName => "a unit of this name is registered already",
            Error::DuplicateMnemonic => "a mnemonic is offered twice by one unit",
            Error::ConflictingFormat => "a mnemonic is registered with another operand shape",
            Error::UnsupportedUnit => "no unit of this function is known",
            Error::Decode(DecodeError::UnknownMnemonic) => "unknown mnemonic",
            Error::Decode(DecodeError::MalformedOperands) => "malformed operand list",
            Error::InvalidWritebackTarget => "the destination is not a register",
            Error::MissingResponseHandler => "no bus request is outstanding",
            Error::UnknownBusHandler => "the bus response names an unknown unit",
            Error::UnitFault => "a unit reported a fault",
        }
    }
}

} // verus!
