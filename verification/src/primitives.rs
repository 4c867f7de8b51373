//! Plain-value types that every record is built from.

use vstd::prelude::*;

verus! {

/// At least one.
pub open spec fn at_least_one(n: int) -> int {
    if n < 1 {
        1
    } else {
        n
    }
}

/// A 20-byte account address.
pub type Address = [u8; 20];

/// A 32-byte hash.
pub type Hash32 = [u8; 32];

/// An unsigned 256-bit integer as 32 big-endian bytes.
pub type U256 = [u8; 32];

/// How a call frame was entered.
#[derive(Debug, Clone, Copy, PartialEq, Eq, Structural)]
pub enum CallKind {
    Call,
    DelegateCall,
    CallCode,
    Create,
    Create2,
    SelfDestruct,
}

impl CallKind {
    /// The byte a kind is stored as.
    pub open spec fn spec_to_byte(self) -> u8 {
        match self {
            CallKind::Call => 0,
            CallKind::DelegateCall => 1,
            CallKind::CallCode => 2,
            CallKind::Create => 3,
            CallKind::Create2 => 4,
            CallKind::SelfDestruct => 5,
        }
    }

    /// The kind a stored byte stands for.
    pub open spec fn spec_from_byte(byte: u8) -> Option<CallKind> {
        if byte == 0 {
            Some(CallKind::Call)
        } else if byte == 1 {
            Some(CallKind::DelegateCall)
        } else if byte == 2 {
            Some(CallKind::CallCode)
        } else if byte == 3 {
            Some(CallKind::Create)
        } else if byte == 4 {
            Some(CallKind::Create2)
        } else if byte == 5 {
            Some(CallKind::SelfDestruct)
        } else {
            None
        }
    }

    /// The byte this kind is stored as.
    pub fn to_byte(self) -> (byte: u8)
        ensures
            byte == self.spec_to_byte(),
            CallKind::spec_from_byte(byte) == Some(self),
    {
        match self {
            CallKind::Call => 0,
            CallKind::DelegateCall => 1,
            CallKind::CallCode => 2,
            CallKind::Create => 3,
            CallKind::Create2 => 4,
            CallKind::SelfDestruct => 5,
        }
    }

    /// The kind a stored byte stands for; `None` for bytes no kind is stored as.
    pub fn from_byte(byte: u8) -> (kind: Option<CallKind>)
        ensures
            kind == CallKind::spec_from_byte(byte),
    {
        match byte {
            0 => Some(CallKind::Call),
            1 => Some(CallKind::DelegateCall),
            2 => Some(CallKind::CallCode),
            3 => Some(CallKind::Create),
            4 => Some(CallKind::Create2),
            5 => Some(CallKind::SelfDestruct),
            _ => None,
        }
    }
}

} // verus!
