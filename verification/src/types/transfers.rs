//! Value-transfer entries.

use vstd::prelude::*;

use crate::primitives::{Address, CallKind, Hash32, U256};

verus! {

/// Per-transfer view: always has a `to` address (Create* -> contract, SelfDestruct -> beneficiary).
#[derive(Debug, Clone, PartialEq, Eq)]
pub struct TransferEntry {
    pub block_number: u64,
    pub block_hash: Hash32,
    pub tx_index: u32,
    pub trace_address: Vec<u32>,
    pub typ: CallKind,
    pub from: Address,
    pub to: Address,
    pub value: U256,
}

impl TransferEntry {
    pub fn is_top_level(&self) -> (top: bool)
        ensures
            top == (self.trace_address@.len() == 0),
    {
        self.trace_address.is_empty()
    }
}

} // verus!
