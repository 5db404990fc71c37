use vstd::prelude::*;

verus! {

/// The errors of the chain's standard library that this contract passes on.
#[derive(Debug, PartialEq, Eq)]
pub enum StdError {
    /// A value that was looked up is absent.
    NotFound { kind: String },
    /// Any other failure, with its message.
    GenericErr { msg: String },
}

/// Why a call of the contract failed.
#[derive(Debug)]
pub enum ContractError {
    Std(StdError),
    /// A message could not be encoded.
    Encode(cosmos_sdk_proto::prost::EncodeError),
    Unauthorized,
    InvalidGranteeAddress(String),
    InvalidGranterAddress(String),
    QueryPendingRewardsFailure,
}

} // verus!
