//! Withdraw-rewards grants: a granter lets a grantee withdraw a share of the
//! granter's pending staking rewards, up to a maximum percentage and until an
//! expiration time. The remainder of the rewards goes back to the granter.

pub mod coin;
pub mod helpers;
pub mod msg;
pub mod response;
pub mod error;
pub mod msg_gen;
pub mod queries;
pub mod state;
pub mod contract;
