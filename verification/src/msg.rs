use vstd::prelude::*;

use crate::coin::{Coin, Decimal, clone_coins};
use crate::helpers::CoinModel;

verus! {

/// A point in time, in nanoseconds since the Unix epoch.
#[derive(Debug, Clone, Copy, PartialEq, Eq, Structural)]
pub struct Timestamp {
    pub nanos: u64,
}

impl Timestamp {
    pub fn from_nanos(nanos: u64) -> (r: Timestamp)
        ensures
            r.nanos == nanos,
    {
        Timestamp { nanos }
    }

    pub fn nanos(&self) -> (r: u64)
        ensures
            r == self.nanos,
    {
        self.nanos
    }
}

#[derive(Debug, Clone, Copy, PartialEq, Eq, Structural)]
pub struct InstantiateMsg {}

#[derive(Debug, Clone, Copy, PartialEq, Eq, Structural)]
pub struct MigrateMsg {}

#[derive(Debug, PartialEq, Eq)]
pub enum QueryMsg {
    Version {},
    /// Returns the grant information for the given granter.
    /// Will either return the active grant info or nothing if there is no active grant.
    ActiveGrantsByGranter(String),
    /// Returns the grant information for the given grantee.
    /// Will return a list of all grants that the grantee has access to.
    ActiveGrantsByGrantee(String),
    /// Returns the pending rewards for the given delegator.
    PendingRewards(String),
}

/// The settings of one grant, as a mathematical value.
pub struct GrantModel {
    pub grantee: Seq<char>,
    pub max_percentage: Decimal,
    pub expiration: Timestamp,
}

#[derive(Debug, PartialEq, Eq)]
pub struct AllowedWithdrawlSettings {
    /// address to withdraw portion of rewards to
    pub grantee: String,
    /// percentage of rewards that can be withdrawn to the given address
    pub max_percentage: Decimal,
    /// expiration date of the grant as a unix timestamp
    pub expiration: Timestamp,
}

impl View for AllowedWithdrawlSettings {
    type V = GrantModel;

    open spec fn view(&self) -> GrantModel {
        GrantModel {
            grantee: self.grantee@,
            max_percentage: self.max_percentage,
            expiration: self.expiration,
        }
    }
}

impl Clone for AllowedWithdrawlSettings {
    fn clone(&self) -> (r: Self)
        ensures
            r == *self,
    {
        AllowedWithdrawlSettings {
            grantee: self.grantee.clone(),
            max_percentage: self.max_percentage,
            expiration: self.expiration,
        }
    }
}

#[derive(Debug, PartialEq, Eq)]
pub struct ExecuteSettings {
    /// address to withdraw the rewards for
    pub granter: String,
    /// the percentage of rewards to be withdrawn to the grantee. if none is specified, the max is used
    pub percentage: Option<Decimal>,
}

#[derive(Debug, PartialEq, Eq)]
pub enum ExecuteMsg {
    /// Creates a new grant that allows portions of one's staking rewards to be claimed by other addresses
    Grant(AllowedWithdrawlSettings),
    /// Revokes an existing grant so that it can no longer be used
    Revoke(),
    /// Withdraws a user's rewards: the granted share to the grantee and the remainder to the granter
    Execute(ExecuteSettings),
}

/// The rewards that one validator holds for a delegator.
#[derive(Debug, PartialEq, Eq)]
pub struct PendingReward {
    pub validator: String,
    pub amount: Vec<Coin>,
}

impl Clone for PendingReward {
    fn clone(&self) -> (r: Self)
        ensures
            r.validator == self.validator,
            r.amount@ == self.amount@,
    {
        PendingReward { validator: self.validator.clone(), amount: clone_coins(&self.amount) }
    }
}

impl DeepView for PendingReward {
    type V = (Seq<char>, Seq<CoinModel>);

    open spec fn deep_view(&self) -> (Seq<char>, Seq<CoinModel>) {
        (self.validator@, self.amount.deep_view())
    }
}

#[derive(Debug, PartialEq, Eq)]
pub struct AllPendingRewardsResponse {
    pub rewards: Vec<PendingReward>,
    pub total: Vec<Coin>,
}

#[derive(Debug, PartialEq, Eq)]
pub struct GrantQueryResponse {
    pub granter: String,
    pub allowed_withdrawls: AllowedWithdrawlSettings,
}

#[derive(Debug, PartialEq, Eq)]
pub struct VersionResponse {
    pub version: String,
}

} // verus!
