use vstd::prelude::*;

use crate::coin::{Coin, clone_coins};
use crate::error::{ContractError, StdError};
use crate::helpers::{
    CoinModel, amount_of, distinct_denoms, lemma_sum_coins_adds_amounts, lemma_sum_coins_keeps_distinct,
    lemma_take_last, sum_coins, sum_coins_fits, sum_coins_would_fit, summed_coins,
};
use crate::msg::{AllPendingRewardsResponse, PendingReward, VersionResponse};
use crate::response::text;

verus! {

/// The version of this contract.
pub const CONTRACT_VERSION: &'static str = "0.1.0";

/// The name under which this contract records its version.
pub const CONTRACT_NAME: &'static str = "crates.io:withdraw-rewards-grant";

/// The version of this contract.
pub fn query_version() -> (r: VersionResponse)
    ensures
        r.version@ == CONTRACT_VERSION@,
{
    VersionResponse { version: text(CONTRACT_VERSION) }
}

/// The coins of several rewards summed one reward after the other, starting
/// from no coins.
pub open spec fn pending_total(amounts: Seq<Seq<CoinModel>>) -> Seq<CoinModel>
    decreases amounts.len(),
{
    if amounts.len() == 0 {
        Seq::empty()
    } else {
        summed_coins(pending_total(amounts.drop_last()), amounts.last())
    }
}

/// Summing the rewards one after the other never takes an amount past
/// `u128::MAX`.
pub open spec fn pending_total_fits(amounts: Seq<Seq<CoinModel>>) -> bool
    decreases amounts.len(),
{
    amounts.len() == 0 || (pending_total_fits(amounts.drop_last()) && sum_coins_fits(
        pending_total(amounts.drop_last()),
        amounts.last(),
    ))
}

/// The total amount of denomination `denom` over all rewards.
pub open spec fn total_amount_of(amounts: Seq<Seq<CoinModel>>, denom: Seq<char>) -> int
    decreases amounts.len(),
{
    if amounts.len() == 0 {
        0
    } else {
        total_amount_of(amounts.drop_last(), denom) + amount_of(amounts.last(), denom)
    }
}

/// Every delegation query found its delegation.
pub open spec fn all_found(found: Seq<Option<PendingReward>>) -> bool {
    forall|i: int| 0 <= i < found.len() ==> #[trigger] found[i] is Some
}

/// The rewards of the delegations that were found.
pub open spec fn found_rewards(found: Seq<Option<PendingReward>>) -> Seq<(Seq<char>, Seq<CoinModel>)> {
    Seq::new(found.len(), |i: int| found[i]->0.deep_view())
}

/// The coins of each reward that was found.
pub open spec fn found_amounts(found: Seq<Option<PendingReward>>) -> Seq<Seq<CoinModel>> {
    Seq::new(found.len(), |i: int| found[i]->0.amount.deep_view())
}

/// Law of the reported rewards: there is one for each delegation, in order,
/// and each carries its delegation's validator and the coins that its query
/// returned, the same coins that go into the total.
pub proof fn law_found_rewards(found: Seq<Option<PendingReward>>)
    ensures
        found_rewards(found).len() == found.len(),
        forall|i: int|
            0 <= i < found.len() ==> #[trigger] found_rewards(found)[i] == (
                found[i]->0.validator@,
                found[i]->0.amount.deep_view(),
            ),
        forall|i: int| 0 <= i < found.len() ==> #[trigger] found_rewards(found)[i].1 == found_amounts(found)[i],
{
}

/// Law of the summed rewards: of every denomination they hold the total of
/// all rewards, and each denomination once.
pub proof fn lemma_pending_total(amounts: Seq<Seq<CoinModel>>)
    ensures
        distinct_denoms(pending_total(amounts)),
        forall|denom: Seq<char>|
            #[trigger] amount_of(pending_total(amounts), denom) == total_amount_of(amounts, denom),
    decreases amounts.len(),
{
    if amounts.len() == 0 {
        assert forall|denom: Seq<char>|
            #[trigger] amount_of(pending_total(amounts), denom) == total_amount_of(amounts, denom) by {}
    } else {
        lemma_pending_total(amounts.drop_last());
        lemma_sum_coins_keeps_distinct(pending_total(amounts.drop_last()), amounts.last());
        assert forall|denom: Seq<char>|
            #[trigger] amount_of(pending_total(amounts), denom) == total_amount_of(amounts, denom) by {
            lemma_sum_coins_adds_amounts(pending_total(amounts.drop_last()), amounts.last(), denom);
        }
    }
}

proof fn lemma_fits_prefix(amounts: Seq<Seq<CoinModel>>, n: int)
    requires
        pending_total_fits(amounts),
        0 <= n <= amounts.len(),
    ensures
        pending_total_fits(amounts.take(n)),
    decreases amounts.len() - n,
{
    if n == amounts.len() {
        assert(amounts.take(n) =~= amounts);
    } else {
        lemma_fits_prefix(amounts, n + 1);
        lemma_take_last(amounts, n);
    }
}

/// Whether summing the coins of `rewards`, one reward after the other, stays
/// within `u128::MAX`.
pub fn pending_rewards_fit(rewards: &Vec<PendingReward>) -> (r: bool)
    ensures
        r == pending_total_fits(Seq::new(rewards.len() as nat, |i: int| rewards[i].amount.deep_view())),
{
    let ghost amounts = Seq::new(rewards.len() as nat, |i: int| rewards[i].amount.deep_view());
    let mut total: Vec<Coin> = Vec::new();
    let mut i: usize = 0;
    assert(amounts.take(0) =~= Seq::<Seq<CoinModel>>::empty());
    assert(total.deep_view() =~= Seq::<CoinModel>::empty());
    while i < rewards.len()
        invariant
            i <= rewards.len(),
            amounts == Seq::new(rewards.len() as nat, |i: int| rewards[i].amount.deep_view()),
            pending_total_fits(amounts.take(i as int)),
            total.deep_view() == pending_total(amounts.take(i as int)),
        decreases rewards.len() - i,
    {
        proof {
            lemma_take_last(amounts, i as int);
        }
        let fits = sum_coins_would_fit(&total, &rewards[i].amount);
        if !fits {
            proof {
                if pending_total_fits(amounts) {
                    lemma_fits_prefix(amounts, i + 1);
                }
            }
            return false;
        }
        total = sum_coins(total, clone_coins(&rewards[i].amount));
        i += 1;
    }
    assert(amounts.take(rewards.len() as int) =~= amounts);
    true
}

/// Records the answer to the query of one delegation's rewards, `None` where
/// it found nothing or failed, and tells whether to go on querying the next
/// delegation: the queries stop at the first one that finds nothing.
pub fn record_delegation_reward(found: &mut Vec<Option<PendingReward>>, answer: Option<PendingReward>) -> (r:
    bool)
    ensures
        final(found)@ == old(found)@.push(answer),
        r == answer is Some,
{
    let go_on = answer.is_some();
    found.push(answer);
    go_on
}

/// The pending staking rewards of a delegator, from what the queries of its
/// delegations returned: `delegations` is the list of its delegations, each
/// `None` where the query of its rewards found nothing, or the error of the
/// query of that list. The rewards are summed into a total.
pub fn query_pending_rewards(delegations: Result<Vec<Option<PendingReward>>, StdError>) -> (r: Result<
    AllPendingRewardsResponse,
    ContractError,
>)
    requires
        delegations matches Ok(found) ==> (all_found(found@) ==> pending_total_fits(found_amounts(found@))),
    ensures
        match delegations {
            Err(e) => r matches Err(ContractError::Std(e2)) && e2 == e,
            Ok(found) => if all_found(found@) {
                r matches Ok(resp) && resp.rewards.deep_view() == found_rewards(found@)
                    && resp.total.deep_view() == pending_total(found_amounts(found@))
                    && distinct_denoms(resp.total.deep_view()) && (forall|denom: Seq<char>|
                    #[trigger] amount_of(resp.total.deep_view(), denom) == total_amount_of(
                        found_amounts(found@),
                        denom,
                    )) && resp.rewards.len() == found.len() && (forall|i: int|
                    #![trigger resp.rewards[i]]
                    0 <= i < found.len() ==> resp.rewards[i].validator@ == found@[i]->0.validator@
                        && resp.rewards[i].amount.deep_view() == found@[i]->0.amount.deep_view())
            } else {
                r matches Err(ContractError::QueryPendingRewardsFailure)
            },
        },
        r matches Ok(resp) ==> forall|denom: Seq<char>|
            #[trigger] amount_of(resp.total.deep_view(), denom) == total_amount_of(
                Seq::new(resp.rewards.len() as nat, |i: int| resp.rewards[i].amount.deep_view()),
                denom,
            ),
{
    match delegations {
        Err(e) => Err(ContractError::Std(e)),
        Ok(found) => {
            let ghost rewards_model = found_rewards(found@);
            let ghost amounts = found_amounts(found@);
            let mut rewards: Vec<PendingReward> = Vec::new();
            let mut i: usize = 0;
            while i < found.len()
                invariant
                    i <= found.len(),
                    delegations matches Ok(f) && f == found,
                    rewards_model == found_rewards(found@),
                    forall|t: int| 0 <= t < i ==> #[trigger] found@[t] is Some,
                    rewards.len() == i,
                    forall|t: int|
                        0 <= t < i ==> #[trigger] rewards@[t].deep_view() == rewards_model[t],
                decreases found.len() - i,
            {
                match &found[i] {
                    Some(p) => {
                        rewards.push(p.clone());
                    },
                    None => {
                        assert(!(found@[i as int] is Some));
                        return Err(ContractError::QueryPendingRewardsFailure);
                    },
                }
                i += 1;
            }
            assert(all_found(found@));
            assert(rewards.deep_view() =~= rewards_model);
            let mut total: Vec<Coin> = Vec::new();
            let mut j: usize = 0;
            assert(amounts.take(0) =~= Seq::<Seq<CoinModel>>::empty());
            assert(total.deep_view() =~= Seq::<CoinModel>::empty());
            while j < rewards.len()
                invariant
                    j <= rewards.len(),
                    rewards.len() == found.len(),
                    amounts == found_amounts(found@),
                    rewards_model == found_rewards(found@),
                    rewards.deep_view() == rewards_model,
                    pending_total_fits(amounts),
                    total.deep_view() == pending_total(amounts.take(j as int)),
                decreases rewards.len() - j,
            {
                proof {
                    lemma_take_last(amounts, j as int);
                    lemma_fits_prefix(amounts, j + 1);
                    assert(rewards.deep_view()[j as int] == rewards[j as int].deep_view());
                    assert(amounts[j as int] == rewards[j as int].amount.deep_view());
                }
                total = sum_coins(total, clone_coins(&rewards[j].amount));
                j += 1;
            }
            assert(amounts.take(rewards.len() as int) =~= amounts);
            proof {
                lemma_pending_total(amounts);
                assert forall|i: int| #![trigger rewards[i]] 0 <= i < rewards.len() implies rewards[i].validator@
                    == found@[i]->0.validator@ && rewards[i].amount.deep_view() == found@[i]->0.amount.deep_view()
                    && amounts[i] == rewards[i].amount.deep_view() by {
                    assert(rewards.deep_view()[i] == rewards[i].deep_view());
                    assert(rewards_model[i] == found@[i]->0.deep_view());
                }
                assert(Seq::new(rewards.len() as nat, |i: int| rewards[i].amount.deep_view()) =~= amounts);
            }
            Ok(AllPendingRewardsResponse { rewards, total })
        },
    }
}

} // verus!
