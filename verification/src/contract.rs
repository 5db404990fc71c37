use vstd::prelude::*;

use crate::coin::{Coin, Decimal};
use crate::error::{ContractError, StdError};
use crate::helpers::{
    CoinModel, amount_of, amounts_nonneg, partition_coins_by_percentage,
    partition_fits, remainders_of, shares_of,
};
use crate::msg::{
    AllPendingRewardsResponse, AllowedWithdrawlSettings, ExecuteSettings, GrantModel, GrantQueryResponse,
    InstantiateMsg, MigrateMsg, Timestamp,
};
use crate::msg_gen::{
    decode_msg_exec, decode_two_strings, law_msg_exec_round_trip, law_two_strings_round_trip,
    exec_msg, msg_exec_encoding, msg_exec_url, set_withdraw_address_encoding, set_withdraw_address_url,
    set_withdraw_rewards_msg, withdraw_delegator_reward_encoding, withdraw_delegator_reward_url,
    withdraw_rewards_msgs, Any,
};
use crate::queries::{CONTRACT_NAME, CONTRACT_VERSION};
use crate::response::{BankMsg, CosmosMsg, CosmosMsgModel, Response, text};
use crate::state::{Grants, key_lt, keys_sorted, lemma_map_of_at, map_of};

verus! {

/// The name and version under which the contract records itself.
#[derive(Debug, PartialEq, Eq)]
pub struct ContractVersion {
    pub contract: String,
    pub version: String,
}

/// Sets the contract up: the version to record, and an empty response.
pub fn instantiate(_msg: InstantiateMsg) -> (r: (ContractVersion, Response))
    ensures
        r.0.contract@ == CONTRACT_NAME@,
        r.0.version@ == CONTRACT_VERSION@,
        r.1.deep_view().messages.len() == 0,
        r.1.deep_view().attributes.len() == 0,
{
    (ContractVersion { contract: text(CONTRACT_NAME), version: text(CONTRACT_VERSION) }, Response::new())
}

/// Migrates the contract: nothing changes, and the response is empty.
pub fn migrate(_msg: MigrateMsg) -> (r: Response)
    ensures
        r.deep_view().messages.len() == 0,
        r.deep_view().attributes.len() == 0,
{
    Response::new()
}

/// The grant is still in force at time `now`.
pub open spec fn is_active(grant: GrantModel, now: Timestamp) -> bool {
    now.nanos <= grant.expiration.nanos
}

/// The share that a withdrawal sends to the grantee: the percentage asked
/// for, or the maximum when none is asked for, and never more than the
/// maximum.
pub open spec fn percentage_to_send(requested: Option<Decimal>, max: Decimal) -> Decimal {
    let asked = match requested {
        Some(p) => p,
        None => max,
    };
    if asked.atomics <= max.atomics {
        asked
    } else {
        max
    }
}

/// Creates or replaces the grant of `sender`. `grantee_valid` tells whether
/// the chain accepts the grantee's address; when it does not, the grant is
/// refused and nothing changes.
pub fn execute_grant(
    grants: &mut Grants,
    sender: String,
    grant_spec: AllowedWithdrawlSettings,
    grantee_valid: bool,
) -> (r: Result<Response, ContractError>)
    ensures
        !grantee_valid ==> (r matches Err(ContractError::InvalidGranteeAddress(g)) && g@
            == grant_spec.grantee@ && final(grants)@ == old(grants)@),
        grantee_valid ==> (r matches Ok(resp) && final(grants)@ == old(grants)@.insert(
            sender@,
            grant_spec@,
        ) && resp.deep_view().messages.len() == 0 && resp.deep_view().attributes == seq![
            ("action"@, "grant"@),
            ("granter"@, sender@),
            ("grantee"@, grant_spec.grantee@),
        ]),
{
    if !grantee_valid {
        return Err(ContractError::InvalidGranteeAddress(grant_spec.grantee));
    }
    let granter = sender.clone();
    let grantee = grant_spec.grantee.clone();
    grants.save(sender, grant_spec);
    let resp = Response::new().add_attribute("action", text("grant")).add_attribute(
        "granter",
        granter,
    ).add_attribute("grantee", grantee);
    assert(resp.deep_view().attributes =~= seq![
        ("action"@, "grant"@),
        ("granter"@, sender@),
        ("grantee"@, grant_spec.grantee@),
    ]);
    Ok(resp)
}

/// Removes the grant of `sender`, if any, so that it can no longer be used.
pub fn execute_revoke(grants: &mut Grants, sender: String) -> (r: Response)
    ensures
        final(grants)@ == old(grants)@.remove(sender@),
        r.deep_view().messages.len() == 0,
        r.deep_view().attributes == seq![("action"@, "revoke"@), ("granter"@, sender@)],
{
    grants.remove(&sender);
    let resp = Response::new().add_attribute("action", text("revoke")).add_attribute("granter", sender);
    assert(resp.deep_view().attributes =~= seq![("action"@, "revoke"@), ("granter"@, sender@)]);
    resp
}

/// The kind that the error for a missing grant names.
pub open spec fn grant_kind() -> Seq<char> {
    "withdraw_rewards_grant::msg::AllowedWithdrawlSettings"@
}

/// The first step of a withdrawal: the grant of the granter named in
/// `settings`. `granter_valid` tells whether the chain accepts the granter's
/// address.
pub fn load_withdraw_grant(grants: &Grants, settings: &ExecuteSettings, granter_valid: bool) -> (r:
    Result<AllowedWithdrawlSettings, ContractError>)
    ensures
        !granter_valid ==> (r matches Err(ContractError::InvalidGranterAddress(g)) && g@
            == settings.granter@),
        granter_valid && !grants@.contains_key(settings.granter@) ==> (r matches Err(
            ContractError::Std(StdError::NotFound { kind }),
        ) && kind@ == grant_kind()),
        granter_valid && grants@.contains_key(settings.granter@) ==> (r matches Ok(g) && g@
            == grants@[settings.granter@]),
{
    if !granter_valid {
        return Err(ContractError::InvalidGranterAddress(settings.granter.clone()));
    }
    match grants.get(&settings.granter) {
        Some(g) => Ok(g.clone()),
        None => Err(
            ContractError::Std(
                StdError::NotFound { kind: text("withdraw_rewards_grant::msg::AllowedWithdrawlSettings") },
            ),
        ),
    }
}

/// The second step of a withdrawal: checks that the grant is in force at
/// `now` and that `sender` is its granter or its grantee, and picks the share
/// to send to the grantee.
pub fn authorize_withdraw(
    grant: &AllowedWithdrawlSettings,
    settings: &ExecuteSettings,
    now: Timestamp,
    sender: &String,
) -> (r: Result<Decimal, ContractError>)
    ensures
        !is_active(grant@, now) ==> r matches Err(ContractError::Unauthorized),
        is_active(grant@, now) && sender@ != settings.granter@ && sender@ != grant.grantee@ ==> r matches Err(
            ContractError::Unauthorized,
        ),
        is_active(grant@, now) && (sender@ == settings.granter@ || sender@ == grant.grantee@) ==> r
            == Ok::<Decimal, ContractError>(percentage_to_send(settings.percentage, grant.max_percentage)),
        is_active(grant@, now) && (sender@ == settings.granter@ || sender@ == grant.grantee@)
            && settings.percentage is None ==> r == Ok::<Decimal, ContractError>(grant.max_percentage),
        is_active(grant@, now) && (sender@ == settings.granter@ || sender@ == grant.grantee@) && (
        settings.percentage matches Some(p) && p.atomics <= grant.max_percentage.atomics) ==> r == Ok::<
            Decimal,
            ContractError,
        >(settings.percentage->0),
        is_active(grant@, now) && (sender@ == settings.granter@ || sender@ == grant.grantee@) && (
        settings.percentage matches Some(p) && p.atomics > grant.max_percentage.atomics) ==> r == Ok::<
            Decimal,
            ContractError,
        >(grant.max_percentage),
{
    if now.nanos > grant.expiration.nanos {
        return Err(ContractError::Unauthorized);
    }
    if *sender != settings.granter && *sender != grant.grantee {
        return Err(ContractError::Unauthorized);
    }
    let asked = match settings.percentage {
        Some(p) => p,
        None => grant.max_percentage,
    };
    Ok(asked.min(grant.max_percentage))
}

/// The messages that a withdrawal hands to the chain's authz module: point
/// the granter's rewards at the contract, withdraw them from each validator,
/// and point them back at the granter.
pub open spec fn claim_msgs(
    granter: Seq<char>,
    contract: Seq<char>,
    rewards: Seq<(Seq<char>, Seq<CoinModel>)>,
) -> Seq<(Seq<char>, Seq<u8>)> {
    seq![(set_withdraw_address_url(), set_withdraw_address_encoding(granter, contract))] + Seq::new(
        rewards.len(),
        |i: int| (withdraw_delegator_reward_url(), withdraw_delegator_reward_encoding(granter, rewards[i].0)),
    ) + seq![(set_withdraw_address_url(), set_withdraw_address_encoding(granter, granter))]
}

/// The messages of a withdrawal's response: the authz execution of the
/// claims, the grantee's share, and the granter's remainder.
pub open spec fn split_messages(
    granter: Seq<char>,
    grantee: Seq<char>,
    contract: Seq<char>,
    percentage: Decimal,
    rewards: Seq<(Seq<char>, Seq<CoinModel>)>,
    total: Seq<CoinModel>,
) -> Seq<CosmosMsgModel> {
    seq![
        CosmosMsgModel::Stargate {
            type_url: msg_exec_url(),
            value: msg_exec_encoding(contract, claim_msgs(granter, contract, rewards)),
        },
        CosmosMsgModel::BankSend { to_address: grantee, amount: shares_of(percentage, total) },
        CosmosMsgModel::BankSend { to_address: granter, amount: remainders_of(percentage, total) },
    ]
}

/// The attributes of a withdrawal's response.
pub open spec fn split_attributes(granter: Seq<char>, grantee: Seq<char>, percentage_text: Seq<char>) -> Seq<
    (Seq<char>, Seq<char>),
> {
    seq![
        ("action"@, "execute_withdraw_rewards_split"@),
        ("granter"@, granter),
        ("grantee"@, grantee),
        ("percentage_split"@, percentage_text),
    ]
}

/// The response of a withdrawal, from its parts: the authz execution `exec`,
/// the coins for the grantee and for the granter, and the percentage as text.
pub fn split_response(
    granter: String,
    grantee: String,
    exec: CosmosMsg,
    grantee_coins: Vec<Coin>,
    granter_coins: Vec<Coin>,
    percentage_text: String,
) -> (r: Response)
    ensures
        r.deep_view().messages == seq![
            exec.deep_view(),
            CosmosMsgModel::BankSend { to_address: grantee@, amount: grantee_coins.deep_view() },
            CosmosMsgModel::BankSend { to_address: granter@, amount: granter_coins.deep_view() },
        ],
        r.deep_view().attributes == split_attributes(granter@, grantee@, percentage_text@),
{
    let ghost exec_model = exec.deep_view();
    let grantee_send_msg = CosmosMsg::Bank(
        BankMsg::Send { to_address: grantee.clone(), amount: grantee_coins },
    );
    let granter_send_msg = CosmosMsg::Bank(
        BankMsg::Send { to_address: granter.clone(), amount: granter_coins },
    );
    let resp = Response::new().add_message(exec).add_message(grantee_send_msg).add_message(
        granter_send_msg,
    ).add_attribute("action", text("execute_withdraw_rewards_split")).add_attribute(
        "granter",
        granter,
    ).add_attribute("grantee", grantee).add_attribute("percentage_split", percentage_text);
    assert(resp.deep_view().messages =~= seq![
        exec_model,
        CosmosMsgModel::BankSend { to_address: grantee@, amount: grantee_coins.deep_view() },
        CosmosMsgModel::BankSend { to_address: granter@, amount: granter_coins.deep_view() },
    ]);
    assert(resp.deep_view().attributes =~= split_attributes(granter@, grantee@, percentage_text@));
    resp
}

/// The last step of a withdrawal: claims the granter's pending rewards
/// through the contract `contract_address`, then sends the grantee its share
/// of each coin of the total at `percentage` and the granter the remainder.
pub fn withdraw_response(
    granter: &String,
    grantee: &String,
    contract_address: &String,
    percentage: Decimal,
    pending: AllPendingRewardsResponse,
) -> (r: Result<Response, ContractError>)
    requires
        partition_fits(percentage, pending.total.deep_view()),
    ensures
        r matches Ok(resp) && resp.deep_view().messages == split_messages(
            granter@,
            grantee@,
            contract_address@,
            percentage,
            pending.rewards.deep_view(),
            pending.total.deep_view(),
        ) && resp.deep_view().attributes == split_attributes(
            granter@,
            grantee@,
            crate::coin::decimal_text(percentage.atomics),
        ),
        r matches Ok(resp) && resp.deep_view().messages.len() == 3,
        r matches Ok(resp) && (resp.deep_view().messages[0] matches CosmosMsgModel::Stargate {
            type_url,
            value,
        } && type_url == msg_exec_url() && decode_msg_exec(value).0 == contract_address@
            && decode_msg_exec(value).1.len() == pending.rewards.len() + 2 && decode_msg_exec(value).1[0].0
            == set_withdraw_address_url() && decode_two_strings(decode_msg_exec(value).1[0].1) == (
            granter@,
            contract_address@,
        ) && decode_msg_exec(value).1.last().0 == set_withdraw_address_url() && decode_two_strings(
            decode_msg_exec(value).1.last().1,
        ) == (granter@, granter@) && forall|i: int|
            #![trigger pending.rewards[i]]
            0 <= i < pending.rewards.len() ==> decode_msg_exec(value).1[i + 1].0
                == withdraw_delegator_reward_url() && decode_two_strings(decode_msg_exec(value).1[i + 1].1)
                == (granter@, pending.rewards[i].validator@)),
        r matches Ok(resp) && (resp.deep_view().messages[1] matches CosmosMsgModel::BankSend {
            to_address,
            amount,
        } && to_address == grantee@ && amount.len() == pending.total.len() && forall|i: int|
            #![trigger pending.total[i]]
            0 <= i < pending.total.len() ==> amount[i] == (
                pending.total[i].denom@,
                pending.total[i].amount as int * percentage.atomics as int / 1_000_000_000_000_000_000int,
            )),
        r matches Ok(resp) && (resp.deep_view().messages[2] matches CosmosMsgModel::BankSend {
            to_address,
            amount,
        } && to_address == granter@ && amount.len() == pending.total.len() && forall|i: int|
            #![trigger pending.total[i]]
            0 <= i < pending.total.len() ==> amount[i] == (
                pending.total[i].denom@,
                pending.total[i].amount - pending.total[i].amount as int * percentage.atomics as int
                    / 1_000_000_000_000_000_000int,
            )),
{
    proof {
        law_withdrawal_messages(
            granter@,
            grantee@,
            contract_address@,
            percentage,
            pending.rewards.deep_view(),
            pending.total.deep_view(),
        );
        assert forall|i: int| 0 <= i < pending.rewards.len() implies #[trigger] pending.rewards.deep_view()[i].0
            == pending.rewards[i].validator@ by {}
        assert forall|i: int| 0 <= i < pending.total.len() implies #[trigger] pending.total.deep_view()[i]
            == pending.total[i].deep_view() by {}
    }
    let ghost rewards_model = pending.rewards.deep_view();
    let ghost total_model = pending.total.deep_view();
    let AllPendingRewardsResponse { rewards, total } = pending;
    let (grantee_coins, granter_coins) = partition_coins_by_percentage(percentage, total);
    let mut claim_rewards_msgs: Vec<Any> = Vec::new();
    let first = set_withdraw_rewards_msg(granter, contract_address);
    match first {
        Ok(a) => {
            claim_rewards_msgs.push(a);
        },
        Err(e) => {
            return Err(e);
        },
    }
    let n = rewards.len();
    let ghost validators = Seq::new(
        rewards.len() as nat,
        |i: int|
            (
                withdraw_delegator_reward_url(),
                withdraw_delegator_reward_encoding(granter@, rewards[i].validator@),
            ),
    );
    let withdrawals = withdraw_rewards_msgs(granter, rewards);
    let mut withdrawals = match withdrawals {
        Ok(w) => w,
        Err(e) => {
            return Err(e);
        },
    };
    let ghost claim_before = claim_rewards_msgs.deep_view();
    let ghost withdraw_model = withdrawals.deep_view();
    claim_rewards_msgs.append(&mut withdrawals);
    assert(claim_rewards_msgs.deep_view() =~= claim_before + withdraw_model);
    let last = set_withdraw_rewards_msg(granter, granter);
    match last {
        Ok(a) => {
            let ghost before = claim_rewards_msgs.deep_view();
            claim_rewards_msgs.push(a);
            assert(claim_rewards_msgs.deep_view() =~= before.push(
                (set_withdraw_address_url(), set_withdraw_address_encoding(granter@, granter@)),
            ));
        },
        Err(e) => {
            return Err(e);
        },
    }
    assert(validators =~= Seq::new(
        rewards_model.len(),
        |i: int| (withdraw_delegator_reward_url(), withdraw_delegator_reward_encoding(granter@, rewards_model[i].0)),
    ));
    assert(claim_rewards_msgs.deep_view() =~= claim_msgs(granter@, contract_address@, rewards_model));
    let exec = match exec_msg(contract_address, claim_rewards_msgs) {
        Ok(m) => m,
        Err(e) => {
            return Err(ContractError::Encode(e));
        },
    };
    let percentage_text = percentage.to_string();
    let resp = split_response(
        granter.clone(),
        grantee.clone(),
        exec,
        grantee_coins,
        granter_coins,
        percentage_text,
    );
    assert(resp.deep_view().messages =~= split_messages(
        granter@,
        grantee@,
        contract_address@,
        percentage,
        rewards_model,
        total_model,
    ));
    Ok(resp)
}

/// The grant of `granter` when it is in force at `now`; nothing when there is
/// no grant or it has expired.
pub fn query_active_grant_by_granter(grants: &Grants, granter: &String, now: Timestamp) -> (r: Option<
    GrantQueryResponse,
>)
    ensures
        match r {
            Some(q) => grants@.contains_key(granter@) && is_active(grants@[granter@], now) && q.granter@
                == granter@ && q.allowed_withdrawls@ == grants@[granter@],
            None => !(grants@.contains_key(granter@) && is_active(grants@[granter@], now)),
        },
{
    match grants.get(granter) {
        Some(g) => {
            if now.nanos <= g.expiration.nanos {
                Some(GrantQueryResponse { granter: granter.clone(), allowed_withdrawls: g.clone() })
            } else {
                None
            }
        },
        None => None,
    }
}

/// All grants to `grantee` that are in force at `now`, in ascending order of
/// their granters' addresses.
pub fn query_active_grants_by_grantee(grants: &Grants, grantee: &String, now: Timestamp) -> (r: Vec<
    GrantQueryResponse,
>)
    ensures
        forall|i: int|
            0 <= i < r.len() ==> {
                let q = #[trigger] r[i];
                &&& grants@.contains_key(q.granter@)
                &&& grants@[q.granter@] == q.allowed_withdrawls@
                &&& q.allowed_withdrawls.grantee@ == grantee@
                &&& is_active(q.allowed_withdrawls@, now)
            },
        forall|k: Seq<char>|
            #[trigger] grants@.contains_key(k) && grants@[k].grantee == grantee@ && is_active(
                grants@[k],
                now,
            ) ==> exists|i: int| 0 <= i < r.len() && #[trigger] r[i].granter@ == k,
        forall|i: int, j: int|
            0 <= i < j < r.len() ==> key_lt(#[trigger] r[i].granter@, #[trigger] r[j].granter@),
{
    let n = grants.len();
    let ghost s = grants.entries();
    let mut r: Vec<GrantQueryResponse> = Vec::new();
    let ghost mut idx: Seq<int> = Seq::empty();
    let mut i: usize = 0;
    while i < n
        invariant
            i <= n,
            n == s.len(),
            s == grants.entries(),
            keys_sorted(s),
            grants@ == map_of(s),
            idx.len() == r.len(),
            forall|m: int| 0 <= m < idx.len() ==> 0 <= #[trigger] idx[m] < i,
            forall|m: int, l: int| 0 <= m < l < idx.len() ==> #[trigger] idx[m] < #[trigger] idx[l],
            forall|m: int|
                0 <= m < r.len() ==> {
                    let q = #[trigger] r[m];
                    &&& q.granter@ == s[idx[m]].0
                    &&& q.allowed_withdrawls@ == s[idx[m]].1
                    &&& q.allowed_withdrawls.grantee@ == grantee@
                    &&& is_active(q.allowed_withdrawls@, now)
                },
            forall|t: int|
                0 <= t < i && #[trigger] s[t].1.grantee == grantee@ && is_active(s[t].1, now) ==> exists|
                    m: int,
                | 0 <= m < idx.len() && idx[m] == t,
        decreases n - i,
    {
        let (granter, g) = grants.entry(i);
        if g.grantee == *grantee && now.nanos <= g.expiration.nanos {
            let ghost old_idx = idx;
            r.push(GrantQueryResponse { granter: granter.clone(), allowed_withdrawls: g.clone() });
            proof {
                idx = idx.push(i as int);
                assert(idx[idx.len() - 1] == i);
                assert forall|t: int|
                    0 <= t < i + 1 && #[trigger] s[t].1.grantee == grantee@ && is_active(s[t].1, now) implies exists|
                        m: int,
                    | 0 <= m < idx.len() && idx[m] == t by {
                    if t < i {
                        let m = choose|m: int| 0 <= m < old_idx.len() && old_idx[m] == t;
                        assert(idx[m] == t);
                    } else {
                        assert(idx[idx.len() - 1] == t);
                    }
                }
            }
        }
        i += 1;
    }
    proof {
        assert forall|m: int| 0 <= m < r.len() implies {
            let q = #[trigger] r[m];
            &&& grants@.contains_key(q.granter@)
            &&& grants@[q.granter@] == q.allowed_withdrawls@
            &&& q.allowed_withdrawls.grantee@ == grantee@
            &&& is_active(q.allowed_withdrawls@, now)
        } by {
            lemma_map_of_at(s, idx[m]);
        }
        assert forall|k: Seq<char>|
            #[trigger] grants@.contains_key(k) && grants@[k].grantee == grantee@ && is_active(
                grants@[k],
                now,
            ) implies exists|m: int| 0 <= m < r.len() && #[trigger] r[m].granter@ == k by {
            let t = choose|t: int| 0 <= t < s.len() && #[trigger] s[t].0 == k;
            lemma_map_of_at(s, t);
            assert(s[t].1.grantee == grantee@);
            let m = choose|m: int| 0 <= m < idx.len() && idx[m] == t;
            assert(r[m].granter@ == k);
        }
        assert forall|m: int, l: int| 0 <= m < l < r.len() implies key_lt(
            #[trigger] r[m].granter@,
            #[trigger] r[l].granter@,
        ) by {
            assert(idx[m] < idx[l]);
        }
    }
    r
}

/// Law of grants: once a granter has made a grant, its grant is the one made,
/// and it stays in force until its expiration.
pub proof fn law_grant_is_recorded(
    before: Map<Seq<char>, GrantModel>,
    granter: Seq<char>,
    grant: GrantModel,
    now: Timestamp,
)
    ensures
        before.insert(granter, grant).contains_key(granter),
        before.insert(granter, grant)[granter] == grant,
        is_active(before.insert(granter, grant)[granter], now) <==> now.nanos <= grant.expiration.nanos,
{
}

/// Law of grants: a grant or a revocation by one granter leaves every other
/// granter's grant as it was.
pub proof fn law_grants_are_separate(before: Map<Seq<char>, GrantModel>, granter: Seq<char>, grant: GrantModel, other: Seq<char>)
    requires
        other != granter,
    ensures
        before.insert(granter, grant).contains_key(other) == before.contains_key(other),
        before.insert(granter, grant).contains_key(other) ==> before.insert(granter, grant)[other]
            == before[other],
        before.remove(granter).contains_key(other) == before.contains_key(other),
        before.remove(granter).contains_key(other) ==> before.remove(granter)[other] == before[other],
{
}

/// Law of grants: after a revocation the granter has no grant, so a
/// withdrawal on it finds nothing and the grant shows as inactive.
pub proof fn law_revoke_removes(before: Map<Seq<char>, GrantModel>, granter: Seq<char>)
    ensures
        !before.remove(granter).contains_key(granter),
{
}

/// Law of the claims: the messages that a withdrawal packs for the contract
/// to run are, in order, a `MsgSetWithdrawAddress` that points the granter's
/// rewards at the contract, one `MsgWithdrawDelegatorReward` of the granter
/// for each validator with pending rewards, and a `MsgSetWithdrawAddress` that
/// points the granter's rewards back at the granter; read back from the
/// `MsgExec` that carries them, they and the contract as its grantee come out
/// as they went in.
pub proof fn law_claims_decoded(granter: Seq<char>, contract: Seq<char>, rewards: Seq<(Seq<char>, Seq<CoinModel>)>)
    ensures
        decode_msg_exec(msg_exec_encoding(contract, claim_msgs(granter, contract, rewards))) == (
            contract,
            claim_msgs(granter, contract, rewards),
        ),
        claim_msgs(granter, contract, rewards).len() == rewards.len() + 2,
        claim_msgs(granter, contract, rewards)[0].0 == set_withdraw_address_url(),
        decode_two_strings(claim_msgs(granter, contract, rewards)[0].1) == (granter, contract),
        claim_msgs(granter, contract, rewards).last().0 == set_withdraw_address_url(),
        decode_two_strings(claim_msgs(granter, contract, rewards).last().1) == (granter, granter),
        forall|i: int|
            #![trigger rewards[i]]
            0 <= i < rewards.len() ==> claim_msgs(granter, contract, rewards)[i + 1].0
                == withdraw_delegator_reward_url() && decode_two_strings(
                claim_msgs(granter, contract, rewards)[i + 1].1,
            ) == (granter, rewards[i].0),
{
    let msgs = claim_msgs(granter, contract, rewards);
    law_msg_exec_round_trip(contract, msgs);
    law_two_strings_round_trip(granter, contract);
    law_two_strings_round_trip(granter, granter);
    assert(msgs[0] == (set_withdraw_address_url(), set_withdraw_address_encoding(granter, contract)));
    assert(msgs.last() == (set_withdraw_address_url(), set_withdraw_address_encoding(granter, granter)));
    assert forall|i: int|
        #![trigger rewards[i]]
        0 <= i < rewards.len() implies msgs[i + 1].0 == withdraw_delegator_reward_url() && decode_two_strings(
            msgs[i + 1].1,
        ) == (granter, rewards[i].0) by {
        law_two_strings_round_trip(granter, rewards[i].0);
        assert(msgs[i + 1] == (
            withdraw_delegator_reward_url(),
            withdraw_delegator_reward_encoding(granter, rewards[i].0),
        ));
    }
}

/// Law of the withdrawal's messages: there are three. The first is a
/// `MsgExec` that, read back, has the contract as its grantee and packs, in
/// order, a `MsgSetWithdrawAddress` from the granter to the contract, one
/// `MsgWithdrawDelegatorReward` of the granter for each validator with
/// pending rewards, and a `MsgSetWithdrawAddress` from the granter back to the
/// granter. The second sends the grantee each coin of the total at the
/// percentage, rounded down; the third sends the granter what remains of
/// each coin.
pub proof fn law_withdrawal_messages(
    granter: Seq<char>,
    grantee: Seq<char>,
    contract: Seq<char>,
    percentage: Decimal,
    rewards: Seq<(Seq<char>, Seq<CoinModel>)>,
    total: Seq<CoinModel>,
)
    ensures
        split_messages(granter, grantee, contract, percentage, rewards, total).len() == 3,
        split_messages(granter, grantee, contract, percentage, rewards, total)[0] matches
            CosmosMsgModel::Stargate { type_url, value } && type_url == msg_exec_url()
            && decode_msg_exec(value).0 == contract && decode_msg_exec(value).1.len() == rewards.len() + 2
            && decode_msg_exec(value).1[0].0 == set_withdraw_address_url() && decode_two_strings(
            decode_msg_exec(value).1[0].1,
        ) == (granter, contract) && decode_msg_exec(value).1.last().0 == set_withdraw_address_url()
            && decode_two_strings(decode_msg_exec(value).1.last().1) == (granter, granter) && forall|i: int|
            #![trigger rewards[i]]
            0 <= i < rewards.len() ==> decode_msg_exec(value).1[i + 1].0 == withdraw_delegator_reward_url()
                && decode_two_strings(decode_msg_exec(value).1[i + 1].1) == (granter, rewards[i].0),
        split_messages(granter, grantee, contract, percentage, rewards, total)[1] matches
            CosmosMsgModel::BankSend { to_address, amount } && to_address == grantee && amount.len()
            == total.len() && forall|i: int|
            #![trigger total[i]]
            0 <= i < total.len() ==> amount[i] == (
                total[i].0,
                total[i].1 * percentage.atomics as int / 1_000_000_000_000_000_000int,
            ),
        split_messages(granter, grantee, contract, percentage, rewards, total)[2] matches
            CosmosMsgModel::BankSend { to_address, amount } && to_address == granter && amount.len()
            == total.len() && forall|i: int|
            #![trigger total[i]]
            0 <= i < total.len() ==> amount[i] == (
                total[i].0,
                total[i].1 - total[i].1 * percentage.atomics as int / 1_000_000_000_000_000_000int,
            ),
{
    let msgs = claim_msgs(granter, contract, rewards);
    let m = split_messages(granter, grantee, contract, percentage, rewards, total);
    assert(m[0] == CosmosMsgModel::Stargate {
        type_url: msg_exec_url(),
        value: msg_exec_encoding(contract, msgs),
    });
    assert(m[1] == CosmosMsgModel::BankSend { to_address: grantee, amount: shares_of(percentage, total) });
    assert(m[2] == CosmosMsgModel::BankSend {
        to_address: granter,
        amount: remainders_of(percentage, total),
    });
    law_claims_decoded(granter, contract, rewards);
    crate::helpers::law_split_each_coin(percentage, total);
}

/// Law of the share: a withdrawal that asks for no percentage sends the
/// grant's maximum; one that asks for a percentage within the maximum sends
/// that percentage; one that asks for more sends the maximum.
pub proof fn law_share_of_request(requested: Option<Decimal>, max: Decimal)
    ensures
        requested is None ==> percentage_to_send(requested, max) == max,
        (requested matches Some(p) && p.atomics <= max.atomics) ==> percentage_to_send(requested, max)
            == requested->0,
        (requested matches Some(p) && p.atomics > max.atomics) ==> percentage_to_send(requested, max) == max,
{
}

/// Law of withdrawals: the grantee's share never exceeds the grant's maximum,
/// the percentage asked for is used when it is within the maximum, and the
/// two transfers together hand out exactly the pending total, coin by coin
/// and denomination by denomination.
pub proof fn law_withdrawal_split(requested: Option<Decimal>, max: Decimal, total: Seq<CoinModel>)
    requires
        amounts_nonneg(total),
    ensures
        percentage_to_send(requested, max).atomics <= max.atomics,
        requested matches Some(p) ==> (p.atomics <= max.atomics ==> percentage_to_send(requested, max)
            == p),
        forall|i: int|
            0 <= i < total.len() ==> #[trigger] shares_of(percentage_to_send(requested, max), total)[i].1
                <= shares_of(max, total)[i].1,
        forall|i: int|
            0 <= i < total.len() ==> #[trigger] shares_of(percentage_to_send(requested, max), total)[i].1
                + remainders_of(percentage_to_send(requested, max), total)[i].1 == total[i].1,
        forall|denom: Seq<char>|
            #[trigger] amount_of(shares_of(percentage_to_send(requested, max), total), denom) + amount_of(
                remainders_of(percentage_to_send(requested, max), total),
                denom,
            ) == amount_of(total, denom),
{
    let p = percentage_to_send(requested, max);
    assert forall|i: int| 0 <= i < total.len() implies #[trigger] shares_of(p, total)[i].1 <= shares_of(
        max,
        total,
    )[i].1 by {
        crate::helpers::lemma_share_monotone(total[i].1, p.atomics as int, max.atomics as int);
    }
    assert forall|denom: Seq<char>|
        #[trigger] amount_of(shares_of(p, total), denom) + amount_of(remainders_of(p, total), denom)
            == amount_of(total, denom) by {
        crate::helpers::lemma_split_conserves(p, total, denom);
    }
}

} // verus!
