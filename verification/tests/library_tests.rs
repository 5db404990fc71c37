use withdraw_rewards_grant::coin::{mul_decimal, Coin, Decimal};
use withdraw_rewards_grant::contract::{
    authorize_withdraw, execute_grant, execute_revoke, instantiate, load_withdraw_grant, migrate,
    query_active_grant_by_granter, query_active_grants_by_grantee, split_response, withdraw_response,
};
use withdraw_rewards_grant::error::{ContractError, StdError};
use withdraw_rewards_grant::helpers::{
    amount_in, can_partition, partition_coins_by_percentage, sum_coins, sum_coins_would_fit,
    CwTemplateContract,
};
use withdraw_rewards_grant::msg::{
    AllPendingRewardsResponse, AllowedWithdrawlSettings, ExecuteSettings, InstantiateMsg, MigrateMsg,
    PendingReward, Timestamp,
};
use withdraw_rewards_grant::msg_gen::{exec_msg, set_withdraw_rewards_msg, withdraw_rewards_msgs, Any};
use withdraw_rewards_grant::queries::{
    pending_rewards_fit, query_pending_rewards, query_version, record_delegation_reward,
};
use withdraw_rewards_grant::response::{Attribute, BankMsg, CosmosMsg, Response, WasmMsg};
use withdraw_rewards_grant::state::{key_order, Grants, KeyOrder};

fn coin(amount: u128, denom: &str) -> Coin {
    Coin { denom: denom.to_string(), amount }
}

fn settings(grantee: &str, percent: u64, expiration: u64) -> AllowedWithdrawlSettings {
    AllowedWithdrawlSettings {
        grantee: grantee.to_string(),
        max_percentage: Decimal::percent(percent),
        expiration: Timestamp::from_nanos(expiration),
    }
}

fn attr(key: &str, value: &str) -> Attribute {
    Attribute { key: key.to_string(), value: value.to_string() }
}

/// The protobuf encoding of a message with two string fields.
fn two_strings(a: &str, b: &str) -> Vec<u8> {
    let mut v = vec![0x0a, a.len() as u8];
    v.extend_from_slice(a.as_bytes());
    v.push(0x12);
    v.push(b.len() as u8);
    v.extend_from_slice(b.as_bytes());
    v
}

#[test]
fn sum_coins_adds_each_denomination_once() {
    let xs = vec![coin(1, "a")];
    let ys = vec![coin(2, "b"), coin(3, "b"), coin(4, "a")];
    assert_eq!(sum_coins(xs, ys), vec![coin(5, "a"), coin(5, "b")]);
}

#[test]
fn sum_coins_adds_to_first_of_repeated_denomination() {
    let xs = vec![coin(1, "a"), coin(7, "a")];
    let ys = vec![coin(2, "a")];
    assert_eq!(sum_coins(xs, ys), vec![coin(3, "a"), coin(7, "a")]);
}

#[test]
fn sum_coins_of_nothing() {
    assert_eq!(sum_coins(vec![], vec![]), vec![]);
    assert_eq!(sum_coins(vec![], vec![coin(9, "x")]), vec![coin(9, "x")]);
}

#[test]
fn sum_coins_fit_checks() {
    let xs = vec![coin(u128::MAX - 1, "a")];
    assert!(sum_coins_would_fit(&xs, &vec![coin(1, "a")]));
    assert!(!sum_coins_would_fit(&xs, &vec![coin(2, "a")]));
    assert!(!sum_coins_would_fit(&vec![], &vec![coin(u128::MAX, "b"), coin(1, "b")]));
    assert_eq!(amount_in(&vec![coin(3, "a"), coin(4, "b"), coin(5, "a")], &"a".to_string()), Some(8));
    assert_eq!(amount_in(&vec![coin(u128::MAX, "a"), coin(1, "a")], &"a".to_string()), None);
}

#[test]
fn partition_rounds_down_and_conserves() {
    let coins = vec![coin(10, "a"), coin(1, "b")];
    let (send, remain) = partition_coins_by_percentage(Decimal::percent(33), coins);
    assert_eq!(send, vec![coin(3, "a"), coin(0, "b")]);
    assert_eq!(remain, vec![coin(7, "a"), coin(1, "b")]);
}

#[test]
fn partition_at_extremes() {
    let (send, remain) = partition_coins_by_percentage(Decimal::percent(100), vec![coin(10, "a")]);
    assert_eq!(send, vec![coin(10, "a")]);
    assert_eq!(remain, vec![coin(0, "a")]);
    let (send, remain) = partition_coins_by_percentage(Decimal::percent(0), vec![coin(10, "a")]);
    assert_eq!(send, vec![coin(0, "a")]);
    assert_eq!(remain, vec![coin(10, "a")]);
}

#[test]
fn can_partition_above_one() {
    let one_and_half = Decimal::raw(1_500_000_000_000_000_000);
    assert!(can_partition(one_and_half, &vec![coin(1, "a")]));
    assert!(!can_partition(one_and_half, &vec![coin(2, "a")]));
    assert!(can_partition(Decimal::percent(100), &vec![coin(u128::MAX, "a")]));
    assert!(!can_partition(Decimal::raw(u128::MAX), &vec![coin(u128::MAX, "a")]));
}

#[test]
fn decimal_arithmetic() {
    assert_eq!(mul_decimal(5, Decimal::percent(99)), 4);
    assert_eq!(mul_decimal(200, Decimal::percent(25)), 50);
    assert_eq!(mul_decimal(u128::MAX, Decimal::one()), u128::MAX);
    assert_eq!(Decimal::percent(25).atomics(), 250_000_000_000_000_000);
    assert_eq!(Decimal::percent(30).min(Decimal::percent(20)), Decimal::percent(20));
}

#[test]
fn decimal_text() {
    assert_eq!(Decimal::percent(25).to_string(), "0.25");
    assert_eq!(Decimal::percent(100).to_string(), "1");
    assert_eq!(Decimal::percent(150).to_string(), "1.5");
    assert_eq!(Decimal::raw(1).to_string(), "0.000000000000000001");
}

#[test]
fn keys_order_by_bytes() {
    let a = "a".to_string();
    let b = "b".to_string();
    let ab = "ab".to_string();
    assert_eq!(key_order(&a, &b), KeyOrder::Less);
    assert_eq!(key_order(&b, &a), KeyOrder::Greater);
    assert_eq!(key_order(&a, &ab), KeyOrder::Less);
    assert_eq!(key_order(&ab, &ab), KeyOrder::Equal);
    assert_eq!(key_order(&"Z".to_string(), &a), KeyOrder::Less);
}

#[test]
fn grants_save_get_remove() {
    let mut grants = Grants::new();
    assert_eq!(grants.len(), 0);
    grants.save("c".to_string(), settings("g1", 10, 5));
    grants.save("a".to_string(), settings("g2", 20, 5));
    grants.save("b".to_string(), settings("g3", 30, 5));
    assert_eq!(grants.len(), 3);
    assert_eq!(grants.entry(0).0, "a");
    assert_eq!(grants.entry(1).0, "b");
    assert_eq!(grants.entry(2).0, "c");
    grants.save("b".to_string(), settings("g4", 40, 5));
    assert_eq!(grants.len(), 3);
    assert_eq!(grants.get(&"b".to_string()), Some(&settings("g4", 40, 5)));
    grants.remove(&"a".to_string());
    assert_eq!(grants.get(&"a".to_string()), None);
    assert_eq!(grants.len(), 2);
    grants.remove(&"zzz".to_string());
    assert_eq!(grants.len(), 2);
}

#[test]
fn grant_then_revoke() {
    let mut grants = Grants::new();
    let resp = execute_grant(&mut grants, "granter".to_string(), settings("grantee", 50, 100), true).unwrap();
    assert!(resp.messages.is_empty());
    assert_eq!(
        resp.attributes,
        vec![attr("action", "grant"), attr("granter", "granter"), attr("grantee", "grantee")]
    );
    assert_eq!(grants.get(&"granter".to_string()), Some(&settings("grantee", 50, 100)));

    let resp = execute_revoke(&mut grants, "granter".to_string());
    assert_eq!(resp.attributes, vec![attr("action", "revoke"), attr("granter", "granter")]);
    assert_eq!(grants.get(&"granter".to_string()), None);

    let exec = ExecuteSettings { granter: "granter".to_string(), percentage: None };
    match load_withdraw_grant(&grants, &exec, true) {
        Err(ContractError::Std(StdError::NotFound { kind })) => {
            assert_eq!(kind, "withdraw_rewards_grant::msg::AllowedWithdrawlSettings")
        }
        other => panic!("unexpected {:?}", other),
    }
}

#[test]
fn grant_with_invalid_grantee_is_refused() {
    let mut grants = Grants::new();
    match execute_grant(&mut grants, "granter".to_string(), settings("BAD", 50, 100), false) {
        Err(ContractError::InvalidGranteeAddress(g)) => assert_eq!(g, "BAD"),
        other => panic!("unexpected {:?}", other),
    }
    assert_eq!(grants.len(), 0);
}

#[test]
fn load_withdraw_grant_checks_granter() {
    let mut grants = Grants::new();
    grants.save("granter".to_string(), settings("grantee", 50, 100));
    let exec = ExecuteSettings { granter: "granter".to_string(), percentage: None };
    match load_withdraw_grant(&grants, &exec, false) {
        Err(ContractError::InvalidGranterAddress(g)) => assert_eq!(g, "granter"),
        other => panic!("unexpected {:?}", other),
    }
    assert_eq!(load_withdraw_grant(&grants, &exec, true).unwrap(), settings("grantee", 50, 100));
}

#[test]
fn authorize_withdraw_rules() {
    let grant = settings("grantee", 50, 100);
    let asked = |p: Option<Decimal>| ExecuteSettings { granter: "granter".to_string(), percentage: p };
    let at = Timestamp::from_nanos(100);
    let late = Timestamp::from_nanos(101);
    assert!(matches!(
        authorize_withdraw(&grant, &asked(None), late, &"grantee".to_string()),
        Err(ContractError::Unauthorized)
    ));
    assert!(matches!(
        authorize_withdraw(&grant, &asked(None), at, &"stranger".to_string()),
        Err(ContractError::Unauthorized)
    ));
    assert_eq!(
        authorize_withdraw(&grant, &asked(None), at, &"grantee".to_string()).unwrap(),
        Decimal::percent(50)
    );
    assert_eq!(
        authorize_withdraw(&grant, &asked(Some(Decimal::percent(20))), at, &"granter".to_string()).unwrap(),
        Decimal::percent(20)
    );
    assert_eq!(
        authorize_withdraw(&grant, &asked(Some(Decimal::percent(80))), at, &"granter".to_string()).unwrap(),
        Decimal::percent(50)
    );
}

#[test]
fn pending_rewards_are_summed() {
    let rewards = vec![
        Some(PendingReward { validator: "v1".to_string(), amount: vec![coin(10, "a"), coin(1, "b")] }),
        Some(PendingReward { validator: "v2".to_string(), amount: vec![coin(5, "a")] }),
    ];
    let resp = query_pending_rewards(Ok(rewards)).unwrap();
    assert_eq!(resp.total, vec![coin(15, "a"), coin(1, "b")]);
    assert_eq!(resp.rewards.len(), 2);
    assert_eq!(resp.rewards[1].validator, "v2");
}

#[test]
fn pending_rewards_errors() {
    let missing = vec![
        Some(PendingReward { validator: "v1".to_string(), amount: vec![] }),
        None,
    ];
    assert!(matches!(query_pending_rewards(Ok(missing)), Err(ContractError::QueryPendingRewardsFailure)));
    let err = StdError::GenericErr { msg: "querier down".to_string() };
    match query_pending_rewards(Err(err)) {
        Err(ContractError::Std(StdError::GenericErr { msg })) => assert_eq!(msg, "querier down"),
        other => panic!("unexpected {:?}", other),
    }
}

#[test]
fn pending_rewards_overflow_check() {
    let fits = vec![PendingReward { validator: "v".to_string(), amount: vec![coin(u128::MAX, "a")] }];
    assert!(pending_rewards_fit(&fits));
    let overflow = vec![
        PendingReward { validator: "v".to_string(), amount: vec![coin(u128::MAX, "a")] },
        PendingReward { validator: "w".to_string(), amount: vec![coin(1, "a")] },
    ];
    assert!(!pending_rewards_fit(&overflow));
}

#[test]
fn withdraw_message_encodings() {
    let target = "granter".to_string();
    let rewards = vec![
        PendingReward { validator: "val1".to_string(), amount: vec![] },
        PendingReward { validator: "val2".to_string(), amount: vec![] },
    ];
    let msgs = withdraw_rewards_msgs(&target, rewards).unwrap();
    assert_eq!(msgs.len(), 2);
    assert_eq!(msgs[0].type_url, "/cosmos.distribution.v1beta1.MsgWithdrawDelegatorReward");
    assert_eq!(msgs[0].value, two_strings("granter", "val1"));
    assert_eq!(msgs[1].value, two_strings("granter", "val2"));

    let set = set_withdraw_rewards_msg(&target, &"contract".to_string()).unwrap();
    assert_eq!(set.type_url, "/cosmos.distribution.v1beta1.MsgSetWithdrawAddress");
    assert_eq!(set.value, two_strings("granter", "contract"));
}

#[test]
fn exec_message_encoding() {
    let inner = Any { type_url: "/t".to_string(), value: vec![1, 2] };
    let msg = exec_msg(&"grantee".to_string(), vec![inner]).unwrap();
    let mut expected = vec![0x0a, 7];
    expected.extend_from_slice(b"grantee");
    expected.extend_from_slice(&[0x12, 8, 0x0a, 2, b'/', b't', 0x12, 2, 1, 2]);
    assert_eq!(
        msg,
        CosmosMsg::Stargate { type_url: "/cosmos.authz.v1beta1.MsgExec".to_string(), value: expected }
    );
}

#[test]
fn withdraw_response_splits_rewards() {
    let pending = AllPendingRewardsResponse {
        rewards: vec![PendingReward { validator: "val".to_string(), amount: vec![coin(100, "ujuno")] }],
        total: vec![coin(100, "ujuno"), coin(8, "uosmo")],
    };
    let resp = withdraw_response(
        &"granter".to_string(),
        &"grantee".to_string(),
        &"contract".to_string(),
        Decimal::percent(25),
        pending,
    )
    .unwrap();
    assert_eq!(resp.messages.len(), 3);
    match &resp.messages[0] {
        CosmosMsg::Stargate { type_url, .. } => assert_eq!(type_url, "/cosmos.authz.v1beta1.MsgExec"),
        other => panic!("unexpected {:?}", other),
    }
    assert_eq!(
        resp.messages[1],
        CosmosMsg::Bank(BankMsg::Send {
            to_address: "grantee".to_string(),
            amount: vec![coin(25, "ujuno"), coin(2, "uosmo")]
        })
    );
    assert_eq!(
        resp.messages[2],
        CosmosMsg::Bank(BankMsg::Send {
            to_address: "granter".to_string(),
            amount: vec![coin(75, "ujuno"), coin(6, "uosmo")]
        })
    );
    assert_eq!(
        resp.attributes,
        vec![
            attr("action", "execute_withdraw_rewards_split"),
            attr("granter", "granter"),
            attr("grantee", "grantee"),
            attr("percentage_split", "0.25"),
        ]
    );
}

#[test]
fn split_response_layout() {
    let exec = CosmosMsg::Stargate { type_url: "/x".to_string(), value: vec![9] };
    let resp = split_response(
        "granter".to_string(),
        "grantee".to_string(),
        CosmosMsg::Stargate { type_url: "/x".to_string(), value: vec![9] },
        vec![coin(1, "a")],
        vec![coin(2, "a")],
        "0.5".to_string(),
    );
    assert_eq!(resp.messages[0], exec);
    assert_eq!(resp.attributes[3], attr("percentage_split", "0.5"));
}

#[test]
fn queries_of_grants() {
    let mut grants = Grants::new();
    grants.save("g3".to_string(), settings("bob", 10, 50));
    grants.save("g1".to_string(), settings("bob", 10, 100));
    grants.save("g2".to_string(), settings("amy", 10, 100));
    grants.save("g0".to_string(), settings("bob", 10, 100));
    let now = Timestamp::from_nanos(60);

    let found = query_active_grant_by_granter(&grants, &"g1".to_string(), now).unwrap();
    assert_eq!(found.granter, "g1");
    assert_eq!(found.allowed_withdrawls, settings("bob", 10, 100));
    assert!(query_active_grant_by_granter(&grants, &"g3".to_string(), now).is_none());
    assert!(query_active_grant_by_granter(&grants, &"nobody".to_string(), now).is_none());

    let bobs = query_active_grants_by_grantee(&grants, &"bob".to_string(), now);
    let granters: Vec<&str> = bobs.iter().map(|q| q.granter.as_str()).collect();
    assert_eq!(granters, vec!["g0", "g1"]);
}

#[test]
fn version_and_setup() {
    assert_eq!(query_version().version, "0.1.0");
    let (version, resp) = instantiate(InstantiateMsg {});
    assert_eq!(version.contract, "crates.io:withdraw-rewards-grant");
    assert_eq!(version.version, "0.1.0");
    assert_eq!(resp, Response { messages: vec![], attributes: vec![] });
    assert_eq!(migrate(MigrateMsg {}), Response { messages: vec![], attributes: vec![] });
}

#[test]
fn template_contract_call() {
    let contract = CwTemplateContract("contract".to_string());
    assert_eq!(contract.addr(), "contract");
    assert_eq!(
        contract.call(vec![1, 2, 3]),
        CosmosMsg::Wasm(WasmMsg::Execute {
            contract_addr: "contract".to_string(),
            msg: vec![1, 2, 3],
            funds: vec![]
        })
    );
}

#[test]
fn encoding_skips_empty_fields_and_uses_varint_lengths() {
    let set = set_withdraw_rewards_msg(&"".to_string(), &"x".to_string()).unwrap();
    assert_eq!(set.value, vec![0x12, 1, b'x']);
    let long = "v".repeat(200);
    let msgs = withdraw_rewards_msgs(
        &"d".to_string(),
        vec![PendingReward { validator: long.clone(), amount: vec![] }],
    )
    .unwrap();
    let mut expected = vec![0x0a, 1, b'd', 0x12, 0xc8, 0x01];
    expected.extend_from_slice(long.as_bytes());
    assert_eq!(msgs[0].value, expected);
}

#[test]
fn sum_coins_laws_on_values() {
    let a = vec![coin(1, "a"), coin(2, "b")];
    let b = vec![coin(3, "b"), coin(4, "c")];
    let c = vec![coin(5, "c"), coin(6, "d")];
    assert_eq!(sum_coins(a.clone(), vec![]), a.clone());
    assert_eq!(sum_coins(vec![], b.clone()), b.clone());
    assert_eq!(
        sum_coins(sum_coins(a.clone(), b.clone()), c.clone()),
        sum_coins(a.clone(), sum_coins(b.clone(), c.clone()))
    );
    let mut ab = sum_coins(a.clone(), b.clone());
    let mut ba = sum_coins(b, a);
    ab.sort_by(|x, y| x.denom.cmp(&y.denom));
    ba.sort_by(|x, y| x.denom.cmp(&y.denom));
    assert_eq!(ab, ba);
}

#[test]
fn grant_then_grantee_withdraws_at_most_the_maximum() {
    let mut grants = Grants::new();
    execute_grant(&mut grants, "granter".to_string(), settings("grantee", 50, 100), true).unwrap();
    let asked = ExecuteSettings { granter: "granter".to_string(), percentage: Some(Decimal::percent(80)) };
    let grant = load_withdraw_grant(&grants, &asked, true).unwrap();
    let pct = authorize_withdraw(&grant, &asked, Timestamp::from_nanos(50), &"grantee".to_string()).unwrap();
    assert_eq!(pct, Decimal::percent(50));
    let pending = AllPendingRewardsResponse {
        rewards: vec![PendingReward { validator: "val".to_string(), amount: vec![coin(10, "ujuno")] }],
        total: vec![coin(10, "ujuno")],
    };
    let resp = withdraw_response(&"granter".to_string(), &grant.grantee, &"contract".to_string(), pct, pending)
        .unwrap();
    assert_eq!(resp.messages.len(), 3);
    assert_eq!(resp.attributes[3], attr("percentage_split", "0.5"));
    assert_eq!(
        resp.messages[1],
        CosmosMsg::Bank(BankMsg::Send { to_address: "grantee".to_string(), amount: vec![coin(5, "ujuno")] })
    );
}

#[test]
fn delegation_queries_stop_at_first_miss() {
    let mut found = Vec::new();
    let hit = PendingReward { validator: "v".to_string(), amount: vec![] };
    assert!(record_delegation_reward(&mut found, Some(hit)));
    assert!(!record_delegation_reward(&mut found, None));
    assert_eq!(found.len(), 2);
    assert!(found[1].is_none());
}

#[test]
fn exec_message_decodes_back() {
    let msgs = vec![
        Any { type_url: "/a".to_string(), value: vec![1] },
        Any { type_url: "".to_string(), value: vec![] },
        Any { type_url: "/c".to_string(), value: vec![3, 4] },
    ];
    let expected: Vec<cosmos_sdk_proto::Any> = msgs
        .iter()
        .map(|m| cosmos_sdk_proto::Any { type_url: m.type_url.clone(), value: m.value.clone() })
        .collect();
    let msg = exec_msg(&"grantee".to_string(), msgs).unwrap();
    match msg {
        CosmosMsg::Stargate { value, .. } => {
            let decoded = <cosmos_sdk_proto::cosmos::authz::v1beta1::MsgExec as cosmos_sdk_proto::prost::Message>::decode(
                value.as_slice(),
            )
            .unwrap();
            assert_eq!(decoded.grantee, "grantee");
            assert_eq!(decoded.msgs, expected);
        }
        other => panic!("unexpected {:?}", other),
    }
}
