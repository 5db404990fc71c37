use withdraw_rewards_grant::coin::{Coin, Decimal};
use withdraw_rewards_grant::helpers::{partition_coins_by_percentage, sum_coins};

fn coin(amount: u128, denom: &str) -> Coin {
    Coin { denom: denom.to_string(), amount }
}

// unit tests for the sum_coins helper function
#[test]
fn sum_coins_test() {
    let xs = vec![coin(100, "ujuno"), coin(100, "uosmo")];
    let ys = vec![coin(100, "ujuno"), coin(100, "uosmo")];
    let expected = vec![coin(200, "ujuno"), coin(200, "uosmo")];
    assert_eq!(sum_coins(xs, ys), expected);

    let xs = vec![coin(100, "ujuno"), coin(100, "uosmo")];
    let ys = vec![coin(100, "ujuno"), coin(100, "ubtc")];
    let expected = vec![coin(200, "ujuno"), coin(100, "uosmo"), coin(100, "ubtc")];
    assert_eq!(sum_coins(xs, ys), expected);
}

#[test]
fn partition_coins() {
    let coins = vec![coin(100, "ujuno"), coin(200, "uosmo")];
    let (coins_to_send, coins_to_remain) = partition_coins_by_percentage(Decimal::percent(25), coins);
    let expected_to_send = vec![coin(25, "ujuno"), coin(50, "uosmo")];
    let expected_to_remain = vec![coin(75, "ujuno"), coin(150, "uosmo")];
    assert_eq!(coins_to_send, expected_to_send);
    assert_eq!(coins_to_remain, expected_to_remain);
}
