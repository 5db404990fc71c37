use vstd::prelude::*;

use crate::coin::{Coin, Decimal, mul_decimal, mul_floor};
use crate::response::{CosmosMsg, CosmosMsgModel, WasmMsg};

verus! {

/// A coin as a mathematical value: its denomination and its amount.
pub type CoinModel = (Seq<char>, int);

/// The total amount of denomination `denom` over all entries of `coins`.
pub open spec fn amount_of(coins: Seq<CoinModel>, denom: Seq<char>) -> int
    decreases coins.len(),
{
    if coins.len() == 0 {
        0
    } else {
        amount_of(coins.drop_last(), denom) + (if coins.last().0 == denom {
            coins.last().1
        } else {
            0
        })
    }
}

/// Some entry of `coins` has denomination `denom`.
pub open spec fn has_denom(coins: Seq<CoinModel>, denom: Seq<char>) -> bool {
    exists|i: int| 0 <= i < coins.len() && #[trigger] coins[i].0 == denom
}

/// Entry `i` is the first entry of `coins` with its denomination.
pub open spec fn is_first_of_denom(coins: Seq<CoinModel>, i: int) -> bool {
    forall|j: int| 0 <= j < i ==> #[trigger] coins[j].0 != coins[i].0
}

/// No denomination occurs twice in `coins`.
pub open spec fn distinct_denoms(coins: Seq<CoinModel>) -> bool {
    forall|i: int, j: int| 0 <= i < j < coins.len() ==> #[trigger] coins[i].0 != #[trigger] coins[j].0
}

/// Every amount in `coins` is non-negative.
pub open spec fn amounts_nonneg(coins: Seq<CoinModel>) -> bool {
    forall|i: int| 0 <= i < coins.len() ==> #[trigger] coins[i].1 >= 0
}

/// The denominations of `ys` that `xs` lacks, each once, in the order in which
/// they first occur in `ys`.
pub open spec fn new_denoms(xs: Seq<CoinModel>, ys: Seq<CoinModel>) -> Seq<Seq<char>>
    decreases ys.len(),
{
    if ys.len() == 0 {
        Seq::empty()
    } else {
        let prev = new_denoms(xs, ys.drop_last());
        let d = ys.last().0;
        if has_denom(xs, d) || prev.contains(d) {
            prev
        } else {
            prev.push(d)
        }
    }
}

/// `xs` with the coins of `ys` added: the first entry of `xs` of each
/// denomination grows by the total that `ys` holds of it, and each
/// denomination that only `ys` holds is appended with its total, in the order
/// in which it first occurs in `ys`.
pub open spec fn summed_coins(xs: Seq<CoinModel>, ys: Seq<CoinModel>) -> Seq<CoinModel> {
    bumped_coins(xs, ys) + appended_coins(xs, ys)
}

/// `xs` where the first entry of each denomination grows by the total that
/// `ys` holds of that denomination.
pub open spec fn bumped_coins(xs: Seq<CoinModel>, ys: Seq<CoinModel>) -> Seq<CoinModel> {
    Seq::new(
        xs.len(),
        |i: int|
            (
                xs[i].0,
                xs[i].1 + (if is_first_of_denom(xs, i) {
                    amount_of(ys, xs[i].0)
                } else {
                    0
                }),
            ),
    )
}

/// The denominations that only `ys` holds, each with its total in `ys`.
pub open spec fn appended_coins(xs: Seq<CoinModel>, ys: Seq<CoinModel>) -> Seq<CoinModel> {
    new_denoms(xs, ys).map_values(|d: Seq<char>| (d, amount_of(ys, d)))
}

/// Adding `ys` to `xs` entry by entry never takes an amount past `u128::MAX`.
pub open spec fn sum_coins_fits(xs: Seq<CoinModel>, ys: Seq<CoinModel>) -> bool {
    &&& forall|i: int|
        0 <= i < xs.len() && #[trigger] is_first_of_denom(xs, i) ==> xs[i].1 + amount_of(ys, xs[i].0)
            <= u128::MAX
    &&& forall|d: Seq<char>| #[trigger] amount_of(ys, d) <= u128::MAX
}

pub proof fn lemma_take_last<A>(s: Seq<A>, n: int)
    requires
        0 <= n < s.len(),
    ensures
        s.take(n + 1).drop_last() == s.take(n),
        s.take(n + 1).last() == s[n],
{
    assert(s.take(n + 1).drop_last() =~= s.take(n));
}

/// A denomination that no entry holds has total zero.
pub proof fn lemma_amount_absent(coins: Seq<CoinModel>, denom: Seq<char>)
    requires
        forall|t: int| 0 <= t < coins.len() ==> #[trigger] coins[t].0 != denom,
    ensures
        amount_of(coins, denom) == 0,
    decreases coins.len(),
{
    if coins.len() > 0 {
        lemma_amount_absent(coins.drop_last(), denom);
    }
}

/// Totals are non-negative and grow with the prefix taken.
pub proof fn lemma_amount_prefix_le(coins: Seq<CoinModel>, n: int, denom: Seq<char>)
    requires
        amounts_nonneg(coins),
        0 <= n <= coins.len(),
    ensures
        0 <= amount_of(coins.take(n), denom) <= amount_of(coins, denom),
    decreases coins.len() - n,
{
    if n == coins.len() {
        assert(coins.take(n) =~= coins);
        lemma_amount_nonneg(coins, denom);
    } else {
        lemma_take_last(coins, n);
        lemma_amount_prefix_le(coins, n + 1, denom);
        assert(coins[n].1 >= 0);
        assert(amounts_nonneg(coins.take(n))) by {
            assert forall|i: int| 0 <= i < coins.take(n).len() implies #[trigger] coins.take(n)[i].1
                >= 0 by {
                assert(coins.take(n)[i] == coins[i]);
            }
        }
        lemma_amount_nonneg(coins.take(n), denom);
    }
}

pub proof fn lemma_amount_nonneg(coins: Seq<CoinModel>, denom: Seq<char>)
    requires
        amounts_nonneg(coins),
    ensures
        amount_of(coins, denom) >= 0,
    decreases coins.len(),
{
    if coins.len() > 0 {
        assert(coins.drop_last().len() == coins.len() - 1);
        assert(amounts_nonneg(coins.drop_last())) by {
            assert forall|i: int| 0 <= i < coins.drop_last().len() implies #[trigger] coins.drop_last()[i].1
                >= 0 by {
                assert(coins.drop_last()[i] == coins[i]);
            }
        }
        lemma_amount_nonneg(coins.drop_last(), denom);
        assert(coins.last().1 >= 0);
    }
}

/// What `new_denoms` holds: no repeats, nothing that `xs` holds, and exactly
/// the denominations of `ys` that `xs` lacks.
pub proof fn lemma_new_denoms(xs: Seq<CoinModel>, ys: Seq<CoinModel>)
    ensures
        new_denoms(xs, ys).no_duplicates(),
        forall|i: int|
            0 <= i < new_denoms(xs, ys).len() ==> !has_denom(xs, #[trigger] new_denoms(xs, ys)[i]),
        forall|e: Seq<char>|
            #[trigger] new_denoms(xs, ys).contains(e) <==> (!has_denom(xs, e) && has_denom(ys, e)),
    decreases ys.len(),
{
    if ys.len() > 0 {
        let prev = new_denoms(xs, ys.drop_last());
        let d = ys.last().0;
        lemma_new_denoms(xs, ys.drop_last());
        assert forall|e: Seq<char>| has_denom(ys, e) <==> (has_denom(ys.drop_last(), e) || e == d) by {
            if has_denom(ys, e) {
                let i = choose|i: int| 0 <= i < ys.len() && #[trigger] ys[i].0 == e;
                if i < ys.len() - 1 {
                    assert(ys.drop_last()[i].0 == e);
                }
            }
            if has_denom(ys.drop_last(), e) {
                let i = choose|i: int| 0 <= i < ys.drop_last().len() && #[trigger] ys.drop_last()[i].0 == e;
                assert(ys[i].0 == e);
            }
            if e == d {
                assert(ys[ys.len() - 1].0 == e);
            }
        }
        if !(has_denom(xs, d) || prev.contains(d)) {
            let next = prev.push(d);
            assert(next.no_duplicates()) by {
                assert forall|i: int, j: int| 0 <= i < next.len() && 0 <= j < next.len() && i != j implies next[i]
                    != next[j] by {
                    if i < prev.len() && j < prev.len() {
                    } else if i < prev.len() {
                        assert(prev.contains(prev[i]));
                    } else {
                        assert(prev.contains(prev[j]));
                    }
                }
            }
            assert forall|e: Seq<char>| #[trigger] next.contains(e) <==> (!has_denom(xs, e) && has_denom(ys, e)) by {
                if next.contains(e) {
                    let i = choose|i: int| 0 <= i < next.len() && next[i] == e;
                    if i < prev.len() {
                        assert(prev.contains(e));
                    }
                }
                if prev.contains(e) {
                    let i = choose|i: int| 0 <= i < prev.len() && prev[i] == e;
                    assert(next[i] == e);
                }
                if e == d {
                    assert(next[prev.len() as int] == e);
                }
            }
        }
    }
}

/// One step of `sum_coins` where the coin's denomination is already held, at
/// index `k`.
proof fn lemma_sum_step_found(xs: Seq<CoinModel>, ys: Seq<CoinModel>, j: int, k: int)
    requires
        0 <= j < ys.len(),
        amounts_nonneg(ys),
        sum_coins_fits(xs, ys),
        0 <= k < summed_coins(xs, ys.take(j)).len(),
        summed_coins(xs, ys.take(j))[k].0 == ys[j].0,
        forall|t: int| 0 <= t < k ==> #[trigger] summed_coins(xs, ys.take(j))[t].0 != ys[j].0,
    ensures
        summed_coins(xs, ys.take(j))[k].1 + ys[j].1 <= u128::MAX,
        summed_coins(xs, ys.take(j + 1)) == summed_coins(xs, ys.take(j)).update(
            k,
            (ys[j].0, summed_coins(xs, ys.take(j))[k].1 + ys[j].1),
        ),
{
    let y = ys[j];
    let d = y.0;
    let pre = ys.take(j);
    let post = ys.take(j + 1);
    let c = summed_coins(xs, pre);
    let c2 = summed_coins(xs, post);
    lemma_take_last(ys, j);
    lemma_new_denoms(xs, pre);
    lemma_amount_prefix_le(ys, j + 1, d);
    let nd = new_denoms(xs, pre);
    assert(forall|e: Seq<char>| #[trigger]
        amount_of(post, e) == amount_of(pre, e) + (if y.0 == e {
            y.1
        } else {
            0
        }));
    if k < xs.len() {
        assert(c[k].0 == xs[k].0);
        assert(is_first_of_denom(xs, k)) by {
            assert forall|t: int| 0 <= t < k implies #[trigger] xs[t].0 != xs[k].0 by {
                assert(c[t].0 == xs[t].0);
            }
        }
        assert(has_denom(xs, d)) by {
            assert(xs[k].0 == d);
        }
        assert(new_denoms(xs, post) == nd);
        assert forall|i: int| 0 <= i < c2.len() implies #[trigger] c2[i] == c.update(k, (d, c[k].1 + y.1))[i] by {
            if i < xs.len() {
                if i != k && is_first_of_denom(xs, i) && xs[i].0 == d {
                    if i < k {
                        assert(c[i].0 == xs[i].0);
                    } else {
                        assert(xs[k].0 != xs[i].0);
                    }
                }
            } else {
                let e = nd[i - xs.len()];
                assert(!has_denom(xs, e));
                assert(e != d);
            }
        }
        assert(c2 =~= c.update(k, (d, c[k].1 + y.1)));
    } else {
        let m = k - xs.len();
        assert(!has_denom(xs, d)) by {
            assert forall|t: int| 0 <= t < xs.len() implies #[trigger] xs[t].0 != d by {
                assert(c[t].0 == xs[t].0);
            }
        }
        assert(nd[m] == d);
        assert(nd.contains(d));
        assert(new_denoms(xs, post) == nd);
        assert forall|i: int| 0 <= i < c2.len() implies #[trigger] c2[i] == c.update(k, (d, c[k].1 + y.1))[i] by {
            if i < xs.len() {
                assert(xs[i].0 != d) by {
                    assert(c[i].0 == xs[i].0);
                }
            } else if i != k {
                let e = nd[i - xs.len()];
                assert(e != d);
            }
        }
        assert(c2 =~= c.update(k, (d, c[k].1 + y.1)));
    }
}

/// One step of `sum_coins` where no entry holds the coin's denomination yet.
proof fn lemma_sum_step_new(xs: Seq<CoinModel>, ys: Seq<CoinModel>, j: int)
    requires
        0 <= j < ys.len(),
        forall|t: int|
            0 <= t < summed_coins(xs, ys.take(j)).len() ==> #[trigger] summed_coins(xs, ys.take(j))[t].0
                != ys[j].0,
    ensures
        summed_coins(xs, ys.take(j + 1)) == summed_coins(xs, ys.take(j)).push(ys[j]),
{
    let y = ys[j];
    let d = y.0;
    let pre = ys.take(j);
    let post = ys.take(j + 1);
    let c = summed_coins(xs, pre);
    let c2 = summed_coins(xs, post);
    lemma_take_last(ys, j);
    lemma_new_denoms(xs, pre);
    let nd = new_denoms(xs, pre);
    assert(!has_denom(xs, d)) by {
        assert forall|t: int| 0 <= t < xs.len() implies #[trigger] xs[t].0 != d by {
            assert(c[t].0 == xs[t].0);
        }
    }
    assert(!nd.contains(d)) by {
        if nd.contains(d) {
            let i = choose|i: int| 0 <= i < nd.len() && nd[i] == d;
            assert(c[xs.len() + i].0 == d);
        }
    }
    assert(!has_denom(pre, d));
    assert(amount_of(pre, d) == 0) by {
        assert forall|t: int| 0 <= t < pre.len() implies #[trigger] pre[t].0 != d by {
            if pre[t].0 == d {
                assert(has_denom(pre, d));
            }
        }
        lemma_amount_absent(pre, d);
    }
    assert(forall|e: Seq<char>| #[trigger]
        amount_of(post, e) == amount_of(pre, e) + (if y.0 == e {
            y.1
        } else {
            0
        }));
    assert(new_denoms(xs, post) == nd.push(d));
    assert forall|i: int| 0 <= i < c2.len() implies #[trigger] c2[i] == c.push(y)[i] by {
        if i < xs.len() {
            assert(xs[i].0 != d);
        } else if i < c.len() {
            let e = nd[i - xs.len()];
            assert(nd.contains(e));
            assert(e != d);
        }
    }
    assert(c2 =~= c.push(y));
}

/// The total of a concatenation is the sum of the totals.
pub proof fn lemma_amount_concat(a: Seq<CoinModel>, b: Seq<CoinModel>, denom: Seq<char>)
    ensures
        amount_of(a + b, denom) == amount_of(a, denom) + amount_of(b, denom),
    decreases b.len(),
{
    if b.len() == 0 {
        assert(a + b =~= a);
    } else {
        assert((a + b).drop_last() =~= a + b.drop_last());
        lemma_amount_concat(a, b.drop_last(), denom);
    }
}

proof fn lemma_bumped_prefix(xs: Seq<CoinModel>, ys: Seq<CoinModel>, denom: Seq<char>, n: int)
    requires
        0 <= n <= xs.len(),
    ensures
        amount_of(bumped_coins(xs, ys).take(n), denom) == amount_of(xs.take(n), denom) + (if has_denom(
            xs.take(n),
            denom,
        ) {
            amount_of(ys, denom)
        } else {
            0
        }),
    decreases n,
{
    let p = bumped_coins(xs, ys);
    if n == 0 {
        assert(p.take(0) =~= Seq::<CoinModel>::empty());
        assert(xs.take(0) =~= Seq::<CoinModel>::empty());
    } else {
        let m = n - 1;
        lemma_bumped_prefix(xs, ys, denom, m);
        lemma_take_last(p, m);
        lemma_take_last(xs, m);
        let had = has_denom(xs.take(m), denom);
        assert(has_denom(xs.take(n), denom) == (had || xs[m].0 == denom)) by {
            if has_denom(xs.take(n), denom) {
                let i = choose|i: int| 0 <= i < xs.take(n).len() && #[trigger] xs.take(n)[i].0 == denom;
                if i < m {
                    assert(xs.take(m)[i].0 == denom);
                }
            }
            if had {
                let i = choose|i: int| 0 <= i < xs.take(m).len() && #[trigger] xs.take(m)[i].0 == denom;
                assert(xs.take(n)[i].0 == denom);
            }
            if xs[m].0 == denom {
                assert(xs.take(n)[m].0 == denom);
            }
        }
        if xs[m].0 == denom {
            assert(is_first_of_denom(xs, m) == !had) by {
                if had {
                    let i = choose|i: int| 0 <= i < xs.take(m).len() && #[trigger] xs.take(m)[i].0 == denom;
                    assert(xs[i].0 == xs[m].0);
                } else {
                    assert forall|j: int| 0 <= j < m implies #[trigger] xs[j].0 != xs[m].0 by {
                        assert(xs.take(m)[j].0 == xs[j].0);
                    }
                }
            }
        }
    }
}

proof fn lemma_appended_amount(nd: Seq<Seq<char>>, ys: Seq<CoinModel>, denom: Seq<char>)
    requires
        nd.no_duplicates(),
    ensures
        amount_of(nd.map_values(|d: Seq<char>| (d, amount_of(ys, d))), denom) == (if nd.contains(
            denom,
        ) {
            amount_of(ys, denom)
        } else {
            0
        }),
    decreases nd.len(),
{
    let m = nd.map_values(|d: Seq<char>| (d, amount_of(ys, d)));
    if nd.len() > 0 {
        let prev = nd.drop_last();
        assert(m.drop_last() =~= prev.map_values(|d: Seq<char>| (d, amount_of(ys, d))));
        assert(prev.no_duplicates());
        lemma_appended_amount(prev, ys, denom);
        assert(nd.contains(denom) == (prev.contains(denom) || nd.last() == denom)) by {
            if nd.contains(denom) {
                let i = choose|i: int| 0 <= i < nd.len() && nd[i] == denom;
                if i < nd.len() - 1 {
                    assert(prev[i] == denom);
                }
            }
            if prev.contains(denom) {
                let i = choose|i: int| 0 <= i < prev.len() && prev[i] == denom;
                assert(nd[i] == denom);
            }
        }
        if prev.contains(denom) && nd.last() == denom {
            let i = choose|i: int| 0 <= i < prev.len() && prev[i] == denom;
            assert(nd[i] == nd[nd.len() - 1]);
        }
    }
}

/// Law of `sum_coins`: of every denomination, the result holds exactly what
/// `xs` held plus what `ys` held.
pub proof fn lemma_sum_coins_adds_amounts(xs: Seq<CoinModel>, ys: Seq<CoinModel>, denom: Seq<char>)
    ensures
        amount_of(summed_coins(xs, ys), denom) == amount_of(xs, denom) + amount_of(ys, denom),
{
    let p = bumped_coins(xs, ys);
    let nd = new_denoms(xs, ys);
    lemma_amount_concat(p, appended_coins(xs, ys), denom);
    lemma_bumped_prefix(xs, ys, denom, xs.len() as int);
    assert(p.take(xs.len() as int) =~= p);
    assert(xs.take(xs.len() as int) =~= xs);
    lemma_new_denoms(xs, ys);
    lemma_appended_amount(nd, ys, denom);
    if !has_denom(xs, denom) && !has_denom(ys, denom) {
        assert forall|t: int| 0 <= t < ys.len() implies #[trigger] ys[t].0 != denom by {
            if ys[t].0 == denom {
                assert(has_denom(ys, denom));
            }
        }
        lemma_amount_absent(ys, denom);
    }
}

/// Law of `sum_coins`: when `xs` holds each denomination once, so does the
/// result.
pub proof fn lemma_sum_coins_keeps_distinct(xs: Seq<CoinModel>, ys: Seq<CoinModel>)
    requires
        distinct_denoms(xs),
    ensures
        distinct_denoms(summed_coins(xs, ys)),
{
    let s = summed_coins(xs, ys);
    let nd = new_denoms(xs, ys);
    lemma_new_denoms(xs, ys);
    assert forall|i: int, j: int| 0 <= i < j < s.len() implies #[trigger] s[i].0 != #[trigger] s[j].0 by {
        if j < xs.len() {
        } else if i < xs.len() {
            let e = nd[j - xs.len()];
            assert(!has_denom(xs, e));
            if s[i].0 == e {
                assert(xs[i].0 == e);
            }
        } else {
            assert(nd[i - xs.len()] != nd[j - xs.len()]);
        }
    }
}

/// A coin for each denomination of `denoms`, with amount zero.
pub open spec fn denom_coins(denoms: Seq<Seq<char>>) -> Seq<CoinModel> {
    denoms.map_values(|d: Seq<char>| (d, 0int))
}

proof fn lemma_has_denom_concat(a: Seq<CoinModel>, b: Seq<CoinModel>, denom: Seq<char>)
    ensures
        has_denom(a + b, denom) == (has_denom(a, denom) || has_denom(b, denom)),
{
    if has_denom(a + b, denom) {
        let i = choose|i: int| 0 <= i < (a + b).len() && #[trigger] (a + b)[i].0 == denom;
        if i < a.len() {
            assert(a[i].0 == denom);
        } else {
            assert(b[i - a.len()].0 == denom);
        }
    }
    if has_denom(a, denom) {
        let i = choose|i: int| 0 <= i < a.len() && #[trigger] a[i].0 == denom;
        assert((a + b)[i].0 == denom);
    }
    if has_denom(b, denom) {
        let i = choose|i: int| 0 <= i < b.len() && #[trigger] b[i].0 == denom;
        assert((a + b)[a.len() + i].0 == denom);
    }
}

proof fn lemma_contains_concat(a: Seq<Seq<char>>, b: Seq<Seq<char>>, d: Seq<char>)
    ensures
        (a + b).contains(d) == (a.contains(d) || b.contains(d)),
{
    if (a + b).contains(d) {
        let i = choose|i: int| 0 <= i < (a + b).len() && (a + b)[i] == d;
        if i < a.len() {
            assert(a[i] == d);
        } else {
            assert(b[i - a.len()] == d);
        }
    }
    if a.contains(d) {
        let i = choose|i: int| 0 <= i < a.len() && a[i] == d;
        assert((a + b)[i] == d);
    }
    if b.contains(d) {
        let i = choose|i: int| 0 <= i < b.len() && b[i] == d;
        assert((a + b)[a.len() + i] == d);
    }
}

/// The denominations that a sum of coins holds are those of either side.
pub proof fn lemma_summed_has_denom(xs: Seq<CoinModel>, ys: Seq<CoinModel>, denom: Seq<char>)
    ensures
        has_denom(summed_coins(xs, ys), denom) == (has_denom(xs, denom) || has_denom(ys, denom)),
{
    let p = bumped_coins(xs, ys);
    let q = appended_coins(xs, ys);
    let nd = new_denoms(xs, ys);
    lemma_has_denom_concat(p, q, denom);
    lemma_new_denoms(xs, ys);
    if has_denom(p, denom) {
        let i = choose|i: int| 0 <= i < p.len() && #[trigger] p[i].0 == denom;
        assert(xs[i].0 == denom);
    }
    if has_denom(xs, denom) {
        let i = choose|i: int| 0 <= i < xs.len() && #[trigger] xs[i].0 == denom;
        assert(p[i].0 == denom);
    }
    if has_denom(q, denom) {
        let i = choose|i: int| 0 <= i < q.len() && #[trigger] q[i].0 == denom;
        assert(nd[i] == denom);
        assert(nd.contains(denom));
    }
    if nd.contains(denom) {
        let i = choose|i: int| 0 <= i < nd.len() && nd[i] == denom;
        assert(q[i].0 == denom);
    }
}

proof fn lemma_new_denoms_concat(xs: Seq<CoinModel>, ys: Seq<CoinModel>, zs: Seq<CoinModel>)
    ensures
        new_denoms(xs, ys + zs) == new_denoms(xs, ys) + new_denoms(xs + ys, zs),
    decreases zs.len(),
{
    if zs.len() == 0 {
        assert(ys + zs =~= ys);
        assert(new_denoms(xs, ys) + new_denoms(xs + ys, zs) =~= new_denoms(xs, ys));
    } else {
        let z2 = zs.drop_last();
        let d = zs.last().0;
        assert((ys + zs).drop_last() =~= ys + z2);
        assert((ys + zs).last() == zs.last());
        lemma_new_denoms_concat(xs, ys, z2);
        lemma_new_denoms(xs, ys);
        lemma_has_denom_concat(xs, ys, d);
        let a = new_denoms(xs, ys);
        let q = new_denoms(xs + ys, z2);
        lemma_contains_concat(a, q, d);
        assert((a + q).push(d) =~= a + q.push(d));
    }
}

proof fn lemma_new_denoms_same_known(xs1: Seq<CoinModel>, xs2: Seq<CoinModel>, ys: Seq<CoinModel>)
    requires
        forall|d: Seq<char>| #[trigger] has_denom(xs1, d) == has_denom(xs2, d),
    ensures
        new_denoms(xs1, ys) == new_denoms(xs2, ys),
    decreases ys.len(),
{
    if ys.len() > 0 {
        lemma_new_denoms_same_known(xs1, xs2, ys.drop_last());
        assert(has_denom(xs1, ys.last().0) == has_denom(xs2, ys.last().0));
    }
}

proof fn lemma_new_denoms_same_denoms(xs: Seq<CoinModel>, ys1: Seq<CoinModel>, ys2: Seq<CoinModel>)
    requires
        ys1.len() == ys2.len(),
        forall|i: int| 0 <= i < ys1.len() ==> #[trigger] ys1[i].0 == ys2[i].0,
    ensures
        new_denoms(xs, ys1) == new_denoms(xs, ys2),
    decreases ys1.len(),
{
    if ys1.len() > 0 {
        let n = ys1.len() - 1;
        assert(ys1[n].0 == ys2[n].0);
        lemma_new_denoms_same_denoms(xs, ys1.drop_last(), ys2.drop_last());
    }
}

proof fn lemma_new_denoms_nested(outer: Seq<CoinModel>, inner: Seq<CoinModel>, c: Seq<CoinModel>)
    requires
        forall|d: Seq<char>| #[trigger] has_denom(inner, d) ==> has_denom(outer, d),
    ensures
        new_denoms(outer, denom_coins(new_denoms(inner, c))) == new_denoms(outer, c),
    decreases c.len(),
{
    let q = new_denoms(inner, c.drop_last());
    if c.len() == 0 {
        assert(denom_coins(new_denoms(inner, c)) =~= Seq::<CoinModel>::empty());
    } else {
        let d = c.last().0;
        lemma_new_denoms_nested(outer, inner, c.drop_last());
        lemma_new_denoms(inner, c.drop_last());
        lemma_new_denoms(outer, c.drop_last());
        if has_denom(inner, d) || q.contains(d) {
            if !has_denom(inner, d) && !has_denom(outer, d) {
                assert(has_denom(c.drop_last(), d));
                assert(new_denoms(outer, c.drop_last()).contains(d));
            }
        } else {
            let dq = denom_coins(q);
            assert(denom_coins(q.push(d)) =~= dq.push((d, 0int)));
            assert(dq.push((d, 0int)).drop_last() =~= dq);
        }
    }
}

proof fn lemma_distinct_amount(coins: Seq<CoinModel>, i: int)
    requires
        distinct_denoms(coins),
        0 <= i < coins.len(),
    ensures
        amount_of(coins, coins[i].0) == coins[i].1,
    decreases coins.len(),
{
    let n = coins.len() - 1;
    let rest = coins.drop_last();
    if i == n {
        assert forall|t: int| 0 <= t < rest.len() implies #[trigger] rest[t].0 != coins[i].0 by {
            assert(coins[t].0 != coins[n].0);
        }
        lemma_amount_absent(rest, coins[i].0);
    } else {
        assert(distinct_denoms(rest)) by {
            assert forall|a: int, b: int| 0 <= a < b < rest.len() implies #[trigger] rest[a].0 != #[trigger] rest[b].0 by {
                assert(coins[a].0 != coins[b].0);
            }
        }
        assert(coins[i].0 != coins[n].0);
        lemma_distinct_amount(rest, i);
    }
}

proof fn lemma_distinct_contains(coins: Seq<CoinModel>, c: CoinModel)
    requires
        distinct_denoms(coins),
    ensures
        coins.contains(c) == (has_denom(coins, c.0) && amount_of(coins, c.0) == c.1),
{
    if coins.contains(c) {
        let i = choose|i: int| 0 <= i < coins.len() && coins[i] == c;
        assert(coins[i].0 == c.0);
        lemma_distinct_amount(coins, i);
    }
    if has_denom(coins, c.0) && amount_of(coins, c.0) == c.1 {
        let i = choose|i: int| 0 <= i < coins.len() && #[trigger] coins[i].0 == c.0;
        lemma_distinct_amount(coins, i);
        assert(coins[i] == c);
    }
}

/// Law of `sum_coins`: adding nothing changes nothing, and adding coins
/// that hold each denomination once to nothing gives those coins.
pub proof fn law_sum_coins_identity(xs: Seq<CoinModel>, ys: Seq<CoinModel>)
    requires
        distinct_denoms(ys),
    ensures
        summed_coins(xs, Seq::empty()) == xs,
        summed_coins(Seq::empty(), ys) == ys,
{
    let e = Seq::<CoinModel>::empty();
    assert(new_denoms(xs, e) =~= Seq::<Seq<char>>::empty());
    assert(appended_coins(xs, e) =~= e);
    assert(bumped_coins(xs, e) =~= xs);
    assert(summed_coins(xs, e) =~= xs);
    lemma_new_denoms_of_distinct(ys);
    assert(bumped_coins(e, ys) =~= e);
    assert forall|i: int| 0 <= i < ys.len() implies #[trigger] appended_coins(e, ys)[i] == ys[i] by {
        lemma_distinct_amount(ys, i);
    }
    assert(appended_coins(e, ys) =~= ys);
    assert(summed_coins(e, ys) =~= ys);
}

proof fn lemma_new_denoms_of_distinct(ys: Seq<CoinModel>)
    requires
        distinct_denoms(ys),
    ensures
        new_denoms(Seq::empty(), ys) == ys.map_values(|c: CoinModel| c.0),
    decreases ys.len(),
{
    if ys.len() > 0 {
        let rest = ys.drop_last();
        let n = ys.len() - 1;
        assert(distinct_denoms(rest)) by {
            assert forall|a: int, b: int| 0 <= a < b < rest.len() implies #[trigger] rest[a].0 != #[trigger] rest[b].0 by {
                assert(ys[a].0 != ys[b].0);
            }
        }
        lemma_new_denoms_of_distinct(rest);
        let prev = rest.map_values(|c: CoinModel| c.0);
        assert(!has_denom(Seq::<CoinModel>::empty(), ys[n].0));
        assert(!prev.contains(ys[n].0)) by {
            if prev.contains(ys[n].0) {
                let i = choose|i: int| 0 <= i < prev.len() && prev[i] == ys[n].0;
                assert(ys[i].0 != ys[n].0);
            }
        }
        assert(prev.push(ys[n].0) =~= ys.map_values(|c: CoinModel| c.0));
    }
}

proof fn lemma_distinct_no_duplicates(coins: Seq<CoinModel>)
    requires
        distinct_denoms(coins),
    ensures
        coins.no_duplicates(),
{
    assert forall|i: int, j: int| 0 <= i < coins.len() && 0 <= j < coins.len() && i != j implies coins[i]
        != coins[j] by {
        if i < j {
            assert(coins[i].0 != coins[j].0);
        } else {
            assert(coins[j].0 != coins[i].0);
        }
    }
}

/// Law of `sum_coins`: when `xs` and `ys` each hold every denomination
/// once, adding them in either order gives the same coins, up to order:
/// the same denominations, each once, with the same amounts.
pub proof fn law_sum_coins_commutative(xs: Seq<CoinModel>, ys: Seq<CoinModel>)
    requires
        distinct_denoms(xs),
        distinct_denoms(ys),
    ensures
        distinct_denoms(summed_coins(xs, ys)),
        distinct_denoms(summed_coins(ys, xs)),
        forall|denom: Seq<char>|
            #[trigger] has_denom(summed_coins(xs, ys), denom) == has_denom(summed_coins(ys, xs), denom)
                && amount_of(summed_coins(xs, ys), denom) == amount_of(summed_coins(ys, xs), denom),
        summed_coins(xs, ys).to_set() == summed_coins(ys, xs).to_set(),
        summed_coins(xs, ys).len() == summed_coins(ys, xs).len(),
{
    let l = summed_coins(xs, ys);
    let r = summed_coins(ys, xs);
    lemma_sum_coins_keeps_distinct(xs, ys);
    lemma_sum_coins_keeps_distinct(ys, xs);
    assert forall|denom: Seq<char>|
        #[trigger] has_denom(l, denom) == has_denom(r, denom) && amount_of(l, denom) == amount_of(r, denom) by {
        lemma_summed_has_denom(xs, ys, denom);
        lemma_summed_has_denom(ys, xs, denom);
        lemma_sum_coins_adds_amounts(xs, ys, denom);
        lemma_sum_coins_adds_amounts(ys, xs, denom);
    }
    assert forall|c: CoinModel| #[trigger] l.to_set().contains(c) == r.to_set().contains(c) by {
        lemma_distinct_contains(l, c);
        lemma_distinct_contains(r, c);
        assert(has_denom(l, c.0) == has_denom(r, c.0) && amount_of(l, c.0) == amount_of(r, c.0));
    }
    assert(l.to_set() =~= r.to_set());
    lemma_distinct_no_duplicates(l);
    lemma_distinct_no_duplicates(r);
    l.unique_seq_to_set();
    r.unique_seq_to_set();
}

/// Law of `sum_coins`: when `a` holds every denomination once, adding `b`
/// then `c` gives the same coins, in the same order, as adding to `a` the sum
/// of `b` and `c`.
pub proof fn law_sum_coins_associative(a: Seq<CoinModel>, b: Seq<CoinModel>, c: Seq<CoinModel>)
    requires
        distinct_denoms(a),
    ensures
        summed_coins(summed_coins(a, b), c) == summed_coins(a, summed_coins(b, c)),
{
    let s = summed_coins(a, b);
    let t = summed_coins(b, c);
    let l = summed_coins(s, c);
    let r = summed_coins(a, t);
    let n1 = new_denoms(a, b);
    let n2 = new_denoms(a + b, c);
    lemma_sum_coins_keeps_distinct(a, b);
    assert forall|d: Seq<char>| #[trigger] has_denom(s, d) == has_denom(a + b, d) by {
        lemma_summed_has_denom(a, b, d);
        lemma_has_denom_concat(a, b, d);
    }
    lemma_new_denoms_same_known(s, a + b, c);
    // the new denominations of a + (b + c)
    lemma_new_denoms_concat(a, bumped_coins(b, c), appended_coins(b, c));
    lemma_new_denoms_same_denoms(a, bumped_coins(b, c), b);
    assert forall|d: Seq<char>| #[trigger] has_denom(a + bumped_coins(b, c), d) == has_denom(a + b, d) by {
        lemma_has_denom_concat(a, bumped_coins(b, c), d);
        lemma_has_denom_concat(a, b, d);
        if has_denom(bumped_coins(b, c), d) {
            let i = choose|i: int| 0 <= i < b.len() && #[trigger] bumped_coins(b, c)[i].0 == d;
            assert(b[i].0 == d);
        }
        if has_denom(b, d) {
            let i = choose|i: int| 0 <= i < b.len() && #[trigger] b[i].0 == d;
            assert(bumped_coins(b, c)[i].0 == d);
        }
    }
    lemma_new_denoms_same_known(a + bumped_coins(b, c), a + b, appended_coins(b, c));
    lemma_new_denoms_same_denoms(a + b, appended_coins(b, c), denom_coins(new_denoms(b, c)));
    assert forall|d: Seq<char>| #[trigger] has_denom(b, d) implies has_denom(a + b, d) by {
        lemma_has_denom_concat(a, b, d);
    }
    lemma_new_denoms_nested(a + b, b, c);
    assert(new_denoms(a, t) == n1 + n2);
    assert(new_denoms(s, c) == n2);
    lemma_new_denoms(a + b, c);
    assert(l.len() == r.len());
    assert forall|k: int| 0 <= k < l.len() implies #[trigger] l[k] == r[k] by {
        if k < a.len() {
            assert(is_first_of_denom(a, k));
            assert(is_first_of_denom(s, k));
            lemma_sum_coins_adds_amounts(b, c, a[k].0);
        } else if k < s.len() {
            assert(is_first_of_denom(s, k));
            lemma_sum_coins_adds_amounts(b, c, s[k].0);
            assert((n1 + n2)[k - a.len()] == n1[k - a.len()]);
        } else {
            let j = k - s.len();
            let d = n2[j];
            assert((n1 + n2)[k - a.len()] == d);
            lemma_sum_coins_adds_amounts(b, c, d);
            assert(!has_denom(a + b, d));
            lemma_has_denom_concat(a, b, d);
            assert forall|x: int| 0 <= x < b.len() implies #[trigger] b[x].0 != d by {
                if b[x].0 == d {
                    assert(has_denom(b, d));
                }
            }
            lemma_amount_absent(b, d);
        }
    }
    assert(l =~= r);
}

/// The index of the first coin of `coins` with denomination `denom`, if any.
pub fn find_denom(coins: &Vec<Coin>, denom: &String) -> (r: Option<usize>)
    ensures
        match r {
            Some(k) => k < coins.len() && coins[k as int].denom@ == denom@ && forall|t: int|
                0 <= t < k ==> #[trigger] coins[t].denom@ != denom@,
            None => forall|t: int| 0 <= t < coins.len() ==> #[trigger] coins[t].denom@ != denom@,
        },
{
    let mut k: usize = 0;
    while k < coins.len()
        invariant
            k <= coins.len(),
            forall|t: int| 0 <= t < k ==> #[trigger] coins[t].denom@ != denom@,
        decreases coins.len() - k,
    {
        if coins[k].denom == *denom {
            return Some(k);
        }
        k += 1;
    }
    None
}

/// Combines two vectors of coins into one, where coins of a denomination that
/// both hold are added together.
///
/// Each coin of `ys` is added to the first coin of the running result with its
/// denomination, or appended when there is none.
pub fn sum_coins(xs: Vec<Coin>, ys: Vec<Coin>) -> (r: Vec<Coin>)
    requires
        sum_coins_fits(xs.deep_view(), ys.deep_view()),
    ensures
        r.deep_view() == summed_coins(xs.deep_view(), ys.deep_view()),
        forall|denom: Seq<char>|
            #[trigger] amount_of(r.deep_view(), denom) == amount_of(xs.deep_view(), denom) + amount_of(
                ys.deep_view(),
                denom,
            ),
        distinct_denoms(xs.deep_view()) ==> distinct_denoms(r.deep_view()),
{
    let ghost xv = xs.deep_view();
    let ghost yv = ys.deep_view();
    let mut coins = xs;
    assert(amounts_nonneg(yv));
    assert(coins.deep_view() =~= summed_coins(xv, yv.take(0))) by {
        assert(yv.take(0) =~= Seq::<CoinModel>::empty());
        assert(new_denoms(xv, yv.take(0)) =~= Seq::<Seq<char>>::empty());
    }
    let mut j: usize = 0;
    while j < ys.len()
        invariant
            j <= ys.len(),
            yv == ys.deep_view(),
            amounts_nonneg(yv),
            sum_coins_fits(xv, yv),
            coins.deep_view() == summed_coins(xv, yv.take(j as int)),
        decreases ys.len() - j,
    {
        let y = ys[j].clone();
        let ghost before = coins.deep_view();
        assert(yv[j as int] == y.deep_view());
        match find_denom(&coins, &y.denom) {
            Some(k) => {
                proof {
                    assert(before[k as int] == coins[k as int].deep_view());
                    assert forall|t: int| 0 <= t < k implies #[trigger] before[t].0 != yv[j as int].0 by {
                        assert(before[t] == coins[t].deep_view());
                    }
                    lemma_sum_step_found(xv, yv, j as int, k as int);
                }
                let amount = coins[k].amount + y.amount;
                let denom = coins[k].denom.clone();
                coins.set(k, Coin { denom, amount });
                assert(coins.deep_view() =~= before.update(k as int, (y.denom@, amount as int)));
            },
            None => {
                proof {
                    assert forall|t: int| 0 <= t < before.len() implies #[trigger] before[t].0 != yv[j as int].0 by {
                        assert(before[t] == coins[t].deep_view());
                    }
                    lemma_sum_step_new(xv, yv, j as int);
                }
                coins.push(y);
                assert(coins.deep_view() =~= before.push(yv[j as int]));
            },
        }
        j += 1;
    }
    assert(yv.take(ys.len() as int) =~= yv);
    proof {
        assert forall|denom: Seq<char>|
            #[trigger] amount_of(coins.deep_view(), denom) == amount_of(xv, denom) + amount_of(yv, denom) by {
            lemma_sum_coins_adds_amounts(xv, yv, denom);
        }
        if distinct_denoms(xv) {
            lemma_sum_coins_keeps_distinct(xv, yv);
        }
    }
    coins
}

/// The total amount of denomination `denom` in `coins`, or `None` when it
/// exceeds `u128::MAX`.
pub fn amount_in(coins: &Vec<Coin>, denom: &String) -> (r: Option<u128>)
    ensures
        match r {
            Some(t) => t == amount_of(coins.deep_view(), denom@),
            None => amount_of(coins.deep_view(), denom@) > u128::MAX,
        },
{
    let ghost cv = coins.deep_view();
    assert(amounts_nonneg(cv));
    assert(cv.take(0) =~= Seq::<CoinModel>::empty());
    let mut total: u128 = 0;
    let mut i: usize = 0;
    while i < coins.len()
        invariant
            i <= coins.len(),
            cv == coins.deep_view(),
            amounts_nonneg(cv),
            total == amount_of(cv.take(i as int), denom@),
        decreases coins.len() - i,
    {
        proof {
            lemma_take_last(cv, i as int);
            assert(cv[i as int] == coins[i as int].deep_view());
        }
        if coins[i].denom == *denom {
            match total.checked_add(coins[i].amount) {
                Some(t) => {
                    total = t;
                },
                None => {
                    proof {
                        lemma_amount_prefix_le(cv, i + 1, denom@);
                    }
                    return None;
                },
            }
        }
        i += 1;
    }
    assert(cv.take(coins.len() as int) =~= cv);
    Some(total)
}

/// Whether `sum_coins(xs, ys)` stays within `u128::MAX`.
pub fn sum_coins_would_fit(xs: &Vec<Coin>, ys: &Vec<Coin>) -> (r: bool)
    ensures
        r == sum_coins_fits(xs.deep_view(), ys.deep_view()),
{
    let ghost xv = xs.deep_view();
    let ghost yv = ys.deep_view();
    let mut j: usize = 0;
    while j < ys.len()
        invariant
            j <= ys.len(),
            yv == ys.deep_view(),
            forall|t: int| 0 <= t < j ==> #[trigger] amount_of(yv, yv[t].0) <= u128::MAX,
        decreases ys.len() - j,
    {
        assert(yv[j as int] == ys[j as int].deep_view());
        match amount_in(ys, &ys[j].denom) {
            Some(_) => {},
            None => {
                return false;
            },
        }
        j += 1;
    }
    assert forall|d: Seq<char>| #[trigger] amount_of(yv, d) <= u128::MAX by {
        if has_denom(yv, d) {
            let t = choose|t: int| 0 <= t < yv.len() && #[trigger] yv[t].0 == d;
            assert(amount_of(yv, yv[t].0) <= u128::MAX);
        } else {
            assert forall|t: int| 0 <= t < yv.len() implies #[trigger] yv[t].0 != d by {
                if yv[t].0 == d {
                    assert(has_denom(yv, d));
                }
            }
            lemma_amount_absent(yv, d);
        }
    }
    let mut i: usize = 0;
    while i < xs.len()
        invariant
            i <= xs.len(),
            xv == xs.deep_view(),
            yv == ys.deep_view(),
            forall|d: Seq<char>| #[trigger] amount_of(yv, d) <= u128::MAX,
            forall|t: int|
                0 <= t < i && #[trigger] is_first_of_denom(xv, t) ==> xv[t].1 + amount_of(yv, xv[t].0)
                    <= u128::MAX,
        decreases xs.len() - i,
    {
        assert(xv[i as int] == xs[i as int].deep_view());
        let first = find_denom(xs, &xs[i].denom);
        let is_first = match first {
            Some(k) => k == i,
            None => false,
        };
        proof {
            if is_first {
                assert forall|t: int| 0 <= t < i implies #[trigger] xv[t].0 != xv[i as int].0 by {
                    assert(xv[t] == xs[t].deep_view());
                }
            } else {
                match first {
                    Some(k) => {
                        assert(xv[k as int] == xs[k as int].deep_view());
                        assert(k < i);
                        assert(xv[k as int].0 == xv[i as int].0);
                    },
                    None => {},
                }
                assert(!is_first_of_denom(xv, i as int));
            }
        }
        if is_first {
            match amount_in(ys, &xs[i].denom) {
                Some(t) => {
                    if xs[i].amount.checked_add(t).is_none() {
                        assert(is_first_of_denom(xv, i as int));
                        assert(xv[i as int].1 + amount_of(yv, xv[i as int].0) > u128::MAX);
                        return false;
                    }
                },
                None => {
                    return false;
                },
            }
        }
        i += 1;
    }
    true
}

/// The share of each coin that `percentage` takes never exceeds the coin.
pub open spec fn partition_fits(percentage: Decimal, coins: Seq<CoinModel>) -> bool {
    forall|i: int|
        0 <= i < coins.len() ==> #[trigger] mul_floor(coins[i].1, percentage.atomics as int)
            <= coins[i].1
}

/// Each coin's share at `percentage`, rounded down.
pub open spec fn shares_of(percentage: Decimal, coins: Seq<CoinModel>) -> Seq<CoinModel> {
    Seq::new(coins.len(), |i: int| (coins[i].0, mul_floor(coins[i].1, percentage.atomics as int)))
}

/// What remains of each coin once its share at `percentage` is taken.
pub open spec fn remainders_of(percentage: Decimal, coins: Seq<CoinModel>) -> Seq<CoinModel> {
    Seq::new(
        coins.len(),
        |i: int| (coins[i].0, coins[i].1 - mul_floor(coins[i].1, percentage.atomics as int)),
    )
}

/// Law of the split: of every coin, whatever the number of coins, the share
/// keeps its denomination and is its amount times the percentage's atomic
/// units divided by 10^18, rounded down; the remainder keeps the denomination
/// and is the amount less that share.
pub proof fn law_split_each_coin(percentage: Decimal, coins: Seq<CoinModel>)
    ensures
        shares_of(percentage, coins).len() == coins.len(),
        remainders_of(percentage, coins).len() == coins.len(),
        forall|i: int|
            0 <= i < coins.len() ==> #[trigger] shares_of(percentage, coins)[i] == (
                coins[i].0,
                coins[i].1 * percentage.atomics as int / 1_000_000_000_000_000_000int,
            ),
        forall|i: int|
            0 <= i < coins.len() ==> #[trigger] remainders_of(percentage, coins)[i] == (
                coins[i].0,
                coins[i].1 - coins[i].1 * percentage.atomics as int / 1_000_000_000_000_000_000int,
            ),
{
}

proof fn lemma_share_at_most_one(a: int, p: int)
    requires
        0 <= a,
        0 <= p <= crate::coin::DECIMAL_FRACTIONAL,
    ensures
        0 <= mul_floor(a, p) <= a,
{
    let f = crate::coin::DECIMAL_FRACTIONAL as int;
    assert(0 <= a * p <= a * f) by (nonlinear_arith)
        requires
            0 <= a,
            0 <= p <= f,
    ;
    assert(0 <= (a * p) / f <= (a * f) / f) by (nonlinear_arith)
        requires
            0 <= a * p <= a * f,
            f > 0,
    ;
    assert((a * f) / f == a) by (nonlinear_arith)
        requires
            f > 0,
    ;
}

/// A percentage of at most 100% never takes more than the whole coin.
pub proof fn lemma_partition_fits_at_most_one(percentage: Decimal, coins: Seq<CoinModel>)
    requires
        amounts_nonneg(coins),
        percentage.atomics <= crate::coin::DECIMAL_FRACTIONAL,
    ensures
        partition_fits(percentage, coins),
{
    assert forall|i: int| 0 <= i < coins.len() implies #[trigger] mul_floor(
        coins[i].1,
        percentage.atomics as int,
    ) <= coins[i].1 by {
        lemma_share_at_most_one(coins[i].1, percentage.atomics as int);
    }
}

proof fn lemma_share_bound(a: int, p: int)
    requires
        0 <= a,
        crate::coin::DECIMAL_FRACTIONAL < p,
    ensures
        mul_floor(a, p) <= a <==> a * (p - crate::coin::DECIMAL_FRACTIONAL) < crate::coin::DECIMAL_FRACTIONAL,
{
    let f = crate::coin::DECIMAL_FRACTIONAL as int;
    assert(((a * p) / f <= a) <==> (a * p < (a + 1) * f)) by (nonlinear_arith)
        requires
            0 <= a,
            f > 0,
            p > 0,
    ;
    assert((a * p < (a + 1) * f) <==> (a * (p - f) < f)) by (nonlinear_arith);
}

/// Law of the split: of every denomination, the shares and the remainders
/// together hold exactly what the coins held.
pub proof fn lemma_split_conserves(percentage: Decimal, coins: Seq<CoinModel>, denom: Seq<char>)
    ensures
        amount_of(shares_of(percentage, coins), denom) + amount_of(remainders_of(percentage, coins), denom)
            == amount_of(coins, denom),
    decreases coins.len(),
{
    if coins.len() > 0 {
        let prev = coins.drop_last();
        assert(shares_of(percentage, coins).drop_last() =~= shares_of(percentage, prev));
        assert(remainders_of(percentage, coins).drop_last() =~= remainders_of(percentage, prev));
        lemma_split_conserves(percentage, prev, denom);
    }
}

/// Law of the split: a smaller percentage never takes a larger share.
pub proof fn lemma_share_monotone(a: int, p: int, q: int)
    requires
        0 <= a,
        0 <= p <= q,
    ensures
        mul_floor(a, p) <= mul_floor(a, q),
{
    let f = crate::coin::DECIMAL_FRACTIONAL as int;
    assert(a * p <= a * q) by (nonlinear_arith)
        requires
            0 <= a,
            p <= q,
    ;
    assert((a * p) / f <= (a * q) / f) by (nonlinear_arith)
        requires
            a * p <= a * q,
            f > 0,
    ;
}

/// Whether `partition_coins_by_percentage` can split `coins` at `percentage`
/// without a share exceeding its coin.
pub fn can_partition(percentage: Decimal, coins: &Vec<Coin>) -> (r: bool)
    ensures
        r == partition_fits(percentage, coins.deep_view()),
{
    let f = crate::coin::DECIMAL_FRACTIONAL;
    if percentage.atomics <= f {
        proof {
            assert(amounts_nonneg(coins.deep_view()));
            lemma_partition_fits_at_most_one(percentage, coins.deep_view());
        }
        return true;
    }
    let excess = percentage.atomics - f;
    let mut i: usize = 0;
    while i < coins.len()
        invariant
            i <= coins.len(),
            percentage.atomics > f,
            excess == percentage.atomics - f,
            f == crate::coin::DECIMAL_FRACTIONAL,
            forall|t: int|
                0 <= t < i ==> #[trigger] mul_floor(coins.deep_view()[t].1, percentage.atomics as int)
                    <= coins.deep_view()[t].1,
        decreases coins.len() - i,
    {
        let a = coins[i].amount;
        proof {
            assert(coins.deep_view()[i as int] == coins[i as int].deep_view());
            lemma_share_bound(a as int, percentage.atomics as int);
            if a * excess >= f {
                assert(!(mul_floor(coins.deep_view()[i as int].1, percentage.atomics as int)
                    <= coins.deep_view()[i as int].1));
            }
        }
        match a.checked_mul(excess) {
            Some(prod) => {
                if prod >= f {
                    return false;
                }
            },
            None => {
                return false;
            },
        }
        i += 1;
    }
    true
}

/// Splits the given coins into two vectors based on the percentage given: the
/// share of each coin that the percentage takes (rounded down), and what
/// remains of it, each in the order and with the denominations of `coins`.
pub fn partition_coins_by_percentage(percentage: Decimal, coins: Vec<Coin>) -> (r: (
    Vec<Coin>,
    Vec<Coin>,
))
    requires
        partition_fits(percentage, coins.deep_view()),
    ensures
        r.0.deep_view() == shares_of(percentage, coins.deep_view()),
        r.1.deep_view() == remainders_of(percentage, coins.deep_view()),
        r.0.len() == coins.len(),
        r.1.len() == coins.len(),
        forall|i: int|
            #![trigger r.0[i]]
            0 <= i < coins.len() ==> {
                &&& r.0[i].denom@ == coins[i].denom@
                &&& r.0[i].amount as int == coins[i].amount as int * percentage.atomics as int
                    / 1_000_000_000_000_000_000int
                &&& r.1[i].denom@ == coins[i].denom@
                &&& r.1[i].amount + r.0[i].amount == coins[i].amount
            },
{
    let ghost cv = coins.deep_view();
    let mut percentage_coins: Vec<Coin> = Vec::new();
    let mut remaining_coins: Vec<Coin> = Vec::new();
    let mut i: usize = 0;
    while i < coins.len()
        invariant
            i <= coins.len(),
            cv == coins.deep_view(),
            partition_fits(percentage, cv),
            percentage_coins.deep_view() == shares_of(percentage, cv).take(i as int),
            remaining_coins.deep_view() == remainders_of(percentage, cv).take(i as int),
        decreases coins.len() - i,
    {
        let amount = coins[i].amount;
        assert(cv[i as int] == coins[i as int].deep_view());
        assert(mul_floor(cv[i as int].1, percentage.atomics as int) <= cv[i as int].1);
        let amount_to_send = mul_decimal(amount, percentage);
        let amount_to_remain = amount - amount_to_send;
        let ghost p0 = percentage_coins.deep_view();
        let ghost r0 = remaining_coins.deep_view();
        percentage_coins.push(Coin { denom: coins[i].denom.clone(), amount: amount_to_send });
        remaining_coins.push(Coin { denom: coins[i].denom.clone(), amount: amount_to_remain });
        assert(percentage_coins.deep_view() =~= p0.push(shares_of(percentage, cv)[i as int]));
        assert(remaining_coins.deep_view() =~= r0.push(remainders_of(percentage, cv)[i as int]));
        assert(shares_of(percentage, cv).take(i + 1) =~= shares_of(percentage, cv).take(i as int).push(
            shares_of(percentage, cv)[i as int],
        ));
        assert(remainders_of(percentage, cv).take(i + 1) =~= remainders_of(percentage, cv).take(
            i as int,
        ).push(remainders_of(percentage, cv)[i as int]));
        i += 1;
    }
    assert(shares_of(percentage, cv).take(coins.len() as int) =~= shares_of(percentage, cv));
    assert(remainders_of(percentage, cv).take(coins.len() as int) =~= remainders_of(percentage, cv));
    assert forall|i: int| #![trigger percentage_coins[i]] 0 <= i < coins.len() implies {
        &&& percentage_coins[i].denom@ == coins[i].denom@
        &&& percentage_coins[i].amount as int == coins[i].amount as int * percentage.atomics as int
            / 1_000_000_000_000_000_000int
        &&& remaining_coins[i].denom@ == coins[i].denom@
        &&& remaining_coins[i].amount + percentage_coins[i].amount == coins[i].amount
    } by {
        assert(percentage_coins.deep_view()[i] == percentage_coins[i].deep_view());
        assert(remaining_coins.deep_view()[i] == remaining_coins[i].deep_view());
        assert(cv[i] == coins[i].deep_view());
    }
    (percentage_coins, remaining_coins)
}

/// A wrapper around a contract's address that builds calls of that contract.
#[derive(Debug, PartialEq, Eq)]
pub struct CwTemplateContract(pub String);

impl Clone for CwTemplateContract {
    fn clone(&self) -> (r: Self)
        ensures
            r == *self,
    {
        CwTemplateContract(self.0.clone())
    }
}

impl CwTemplateContract {
    /// The contract's address.
    pub fn addr(&self) -> (r: String)
        ensures
            r@ == self.0@,
    {
        self.0.clone()
    }

    /// A call of the contract with the serialized execute message `msg` and
    /// no funds attached.
    pub fn call(&self, msg: Vec<u8>) -> (r: CosmosMsg)
        ensures
            r.deep_view() == (CosmosMsgModel::WasmExecute {
                contract_addr: self.0@,
                msg: msg@,
                funds: Seq::<CoinModel>::empty(),
            }),
    {
        let funds: Vec<Coin> = Vec::new();
        assert(funds.deep_view() =~= Seq::<CoinModel>::empty());
        CosmosMsg::Wasm(WasmMsg::Execute { contract_addr: self.addr(), msg, funds })
    }
}

} // verus!
