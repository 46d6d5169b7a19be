//! A match goes price level by price level: what it reports and what it
//! leaves at a price depends on the two queues at that price alone.

use crate::matchers::fifo_matcher::{
    consume, fifo_fills, lemma_after_scan_wf, lemma_queue_sell_wf, levels_after_scan,
    queue_fills, queue_sell, scan_fills,
};
use crate::matchers::priority::{lemma_lookup_after_first, lemma_resting_is_positive};
use crate::matchers::prorata_matcher::{
    fresh, lemma_pro_sells_rests, lemma_prorata_buy_wf, orders_of,
    pro_fills, pro_left, pro_sells, prorata_buy, prorata_fills, prorata_sell, round_filled,
    round_left, Working,
};
use crate::matchers::residuals::lemma_level_residual;
use crate::model::book::{
    all_rest_at, has_key, key_kept, lemma_drop_first_wf, lemma_levels_settle_lookup,
    lemma_levels_settle_wf, lemma_orders_at_rest, levels_settle, levels_wf, orders_at,
    rests_at, total_qty, LevelView,
};
use crate::model::domain::{FillView, KeyView, OrderView, Side};
use vstd::prelude::*;

verus! {

/// The reports of matching the orders of the queue `buys`, head first,
/// against the queue `sells`.
pub open spec fn level_fills(buys: Seq<OrderView>, sells: Seq<OrderView>) -> Seq<FillView>
    decreases buys.len(),
{
    if buys.len() == 0 {
        Seq::empty()
    } else {
        scan_fills(buys[0], 0, sells) + level_fills(
            buys.drop_first(),
            consume(sells, buys[0].qty),
        )
    }
}

/// The reports of a first-in-first-out match, level by level: for each buy
/// level, in the order of the levels, the reports of matching its queue
/// against the sell queue at the same price.
pub open spec fn fifo_fills_by_level(buy: Seq<LevelView>, sell: Seq<LevelView>) -> Seq<FillView>
    decreases buy.len(),
{
    if buy.len() == 0 {
        Seq::empty()
    } else {
        level_fills(buy[0].orders, orders_at(sell, buy[0].key)) + fifo_fills_by_level(
            buy.drop_first(),
            sell,
        )
    }
}

/// The reports of a pro-rata match, level by level: for each buy level, in
/// the order of the levels, the reports of the pro-rata match of the sell
/// queue at the same price against its queue.
pub open spec fn prorata_fills_by_level(buy: Seq<LevelView>, sell: Seq<LevelView>) -> Seq<
    FillView,
>
    decreases buy.len(),
{
    if buy.len() == 0 {
        Seq::empty()
    } else {
        pro_fills(orders_at(sell, buy[0].key), fresh(buy[0].orders)) + prorata_fills_by_level(
            buy.drop_first(),
            sell,
        )
    }
}

/// Whether `after` has, under the key of each of the levels `buy`, the queue
/// that `before` has.
pub open spec fn same_queues(buy: Seq<LevelView>, before: Seq<LevelView>, after: Seq<LevelView>)
    -> bool {
    forall|j: int|
        0 <= j < buy.len() ==> orders_at(after, (#[trigger] buy[j]).key) == orders_at(
            before,
            buy[j].key,
        )
}

/// The reports of a match, level by level, depend on the sell queues at the
/// prices of the buy levels alone.
pub proof fn lemma_by_level_frame(
    buy: Seq<LevelView>,
    before: Seq<LevelView>,
    after: Seq<LevelView>,
)
    requires
        same_queues(buy, before, after),
    ensures
        fifo_fills_by_level(buy, after) == fifo_fills_by_level(buy, before),
        prorata_fills_by_level(buy, after) == prorata_fills_by_level(buy, before),
    decreases buy.len(),
{
    if buy.len() > 0 {
        let rest = buy.drop_first();
        assert(orders_at(after, buy[0].key) == orders_at(before, buy[0].key));
        assert forall|j: int| 0 <= j < rest.len() implies orders_at(
            after,
            (#[trigger] rest[j]).key,
        ) == orders_at(before, rest[j].key) by {
            assert(rest[j] == buy[j + 1]);
        }
        lemma_by_level_frame(rest, before, after);
    }
}

/// The reports of matching the orders of one price level against a well
/// formed side are the reports of matching their queue against the queue of
/// the side at that price.
pub proof fn lemma_queue_fills_is_level(buys: Seq<OrderView>, sell: Seq<LevelView>, key: KeyView)
    requires
        all_rest_at(buys, key, Side::Buy),
        levels_wf(sell, Side::Sell),
    ensures
        queue_fills(buys, sell) == level_fills(buys, orders_at(sell, key)),
    decreases buys.len(),
{
    if buys.len() > 0 {
        let head = buys[0];
        let rest = buys.drop_first();
        assert(rests_at(head, key, Side::Buy));
        assert forall|k: int| 0 <= k < rest.len() implies rests_at(
            #[trigger] rest[k],
            key,
            Side::Buy,
        ) by {
            assert(rests_at(buys[k + 1], key, Side::Buy));
        }
        let sells = orders_at(sell, key);
        let after = levels_after_scan(sell, key, head.qty);
        lemma_levels_settle_lookup(sell, key, consume(sells, head.qty));
        lemma_after_scan_wf(sell, key, head.qty, Side::Sell);
        lemma_queue_fills_is_level(rest, after, key);
        assert(orders_at(after, key) =~= consume(sells, head.qty));
    }
}

/// A first-in-first-out match of well formed sides goes level by level: its
/// reports are, for each buy level in turn, the reports of matching the queue
/// of the level against the sell queue that rested at the same price before
/// the match.
pub proof fn lemma_fifo_fills_by_level(buy: Seq<LevelView>, sell: Seq<LevelView>)
    requires
        levels_wf(buy, Side::Buy),
        levels_wf(sell, Side::Sell),
    ensures
        fifo_fills(buy, sell) == fifo_fills_by_level(buy, sell),
    decreases buy.len(),
{
    if buy.len() > 0 {
        let first = buy[0];
        let rest = buy.drop_first();
        let after = queue_sell(first.orders, sell);
        lemma_drop_first_wf(buy, Side::Buy);
        lemma_queue_sell_wf(first.orders, sell, Side::Sell);
        lemma_queue_fills_is_level(first.orders, sell, first.key);
        lemma_fifo_fills_by_level(rest, after);
        lemma_level_residual(first.orders, sell, first.key);
        assert forall|j: int| 0 <= j < rest.len() implies orders_at(
            after,
            (#[trigger] rest[j]).key,
        ) == orders_at(sell, rest[j].key) by {
            assert(rest[j].key != first.key);
            assert(key_kept(sell, after, rest[j].key));
        }
        lemma_by_level_frame(rest, sell, after);
    }
}

/// A pro-rata match of well formed sides goes level by level: its reports
/// are, for each buy level in turn, the reports of the pro-rata match of the
/// sell queue that rested at the same price before the match against the
/// queue of the level.
pub proof fn lemma_prorata_fills_by_level(buy: Seq<LevelView>, sell: Seq<LevelView>)
    requires
        levels_wf(buy, Side::Buy),
        levels_wf(sell, Side::Sell),
    ensures
        prorata_fills(buy, sell) == prorata_fills_by_level(buy, sell),
    decreases buy.len(),
{
    if buy.len() > 0 {
        let first = buy[0];
        let rest = buy.drop_first();
        let sells = orders_at(sell, first.key);
        let buys = fresh(first.orders);
        let after = levels_settle(sell, first.key, pro_sells(sells, buys));
        lemma_drop_first_wf(buy, Side::Buy);
        lemma_orders_at_rest(sell, first.key, Side::Sell);
        lemma_pro_sells_rests(sells, buys, first.key, Side::Sell);
        lemma_levels_settle_wf(sell, first.key, pro_sells(sells, buys), Side::Sell);
        lemma_levels_settle_lookup(sell, first.key, pro_sells(sells, buys));
        lemma_prorata_fills_by_level(rest, after);
        assert forall|j: int| 0 <= j < rest.len() implies orders_at(
            after,
            (#[trigger] rest[j]).key,
        ) == orders_at(sell, rest[j].key) by {
            assert(rest[j].key != first.key);
            assert(key_kept(sell, after, rest[j].key));
        }
        lemma_by_level_frame(rest, sell, after);
    }
}

/// With no buy orders a pro-rata match leaves every sell order of positive
/// quantity as it is.
pub proof fn lemma_pro_sells_alone(sells: Seq<OrderView>)
    requires
        forall|k: int| 0 <= k < sells.len() ==> (#[trigger] sells[k]).qty > 0,
    ensures
        pro_sells(sells, Seq::<Working>::empty()) == sells,
    decreases sells.len(),
{
    let none = Seq::<Working>::empty();
    if sells.len() > 0 {
        let rest = sells.drop_first();
        assert(orders_of(none) =~= Seq::<OrderView>::empty());
        assert(total_qty(orders_of(none)) == 0);
        assert(round_filled(sells[0].qty, none, 0) == 0);
        assert(round_left(sells[0].qty, none, 0) == none);
        assert forall|k: int| 0 <= k < rest.len() implies (#[trigger] rest[k]).qty > 0 by {
            assert(sells[k + 1].qty > 0);
        }
        lemma_pro_sells_alone(rest);
        assert(sells[0].qty > 0);
        assert(sells[0].with_qty(sells[0].qty) == sells[0]);
        assert(pro_sells(sells, none) =~= sells);
    }
}

/// With no buy orders a pro-rata match leaves no buy orders.
pub proof fn lemma_pro_left_alone(sells: Seq<OrderView>)
    ensures
        pro_left(sells, Seq::<Working>::empty()) == Seq::<Working>::empty(),
    decreases sells.len(),
{
    let none = Seq::<Working>::empty();
    if sells.len() > 0 {
        assert(round_left(sells[0].qty, none, total_qty(orders_of(none))) == none);
        lemma_pro_left_alone(sells.drop_first());
    }
}

/// A pro-rata match of well formed sides goes level by level: after the
/// match, the buy queue and the sell queue at a price are what the pro-rata
/// match of the two queues that rested at that price leaves of them.
pub proof fn lemma_prorata_by_level(buy: Seq<LevelView>, sell: Seq<LevelView>, key: KeyView)
    requires
        levels_wf(buy, Side::Buy),
        levels_wf(sell, Side::Sell),
    ensures
        orders_at(prorata_buy(buy, sell), key) == orders_of(
            pro_left(orders_at(sell, key), fresh(orders_at(buy, key))),
        ),
        orders_at(prorata_sell(buy, sell), key) == pro_sells(
            orders_at(sell, key),
            fresh(orders_at(buy, key)),
        ),
    decreases buy.len(),
{
    lemma_orders_at_rest(sell, key, Side::Sell);
    lemma_resting_is_positive(orders_at(sell, key), key, Side::Sell);
    if buy.len() == 0 {
        assert(!has_key(buy, key));
        assert(fresh(orders_at(buy, key)) =~= Seq::<Working>::empty());
        lemma_pro_sells_alone(orders_at(sell, key));
        lemma_pro_left_alone(orders_at(sell, key));
        assert(!has_key(prorata_buy(buy, sell), key));
        assert(orders_of(Seq::<Working>::empty()) =~= Seq::<OrderView>::empty());
    } else {
        let first = buy[0];
        let rest = buy.drop_first();
        let sells = orders_at(sell, first.key);
        let buys = fresh(first.orders);
        let after = levels_settle(sell, first.key, pro_sells(sells, buys));
        let left = orders_of(pro_left(sells, buys));
        let rest_buy = prorata_buy(rest, after);
        let out = prorata_buy(buy, sell);
        lemma_drop_first_wf(buy, Side::Buy);
        lemma_orders_at_rest(sell, first.key, Side::Sell);
        lemma_pro_sells_rests(sells, buys, first.key, Side::Sell);
        lemma_levels_settle_wf(sell, first.key, pro_sells(sells, buys), Side::Sell);
        lemma_levels_settle_lookup(sell, first.key, pro_sells(sells, buys));
        lemma_prorata_by_level(rest, after, key);
        lemma_prorata_buy_wf(rest, after);
        lemma_prorata_buy_wf(buy, sell);
        lemma_lookup_after_first(buy, key, Side::Buy);
        if left.len() > 0 {
            assert(out.drop_first() =~= rest_buy);
            lemma_lookup_after_first(out, key, Side::Buy);
        }
        if key == first.key {
            assert(fresh(orders_at(rest, key)) =~= Seq::<Working>::empty());
            lemma_orders_at_rest(after, key, Side::Sell);
            lemma_resting_is_positive(orders_at(after, key), key, Side::Sell);
            lemma_pro_sells_alone(orders_at(after, key));
            if !has_key(sell, key) {
                assert(pro_sells(sells, buys) =~= orders_at(after, key));
            }
            if pro_sells(sells, buys).len() == 0 {
                assert(orders_at(after, key) =~= pro_sells(sells, buys));
            }
            if left.len() == 0 {
                if has_key(rest_buy, key) {
                    let j = choose|j: int|
                        0 <= j < rest_buy.len() && (#[trigger] rest_buy[j]).key == key;
                    assert(has_key(rest, rest_buy[j].key));
                }
                assert(orders_at(out, key) =~= left);
            }
        } else {
            assert(key_kept(sell, after, key));
        }
    }
}

} // verus!
