//! The volume of a match: what the client fills report as executed, and what
//! the exchange fills report, is what the match takes out of each side of the
//! book.

use crate::matchers::fifo_matcher::{
    consume, execution_pair, fifo_buy, fifo_fills, fifo_sell, levels_after_scan, min_qty,
    queue_fills, queue_left, queue_sell, scan_fills,
};
use crate::matchers::prorata_matcher::{
    fresh, lemma_share, orders_of, pro_fills, pro_left, pro_sells, prorata_buy, prorata_fills,
    prorata_sell, round_filled, round_fills, round_left, share, Working,
};
use crate::matchers::reports::{
    client_qty, exchange_qty, lemma_fifo_fills, lemma_pro_fills, lemma_prorata_fills,
    lemma_queue_fills, lemma_round_fills, lemma_scan_fills,
};
use crate::matchers::residuals::{lemma_consume_total, lemma_round_filled_le};
use crate::model::book::{
    has_key, lemma_has_position, lemma_total_qty_first, levels_settle, orders_at, position_of,
    total_qty, LevelView,
};
use crate::model::domain::{execution, FillView, KeyView, OrderView};
use vstd::prelude::*;

verus! {

/// The quantity that rests on a side of a book: the sum over its levels of
/// the sums of their queues.
pub open spec fn total_resting(levels: Seq<LevelView>) -> nat
    decreases levels.len(),
{
    if levels.len() == 0 {
        0
    } else {
        total_resting(levels.drop_last()) + total_qty(levels.last().orders)
    }
}

/// The quantity that rests on a side is that of its first level and that of
/// the levels after it.
pub proof fn lemma_total_resting_first(levels: Seq<LevelView>)
    requires
        levels.len() > 0,
    ensures
        total_resting(levels) == total_qty(levels[0].orders) + total_resting(
            levels.drop_first(),
        ),
    decreases levels.len(),
{
    if levels.len() == 1 {
        assert(total_resting(levels.drop_last()) == 0);
        assert(total_resting(levels.drop_first()) == 0);
    } else {
        lemma_total_resting_first(levels.drop_last());
        assert(levels.drop_last().drop_first() =~= levels.drop_first().drop_last());
    }
}

/// The quantity that rests on a side after the queue of one level was
/// replaced.
pub proof fn lemma_total_resting_update(levels: Seq<LevelView>, p: int, level: LevelView)
    requires
        0 <= p < levels.len(),
    ensures
        total_resting(levels.update(p, level)) + total_qty(levels[p].orders) == total_resting(
            levels,
        ) + total_qty(level.orders),
    decreases levels.len(),
{
    let after = levels.update(p, level);
    if p == levels.len() - 1 {
        assert(after.drop_last() =~= levels.drop_last());
    } else {
        assert(after.drop_last() =~= levels.drop_last().update(p, level));
        lemma_total_resting_update(levels.drop_last(), p, level);
    }
}

/// The quantity that rests on a side after one level was removed.
pub proof fn lemma_total_resting_remove(levels: Seq<LevelView>, p: int)
    requires
        0 <= p < levels.len(),
    ensures
        total_resting(levels.remove(p)) + total_qty(levels[p].orders) == total_resting(levels),
    decreases levels.len(),
{
    let after = levels.remove(p);
    if p == levels.len() - 1 {
        assert(after =~= levels.drop_last());
    } else {
        assert(after.drop_last() =~= levels.drop_last().remove(p));
        assert(after.last() == levels.last());
        lemma_total_resting_remove(levels.drop_last(), p);
    }
}

/// Settling a level changes the quantity that rests on the side by the
/// difference between the queue that was there and the queue that is left.
pub proof fn lemma_total_resting_settle(
    levels: Seq<LevelView>,
    key: KeyView,
    orders: Seq<OrderView>,
)
    ensures
        has_key(levels, key) ==> total_resting(levels_settle(levels, key, orders)) + total_qty(
            orders_at(levels, key),
        ) == total_resting(levels) + total_qty(orders),
        !has_key(levels, key) ==> levels_settle(levels, key, orders) == levels,
{
    if has_key(levels, key) {
        lemma_has_position(levels, key);
        let p = position_of(levels, key);
        if orders.len() == 0 {
            lemma_total_resting_remove(levels, p);
        } else {
            lemma_total_resting_update(levels, p, LevelView { key, orders });
        }
    }
}

/// The quantities of two lists of pairs, one after the other, add up.
pub proof fn lemma_qty_concat(first: Seq<FillView>, second: Seq<FillView>)
    requires
        first.len() % 2 == 0,
        second.len() % 2 == 0,
    ensures
        client_qty(first + second) == client_qty(first) + client_qty(second),
        exchange_qty(first + second) == exchange_qty(first) + exchange_qty(second),
    decreases second.len(),
{
    let all = first + second;
    if second.len() == 0 {
        assert(all =~= first);
    } else {
        let n = second.len() - 2;
        assert(all.take(all.len() - 2) =~= first + second.take(n));
        assert(all[all.len() - 2] == second[n]);
        assert(all[all.len() - 2 + 1] == second[n + 1]);
        lemma_qty_concat(first, second.take(n));
    }
}

/// The quantities of one pair of fills.
pub proof fn lemma_qty_of_pair(pair: Seq<FillView>)
    requires
        pair.len() == 2,
    ensures
        client_qty(pair) == pair[0].qty,
        exchange_qty(pair) == pair[1].qty,
{
    assert(pair.take(0).len() == 0);
    assert(client_qty(pair.take(0)) == 0);
    assert(exchange_qty(pair.take(0)) == 0);
}

/// Matching one order against a queue executes the smaller of what the order
/// has open and what the queue holds; the client fills report that quantity,
/// and so do the exchange fills.
pub proof fn lemma_scan_volume(client: OrderView, cum: nat, sells: Seq<OrderView>)
    requires
        cum <= client.qty,
    ensures
        client_qty(scan_fills(client, cum, sells)) == min_qty(
            (client.qty - cum) as nat,
            total_qty(sells),
        ),
        exchange_qty(scan_fills(client, cum, sells)) == min_qty(
            (client.qty - cum) as nat,
            total_qty(sells),
        ),
    decreases sells.len(),
{
    if sells.len() > 0 {
        let leaves = (client.qty - cum) as nat;
        let head = sells[0];
        lemma_total_qty_first(sells);
        if leaves <= head.qty {
            lemma_qty_of_pair(execution_pair(client, cum, head, leaves));
        } else {
            let pair = execution_pair(client, cum, head, head.qty);
            let tail = scan_fills(client, cum + head.qty, sells.drop_first());
            lemma_qty_of_pair(pair);
            lemma_scan_volume(client, cum + head.qty, sells.drop_first());
            lemma_scan_fills(client, cum + head.qty, sells.drop_first());
            lemma_qty_concat(pair, tail);
        }
    } else {
        assert(client_qty(scan_fills(client, cum, sells)) == 0);
        assert(exchange_qty(scan_fills(client, cum, sells)) == 0);
    }
}

/// The sum of a queue with an order put in front of it.
pub proof fn lemma_total_qty_prepend(head: OrderView, rest: Seq<OrderView>)
    ensures
        total_qty(seq![head] + rest) == head.qty + total_qty(rest),
{
    lemma_total_qty_first(seq![head] + rest);
    assert((seq![head] + rest).drop_first() =~= rest);
}

/// The quantity of a side with a level put in front of it.
pub proof fn lemma_total_resting_prepend(head: LevelView, rest: Seq<LevelView>)
    ensures
        total_resting(seq![head] + rest) == total_qty(head.orders) + total_resting(rest),
{
    lemma_total_resting_first(seq![head] + rest);
    assert((seq![head] + rest).drop_first() =~= rest);
}

/// Matching a queue of orders against a side: what the client fills report
/// is what the queue loses, and what the exchange fills report is what the
/// side loses.
pub proof fn lemma_queue_volume(buys: Seq<OrderView>, sell: Seq<LevelView>)
    ensures
        client_qty(queue_fills(buys, sell)) + total_qty(queue_left(buys, sell)) == total_qty(buys),
        exchange_qty(queue_fills(buys, sell)) + total_resting(queue_sell(buys, sell))
            == total_resting(sell),
    decreases buys.len(),
{
    if buys.len() > 0 {
        let head = buys[0];
        let key = head.key();
        let sells = orders_at(sell, key);
        let first = scan_fills(head, 0, sells);
        let after = levels_after_scan(sell, key, head.qty);
        let tail = queue_fills(buys.drop_first(), after);
        let filled = min_qty(head.qty, total_qty(sells));
        lemma_scan_volume(head, 0, sells);
        lemma_scan_fills(head, 0, sells);
        lemma_queue_fills(buys.drop_first(), after);
        lemma_qty_concat(first, tail);
        lemma_queue_volume(buys.drop_first(), after);
        lemma_total_qty_first(buys);
        lemma_consume_total(sells, head.qty);
        lemma_total_resting_settle(sell, key, consume(sells, head.qty));
        if !has_key(sell, key) {
            assert(total_qty(sells) == 0);
        }
        if filled < head.qty {
            lemma_total_qty_prepend(
                head.with_qty((head.qty - filled) as nat),
                queue_left(buys.drop_first(), after),
            );
        }
    } else {
        assert(client_qty(queue_fills(buys, sell)) == 0);
        assert(exchange_qty(queue_fills(buys, sell)) == 0);
    }
}

/// The volume of a first-in-first-out match: the quantity that the client
/// fills report is the quantity that leaves the buy side, and the quantity
/// that the exchange fills report is the quantity that leaves the sell side.
pub proof fn lemma_fifo_volume(buy: Seq<LevelView>, sell: Seq<LevelView>)
    ensures
        client_qty(fifo_fills(buy, sell)) + total_resting(fifo_buy(buy, sell)) == total_resting(
            buy,
        ),
        exchange_qty(fifo_fills(buy, sell)) + total_resting(fifo_sell(buy, sell))
            == total_resting(sell),
    decreases buy.len(),
{
    if buy.len() > 0 {
        let first = queue_fills(buy[0].orders, sell);
        let after = queue_sell(buy[0].orders, sell);
        let left = queue_left(buy[0].orders, sell);
        let tail = fifo_fills(buy.drop_first(), after);
        lemma_queue_volume(buy[0].orders, sell);
        lemma_queue_fills(buy[0].orders, sell);
        lemma_fifo_fills(buy.drop_first(), after);
        lemma_qty_concat(first, tail);
        lemma_fifo_volume(buy.drop_first(), after);
        lemma_total_resting_first(buy);
        if left.len() > 0 {
            lemma_total_resting_prepend(
                LevelView { key: buy[0].key, orders: left },
                fifo_buy(buy.drop_first(), after),
            );
        } else {
            assert(total_qty(left) == 0);
        }
    } else {
        assert(client_qty(fifo_fills(buy, sell)) == 0);
        assert(exchange_qty(fifo_fills(buy, sell)) == 0);
    }
}

/// Sharing a sell order among buy orders: the client fills and the exchange
/// fills report the quantity that is executed, and the buy orders lose it.
pub proof fn lemma_round_volume(sell: OrderView, ex_cum: nat, buys: Seq<Working>, total: nat)
    ensures
        client_qty(round_fills(sell, ex_cum, buys, total)) == round_filled(sell.qty, buys, total),
        exchange_qty(round_fills(sell, ex_cum, buys, total)) == round_filled(
            sell.qty,
            buys,
            total,
        ),
        total_qty(orders_of(round_left(sell.qty, buys, total))) + round_filled(
            sell.qty,
            buys,
            total,
        ) == total_qty(orders_of(buys)),
    decreases buys.len(),
{
    if buys.len() > 0 {
        let head = buys[0];
        let rest = buys.drop_first();
        let qty = share(sell.qty, head.order.qty, total);
        let pair = seq![
            execution(
                head.order,
                sell.cl_ord_id,
                qty,
                head.filled + qty,
                (head.order.qty - qty) as nat,
            ),
            execution(
                sell,
                head.order.cl_ord_id,
                qty,
                ex_cum + qty,
                (sell.qty - ex_cum - qty) as nat,
            ),
        ];
        let tail = round_fills(sell, ex_cum + qty, rest, total);
        lemma_qty_of_pair(pair);
        lemma_round_fills(sell, ex_cum + qty, rest, total);
        lemma_qty_concat(pair, tail);
        lemma_round_volume(sell, ex_cum + qty, rest, total);
        lemma_share(sell.qty, head.order.qty, total);
        lemma_total_qty_first(orders_of(buys));
        assert(orders_of(buys).drop_first() =~= orders_of(rest));
        let rest_left = round_left(sell.qty, rest, total);
        if qty < head.order.qty {
            let entry = Working {
                order: head.order.with_qty((head.order.qty - qty) as nat),
                filled: head.filled + qty,
            };
            assert(orders_of(seq![entry] + rest_left) =~= seq![entry.order] + orders_of(
                rest_left,
            ));
            lemma_total_qty_prepend(entry.order, orders_of(rest_left));
        }
    } else {
        assert(client_qty(round_fills(sell, ex_cum, buys, total)) == 0);
        assert(exchange_qty(round_fills(sell, ex_cum, buys, total)) == 0);
        assert(orders_of(round_left(sell.qty, buys, total)) =~= orders_of(buys));
    }
}

/// A pro-rata match of two queues: what the client fills report is what the
/// buy queue loses, and what the exchange fills report is what the sell queue
/// loses.
pub proof fn lemma_pro_volume(sells: Seq<OrderView>, buys: Seq<Working>)
    ensures
        client_qty(pro_fills(sells, buys)) + total_qty(orders_of(pro_left(sells, buys)))
            == total_qty(orders_of(buys)),
        exchange_qty(pro_fills(sells, buys)) + total_qty(pro_sells(sells, buys)) == total_qty(
            sells,
        ),
    decreases sells.len(),
{
    if sells.len() > 0 {
        let total = total_qty(orders_of(buys));
        let first = round_fills(sells[0], 0, buys, total);
        let next = round_left(sells[0].qty, buys, total);
        let tail = pro_fills(sells.drop_first(), next);
        let filled = round_filled(sells[0].qty, buys, total);
        lemma_round_volume(sells[0], 0, buys, total);
        lemma_round_fills(sells[0], 0, buys, total);
        lemma_pro_fills(sells.drop_first(), next);
        lemma_qty_concat(first, tail);
        lemma_pro_volume(sells.drop_first(), next);
        lemma_round_filled_le(sells[0].qty, buys);
        lemma_total_qty_first(sells);
        if filled < sells[0].qty {
            lemma_total_qty_prepend(
                sells[0].with_qty((sells[0].qty - filled) as nat),
                pro_sells(sells.drop_first(), next),
            );
        }
    } else {
        assert(client_qty(pro_fills(sells, buys)) == 0);
        assert(exchange_qty(pro_fills(sells, buys)) == 0);
    }
}

/// The volume of a pro-rata match: the quantity that the client fills report
/// is the quantity that leaves the buy side, and the quantity that the
/// exchange fills report is the quantity that leaves the sell side.
pub proof fn lemma_prorata_volume(buy: Seq<LevelView>, sell: Seq<LevelView>)
    ensures
        client_qty(prorata_fills(buy, sell)) + total_resting(prorata_buy(buy, sell))
            == total_resting(buy),
        exchange_qty(prorata_fills(buy, sell)) + total_resting(prorata_sell(buy, sell))
            == total_resting(sell),
    decreases buy.len(),
{
    if buy.len() > 0 {
        let key = buy[0].key;
        let sells = orders_at(sell, key);
        let buys = fresh(buy[0].orders);
        let first = pro_fills(sells, buys);
        let after = levels_settle(sell, key, pro_sells(sells, buys));
        let left = orders_of(pro_left(sells, buys));
        let tail = prorata_fills(buy.drop_first(), after);
        lemma_pro_volume(sells, buys);
        lemma_pro_fills(sells, buys);
        lemma_prorata_fills(buy.drop_first(), after);
        lemma_qty_concat(first, tail);
        lemma_prorata_volume(buy.drop_first(), after);
        lemma_total_resting_first(buy);
        lemma_total_resting_settle(sell, key, pro_sells(sells, buys));
        assert(orders_of(buys) =~= buy[0].orders);
        if !has_key(sell, key) {
            assert(total_qty(sells) == 0);
            assert(total_qty(pro_sells(sells, buys)) == 0);
        }
        if left.len() > 0 {
            lemma_total_resting_prepend(
                LevelView { key, orders: left },
                prorata_buy(buy.drop_first(), after),
            );
        } else {
            assert(total_qty(left) == 0);
        }
    } else {
        assert(client_qty(prorata_fills(buy, sell)) == 0);
        assert(exchange_qty(prorata_fills(buy, sell)) == 0);
    }
}

} // verus!
