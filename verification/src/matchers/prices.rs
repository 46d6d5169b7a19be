//! The volume of a match at one price: what the fills at a price report is
//! what the two queues at that price lose.

use crate::matchers::fifo_matcher::{
    consume, execution_pair, fifo_book, fifo_fills, lemma_consume_rests, scan_fills,
};
use crate::matchers::levels::{
    fifo_fills_by_level, lemma_fifo_fills_by_level, lemma_prorata_by_level,
    lemma_prorata_fills_by_level, level_fills, prorata_fills_by_level,
};
use crate::matchers::priority::{
    lemma_fifo_book_takes_matched, lemma_level_takes_matched, lemma_lookup_after_first,
    lemma_resting_is_positive, level_left, level_sells, matched,
};
use crate::matchers::prorata_matcher::{
    fresh, lemma_round_left_rests, orders_of, pro_fills, prorata_book, prorata_fills,
    round_fills, round_left, share, Working,
};
use crate::matchers::reports::{
    client_qty, exchange_qty, in_pairs, lemma_in_pairs_concat, lemma_pro_fills,
    lemma_scan_fills,
};
use crate::matchers::residuals::lemma_consume_total;
use crate::matchers::volume::{
    lemma_pro_volume, lemma_qty_concat, lemma_scan_volume, lemma_total_qty_prepend,
};
use crate::model::book::{
    all_rest_at, book_wf, has_key, key_kept, lemma_drop_first_wf, lemma_orders_at_rest,
    lemma_total_qty_first, levels_wf, orders_at, rests_at, total_qty, BookView, LevelView,
};
use crate::model::domain::{execution, FillView, KeyView, OrderView, Side};
use vstd::prelude::*;

verus! {

/// The price level of the order that `fill` reports on.
pub open spec fn fill_key(fill: FillView) -> KeyView {
    KeyView { price: fill.price, symbol: fill.symbol }
}

/// The sum of the quantities of the client fills of a list of pairs that
/// report on orders of the price level `key`.
pub open spec fn client_qty_at(fills: Seq<FillView>, key: KeyView) -> nat
    decreases fills.len(),
{
    if fills.len() < 2 {
        0
    } else {
        let fill = fills[fills.len() - 2];
        client_qty_at(fills.take(fills.len() - 2), key) + if fill_key(fill) == key {
            fill.qty
        } else {
            0
        }
    }
}

/// The sum of the quantities of the exchange fills of a list of pairs that
/// report on orders of the price level `key`.
pub open spec fn exchange_qty_at(fills: Seq<FillView>, key: KeyView) -> nat
    decreases fills.len(),
{
    if fills.len() < 2 {
        0
    } else {
        let fill = fills[fills.len() - 2 + 1];
        exchange_qty_at(fills.take(fills.len() - 2), key) + if fill_key(fill) == key {
            fill.qty
        } else {
            0
        }
    }
}

/// Whether every fill of `fills` reports on an order of the price level
/// `key`.
pub open spec fn all_at(fills: Seq<FillView>, key: KeyView) -> bool {
    forall|i: int| 0 <= i < fills.len() ==> fill_key(#[trigger] fills[i]) == key
}

/// The quantities at a price of two lists of pairs, one after the other, add
/// up.
pub proof fn lemma_qty_at_concat(first: Seq<FillView>, second: Seq<FillView>, key: KeyView)
    requires
        first.len() % 2 == 0,
        second.len() % 2 == 0,
    ensures
        client_qty_at(first + second, key) == client_qty_at(first, key) + client_qty_at(
            second,
            key,
        ),
        exchange_qty_at(first + second, key) == exchange_qty_at(first, key) + exchange_qty_at(
            second,
            key,
        ),
    decreases second.len(),
{
    let all = first + second;
    if second.len() == 0 {
        assert(all =~= first);
    } else {
        let n = second.len() - 2;
        assert(all.take(all.len() - 2) =~= first + second.take(n));
        assert(all[all.len() - 2] == second[n]);
        assert(all[all.len() - 2 + 1] == second[n + 1]);
        lemma_qty_at_concat(first, second.take(n), key);
    }
}

/// Fills that all report on one price level report their whole quantity at
/// that level, and nothing at any other.
pub proof fn lemma_qty_at_one_level(fills: Seq<FillView>, level: KeyView, key: KeyView)
    requires
        fills.len() % 2 == 0,
        all_at(fills, level),
    ensures
        client_qty_at(fills, key) == if key == level {
            client_qty(fills)
        } else {
            0
        },
        exchange_qty_at(fills, key) == if key == level {
            exchange_qty(fills)
        } else {
            0
        },
    decreases fills.len(),
{
    if fills.len() >= 2 {
        let n = fills.len() - 2;
        let before = fills.take(n);
        assert forall|i: int| 0 <= i < before.len() implies fill_key(#[trigger] before[i])
            == level by {
            assert(before[i] == fills[i]);
        }
        lemma_qty_at_one_level(before, level, key);
        assert(fill_key(fills[n]) == level);
        assert(fill_key(fills[n + 1]) == level);
    }
}

/// Two lists of fills that report on one price level, one after the other,
/// report on that level.
pub proof fn lemma_all_at_concat(first: Seq<FillView>, second: Seq<FillView>, key: KeyView)
    requires
        all_at(first, key),
        all_at(second, key),
    ensures
        all_at(first + second, key),
{
    let all = first + second;
    assert forall|i: int| 0 <= i < all.len() implies fill_key(#[trigger] all[i]) == key by {
        if i < first.len() {
            assert(all[i] == first[i]);
        } else {
            assert(all[i] == second[i - first.len()]);
        }
    }
}

/// The orders after the head of a queue that rests at a level rest there.
proof fn lemma_rest_rests(queue: Seq<OrderView>, key: KeyView, side: Side)
    requires
        all_rest_at(queue, key, side),
        queue.len() > 0,
    ensures
        all_rest_at(queue.drop_first(), key, side),
        rests_at(queue[0], key, side),
{
    assert forall|k: int| 0 <= k < queue.drop_first().len() implies rests_at(
        #[trigger] queue.drop_first()[k],
        key,
        side,
    ) by {
        assert(rests_at(queue[k + 1], key, side));
    }
}

/// The fills of matching an order of a price level against a queue of that
/// level report on the level.
pub proof fn lemma_scan_at(client: OrderView, cum: nat, sells: Seq<OrderView>, key: KeyView)
    requires
        client.key() == key,
        all_rest_at(sells, key, Side::Sell),
    ensures
        all_at(scan_fills(client, cum, sells), key),
    decreases sells.len(),
{
    if sells.len() > 0 {
        let leaves = (client.qty - cum) as nat;
        let head = sells[0];
        lemma_rest_rests(sells, key, Side::Sell);
        if leaves > head.qty {
            let pair = execution_pair(client, cum, head, head.qty);
            lemma_scan_at(client, cum + head.qty, sells.drop_first(), key);
            assert(all_at(pair, key));
            lemma_all_at_concat(pair, scan_fills(client, cum + head.qty, sells.drop_first()), key);
        } else {
            assert(all_at(execution_pair(client, cum, head, leaves), key));
        }
    }
}

/// The fills of matching the two queues of a price level come in pairs,
/// report on the level, and report the volume that leaves each queue.
pub proof fn lemma_level_fills(buys: Seq<OrderView>, sells: Seq<OrderView>, key: KeyView)
    requires
        all_rest_at(buys, key, Side::Buy),
        all_rest_at(sells, key, Side::Sell),
    ensures
        in_pairs(level_fills(buys, sells)),
        all_at(level_fills(buys, sells), key),
        client_qty(level_fills(buys, sells)) + total_qty(level_left(buys, sells)) == total_qty(
            buys,
        ),
        exchange_qty(level_fills(buys, sells)) + total_qty(level_sells(buys, sells))
            == total_qty(sells),
    decreases buys.len(),
{
    if buys.len() > 0 {
        let head = buys[0];
        let rest = buys.drop_first();
        let after = consume(sells, head.qty);
        let first = scan_fills(head, 0, sells);
        let tail = level_fills(rest, after);
        lemma_rest_rests(buys, key, Side::Buy);
        lemma_consume_rests(sells, head.qty, key, Side::Sell);
        lemma_level_fills(rest, after, key);
        lemma_scan_fills(head, 0, sells);
        lemma_scan_at(head, 0, sells, key);
        lemma_scan_volume(head, 0, sells);
        lemma_in_pairs_concat(first, tail);
        lemma_all_at_concat(first, tail, key);
        lemma_qty_concat(first, tail);
        lemma_consume_total(sells, head.qty);
        lemma_total_qty_first(buys);
        let filled = if head.qty <= total_qty(sells) {
            head.qty
        } else {
            total_qty(sells)
        };
        if filled < head.qty {
            lemma_total_qty_prepend(
                head.with_qty((head.qty - filled) as nat),
                level_left(rest, after),
            );
        }
    } else {
        assert(client_qty(level_fills(buys, sells)) == 0);
        assert(exchange_qty(level_fills(buys, sells)) == 0);
    }
}

/// The fills of a first-in-first-out match, level by level, come in pairs,
/// and those that report on a price level report the volume that the two
/// queues at that price can both cover.
pub proof fn lemma_fifo_by_level_at(buy: Seq<LevelView>, sell: Seq<LevelView>, key: KeyView)
    requires
        levels_wf(buy, Side::Buy),
        levels_wf(sell, Side::Sell),
    ensures
        in_pairs(fifo_fills_by_level(buy, sell)),
        client_qty_at(fifo_fills_by_level(buy, sell), key) == matched(
            orders_at(buy, key),
            orders_at(sell, key),
        ),
        exchange_qty_at(fifo_fills_by_level(buy, sell), key) == matched(
            orders_at(buy, key),
            orders_at(sell, key),
        ),
    decreases buy.len(),
{
    if buy.len() == 0 {
        assert(!has_key(buy, key));
        assert(total_qty(orders_at(buy, key)) == 0);
    } else {
        let level = buy[0];
        let rest = buy.drop_first();
        let sells = orders_at(sell, level.key);
        let first = level_fills(level.orders, sells);
        let tail = fifo_fills_by_level(rest, sell);
        lemma_drop_first_wf(buy, Side::Buy);
        lemma_orders_at_rest(sell, level.key, Side::Sell);
        lemma_level_fills(level.orders, sells, level.key);
        lemma_fifo_by_level_at(rest, sell, key);
        lemma_in_pairs_concat(first, tail);
        lemma_qty_at_concat(first, tail, key);
        lemma_qty_at_one_level(first, level.key, key);
        lemma_lookup_after_first(buy, key, Side::Buy);
        if key == level.key {
            lemma_resting_is_positive(level.orders, key, Side::Buy);
            lemma_resting_is_positive(sells, key, Side::Sell);
            lemma_level_takes_matched(level.orders, sells);
            lemma_consume_total(level.orders, matched(level.orders, sells));
            lemma_consume_total(sells, matched(level.orders, sells));
            assert(total_qty(orders_at(rest, key)) == 0);
        } else {
            assert(key_kept(buy, rest, key));
        }
    }
}

/// The volume of a first-in-first-out match at one price: the client fills
/// and the exchange fills that report on a price level each report the volume
/// that the buy queue and the sell queue at that price could both cover, and
/// each of the two queues has lost that volume.
pub proof fn lemma_fifo_volume_at(book: BookView, key: KeyView)
    requires
        book_wf(book),
    ensures
        client_qty_at(fifo_fills(book.buy, book.sell), key) == matched(
            orders_at(book.buy, key),
            orders_at(book.sell, key),
        ),
        exchange_qty_at(fifo_fills(book.buy, book.sell), key) == matched(
            orders_at(book.buy, key),
            orders_at(book.sell, key),
        ),
        total_qty(orders_at(fifo_book(book).buy, key)) + matched(
            orders_at(book.buy, key),
            orders_at(book.sell, key),
        ) == total_qty(orders_at(book.buy, key)),
        total_qty(orders_at(fifo_book(book).sell, key)) + matched(
            orders_at(book.buy, key),
            orders_at(book.sell, key),
        ) == total_qty(orders_at(book.sell, key)),
{
    let volume = matched(orders_at(book.buy, key), orders_at(book.sell, key));
    lemma_fifo_fills_by_level(book.buy, book.sell);
    lemma_fifo_by_level_at(book.buy, book.sell, key);
    lemma_fifo_book_takes_matched(book, key);
    lemma_consume_total(orders_at(book.buy, key), volume);
    lemma_consume_total(orders_at(book.sell, key), volume);
}

/// The fills of sharing a sell order of a price level among buy orders of
/// that level report on the level.
pub proof fn lemma_round_at(
    sell: OrderView,
    ex_cum: nat,
    buys: Seq<Working>,
    total: nat,
    key: KeyView,
)
    requires
        sell.key() == key,
        all_rest_at(orders_of(buys), key, Side::Buy),
    ensures
        all_at(round_fills(sell, ex_cum, buys, total), key),
    decreases buys.len(),
{
    if buys.len() > 0 {
        let head = buys[0];
        let rest = buys.drop_first();
        let qty = share(sell.qty, head.order.qty, total);
        let pair = seq![
            execution(
                head.order,
                sell.cl_ord_id,
                qty,
                head.filled + qty,
                (head.order.qty - qty) as nat,
            ),
            execution(
                sell,
                head.order.cl_ord_id,
                qty,
                ex_cum + qty,
                (sell.qty - ex_cum - qty) as nat,
            ),
        ];
        lemma_rest_rests(orders_of(buys), key, Side::Buy);
        assert(orders_of(buys).drop_first() =~= orders_of(rest));
        assert(orders_of(buys)[0] == head.order);
        lemma_round_at(sell, ex_cum + qty, rest, total, key);
        assert(all_at(pair, key));
        lemma_all_at_concat(pair, round_fills(sell, ex_cum + qty, rest, total), key);
    }
}

/// The fills of a pro-rata match of the two queues of a price level report
/// on the level.
pub proof fn lemma_pro_at(sells: Seq<OrderView>, buys: Seq<Working>, key: KeyView)
    requires
        all_rest_at(sells, key, Side::Sell),
        all_rest_at(orders_of(buys), key, Side::Buy),
    ensures
        all_at(pro_fills(sells, buys), key),
    decreases sells.len(),
{
    if sells.len() > 0 {
        let total = total_qty(orders_of(buys));
        let next = round_left(sells[0].qty, buys, total);
        lemma_rest_rests(sells, key, Side::Sell);
        lemma_round_at(sells[0], 0, buys, total, key);
        lemma_round_left_rests(sells[0].qty, buys, total, key, Side::Buy);
        lemma_pro_at(sells.drop_first(), next, key);
        lemma_all_at_concat(
            round_fills(sells[0], 0, buys, total),
            pro_fills(sells.drop_first(), next),
            key,
        );
    }
}

/// With no buy orders a pro-rata match reports nothing.
pub proof fn lemma_pro_fills_alone(sells: Seq<OrderView>)
    ensures
        pro_fills(sells, Seq::<Working>::empty()) == Seq::<FillView>::empty(),
    decreases sells.len(),
{
    let none = Seq::<Working>::empty();
    if sells.len() > 0 {
        let total = total_qty(orders_of(none));
        assert(round_left(sells[0].qty, none, total) == none);
        lemma_pro_fills_alone(sells.drop_first());
        assert(pro_fills(sells, none) =~= Seq::<FillView>::empty());
    }
}

/// The fills of a pro-rata match, level by level, come in pairs, and those
/// that report on a price level are worth the fills of the pro-rata match of
/// the two queues at that price.
pub proof fn lemma_prorata_by_level_at(buy: Seq<LevelView>, sell: Seq<LevelView>, key: KeyView)
    requires
        levels_wf(buy, Side::Buy),
        levels_wf(sell, Side::Sell),
    ensures
        in_pairs(prorata_fills_by_level(buy, sell)),
        client_qty_at(prorata_fills_by_level(buy, sell), key) == client_qty(
            pro_fills(orders_at(sell, key), fresh(orders_at(buy, key))),
        ),
        exchange_qty_at(prorata_fills_by_level(buy, sell), key) == exchange_qty(
            pro_fills(orders_at(sell, key), fresh(orders_at(buy, key))),
        ),
    decreases buy.len(),
{
    if buy.len() == 0 {
        assert(!has_key(buy, key));
        assert(fresh(orders_at(buy, key)) =~= Seq::<Working>::empty());
        lemma_pro_fills_alone(orders_at(sell, key));
    } else {
        let level = buy[0];
        let rest = buy.drop_first();
        let sells = orders_at(sell, level.key);
        let buys = fresh(level.orders);
        let first = pro_fills(sells, buys);
        let tail = prorata_fills_by_level(rest, sell);
        lemma_drop_first_wf(buy, Side::Buy);
        lemma_orders_at_rest(sell, level.key, Side::Sell);
        assert(orders_of(buys) =~= level.orders);
        lemma_pro_fills(sells, buys);
        lemma_pro_at(sells, buys, level.key);
        lemma_prorata_by_level_at(rest, sell, key);
        lemma_in_pairs_concat(first, tail);
        lemma_qty_at_concat(first, tail, key);
        lemma_qty_at_one_level(first, level.key, key);
        lemma_lookup_after_first(buy, key, Side::Buy);
        if key == level.key {
            assert(fresh(orders_at(rest, key)) =~= Seq::<Working>::empty());
            lemma_pro_fills_alone(orders_at(sell, key));
            assert(client_qty(Seq::<FillView>::empty()) == 0);
            assert(exchange_qty(Seq::<FillView>::empty()) == 0);
        } else {
            assert(key_kept(buy, rest, key));
        }
    }
}

/// The volume of a pro-rata match at one price: quantity leaves a queue only
/// through fills. What the client fills that report on a price level execute
/// is what the buy queue at that price has lost, and what the exchange fills
/// execute is what the sell queue has lost.
pub proof fn lemma_prorata_volume_at(book: BookView, key: KeyView)
    requires
        book_wf(book),
    ensures
        client_qty_at(prorata_fills(book.buy, book.sell), key) + total_qty(
            orders_at(prorata_book(book).buy, key),
        ) == total_qty(orders_at(book.buy, key)),
        exchange_qty_at(prorata_fills(book.buy, book.sell), key) + total_qty(
            orders_at(prorata_book(book).sell, key),
        ) == total_qty(orders_at(book.sell, key)),
{
    let sells = orders_at(book.sell, key);
    let buys = fresh(orders_at(book.buy, key));
    lemma_prorata_fills_by_level(book.buy, book.sell);
    lemma_prorata_by_level_at(book.buy, book.sell, key);
    lemma_prorata_by_level(book.buy, book.sell, key);
    lemma_pro_volume(sells, buys);
    assert(orders_of(buys) =~= orders_at(book.buy, key));
}

} // verus!
