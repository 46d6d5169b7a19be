//! What holds of the fills of every match: they come in pairs of a client
//! fill of the buy side and an exchange fill of the sell side that report the
//! same execution, and the status of a fill says whether anything of its
//! order is left open. A match of a
//! book in which no price level has orders on both sides reports nothing and
//! leaves the book as it is.

use crate::matchers::fifo_matcher::{
    execution_pair, fifo_book, fifo_buy, fifo_fills, fifo_sell, lemma_after_scan_wf,
    lemma_queue_sell_wf, levels_after_scan, queue_fills, queue_left, queue_sell, scan_fills,
};
use crate::matchers::prorata_matcher::{
    fresh, lemma_pro_sells_rests, orders_of, pro_fills, pro_left, pro_sells, prorata_book,
    prorata_buy, prorata_fills, prorata_sell, round_fills, round_left, share, Working,
};
use crate::model::book::{
    all_rest_at, book_wf, crosses, has_key, lemma_drop_first_wf, lemma_levels_settle_wf,
    lemma_orders_at_rest, levels_settle, levels_wf, orders_at, rests_at, total_qty, BookView,
    LevelView,
};
use crate::model::domain::{execution, FillView, KeyView, OrderView, Side, Status};
use vstd::prelude::*;

verus! {

/// Whether `client` and `exchange` report the two sides of one execution:
/// each names the order of the other, and both report the same quantity.
pub open spec fn is_pair(client: FillView, exchange: FillView) -> bool {
    &&& client.secondary_cl_ord_id == exchange.cl_ord_id
    &&& exchange.secondary_cl_ord_id == client.cl_ord_id
    &&& client.qty == exchange.qty
}

/// Whether `fills` is a list of pairs: a client fill at each even place, and
/// after it the exchange fill of the same execution.
pub open spec fn in_pairs(fills: Seq<FillView>) -> bool {
    &&& fills.len() % 2 == 0
    &&& forall|i: int|
        0 <= i < fills.len() && i % 2 == 0 ==> is_pair(#[trigger] fills[i], fills[i + 1])
}

/// Whether the status of `fill` is right: `Filled` when nothing of its order
/// is left open, and `PartialFill` otherwise.
pub open spec fn status_is_right(fill: FillView) -> bool {
    fill.status == Status::after_execution(fill.leaves_qty)
}

/// A fill with the right status is `Filled` exactly when nothing of its order
/// is left open.
pub proof fn lemma_filled_iff_nothing_left(fill: FillView)
    requires
        status_is_right(fill),
    ensures
        (fill.status == Status::Filled) <==> (fill.leaves_qty == 0),
        fill.status == Status::Filled || fill.status == Status::PartialFill,
{
}

/// Whether each client fill of a list of pairs is of the buy side and each
/// exchange fill of the sell side.
pub open spec fn sides_are_right(fills: Seq<FillView>) -> bool {
    forall|i: int|
        0 <= i < fills.len() ==> (#[trigger] fills[i]).side == if i % 2 == 0 {
            Side::Buy
        } else {
            Side::Sell
        }
}

/// Whether every order of `queue` is of the side `side`.
pub open spec fn all_on_side(queue: Seq<OrderView>, side: Side) -> bool {
    forall|k: int| 0 <= k < queue.len() ==> (#[trigger] queue[k]).side == side
}

/// Whether every fill of `fills` has the right status.
pub open spec fn statuses_are_right(fills: Seq<FillView>) -> bool {
    forall|i: int| 0 <= i < fills.len() ==> status_is_right(#[trigger] fills[i])
}

/// The sum of the quantities of the client fills of a list of pairs.
pub open spec fn client_qty(fills: Seq<FillView>) -> nat
    decreases fills.len(),
{
    if fills.len() < 2 {
        0
    } else {
        client_qty(fills.take(fills.len() - 2)) + fills[fills.len() - 2].qty
    }
}

/// The sum of the quantities of the exchange fills of a list of pairs.
pub open spec fn exchange_qty(fills: Seq<FillView>) -> nat
    decreases fills.len(),
{
    if fills.len() < 2 {
        0
    } else {
        exchange_qty(fills.take(fills.len() - 2)) + fills[fills.len() - 2 + 1].qty
    }
}

/// Two lists of pairs, one after the other, are a list of pairs.
pub proof fn lemma_in_pairs_concat(first: Seq<FillView>, second: Seq<FillView>)
    requires
        in_pairs(first),
        in_pairs(second),
    ensures
        in_pairs(first + second),
{
    let all = first + second;
    assert forall|i: int| 0 <= i < all.len() && i % 2 == 0 implies is_pair(
        #[trigger] all[i],
        all[i + 1],
    ) by {
        if i < first.len() {
            assert(is_pair(first[i], first[i + 1]));
        } else {
            let j = i - first.len();
            assert(is_pair(second[j], second[j + 1]));
            assert(all[i] == second[j]);
            assert(all[i + 1] == second[j + 1]);
        }
    }
}

/// Two lists of fills with the right statuses, one after the other, have the
/// right statuses.
pub proof fn lemma_statuses_concat(first: Seq<FillView>, second: Seq<FillView>)
    requires
        statuses_are_right(first),
        statuses_are_right(second),
    ensures
        statuses_are_right(first + second),
{
    let all = first + second;
    assert forall|i: int| 0 <= i < all.len() implies status_is_right(#[trigger] all[i]) by {
        if i < first.len() {
            assert(status_is_right(first[i]));
        } else {
            assert(status_is_right(second[i - first.len()]));
        }
    }
}

/// In a list of pairs the client fills and the exchange fills report the
/// same quantity in all.
pub proof fn lemma_pairs_conserve_quantity(fills: Seq<FillView>)
    requires
        in_pairs(fills),
    ensures
        client_qty(fills) == exchange_qty(fills),
    decreases fills.len(),
{
    if fills.len() >= 2 {
        let n = fills.len() - 2;
        let before = fills.take(n);
        assert forall|i: int| 0 <= i < before.len() && i % 2 == 0 implies is_pair(
            #[trigger] before[i],
            before[i + 1],
        ) by {
            assert(is_pair(fills[i], fills[i + 1]));
        }
        lemma_pairs_conserve_quantity(before);
        assert(is_pair(fills[n], fills[n + 1]));
    }
}

/// The two reports of one execution are a pair with the right statuses.
pub proof fn lemma_execution_pair(client: OrderView, cum: nat, exchange: OrderView, qty: nat)
    ensures
        in_pairs(execution_pair(client, cum, exchange, qty)),
        statuses_are_right(execution_pair(client, cum, exchange, qty)),
{
    let pair = execution_pair(client, cum, exchange, qty);
    assert(is_pair(pair[0], pair[1]));
    assert forall|i: int| 0 <= i < pair.len() && i % 2 == 0 implies is_pair(
        #[trigger] pair[i],
        pair[i + 1],
    ) by {
        assert(i == 0);
    }
}

/// The fills of one order against a queue come in pairs, with the right
/// statuses.
pub proof fn lemma_scan_fills(client: OrderView, cum: nat, sells: Seq<OrderView>)
    ensures
        in_pairs(scan_fills(client, cum, sells)),
        statuses_are_right(scan_fills(client, cum, sells)),
    decreases sells.len(),
{
    if sells.len() > 0 {
        let leaves = (client.qty - cum) as nat;
        let head = sells[0];
        if leaves <= head.qty {
            lemma_execution_pair(client, cum, head, leaves);
        } else {
            lemma_execution_pair(client, cum, head, head.qty);
            lemma_scan_fills(client, cum + head.qty, sells.drop_first());
            lemma_in_pairs_concat(
                execution_pair(client, cum, head, head.qty),
                scan_fills(client, cum + head.qty, sells.drop_first()),
            );
            lemma_statuses_concat(
                execution_pair(client, cum, head, head.qty),
                scan_fills(client, cum + head.qty, sells.drop_first()),
            );
        }
    }
}

/// The fills of a queue of orders come in pairs, with the right statuses.
pub proof fn lemma_queue_fills(buys: Seq<OrderView>, sell: Seq<LevelView>)
    ensures
        in_pairs(queue_fills(buys, sell)),
        statuses_are_right(queue_fills(buys, sell)),
    decreases buys.len(),
{
    if buys.len() > 0 {
        let first = scan_fills(buys[0], 0, orders_at(sell, buys[0].key()));
        let after = levels_after_scan(sell, buys[0].key(), buys[0].qty);
        lemma_scan_fills(buys[0], 0, orders_at(sell, buys[0].key()));
        lemma_queue_fills(buys.drop_first(), after);
        lemma_in_pairs_concat(first, queue_fills(buys.drop_first(), after));
        lemma_statuses_concat(first, queue_fills(buys.drop_first(), after));
    }
}

/// The fills of a first-in-first-out match come in pairs: each client fill
/// names the order of the exchange fill after it, which names the order of
/// the client fill, and the two report the same quantity. Each fill has the
/// status `Filled` exactly when nothing of its order is left open. The client
/// fills and the exchange fills report the same quantity in all.
pub proof fn lemma_fifo_fills(buy: Seq<LevelView>, sell: Seq<LevelView>)
    ensures
        in_pairs(fifo_fills(buy, sell)),
        statuses_are_right(fifo_fills(buy, sell)),
        client_qty(fifo_fills(buy, sell)) == exchange_qty(fifo_fills(buy, sell)),
    decreases buy.len(),
{
    if buy.len() > 0 {
        let first = queue_fills(buy[0].orders, sell);
        let after = queue_sell(buy[0].orders, sell);
        lemma_queue_fills(buy[0].orders, sell);
        lemma_fifo_fills(buy.drop_first(), after);
        lemma_in_pairs_concat(first, fifo_fills(buy.drop_first(), after));
        lemma_statuses_concat(first, fifo_fills(buy.drop_first(), after));
    }
    lemma_pairs_conserve_quantity(fifo_fills(buy, sell));
}

/// The fills of sharing one sell order among buy orders come in pairs, with
/// the right statuses.
pub proof fn lemma_round_fills(sell: OrderView, ex_cum: nat, buys: Seq<Working>, total: nat)
    ensures
        in_pairs(round_fills(sell, ex_cum, buys, total)),
        statuses_are_right(round_fills(sell, ex_cum, buys, total)),
    decreases buys.len(),
{
    if buys.len() > 0 {
        let head = buys[0];
        let qty = share(sell.qty, head.order.qty, total);
        let pair = seq![
            execution(
                head.order,
                sell.cl_ord_id,
                qty,
                head.filled + qty,
                (head.order.qty - qty) as nat,
            ),
            execution(
                sell,
                head.order.cl_ord_id,
                qty,
                ex_cum + qty,
                (sell.qty - ex_cum - qty) as nat,
            ),
        ];
        assert(is_pair(pair[0], pair[1]));
        assert forall|i: int| 0 <= i < pair.len() && i % 2 == 0 implies is_pair(
            #[trigger] pair[i],
            pair[i + 1],
        ) by {
            assert(i == 0);
        }
        let rest = round_fills(sell, ex_cum + qty, buys.drop_first(), total);
        lemma_round_fills(sell, ex_cum + qty, buys.drop_first(), total);
        lemma_in_pairs_concat(pair, rest);
        lemma_statuses_concat(pair, rest);
    }
}

/// The fills of a pro-rata match of two queues come in pairs, with the right
/// statuses.
pub proof fn lemma_pro_fills(sells: Seq<OrderView>, buys: Seq<Working>)
    ensures
        in_pairs(pro_fills(sells, buys)),
        statuses_are_right(pro_fills(sells, buys)),
    decreases sells.len(),
{
    if sells.len() > 0 {
        let total = total_qty(orders_of(buys));
        let first = round_fills(sells[0], 0, buys, total);
        let next = round_left(sells[0].qty, buys, total);
        lemma_round_fills(sells[0], 0, buys, total);
        lemma_pro_fills(sells.drop_first(), next);
        lemma_in_pairs_concat(first, pro_fills(sells.drop_first(), next));
        lemma_statuses_concat(first, pro_fills(sells.drop_first(), next));
    }
}

/// The fills of a pro-rata match come in pairs: each client fill names the
/// order of the exchange fill after it, which names the order of the client
/// fill, and the two report the same quantity. Each fill has the status
/// `Filled` exactly when nothing of its order is left open. The client fills
/// and the exchange fills report the same quantity in all.
pub proof fn lemma_prorata_fills(buy: Seq<LevelView>, sell: Seq<LevelView>)
    ensures
        in_pairs(prorata_fills(buy, sell)),
        statuses_are_right(prorata_fills(buy, sell)),
        client_qty(prorata_fills(buy, sell)) == exchange_qty(prorata_fills(buy, sell)),
    decreases buy.len(),
{
    if buy.len() > 0 {
        let sells = orders_at(sell, buy[0].key);
        let buys = fresh(buy[0].orders);
        let first = pro_fills(sells, buys);
        let after = levels_settle(sell, buy[0].key, pro_sells(sells, buys));
        lemma_pro_fills(sells, buys);
        lemma_prorata_fills(buy.drop_first(), after);
        lemma_in_pairs_concat(first, prorata_fills(buy.drop_first(), after));
        lemma_statuses_concat(first, prorata_fills(buy.drop_first(), after));
    }
    lemma_pairs_conserve_quantity(prorata_fills(buy, sell));
}

/// A queue of orders that is matched against a side without a level at
/// their price reports nothing, and leaves the side and the queue as they are.
pub proof fn lemma_queue_without_counterparty(
    buys: Seq<OrderView>,
    sell: Seq<LevelView>,
    key: KeyView,
    side: Side,
)
    requires
        all_rest_at(buys, key, side),
        !has_key(sell, key),
    ensures
        queue_fills(buys, sell) == Seq::<FillView>::empty(),
        queue_sell(buys, sell) == sell,
        queue_left(buys, sell) == buys,
    decreases buys.len(),
{
    if buys.len() > 0 {
        let rest = buys.drop_first();
        assert(rests_at(buys[0], key, side));
        assert forall|k: int| 0 <= k < rest.len() implies rests_at(
            #[trigger] rest[k],
            key,
            side,
        ) by {
            assert(rests_at(buys[k + 1], key, side));
        }
        assert(orders_at(sell, key) == Seq::<OrderView>::empty());
        assert(total_qty(orders_at(sell, key)) == 0);
        assert(levels_after_scan(sell, key, buys[0].qty) == sell);
        lemma_queue_without_counterparty(rest, sell, key, side);
        assert(queue_fills(buys, sell) =~= Seq::<FillView>::empty());
        assert(buys[0].with_qty(buys[0].qty) == buys[0]);
        assert(queue_left(buys, sell) =~= buys);
    }
}

/// Where none of the levels `buy` has a level of `sell` at its price, a
/// first-in-first-out match reports nothing and leaves both sides as they
/// are.
pub proof fn lemma_fifo_without_crossing(buy: Seq<LevelView>, sell: Seq<LevelView>)
    requires
        levels_wf(buy, Side::Buy),
        forall|i: int| 0 <= i < buy.len() ==> !has_key(sell, (#[trigger] buy[i]).key),
    ensures
        fifo_fills(buy, sell) == Seq::<FillView>::empty(),
        fifo_buy(buy, sell) == buy,
        fifo_sell(buy, sell) == sell,
    decreases buy.len(),
{
    if buy.len() > 0 {
        let rest = buy.drop_first();
        lemma_drop_first_wf(buy, Side::Buy);
        assert(!has_key(sell, buy[0].key));
        lemma_queue_without_counterparty(buy[0].orders, sell, buy[0].key, Side::Buy);
        assert forall|i: int| 0 <= i < rest.len() implies !has_key(
            sell,
            (#[trigger] rest[i]).key,
        ) by {
            assert(rest[i] == buy[i + 1]);
        }
        lemma_fifo_without_crossing(rest, sell);
        assert(fifo_fills(buy, sell) =~= Seq::<FillView>::empty());
        assert(fifo_buy(buy, sell) =~= buy);
    } else {
        assert(fifo_buy(buy, sell) =~= buy);
    }
}

/// A first-in-first-out match of a well formed book in which no price level
/// has orders on both sides reports nothing and leaves the book as it is; so
/// does every match after it.
pub proof fn lemma_fifo_idle(book: BookView)
    requires
        book_wf(book),
        !crosses(book),
    ensures
        fifo_fills(book.buy, book.sell) == Seq::<FillView>::empty(),
        fifo_book(book) == book,
        !crosses(fifo_book(book)),
{
    assert forall|i: int| 0 <= i < book.buy.len() implies !has_key(
        book.sell,
        (#[trigger] book.buy[i]).key,
    ) by {}
    lemma_fifo_without_crossing(book.buy, book.sell);
}

/// Where none of the levels `buy` has a level of `sell` at its price, a
/// pro-rata match reports nothing and leaves both sides as they are.
pub proof fn lemma_prorata_without_crossing(buy: Seq<LevelView>, sell: Seq<LevelView>)
    requires
        levels_wf(buy, Side::Buy),
        forall|i: int| 0 <= i < buy.len() ==> !has_key(sell, (#[trigger] buy[i]).key),
    ensures
        prorata_fills(buy, sell) == Seq::<FillView>::empty(),
        prorata_buy(buy, sell) == buy,
        prorata_sell(buy, sell) == sell,
    decreases buy.len(),
{
    if buy.len() > 0 {
        let rest = buy.drop_first();
        lemma_drop_first_wf(buy, Side::Buy);
        assert(!has_key(sell, buy[0].key));
        let sells = orders_at(sell, buy[0].key);
        let buys = fresh(buy[0].orders);
        assert(sells == Seq::<OrderView>::empty());
        assert(pro_fills(sells, buys) == Seq::<FillView>::empty());
        assert(pro_left(sells, buys) == buys);
        assert(orders_of(buys) =~= buy[0].orders);
        assert(levels_settle(sell, buy[0].key, pro_sells(sells, buys)) == sell);
        assert forall|i: int| 0 <= i < rest.len() implies !has_key(
            sell,
            (#[trigger] rest[i]).key,
        ) by {
            assert(rest[i] == buy[i + 1]);
        }
        lemma_prorata_without_crossing(rest, sell);
        assert(prorata_fills(buy, sell) =~= Seq::<FillView>::empty());
        assert(prorata_buy(buy, sell) =~= buy);
    } else {
        assert(prorata_buy(buy, sell) =~= buy);
    }
}

/// A pro-rata match of a well formed book in which no price level has orders
/// on both sides reports nothing and leaves the book as it is; so does every
/// match after it.
pub proof fn lemma_prorata_idle(book: BookView)
    requires
        book_wf(book),
        !crosses(book),
    ensures
        prorata_fills(book.buy, book.sell) == Seq::<FillView>::empty(),
        prorata_book(book) == book,
        !crosses(prorata_book(book)),
{
    assert forall|i: int| 0 <= i < book.buy.len() implies !has_key(
        book.sell,
        (#[trigger] book.buy[i]).key,
    ) by {}
    lemma_prorata_without_crossing(book.buy, book.sell);
}

/// Two lists of pairs with the right sides, one after the other, have the
/// right sides.
pub proof fn lemma_sides_concat(first: Seq<FillView>, second: Seq<FillView>)
    requires
        first.len() % 2 == 0,
        sides_are_right(first),
        sides_are_right(second),
    ensures
        sides_are_right(first + second),
{
    let all = first + second;
    assert forall|i: int| 0 <= i < all.len() implies (#[trigger] all[i]).side == if i % 2 == 0 {
        Side::Buy
    } else {
        Side::Sell
    } by {
        if i < first.len() {
            assert(all[i] == first[i]);
        } else {
            assert(all[i] == second[i - first.len()]);
        }
    }
}

/// The orders that rest at a level of a side are of that side.
pub proof fn lemma_resting_on_side(queue: Seq<OrderView>, key: KeyView, side: Side)
    requires
        all_rest_at(queue, key, side),
    ensures
        all_on_side(queue, side),
{
    assert forall|k: int| 0 <= k < queue.len() implies (#[trigger] queue[k]).side == side by {
        assert(rests_at(queue[k], key, side));
    }
}

/// The fills of a buy order against a queue of sell orders have the right
/// sides.
pub proof fn lemma_scan_sides(client: OrderView, cum: nat, sells: Seq<OrderView>)
    requires
        client.side == Side::Buy,
        all_on_side(sells, Side::Sell),
    ensures
        sides_are_right(scan_fills(client, cum, sells)),
    decreases sells.len(),
{
    if sells.len() > 0 {
        let leaves = (client.qty - cum) as nat;
        let head = sells[0];
        assert(head.side == Side::Sell);
        if leaves > head.qty {
            let rest = sells.drop_first();
            assert forall|k: int| 0 <= k < rest.len() implies (#[trigger] rest[k]).side
                == Side::Sell by {
                assert(rest[k] == sells[k + 1]);
            }
            lemma_scan_sides(client, cum + head.qty, rest);
            lemma_sides_concat(
                execution_pair(client, cum, head, head.qty),
                scan_fills(client, cum + head.qty, rest),
            );
        }
    }
}

/// The fills of the match of a queue of buy orders against a well formed
/// sell side have the right sides.
pub proof fn lemma_queue_sides(buys: Seq<OrderView>, sell: Seq<LevelView>)
    requires
        all_on_side(buys, Side::Buy),
        levels_wf(sell, Side::Sell),
    ensures
        sides_are_right(queue_fills(buys, sell)),
    decreases buys.len(),
{
    if buys.len() > 0 {
        let key = buys[0].key();
        let sells = orders_at(sell, key);
        let after = levels_after_scan(sell, key, buys[0].qty);
        let rest = buys.drop_first();
        assert(buys[0].side == Side::Buy);
        assert forall|k: int| 0 <= k < rest.len() implies (#[trigger] rest[k]).side
            == Side::Buy by {
            assert(rest[k] == buys[k + 1]);
        }
        lemma_orders_at_rest(sell, key, Side::Sell);
        lemma_resting_on_side(sells, key, Side::Sell);
        lemma_scan_sides(buys[0], 0, sells);
        lemma_scan_fills(buys[0], 0, sells);
        lemma_after_scan_wf(sell, key, buys[0].qty, Side::Sell);
        lemma_queue_sides(rest, after);
        lemma_sides_concat(scan_fills(buys[0], 0, sells), queue_fills(rest, after));
    }
}

/// In the fills of a first-in-first-out match of well formed sides each
/// client fill is of the buy side and each exchange fill of the sell side.
pub proof fn lemma_fifo_sides(buy: Seq<LevelView>, sell: Seq<LevelView>)
    requires
        levels_wf(buy, Side::Buy),
        levels_wf(sell, Side::Sell),
    ensures
        sides_are_right(fifo_fills(buy, sell)),
    decreases buy.len(),
{
    if buy.len() > 0 {
        let after = queue_sell(buy[0].orders, sell);
        lemma_drop_first_wf(buy, Side::Buy);
        lemma_resting_on_side(buy[0].orders, buy[0].key, Side::Buy);
        lemma_queue_sides(buy[0].orders, sell);
        lemma_queue_fills(buy[0].orders, sell);
        lemma_queue_sell_wf(buy[0].orders, sell, Side::Sell);
        lemma_fifo_sides(buy.drop_first(), after);
        lemma_sides_concat(queue_fills(buy[0].orders, sell), fifo_fills(buy.drop_first(), after));
    }
}

/// The fills of sharing a sell order among buy orders have the right sides,
/// and the buy orders that are left are buy orders.
pub proof fn lemma_round_sides(sell: OrderView, ex_cum: nat, buys: Seq<Working>, total: nat)
    requires
        sell.side == Side::Sell,
        all_on_side(orders_of(buys), Side::Buy),
    ensures
        sides_are_right(round_fills(sell, ex_cum, buys, total)),
        all_on_side(orders_of(round_left(sell.qty, buys, total)), Side::Buy),
    decreases buys.len(),
{
    if buys.len() > 0 {
        let head = buys[0];
        let rest = buys.drop_first();
        let qty = share(sell.qty, head.order.qty, total);
        let pair = seq![
            execution(
                head.order,
                sell.cl_ord_id,
                qty,
                head.filled + qty,
                (head.order.qty - qty) as nat,
            ),
            execution(
                sell,
                head.order.cl_ord_id,
                qty,
                ex_cum + qty,
                (sell.qty - ex_cum - qty) as nat,
            ),
        ];
        assert(orders_of(buys)[0].side == Side::Buy);
        assert forall|k: int| 0 <= k < orders_of(rest).len() implies (
        #[trigger] orders_of(rest)[k]).side == Side::Buy by {
            assert(orders_of(rest)[k] == orders_of(buys)[k + 1]);
        }
        lemma_round_sides(sell, ex_cum + qty, rest, total);
        lemma_sides_concat(pair, round_fills(sell, ex_cum + qty, rest, total));
        let left = orders_of(round_left(sell.qty, buys, total));
        let rest_left = orders_of(round_left(sell.qty, rest, total));
        assert forall|k: int| 0 <= k < left.len() implies (#[trigger] left[k]).side
            == Side::Buy by {
            if qty < head.order.qty {
                if k > 0 {
                    assert(left[k] == rest_left[k - 1]);
                }
            } else {
                assert(left[k] == rest_left[k]);
            }
        }
    }
}

/// The fills of a pro-rata match of a queue of sell orders against buy
/// orders have the right sides.
pub proof fn lemma_pro_sides(sells: Seq<OrderView>, buys: Seq<Working>)
    requires
        all_on_side(sells, Side::Sell),
        all_on_side(orders_of(buys), Side::Buy),
    ensures
        sides_are_right(pro_fills(sells, buys)),
    decreases sells.len(),
{
    if sells.len() > 0 {
        let total = total_qty(orders_of(buys));
        let next = round_left(sells[0].qty, buys, total);
        let rest = sells.drop_first();
        assert(sells[0].side == Side::Sell);
        assert forall|k: int| 0 <= k < rest.len() implies (#[trigger] rest[k]).side
            == Side::Sell by {
            assert(rest[k] == sells[k + 1]);
        }
        lemma_round_sides(sells[0], 0, buys, total);
        lemma_round_fills(sells[0], 0, buys, total);
        lemma_pro_sides(rest, next);
        lemma_sides_concat(round_fills(sells[0], 0, buys, total), pro_fills(rest, next));
    }
}

/// In the fills of a pro-rata match of well formed sides each client fill is
/// of the buy side and each exchange fill of the sell side.
pub proof fn lemma_prorata_sides(buy: Seq<LevelView>, sell: Seq<LevelView>)
    requires
        levels_wf(buy, Side::Buy),
        levels_wf(sell, Side::Sell),
    ensures
        sides_are_right(prorata_fills(buy, sell)),
    decreases buy.len(),
{
    if buy.len() > 0 {
        let key = buy[0].key;
        let sells = orders_at(sell, key);
        let buys = fresh(buy[0].orders);
        let after = levels_settle(sell, key, pro_sells(sells, buys));
        lemma_drop_first_wf(buy, Side::Buy);
        lemma_resting_on_side(buy[0].orders, key, Side::Buy);
        assert(orders_of(buys) =~= buy[0].orders);
        lemma_orders_at_rest(sell, key, Side::Sell);
        lemma_resting_on_side(sells, key, Side::Sell);
        lemma_pro_sides(sells, buys);
        lemma_pro_fills(sells, buys);
        lemma_pro_sells_rests(sells, buys, key, Side::Sell);
        lemma_levels_settle_wf(sell, key, pro_sells(sells, buys), Side::Sell);
        lemma_prorata_sides(buy.drop_first(), after);
        lemma_sides_concat(pro_fills(sells, buys), prorata_fills(buy.drop_first(), after));
    }
}

} // verus!
