//! What the quantities of a fill account for: executed and open quantity
//! together make the quantity of the order that the fill reports on, and the
//! executed quantity grows from fill to fill by what each fill executes.

use crate::matchers::fifo_matcher::{
    consume, execution_pair, fifo_fills, levels_after_scan, queue_fills, queue_sell, scan_fills,
};
use crate::matchers::prorata_matcher::{
    fresh, lemma_pro_sells_rests, lemma_share, orders_of, pro_fills, pro_sells, prorata_fills,
    round_filled, round_fills, round_left, share, Working,
};
use crate::matchers::reports::{
    lemma_pro_fills, lemma_queue_fills, lemma_round_fills, lemma_scan_fills,
};
use crate::matchers::residuals::lemma_round_filled_le;
use crate::model::book::{
    has_key, key_kept, lemma_drop_first_wf, lemma_has_position, lemma_levels_settle_lookup,
    lemma_levels_settle_wf, lemma_orders_at_rest, levels_settle, levels_wf, orders_at,
    position_of, total_qty, LevelView,
};
use crate::model::domain::{execution, FillView, KeyView, OrderView, Side};
use vstd::prelude::*;

verus! {

/// Whether `fill` reports on `order` and accounts for all of it: what is
/// executed and what is open make the quantity of the order.
pub open spec fn reports_whole(fill: FillView, order: OrderView) -> bool {
    &&& fill.cl_ord_id == order.cl_ord_id
    &&& fill.cum_qty + fill.leaves_qty == order.qty
}

/// The orders of a queue.
pub open spec fn queue_orders(queue: Seq<OrderView>) -> Set<OrderView> {
    Set::new(|order: OrderView| exists|k: int| 0 <= k < queue.len() && queue[k] == order)
}

/// The orders that rest on a side of a book.
pub open spec fn resting_orders(levels: Seq<LevelView>) -> Set<OrderView> {
    Set::new(
        |order: OrderView|
            exists|j: int, k: int|
                0 <= j < levels.len() && 0 <= k < levels[j].orders.len()
                    && #[trigger] levels[j].orders[k] == order,
    )
}

/// Whether `fill` accounts for all of one of `orders`.
pub open spec fn accounts_for_one(fill: FillView, orders: Set<OrderView>) -> bool {
    exists|order: OrderView| #[trigger] orders.contains(order) && reports_whole(fill, order)
}

/// Whether each client fill of a list of pairs accounts for all of one of
/// `orders`.
pub open spec fn client_fills_account(fills: Seq<FillView>, orders: Set<OrderView>) -> bool {
    forall|i: int|
        0 <= i < fills.len() && i % 2 == 0 ==> accounts_for_one(#[trigger] fills[i], orders)
}

/// Whether each exchange fill of a list of pairs accounts for all of one of
/// `orders`.
pub open spec fn exchange_fills_account(fills: Seq<FillView>, orders: Set<OrderView>) -> bool {
    forall|i: int|
        0 <= i < fills.len() && i % 2 == 1 ==> accounts_for_one(#[trigger] fills[i], orders)
}

/// A fill that accounts for one of a set of orders does so for every larger
/// set.
pub proof fn lemma_accounts_for_one_more(
    fill: FillView,
    few: Set<OrderView>,
    many: Set<OrderView>,
)
    requires
        few.subset_of(many),
        accounts_for_one(fill, few),
    ensures
        accounts_for_one(fill, many),
{
    let order = choose|order: OrderView| #[trigger]
        few.contains(order) && reports_whole(fill, order);
    assert(many.contains(order));
}

/// Whether the executed quantity of the client fills of a list of pairs
/// starts from `cum` and grows from each client fill to the next by what the
/// fill executes.
pub open spec fn client_cum_grows(fills: Seq<FillView>, cum: nat) -> bool {
    &&& fills.len() > 0 ==> fills[0].cum_qty == cum + fills[0].qty
    &&& forall|i: int, j: int|
        0 <= i && j == i + 2 && j < fills.len() && i % 2 == 0 ==> (#[trigger] fills[j]).cum_qty
            == (#[trigger] fills[i]).cum_qty + fills[j].qty
}

/// Whether the executed quantity of the exchange fills of a list of pairs
/// starts from `cum` and grows from each exchange fill to the next by what
/// the fill executes.
pub open spec fn exchange_cum_grows(fills: Seq<FillView>, cum: nat) -> bool {
    &&& fills.len() > 1 ==> fills[1].cum_qty == cum + fills[1].qty
    &&& forall|i: int, j: int|
        0 <= i && j == i + 2 && j < fills.len() && i % 2 == 1 ==> (#[trigger] fills[j]).cum_qty
            == (#[trigger] fills[i]).cum_qty + fills[j].qty
}

/// Whether the executed quantity of each exchange fill of a list of pairs is
/// what the fill executes: the count starts anew with each fill.
pub open spec fn exchange_cum_restarts(fills: Seq<FillView>) -> bool {
    forall|i: int|
        0 <= i < fills.len() && i % 2 == 1 ==> (#[trigger] fills[i]).cum_qty == fills[i].qty
}

/// Client fills that account for orders of a set do so for every larger set,
/// and so do exchange fills.
pub proof fn lemma_account_more(fills: Seq<FillView>, few: Set<OrderView>, many: Set<OrderView>)
    requires
        few.subset_of(many),
    ensures
        client_fills_account(fills, few) ==> client_fills_account(fills, many),
        exchange_fills_account(fills, few) ==> exchange_fills_account(fills, many),
{
    if client_fills_account(fills, few) {
        assert forall|i: int| 0 <= i < fills.len() && i % 2 == 0 implies accounts_for_one(
            #[trigger] fills[i],
            many,
        ) by {
            lemma_accounts_for_one_more(fills[i], few, many);
        }
    }
    if exchange_fills_account(fills, few) {
        assert forall|i: int| 0 <= i < fills.len() && i % 2 == 1 implies accounts_for_one(
            #[trigger] fills[i],
            many,
        ) by {
            lemma_accounts_for_one_more(fills[i], few, many);
        }
    }
}

/// Two lists of pairs whose fills account for orders of a set, one after the
/// other, are a list whose fills do.
pub proof fn lemma_account_concat(
    first: Seq<FillView>,
    second: Seq<FillView>,
    orders: Set<OrderView>,
)
    requires
        first.len() % 2 == 0,
    ensures
        client_fills_account(first, orders) && client_fills_account(second, orders)
            ==> client_fills_account(first + second, orders),
        exchange_fills_account(first, orders) && exchange_fills_account(second, orders)
            ==> exchange_fills_account(first + second, orders),
{
    let all = first + second;
    if client_fills_account(first, orders) && client_fills_account(second, orders) {
        assert forall|i: int| 0 <= i < all.len() && i % 2 == 0 implies accounts_for_one(
            #[trigger] all[i],
            orders,
        ) by {
            if i < first.len() {
                assert(all[i] == first[i]);
            } else {
                assert(all[i] == second[i - first.len()]);
            }
        }
    }
    if exchange_fills_account(first, orders) && exchange_fills_account(second, orders) {
        assert forall|i: int| 0 <= i < all.len() && i % 2 == 1 implies accounts_for_one(
            #[trigger] all[i],
            orders,
        ) by {
            if i < first.len() {
                assert(all[i] == first[i]);
            } else {
                assert(all[i] == second[i - first.len()]);
            }
        }
    }
}

/// The fills of matching one order against a queue are the two fills of the
/// first execution and then, where the order is larger than the head of the
/// queue, the fills of matching it against the rest.
proof fn lemma_scan_unfold(client: OrderView, cum: nat, sells: Seq<OrderView>)
    requires
        sells.len() > 0,
    ensures
        ({
            let fills = scan_fills(client, cum, sells);
            let leaves = (client.qty - cum) as nat;
            let head = sells[0];
            let qty = if leaves <= head.qty {
                leaves
            } else {
                head.qty
            };
            let tail = if leaves <= head.qty {
                Seq::<FillView>::empty()
            } else {
                scan_fills(client, cum + head.qty, sells.drop_first())
            };
            &&& fills.len() == 2 + tail.len()
            &&& fills[0] == execution_pair(client, cum, head, qty)[0]
            &&& fills[1] == execution_pair(client, cum, head, qty)[1]
            &&& forall|i: int| 2 <= i < fills.len() ==> #[trigger] fills[i] == tail[i - 2]
        }),
{
    let leaves = (client.qty - cum) as nat;
    let head = sells[0];
    if leaves <= head.qty {
        assert(execution_pair(client, cum, head, leaves).len() == 2);
    } else {
        assert(execution_pair(client, cum, head, head.qty).len() == 2);
    }
}

/// The fills of matching one order against a queue. Each client fill
/// accounts for all of the order. Each exchange fill accounts for all of an
/// order of the queue, as it rested when the match of the client order began.
pub proof fn lemma_scan_accounts(client: OrderView, cum: nat, sells: Seq<OrderView>)
    requires
        cum <= client.qty,
    ensures
        client_fills_account(scan_fills(client, cum, sells), set![client]),
        exchange_fills_account(scan_fills(client, cum, sells), queue_orders(sells)),
    decreases sells.len(),
{
    let fills = scan_fills(client, cum, sells);
    if sells.len() > 0 {
        let leaves = (client.qty - cum) as nat;
        let head = sells[0];
        let rest = sells.drop_first();
        let qty = if leaves <= head.qty {
            leaves
        } else {
            head.qty
        };
        let pair = execution_pair(client, cum, head, qty);
        lemma_scan_unfold(client, cum, sells);
        assert(queue_orders(sells).contains(head));
        assert(set![client].contains(client));
        assert(reports_whole(pair[0], client));
        assert(reports_whole(pair[1], head));
        assert(accounts_for_one(fills[0], set![client]));
        assert(accounts_for_one(fills[1], queue_orders(sells)));
        if leaves > head.qty {
            let tail = scan_fills(client, cum + head.qty, rest);
            lemma_scan_accounts(client, cum + head.qty, rest);
            lemma_queue_orders_rest(sells);
            lemma_account_more(tail, queue_orders(rest), queue_orders(sells));
            assert forall|i: int| 0 <= i < fills.len() && i % 2 == 0 implies accounts_for_one(
                #[trigger] fills[i],
                set![client],
            ) by {
                if i >= 2 {
                    assert(fills[i] == tail[i - 2]);
                    assert(accounts_for_one(tail[i - 2], set![client]));
                }
            }
            assert forall|i: int| 0 <= i < fills.len() && i % 2 == 1 implies accounts_for_one(
                #[trigger] fills[i],
                queue_orders(sells),
            ) by {
                if i >= 2 {
                    assert(fills[i] == tail[i - 2]);
                    assert(accounts_for_one(tail[i - 2], queue_orders(sells)));
                }
            }
        }
    }
}

/// The fills of matching one order against a queue. The executed quantity
/// of the order grows from one client fill to the next by what the fill
/// executes. The executed quantity of an exchange fill is what the fill
/// executes: for the orders of the queue the count starts anew with each
/// client order.
pub proof fn lemma_scan_cum(client: OrderView, cum: nat, sells: Seq<OrderView>)
    ensures
        client_cum_grows(scan_fills(client, cum, sells), cum),
        exchange_cum_restarts(scan_fills(client, cum, sells)),
    decreases sells.len(),
{
    let fills = scan_fills(client, cum, sells);
    if sells.len() > 0 {
        let leaves = (client.qty - cum) as nat;
        let head = sells[0];
        let rest = sells.drop_first();
        lemma_scan_unfold(client, cum, sells);
        if leaves > head.qty {
            let tail = scan_fills(client, cum + head.qty, rest);
            lemma_scan_cum(client, cum + head.qty, rest);
            assert forall|i: int, j: int|
                0 <= i && j == i + 2 && j < fills.len() && i % 2 == 0 implies (
            #[trigger] fills[j]).cum_qty == (#[trigger] fills[i]).cum_qty + fills[j].qty by {
                assert(fills[j] == tail[j - 2]);
                if i >= 2 {
                    assert(fills[i] == tail[i - 2]);
                }
            }
            assert forall|i: int| 0 <= i < fills.len() && i % 2 == 1 implies (
            #[trigger] fills[i]).cum_qty == fills[i].qty by {
                if i >= 2 {
                    assert(fills[i] == tail[i - 2]);
                }
            }
        }
    }
}

/// The orders of a queue after its head are orders of the queue.
pub proof fn lemma_queue_orders_rest(queue: Seq<OrderView>)
    requires
        queue.len() > 0,
    ensures
        queue_orders(queue.drop_first()).subset_of(queue_orders(queue)),
        set![queue[0]].subset_of(queue_orders(queue)),
{
    let rest = queue.drop_first();
    assert forall|order: OrderView| queue_orders(rest).contains(order) implies queue_orders(
        queue,
    ).contains(order) by {
        let k = choose|k: int| 0 <= k < rest.len() && rest[k] == order;
        assert(queue[k + 1] == order);
    }
    assert(queue_orders(queue).contains(queue[0]));
}

/// Each client fill of the match of a queue accounts for all of an order of
/// the queue.
pub proof fn lemma_queue_accounts(buys: Seq<OrderView>, sell: Seq<LevelView>)
    ensures
        client_fills_account(queue_fills(buys, sell), queue_orders(buys)),
    decreases buys.len(),
{
    if buys.len() > 0 {
        let first = scan_fills(buys[0], 0, orders_at(sell, buys[0].key()));
        let after = levels_after_scan(sell, buys[0].key(), buys[0].qty);
        let tail = queue_fills(buys.drop_first(), after);
        lemma_scan_accounts(buys[0], 0, orders_at(sell, buys[0].key()));
        lemma_scan_fills(buys[0], 0, orders_at(sell, buys[0].key()));
        lemma_queue_accounts(buys.drop_first(), after);
        lemma_queue_orders_rest(buys);
        lemma_account_more(first, set![buys[0]], queue_orders(buys));
        lemma_account_more(tail, queue_orders(buys.drop_first()), queue_orders(buys));
        lemma_account_concat(first, tail, queue_orders(buys));
    }
}

/// The orders of the first level of a side, and the orders that rest on the
/// levels after it, rest on the side.
pub proof fn lemma_resting_orders_rest(levels: Seq<LevelView>)
    requires
        levels.len() > 0,
    ensures
        queue_orders(levels[0].orders).subset_of(resting_orders(levels)),
        resting_orders(levels.drop_first()).subset_of(resting_orders(levels)),
{
    let rest = levels.drop_first();
    assert forall|order: OrderView| queue_orders(levels[0].orders).contains(
        order,
    ) implies resting_orders(levels).contains(order) by {
        let k = choose|k: int| 0 <= k < levels[0].orders.len() && levels[0].orders[k] == order;
        assert(levels[0].orders[k] == order);
    }
    assert forall|order: OrderView| resting_orders(rest).contains(order) implies resting_orders(
        levels,
    ).contains(order) by {
        let (j, k) = choose|j: int, k: int|
            0 <= j < rest.len() && 0 <= k < rest[j].orders.len() && #[trigger] rest[j].orders[k]
                == order;
        assert(levels[j + 1].orders[k] == order);
    }
}

/// Each client fill of a first-in-first-out match accounts for all of a buy
/// order of the book: what the fill reports as executed and as open make the
/// quantity with which the order rested before the match.
pub proof fn lemma_fifo_accounts(buy: Seq<LevelView>, sell: Seq<LevelView>)
    ensures
        client_fills_account(fifo_fills(buy, sell), resting_orders(buy)),
    decreases buy.len(),
{
    if buy.len() > 0 {
        let first = queue_fills(buy[0].orders, sell);
        let after = queue_sell(buy[0].orders, sell);
        let tail = fifo_fills(buy.drop_first(), after);
        lemma_queue_accounts(buy[0].orders, sell);
        lemma_queue_fills(buy[0].orders, sell);
        lemma_fifo_accounts(buy.drop_first(), after);
        lemma_resting_orders_rest(buy);
        lemma_account_more(first, queue_orders(buy[0].orders), resting_orders(buy));
        lemma_account_more(tail, resting_orders(buy.drop_first()), resting_orders(buy));
        lemma_account_concat(first, tail, resting_orders(buy));
    }
}

/// Whether `fill` reports on `order` and accounts for no more than it: what
/// is executed and what is open do not exceed the quantity of the order.
pub open spec fn reports_part(fill: FillView, order: OrderView) -> bool {
    &&& fill.cl_ord_id == order.cl_ord_id
    &&& fill.cum_qty + fill.leaves_qty <= order.qty
}

/// Whether `fill` accounts for no more than one of `orders`.
pub open spec fn accounts_within_one(fill: FillView, orders: Set<OrderView>) -> bool {
    exists|order: OrderView| #[trigger] orders.contains(order) && reports_part(fill, order)
}

/// Whether each exchange fill of a list of pairs accounts for no more than
/// one of `orders`.
pub open spec fn exchange_fills_within(fills: Seq<FillView>, orders: Set<OrderView>) -> bool {
    forall|i: int|
        0 <= i < fills.len() && i % 2 == 1 ==> accounts_within_one(#[trigger] fills[i], orders)
}

/// Whether `order` is what is left of one of `orders`: it has its
/// identifier, and no more than its quantity.
pub open spec fn left_of_one(order: OrderView, orders: Set<OrderView>) -> bool {
    exists|whole: OrderView| #[trigger]
        orders.contains(whole) && order.cl_ord_id == whole.cl_ord_id && order.qty <= whole.qty
}

/// Whether each order of `queue` is what is left of one of `orders`.
pub open spec fn queue_left_of(queue: Seq<OrderView>, orders: Set<OrderView>) -> bool {
    forall|k: int| 0 <= k < queue.len() ==> left_of_one(#[trigger] queue[k], orders)
}

/// Whether each order that rests on `levels` is what is left of one of
/// `orders`.
pub open spec fn levels_left_of(levels: Seq<LevelView>, orders: Set<OrderView>) -> bool {
    forall|j: int| 0 <= j < levels.len() ==> queue_left_of((#[trigger] levels[j]).orders, orders)
}

/// What is left of a queue after a part was taken from its head is left of
/// the orders that the queue was left of.
pub proof fn lemma_consume_left_of(queue: Seq<OrderView>, amount: nat, orders: Set<OrderView>)
    requires
        queue_left_of(queue, orders),
    ensures
        queue_left_of(consume(queue, amount), orders),
    decreases queue.len(),
{
    if queue.len() > 0 {
        let rest = queue.drop_first();
        assert forall|k: int| 0 <= k < rest.len() implies left_of_one(
            #[trigger] rest[k],
            orders,
        ) by {
            assert(rest[k] == queue[k + 1]);
        }
        if amount < queue[0].qty {
            let after = consume(queue, amount);
            assert forall|k: int| 0 <= k < after.len() implies left_of_one(
                #[trigger] after[k],
                orders,
            ) by {
                if k == 0 {
                    assert(left_of_one(queue[0], orders));
                    let whole = choose|whole: OrderView| #[trigger]
                        orders.contains(whole) && queue[0].cl_ord_id == whole.cl_ord_id
                            && queue[0].qty <= whole.qty;
                    assert(orders.contains(whole) && after[0].cl_ord_id == whole.cl_ord_id
                        && after[0].qty <= whole.qty);
                } else {
                    assert(after[k] == queue[k]);
                }
            }
        } else if amount > queue[0].qty {
            lemma_consume_left_of(rest, (amount - queue[0].qty) as nat, orders);
        }
    }
}

/// The queue under a key of levels that are left of a set of orders is left
/// of them.
pub proof fn lemma_orders_at_left_of(levels: Seq<LevelView>, key: KeyView, orders: Set<OrderView>)
    requires
        levels_left_of(levels, orders),
    ensures
        queue_left_of(orders_at(levels, key), orders),
{
    if has_key(levels, key) {
        lemma_has_position(levels, key);
        assert(queue_left_of(levels[position_of(levels, key)].orders, orders));
    }
}

/// Levels that are left of a set of orders stay so when a level is settled
/// with a queue that is left of them.
pub proof fn lemma_settle_left_of(
    levels: Seq<LevelView>,
    key: KeyView,
    queue: Seq<OrderView>,
    orders: Set<OrderView>,
)
    requires
        levels_left_of(levels, orders),
        queue_left_of(queue, orders),
    ensures
        levels_left_of(levels_settle(levels, key, queue), orders),
{
    let after = levels_settle(levels, key, queue);
    if has_key(levels, key) {
        lemma_has_position(levels, key);
        let p = position_of(levels, key);
        assert forall|j: int| 0 <= j < after.len() implies queue_left_of(
            (#[trigger] after[j]).orders,
            orders,
        ) by {
            if queue.len() == 0 {
                let a = if j < p {
                    j
                } else {
                    j + 1
                };
                assert(after[j] == levels[a]);
            } else {
                if j != p {
                    assert(after[j] == levels[j]);
                }
            }
        }
    }
}

/// Each exchange fill of matching one order against a queue accounts for no
/// more than an order that the queue is left of.
pub proof fn lemma_scan_within(
    client: OrderView,
    cum: nat,
    sells: Seq<OrderView>,
    orders: Set<OrderView>,
)
    requires
        cum <= client.qty,
        queue_left_of(sells, orders),
    ensures
        exchange_fills_within(scan_fills(client, cum, sells), orders),
{
    let fills = scan_fills(client, cum, sells);
    lemma_scan_accounts(client, cum, sells);
    assert forall|i: int| 0 <= i < fills.len() && i % 2 == 1 implies accounts_within_one(
        #[trigger] fills[i],
        orders,
    ) by {
        assert(accounts_for_one(fills[i], queue_orders(sells)));
        let order = choose|order: OrderView| #[trigger]
            queue_orders(sells).contains(order) && reports_whole(fills[i], order);
        let k = choose|k: int| 0 <= k < sells.len() && sells[k] == order;
        assert(left_of_one(sells[k], orders));
        let whole = choose|whole: OrderView| #[trigger]
            orders.contains(whole) && sells[k].cl_ord_id == whole.cl_ord_id && sells[k].qty
                <= whole.qty;
        assert(orders.contains(whole) && reports_part(fills[i], whole));
    }
}

/// Two lists of pairs whose exchange fills account for no more than orders
/// of a set, one after the other, are a list whose exchange fills do.
pub proof fn lemma_within_concat(
    first: Seq<FillView>,
    second: Seq<FillView>,
    orders: Set<OrderView>,
)
    requires
        first.len() % 2 == 0,
        exchange_fills_within(first, orders),
        exchange_fills_within(second, orders),
    ensures
        exchange_fills_within(first + second, orders),
{
    let all = first + second;
    assert forall|i: int| 0 <= i < all.len() && i % 2 == 1 implies accounts_within_one(
        #[trigger] all[i],
        orders,
    ) by {
        if i < first.len() {
            assert(all[i] == first[i]);
        } else {
            assert(all[i] == second[i - first.len()]);
        }
    }
}

/// Each exchange fill of the match of a queue against a side accounts for no
/// more than an order that the side is left of, and what the match leaves of
/// the side is left of the same orders.
pub proof fn lemma_queue_within(buys: Seq<OrderView>, sell: Seq<LevelView>, orders: Set<OrderView>)
    requires
        levels_left_of(sell, orders),
    ensures
        exchange_fills_within(queue_fills(buys, sell), orders),
        levels_left_of(queue_sell(buys, sell), orders),
    decreases buys.len(),
{
    if buys.len() > 0 {
        let key = buys[0].key();
        let sells = orders_at(sell, key);
        let first = scan_fills(buys[0], 0, sells);
        let after = levels_after_scan(sell, key, buys[0].qty);
        lemma_orders_at_left_of(sell, key, orders);
        lemma_scan_within(buys[0], 0, sells, orders);
        lemma_scan_fills(buys[0], 0, sells);
        lemma_consume_left_of(sells, buys[0].qty, orders);
        lemma_settle_left_of(sell, key, consume(sells, buys[0].qty), orders);
        lemma_queue_within(buys.drop_first(), after, orders);
        lemma_within_concat(first, queue_fills(buys.drop_first(), after), orders);
    }
}

/// Each exchange fill of a first-in-first-out match accounts for no more
/// than an order that the sell side is left of.
pub proof fn lemma_fifo_within(buy: Seq<LevelView>, sell: Seq<LevelView>, orders: Set<OrderView>)
    requires
        levels_left_of(sell, orders),
    ensures
        exchange_fills_within(fifo_fills(buy, sell), orders),
    decreases buy.len(),
{
    if buy.len() > 0 {
        let first = queue_fills(buy[0].orders, sell);
        let after = queue_sell(buy[0].orders, sell);
        lemma_queue_within(buy[0].orders, sell, orders);
        lemma_queue_fills(buy[0].orders, sell);
        lemma_fifo_within(buy.drop_first(), after, orders);
        lemma_within_concat(first, fifo_fills(buy.drop_first(), after), orders);
    }
}

/// Each exchange fill of a first-in-first-out match reports on a sell order
/// of the book, and what it reports as executed and as open does not exceed
/// the quantity with which the order rested before the match. The two make
/// the quantity that the order had when the client order of the fill reached
/// it, which is less where an earlier client order took a part of it.
pub proof fn lemma_fifo_exchange_accounts(buy: Seq<LevelView>, sell: Seq<LevelView>)
    ensures
        exchange_fills_within(fifo_fills(buy, sell), resting_orders(sell)),
{
    assert forall|j: int| 0 <= j < sell.len() implies queue_left_of(
        (#[trigger] sell[j]).orders,
        resting_orders(sell),
    ) by {
        assert forall|k: int| 0 <= k < sell[j].orders.len() implies left_of_one(
            #[trigger] sell[j].orders[k],
            resting_orders(sell),
        ) by {
            assert(resting_orders(sell).contains(sell[j].orders[k]));
        }
    }
    lemma_fifo_within(buy, sell, resting_orders(sell));
}

/// Whether the entry `entry` of a working queue stands for the order
/// `order`: it has its identifier, and what is executed and what is open of
/// it make the quantity of the order.
pub open spec fn tracks(entry: Working, order: OrderView) -> bool {
    &&& entry.order.cl_ord_id == order.cl_ord_id
    &&& entry.filled + entry.order.qty == order.qty
}

/// Whether `entry` stands for one of `orders`.
pub open spec fn tracks_one(entry: Working, orders: Set<OrderView>) -> bool {
    exists|order: OrderView| #[trigger] orders.contains(order) && tracks(entry, order)
}

/// Whether each entry of `buys` stands for one of `orders`.
pub open spec fn all_tracked(buys: Seq<Working>, orders: Set<OrderView>) -> bool {
    forall|i: int| 0 <= i < buys.len() ==> tracks_one(#[trigger] buys[i], orders)
}

/// Whether each client fill of the fills of a round starts from what was
/// executed of its buy order before: its executed quantity is that and what
/// the fill executes.
pub open spec fn client_cum_continues(fills: Seq<FillView>, buys: Seq<Working>) -> bool {
    forall|i: int|
        0 <= i < fills.len() && i % 2 == 0 && i / 2 < buys.len() ==> (#[trigger] fills[i]).cum_qty
            == buys[i / 2].filled + fills[i].qty
}

/// The fills of a round are the two fills of the first buy order and then
/// the fills of the round for the buy orders after it.
proof fn lemma_round_unfold(sell: OrderView, ex_cum: nat, buys: Seq<Working>, total: nat)
    requires
        buys.len() > 0,
    ensures
        ({
            let fills = round_fills(sell, ex_cum, buys, total);
            let head = buys[0];
            let qty = share(sell.qty, head.order.qty, total);
            let tail = round_fills(sell, ex_cum + qty, buys.drop_first(), total);
            &&& fills.len() == 2 + tail.len()
            &&& fills[0] == execution(
                head.order,
                sell.cl_ord_id,
                qty,
                head.filled + qty,
                (head.order.qty - qty) as nat,
            )
            &&& fills[1] == execution(
                sell,
                head.order.cl_ord_id,
                qty,
                ex_cum + qty,
                (sell.qty - ex_cum - qty) as nat,
            )
            &&& forall|i: int| 2 <= i < fills.len() ==> #[trigger] fills[i] == tail[i - 2]
        }),
{
    let head = buys[0];
    let qty = share(sell.qty, head.order.qty, total);
    let pair = seq![
        execution(
            head.order,
            sell.cl_ord_id,
            qty,
            head.filled + qty,
            (head.order.qty - qty) as nat,
        ),
        execution(
            sell,
            head.order.cl_ord_id,
            qty,
            ex_cum + qty,
            (sell.qty - ex_cum - qty) as nat,
        ),
    ];
    assert(pair.len() == 2);
    assert(round_fills(sell, ex_cum, buys, total) == pair + round_fills(
        sell,
        ex_cum + qty,
        buys.drop_first(),
        total,
    ));
}

/// The fills of sharing a sell order among buy orders, where the shares
/// leave the sell order whole. Each client fill accounts for all of the order
/// that its buy order stands for, each exchange fill for all of the sell
/// order. The executed quantity of the sell order grows from one exchange
/// fill to the next by what the fill executes, and that of a buy order goes
/// on from what was executed of it before. The buy orders that are left
/// stand for the orders they stood for.
pub proof fn lemma_round_accounts(
    sell: OrderView,
    ex_cum: nat,
    buys: Seq<Working>,
    total: nat,
    orders: Set<OrderView>,
)
    requires
        all_tracked(buys, orders),
        ex_cum + round_filled(sell.qty, buys, total) <= sell.qty,
    ensures
        client_fills_account(round_fills(sell, ex_cum, buys, total), orders),
        exchange_fills_account(round_fills(sell, ex_cum, buys, total), set![sell]),
        exchange_cum_grows(round_fills(sell, ex_cum, buys, total), ex_cum),
        client_cum_continues(round_fills(sell, ex_cum, buys, total), buys),
        all_tracked(round_left(sell.qty, buys, total), orders),
    decreases buys.len(),
{
    let fills = round_fills(sell, ex_cum, buys, total);
    let left = round_left(sell.qty, buys, total);
    if buys.len() > 0 {
        let head = buys[0];
        let rest = buys.drop_first();
        let qty = share(sell.qty, head.order.qty, total);
        let tail = round_fills(sell, ex_cum + qty, rest, total);
        let rest_left = round_left(sell.qty, rest, total);
        lemma_round_unfold(sell, ex_cum, buys, total);
        lemma_share(sell.qty, head.order.qty, total);
        assert(tracks_one(head, orders));
        let order = choose|order: OrderView| #[trigger]
            orders.contains(order) && tracks(head, order);
        assert(reports_whole(fills[0], order));
        assert(accounts_for_one(fills[0], orders));
        assert(set![sell].contains(sell));
        assert(reports_whole(fills[1], sell));
        assert(accounts_for_one(fills[1], set![sell]));
        assert forall|i: int| 0 <= i < rest.len() implies tracks_one(
            #[trigger] rest[i],
            orders,
        ) by {
            assert(rest[i] == buys[i + 1]);
        }
        lemma_round_accounts(sell, ex_cum + qty, rest, total, orders);
        assert forall|i: int| 0 <= i < fills.len() && i % 2 == 0 implies accounts_for_one(
            #[trigger] fills[i],
            orders,
        ) by {
            if i >= 2 {
                assert(fills[i] == tail[i - 2]);
                assert(accounts_for_one(tail[i - 2], orders));
            }
        }
        assert forall|i: int| 0 <= i < fills.len() && i % 2 == 1 implies accounts_for_one(
            #[trigger] fills[i],
            set![sell],
        ) by {
            if i >= 2 {
                assert(fills[i] == tail[i - 2]);
                assert(accounts_for_one(tail[i - 2], set![sell]));
            }
        }
        assert forall|i: int, j: int|
            0 <= i && j == i + 2 && j < fills.len() && i % 2 == 1 implies (
        #[trigger] fills[j]).cum_qty == (#[trigger] fills[i]).cum_qty + fills[j].qty by {
            assert(fills[j] == tail[j - 2]);
            if i >= 2 {
                assert(fills[i] == tail[i - 2]);
            }
        }
        assert forall|i: int|
            0 <= i < fills.len() && i % 2 == 0 && i / 2 < buys.len() implies (
        #[trigger] fills[i]).cum_qty == buys[i / 2].filled + fills[i].qty by {
            if i >= 2 {
                assert(fills[i] == tail[i - 2]);
                assert(rest[(i - 2) / 2] == buys[i / 2]);
            }
        }
        assert forall|i: int| 0 <= i < left.len() implies tracks_one(
            #[trigger] left[i],
            orders,
        ) by {
            if qty < head.order.qty {
                if i == 0 {
                    assert(tracks(left[0], order));
                } else {
                    assert(left[i] == rest_left[i - 1]);
                }
            } else {
                assert(left[i] == rest_left[i]);
            }
        }
    }
}

/// The entries of a queue at the start of a match stand for its orders.
pub proof fn lemma_fresh_tracked(orders: Seq<OrderView>)
    ensures
        all_tracked(fresh(orders), queue_orders(orders)),
{
    assert forall|i: int| 0 <= i < fresh(orders).len() implies tracks_one(
        #[trigger] fresh(orders)[i],
        queue_orders(orders),
    ) by {
        assert(queue_orders(orders).contains(orders[i]));
        assert(tracks(fresh(orders)[i], orders[i]));
    }
}

/// The fills of a pro-rata match of two queues. Each client fill accounts
/// for all of the order that its buy order stands for, each exchange fill for
/// all of a sell order of the queue.
pub proof fn lemma_pro_accounts(sells: Seq<OrderView>, buys: Seq<Working>, orders: Set<OrderView>)
    requires
        all_tracked(buys, orders),
    ensures
        client_fills_account(pro_fills(sells, buys), orders),
        exchange_fills_account(pro_fills(sells, buys), queue_orders(sells)),
    decreases sells.len(),
{
    if sells.len() > 0 {
        let total = total_qty(orders_of(buys));
        let first = round_fills(sells[0], 0, buys, total);
        let next = round_left(sells[0].qty, buys, total);
        let tail = pro_fills(sells.drop_first(), next);
        lemma_round_filled_le(sells[0].qty, buys);
        lemma_round_accounts(sells[0], 0, buys, total, orders);
        lemma_round_fills(sells[0], 0, buys, total);
        lemma_pro_accounts(sells.drop_first(), next, orders);
        lemma_queue_orders_rest(sells);
        lemma_account_more(first, set![sells[0]], queue_orders(sells));
        lemma_account_more(tail, queue_orders(sells.drop_first()), queue_orders(sells));
        lemma_account_concat(first, tail, orders);
        lemma_account_concat(first, tail, queue_orders(sells));
    }
}

/// The orders of the sell queues that a match of the levels `buy` meets.
pub open spec fn met_orders(buy: Seq<LevelView>, sell: Seq<LevelView>) -> Set<OrderView> {
    Set::new(
        |order: OrderView|
            exists|j: int, k: int|
                0 <= j < buy.len() && 0 <= k < orders_at(sell, buy[j].key).len()
                    && #[trigger] orders_at(sell, buy[j].key)[k] == order,
    )
}

/// The orders that a match meets rest on the sell side.
pub proof fn lemma_met_orders_rest(buy: Seq<LevelView>, sell: Seq<LevelView>)
    ensures
        met_orders(buy, sell).subset_of(resting_orders(sell)),
{
    assert forall|order: OrderView| met_orders(buy, sell).contains(order) implies resting_orders(
        sell,
    ).contains(order) by {
        let (j, k) = choose|j: int, k: int|
            0 <= j < buy.len() && 0 <= k < orders_at(sell, buy[j].key).len()
                && #[trigger] orders_at(sell, buy[j].key)[k] == order;
        let key = buy[j].key;
        assert(has_key(sell, key));
        lemma_has_position(sell, key);
        let p = position_of(sell, key);
        assert(sell[p].orders[k] == order);
    }
}

/// Each exchange fill of a pro-rata match accounts for all of an order of
/// one of the sell queues that the match meets.
pub proof fn lemma_prorata_exchange_accounts(buy: Seq<LevelView>, sell: Seq<LevelView>)
    requires
        levels_wf(buy, Side::Buy),
        levels_wf(sell, Side::Sell),
    ensures
        exchange_fills_account(prorata_fills(buy, sell), met_orders(buy, sell)),
    decreases buy.len(),
{
    if buy.len() > 0 {
        let key = buy[0].key;
        let rest = buy.drop_first();
        let sells = orders_at(sell, key);
        let buys = fresh(buy[0].orders);
        let after = levels_settle(sell, key, pro_sells(sells, buys));
        let first = pro_fills(sells, buys);
        let tail = prorata_fills(rest, after);
        lemma_drop_first_wf(buy, Side::Buy);
        lemma_orders_at_rest(sell, key, Side::Sell);
        lemma_pro_sells_rests(sells, buys, key, Side::Sell);
        lemma_levels_settle_wf(sell, key, pro_sells(sells, buys), Side::Sell);
        lemma_levels_settle_lookup(sell, key, pro_sells(sells, buys));
        lemma_fresh_tracked(buy[0].orders);
        lemma_pro_accounts(sells, buys, queue_orders(buy[0].orders));
        lemma_pro_fills(sells, buys);
        lemma_prorata_exchange_accounts(rest, after);
        assert(queue_orders(sells).subset_of(met_orders(buy, sell))) by {
            assert forall|order: OrderView| queue_orders(sells).contains(
                order,
            ) implies met_orders(buy, sell).contains(order) by {
                let k = choose|k: int| 0 <= k < sells.len() && sells[k] == order;
                assert(orders_at(sell, buy[0].key)[k] == order);
            }
        }
        assert(met_orders(rest, after).subset_of(met_orders(buy, sell))) by {
            assert forall|order: OrderView| met_orders(rest, after).contains(
                order,
            ) implies met_orders(buy, sell).contains(order) by {
                let (j, k) = choose|j: int, k: int|
                    0 <= j < rest.len() && 0 <= k < orders_at(after, rest[j].key).len()
                        && #[trigger] orders_at(after, rest[j].key)[k] == order;
                assert(rest[j].key != key);
                assert(key_kept(sell, after, rest[j].key));
                assert(rest[j] == buy[j + 1]);
                assert(orders_at(sell, buy[j + 1].key)[k] == order);
            }
        }
        lemma_account_more(first, queue_orders(sells), met_orders(buy, sell));
        lemma_account_more(tail, met_orders(rest, after), met_orders(buy, sell));
        lemma_account_concat(first, tail, met_orders(buy, sell));
    }
}

/// Each fill of a pro-rata match of a well formed book accounts for all of an
/// order of the book: what the fill reports as executed and as open make the
/// quantity with which the order rested before the match. A client fill
/// reports on a buy order, an exchange fill on a sell order.
pub proof fn lemma_prorata_accounts(buy: Seq<LevelView>, sell: Seq<LevelView>)
    requires
        levels_wf(buy, Side::Buy),
        levels_wf(sell, Side::Sell),
    ensures
        client_fills_account(prorata_fills(buy, sell), resting_orders(buy)),
        exchange_fills_account(prorata_fills(buy, sell), resting_orders(sell)),
{
    lemma_prorata_client_accounts(buy, sell);
    lemma_prorata_exchange_accounts(buy, sell);
    lemma_met_orders_rest(buy, sell);
    lemma_account_more(prorata_fills(buy, sell), met_orders(buy, sell), resting_orders(sell));
}

/// Each client fill of a pro-rata match accounts for all of a buy order of
/// the book.
pub proof fn lemma_prorata_client_accounts(buy: Seq<LevelView>, sell: Seq<LevelView>)
    ensures
        client_fills_account(prorata_fills(buy, sell), resting_orders(buy)),
    decreases buy.len(),
{
    if buy.len() > 0 {
        let key = buy[0].key;
        let sells = orders_at(sell, key);
        let buys = fresh(buy[0].orders);
        let after = levels_settle(sell, key, pro_sells(sells, buys));
        let first = pro_fills(sells, buys);
        let tail = prorata_fills(buy.drop_first(), after);
        lemma_fresh_tracked(buy[0].orders);
        lemma_pro_accounts(sells, buys, queue_orders(buy[0].orders));
        lemma_pro_fills(sells, buys);
        lemma_prorata_client_accounts(buy.drop_first(), after);
        lemma_resting_orders_rest(buy);
        lemma_account_more(first, queue_orders(buy[0].orders), resting_orders(buy));
        lemma_account_more(tail, resting_orders(buy.drop_first()), resting_orders(buy));
        lemma_account_concat(first, tail, resting_orders(buy));
    }
}

} // verus!
