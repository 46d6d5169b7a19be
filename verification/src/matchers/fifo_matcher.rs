//! The first-in-first-out matcher: within a price level the order at the head
//! of a queue is matched first.

use crate::common::utils::{fill_views, total_fill_qty, Aggregator, Sigma};
use crate::matchers::matcher::{create_cum_qty_map, zero_scoreboard, CumQtyMap, Matcher};
use crate::matchers::reports::{lemma_fifo_fills, lemma_fifo_sides};
use crate::model::book::{
    all_rest_at, book_wf, clone_queue, has_key, lemma_drop_first_wf, lemma_levels_settle_wf,
    lemma_orders_at_rest, lemma_prepend_wf, lemma_total_qty_first, levels_settle, levels_wf,
    orders_at, queue_view, rests_at, total_qty, BookView, LevelView, OrderBook, OrderMap,
};
use crate::model::domain::{
    execution, executions, has_generated_ids, ids_generated, Fill, FillView, KeyView,
    OrderSingle, OrderView, Side, Status,
};
use std::collections::VecDeque;
use vstd::prelude::*;

verus! {

/// The smaller of two quantities.
pub open spec fn min_qty(a: nat, b: nat) -> nat {
    if a <= b {
        a
    } else {
        b
    }
}

/// `fill` after an execution of `qty` against the order `counterparty`, which
/// brings the executed quantity to `cum_qty` and leaves `leaves_qty` open.
pub open spec fn reported(
    fill: FillView,
    counterparty: Seq<char>,
    qty: nat,
    cum_qty: nat,
    leaves_qty: nat,
) -> FillView {
    FillView {
        secondary_cl_ord_id: counterparty,
        qty,
        cum_qty,
        leaves_qty,
        status: Status::after_execution(leaves_qty),
        ..fill
    }
}

/// Whether `fill` reports on `order`: it has the symbol, price, side and
/// identifier of the order.
pub open spec fn reports_on(fill: FillView, order: OrderView) -> bool {
    &&& fill.symbol == order.symbol
    &&& fill.price == order.price
    &&& fill.side == order.side
    &&& fill.cl_ord_id == order.cl_ord_id
    &&& fill.exec_type == Status::New
}

/// `queue` after `amount` was taken from its head: orders are removed while
/// the amount covers them, and the order that covers the rest of the amount
/// keeps what is left of it.
pub open spec fn consume(queue: Seq<OrderView>, amount: nat) -> Seq<OrderView>
    decreases queue.len(),
{
    if queue.len() == 0 {
        queue
    } else if amount < queue[0].qty {
        queue.update(0, queue[0].with_qty((queue[0].qty - amount) as nat))
    } else if amount == queue[0].qty {
        queue.drop_first()
    } else {
        consume(queue.drop_first(), (amount - queue[0].qty) as nat)
    }
}

/// The two reports of one execution of `qty`: that of the client order, of
/// which `cum` was executed before, and that of the exchange order.
pub open spec fn execution_pair(client: OrderView, cum: nat, exchange: OrderView, qty: nat) -> Seq<
    FillView,
> {
    seq![
        execution(
            client,
            exchange.cl_ord_id,
            qty,
            cum + qty,
            (client.qty - cum - qty) as nat,
        ),
        execution(exchange, client.cl_ord_id, qty, qty, (exchange.qty - qty) as nat),
    ]
}

/// The reports of matching the order `client`, of which `cum` is executed,
/// against the queue `sells`, head first: with each order of the queue the
/// smaller of what is open and what the order holds is executed, until the
/// client order is filled or the queue ends.
pub open spec fn scan_fills(client: OrderView, cum: nat, sells: Seq<OrderView>) -> Seq<FillView>
    decreases sells.len(),
{
    if sells.len() == 0 {
        Seq::empty()
    } else {
        let leaves = (client.qty - cum) as nat;
        let head = sells[0];
        if leaves <= head.qty {
            execution_pair(client, cum, head, leaves)
        } else {
            execution_pair(client, cum, head, head.qty) + scan_fills(
                client,
                cum + head.qty,
                sells.drop_first(),
            )
        }
    }
}

/// `levels` after an order for `amount` was matched against the queue under
/// `key`: the queue has lost that amount from its head, and its level is gone
/// when nothing is left of it.
pub open spec fn levels_after_scan(levels: Seq<LevelView>, key: KeyView, amount: nat) -> Seq<
    LevelView,
> {
    levels_settle(levels, key, consume(orders_at(levels, key), amount))
}

/// The reports of matching the orders of the queue `buys`, head first, each
/// against the queue that rests at its price level in `sell` when its turn
/// comes.
pub open spec fn queue_fills(buys: Seq<OrderView>, sell: Seq<LevelView>) -> Seq<FillView>
    decreases buys.len(),
{
    if buys.len() == 0 {
        Seq::empty()
    } else {
        scan_fills(buys[0], 0, orders_at(sell, buys[0].key())) + queue_fills(
            buys.drop_first(),
            levels_after_scan(sell, buys[0].key(), buys[0].qty),
        )
    }
}

/// The side `sell` after the orders of the queue `buys` were matched
/// against it.
pub open spec fn queue_sell(buys: Seq<OrderView>, sell: Seq<LevelView>) -> Seq<LevelView>
    decreases buys.len(),
{
    if buys.len() == 0 {
        sell
    } else {
        queue_sell(buys.drop_first(), levels_after_scan(sell, buys[0].key(), buys[0].qty))
    }
}

/// What is left of the queue `buys` after its orders were matched against
/// `sell`: each order with the quantity that was not executed, without the
/// orders that were filled.
pub open spec fn queue_left(buys: Seq<OrderView>, sell: Seq<LevelView>) -> Seq<OrderView>
    decreases buys.len(),
{
    if buys.len() == 0 {
        Seq::empty()
    } else {
        let filled = min_qty(buys[0].qty, total_qty(orders_at(sell, buys[0].key())));
        let rest = queue_left(
            buys.drop_first(),
            levels_after_scan(sell, buys[0].key(), buys[0].qty),
        );
        if filled < buys[0].qty {
            seq![buys[0].with_qty((buys[0].qty - filled) as nat)] + rest
        } else {
            rest
        }
    }
}

/// The reports of a first-in-first-out match of the levels `buy`, in their
/// order, against the side `sell`.
pub open spec fn fifo_fills(buy: Seq<LevelView>, sell: Seq<LevelView>) -> Seq<FillView>
    decreases buy.len(),
{
    if buy.len() == 0 {
        Seq::empty()
    } else {
        queue_fills(buy[0].orders, sell) + fifo_fills(
            buy.drop_first(),
            queue_sell(buy[0].orders, sell),
        )
    }
}

/// The sell side after a first-in-first-out match of the levels `buy`
/// against it.
pub open spec fn fifo_sell(buy: Seq<LevelView>, sell: Seq<LevelView>) -> Seq<LevelView>
    decreases buy.len(),
{
    if buy.len() == 0 {
        sell
    } else {
        fifo_sell(buy.drop_first(), queue_sell(buy[0].orders, sell))
    }
}

/// The buy side after a first-in-first-out match of its levels `buy` against
/// `sell`: each level with what is left of its queue, without the levels of
/// which nothing is left.
pub open spec fn fifo_buy(buy: Seq<LevelView>, sell: Seq<LevelView>) -> Seq<LevelView>
    decreases buy.len(),
{
    if buy.len() == 0 {
        Seq::empty()
    } else {
        let left = queue_left(buy[0].orders, sell);
        let rest = fifo_buy(buy.drop_first(), queue_sell(buy[0].orders, sell));
        if left.len() > 0 {
            seq![LevelView { key: buy[0].key, orders: left }] + rest
        } else {
            rest
        }
    }
}

/// The book after a first-in-first-out match.
pub open spec fn fifo_book(book: BookView) -> BookView {
    BookView { buy: fifo_buy(book.buy, book.sell), sell: fifo_sell(book.buy, book.sell) }
}

/// Orders that may rest at a level still may after a part of the queue was
/// taken from its head.
pub proof fn lemma_consume_rests(queue: Seq<OrderView>, amount: nat, key: KeyView, side: Side)
    requires
        all_rest_at(queue, key, side),
    ensures
        all_rest_at(consume(queue, amount), key, side),
    decreases queue.len(),
{
    if queue.len() == 0 {
    } else if amount < queue[0].qty {
        let after = consume(queue, amount);
        assert forall|k: int| 0 <= k < after.len() implies rests_at(
            #[trigger] after[k],
            key,
            side,
        ) by {
            assert(rests_at(queue[k], key, side));
        }
    } else {
        let rest = queue.drop_first();
        assert forall|k: int| 0 <= k < rest.len() implies rests_at(
            #[trigger] rest[k],
            key,
            side,
        ) by {
            assert(rests_at(queue[k + 1], key, side));
        }
        if amount > queue[0].qty {
            lemma_consume_rests(rest, (amount - queue[0].qty) as nat, key, side);
        }
    }
}

/// A well formed side stays well formed when an order is matched against it.
pub proof fn lemma_after_scan_wf(levels: Seq<LevelView>, key: KeyView, amount: nat, side: Side)
    requires
        levels_wf(levels, side),
    ensures
        levels_wf(levels_after_scan(levels, key, amount), side),
{
    lemma_orders_at_rest(levels, key, side);
    lemma_consume_rests(orders_at(levels, key), amount, key, side);
    lemma_levels_settle_wf(levels, key, consume(orders_at(levels, key), amount), side);
}

/// A well formed side stays well formed when a queue is matched against it.
pub proof fn lemma_queue_sell_wf(buys: Seq<OrderView>, sell: Seq<LevelView>, side: Side)
    requires
        levels_wf(sell, side),
    ensures
        levels_wf(queue_sell(buys, sell), side),
    decreases buys.len(),
{
    if buys.len() > 0 {
        lemma_after_scan_wf(sell, buys[0].key(), buys[0].qty, side);
        lemma_queue_sell_wf(
            buys.drop_first(),
            levels_after_scan(sell, buys[0].key(), buys[0].qty),
            side,
        );
    }
}

/// What is left of a queue of orders that may rest at a level may rest there.
pub proof fn lemma_queue_left_rests(
    buys: Seq<OrderView>,
    sell: Seq<LevelView>,
    key: KeyView,
    side: Side,
)
    requires
        all_rest_at(buys, key, side),
    ensures
        all_rest_at(queue_left(buys, sell), key, side),
    decreases buys.len(),
{
    if buys.len() > 0 {
        let rest_buys = buys.drop_first();
        assert forall|k: int| 0 <= k < rest_buys.len() implies rests_at(
            #[trigger] rest_buys[k],
            key,
            side,
        ) by {
            assert(rests_at(buys[k + 1], key, side));
        }
        let after = levels_after_scan(sell, buys[0].key(), buys[0].qty);
        lemma_queue_left_rests(rest_buys, after, key, side);
        let rest = queue_left(rest_buys, after);
        let left = queue_left(buys, sell);
        let filled = min_qty(buys[0].qty, total_qty(orders_at(sell, buys[0].key())));
        assert(rests_at(buys[0], key, side));
        assert forall|k: int| 0 <= k < left.len() implies rests_at(
            #[trigger] left[k],
            key,
            side,
        ) by {
            if filled < buys[0].qty {
                if k > 0 {
                    assert(left[k] == rest[k - 1]);
                }
            } else {
                assert(left[k] == rest[k]);
            }
        }
    }
}

/// A first-in-first-out match leaves a well formed sell side well formed.
pub proof fn lemma_fifo_sell_wf(buy: Seq<LevelView>, sell: Seq<LevelView>)
    requires
        levels_wf(sell, Side::Sell),
    ensures
        levels_wf(fifo_sell(buy, sell), Side::Sell),
    decreases buy.len(),
{
    if buy.len() > 0 {
        lemma_queue_sell_wf(buy[0].orders, sell, Side::Sell);
        lemma_fifo_sell_wf(buy.drop_first(), queue_sell(buy[0].orders, sell));
    }
}

/// A first-in-first-out match leaves a well formed buy side well formed, and
/// opens no level on it.
pub proof fn lemma_fifo_buy_wf(buy: Seq<LevelView>, sell: Seq<LevelView>)
    requires
        levels_wf(buy, Side::Buy),
    ensures
        levels_wf(fifo_buy(buy, sell), Side::Buy),
        forall|j: int|
            0 <= j < fifo_buy(buy, sell).len() ==> has_key(
                buy,
                (#[trigger] fifo_buy(buy, sell)[j]).key,
            ),
    decreases buy.len(),
{
    if buy.len() > 0 {
        let tail = buy.drop_first();
        let after = queue_sell(buy[0].orders, sell);
        let rest = fifo_buy(tail, after);
        let out = fifo_buy(buy, sell);
        let left = queue_left(buy[0].orders, sell);
        lemma_drop_first_wf(buy, Side::Buy);
        lemma_fifo_buy_wf(tail, after);
        lemma_queue_left_rests(buy[0].orders, sell, buy[0].key, Side::Buy);
        assert forall|j: int| 0 <= j < rest.len() implies has_key(buy, (#[trigger] rest[j]).key)
            && rest[j].key != buy[0].key by {
            assert(has_key(tail, rest[j].key));
            let k = choose|k: int| 0 <= k < tail.len() && (#[trigger] tail[k]).key == rest[j].key;
            assert(buy[k + 1].key == rest[j].key);
        }
        if left.len() > 0 {
            let level = LevelView { key: buy[0].key, orders: left };
            if has_key(rest, level.key) {
                let j = choose|j: int| 0 <= j < rest.len() && (#[trigger] rest[j]).key == level.key;
                assert(rest[j].key != buy[0].key);
            }
            lemma_prepend_wf(level, rest, Side::Buy);
            assert(out[0].key == buy[0].key);
            assert forall|j: int| 0 <= j < out.len() implies has_key(
                buy,
                (#[trigger] out[j]).key,
            ) by {
                if j > 0 {
                    assert(out[j] == rest[j - 1]);
                }
            }
        }
    }
}

/// A first-in-first-out match leaves a well formed book well formed.
pub proof fn lemma_fifo_book_wf(book: BookView)
    requires
        book_wf(book),
    ensures
        book_wf(fifo_book(book)),
{
    lemma_fifo_buy_wf(book.buy, book.sell);
    lemma_fifo_sell_wf(book.buy, book.sell);
}

/// The fills of `fills` that are of the side `side`, in their order.
pub open spec fn on_side(fills: Seq<FillView>, side: Side) -> Seq<FillView>
    decreases fills.len(),
{
    if fills.len() == 0 {
        Seq::empty()
    } else {
        let before = on_side(fills.drop_last(), side);
        if fills.last().side == side {
            before.push(fills.last())
        } else {
            before
        }
    }
}

/// The first-in-first-out matcher.
#[derive(Debug)]
pub struct FIFOMatcher;

impl FIFOMatcher {
    pub fn new() -> (matcher: Self) {
        FIFOMatcher
    }

    /// The client order is the larger one: it takes all of the exchange
    /// order, which is filled, and stays partly open.
    pub fn client_order_partial_fill(
        &self,
        order_qty: u32,
        avail_qty: u32,
        client_fill: &mut Fill,
        ex_fill: &mut Fill,
        exchange_order: &mut OrderSingle,
        cl_cum_map: &mut CumQtyMap,
    )
        requires
            old(cl_cum_map)@.contains_key(old(client_fill)@.cl_ord_id),
            old(cl_cum_map)@[old(client_fill)@.cl_ord_id] + old(exchange_order)@.qty <= order_qty,
        ensures
            final(client_fill)@ == (FillView {
                qty: avail_qty as nat,
                cum_qty: old(cl_cum_map)@[old(client_fill)@.cl_ord_id] + old(exchange_order)@.qty,
                leaves_qty: (order_qty - old(cl_cum_map)@[old(client_fill)@.cl_ord_id] - old(
                    exchange_order,
                )@.qty) as nat,
                status: Status::PartialFill,
                ..old(client_fill)@
            }),
            final(cl_cum_map)@ == old(cl_cum_map)@.insert(
                old(client_fill)@.cl_ord_id,
                old(cl_cum_map)@[old(client_fill)@.cl_ord_id] + old(exchange_order)@.qty,
            ),
            final(ex_fill)@ == (FillView {
                qty: avail_qty as nat,
                cum_qty: avail_qty as nat,
                leaves_qty: 0,
                status: Status::Filled,
                ..old(ex_fill)@
            }),
            final(exchange_order)@ == old(exchange_order)@.with_qty(0),
    {
        let id = client_fill.cl_ord_id().to_owned();
        let mut cl_cum_qty = cl_cum_map.get(&id).unwrap();
        cl_cum_qty += exchange_order.qty();
        let leaves_qty = order_qty - cl_cum_qty;
        client_fill.set_qty(avail_qty);
        client_fill.set_cum_qty(cl_cum_qty);
        client_fill.set_leaves_qty(leaves_qty);
        client_fill.set_status(Status::PartialFill);
        cl_cum_map.insert(id, cl_cum_qty);

        ex_fill.set_qty(avail_qty);
        ex_fill.set_cum_qty(avail_qty);
        ex_fill.set_leaves_qty(0);
        ex_fill.set_status(Status::Filled);
        exchange_order.set_qty(0);
    }

    /// The exchange order is at least as large as what the client order has
    /// open: the client order is filled, the exchange order keeps the rest.
    pub fn exchange_partial_fill(
        &mut self,
        cl_cum_qty: u32,
        avail_qty: u32,
        leaves_qty: u32,
        client_fill: &mut Fill,
        ex_fill: &mut Fill,
        exchange_order: &mut OrderSingle,
        ex_cum_map: &mut CumQtyMap,
    )
        requires
            old(ex_cum_map)@.contains_key(old(ex_fill)@.cl_ord_id),
            old(ex_cum_map)@[old(ex_fill)@.cl_ord_id] + leaves_qty <= u32::MAX,
            cl_cum_qty + leaves_qty <= u32::MAX,
            leaves_qty <= avail_qty,
        ensures
            final(client_fill)@ == (FillView {
                qty: leaves_qty as nat,
                cum_qty: (cl_cum_qty + leaves_qty) as nat,
                leaves_qty: 0,
                status: Status::Filled,
                ..old(client_fill)@
            }),
            final(ex_fill)@ == (FillView {
                qty: leaves_qty as nat,
                cum_qty: old(ex_cum_map)@[old(ex_fill)@.cl_ord_id] + leaves_qty as nat,
                leaves_qty: (avail_qty - leaves_qty) as nat,
                status: Status::after_execution((avail_qty - leaves_qty) as nat),
                ..old(ex_fill)@
            }),
            final(ex_cum_map)@ == old(ex_cum_map)@.insert(
                old(ex_fill)@.cl_ord_id,
                old(ex_cum_map)@[old(ex_fill)@.cl_ord_id] + leaves_qty as nat,
            ),
            final(exchange_order)@ == old(exchange_order)@.with_qty(
                (avail_qty - leaves_qty) as nat,
            ),
    {
        let id = ex_fill.cl_ord_id().to_owned();
        let mut ex_cum_qty = ex_cum_map.get(&id).unwrap();
        ex_cum_qty += leaves_qty;

        client_fill.set_qty(leaves_qty);
        client_fill.set_cum_qty(cl_cum_qty + leaves_qty);
        client_fill.set_leaves_qty(0);
        client_fill.set_status(Status::Filled);

        ex_fill.set_qty(leaves_qty);
        ex_fill.set_cum_qty(ex_cum_qty);
        ex_fill.set_leaves_qty(avail_qty - ex_fill.qty());
        if ex_fill.leaves_qty() == 0 {
            ex_fill.set_status(Status::Filled);
        } else {
            ex_fill.set_status(Status::PartialFill);
        }
        exchange_order.set_qty(avail_qty - leaves_qty);
        ex_cum_map.insert(id, ex_cum_qty);
    }

    /// Creates the client side and the exchange side fill of one execution of
    /// the client order against the exchange order: the smaller of what the
    /// client order has open and what the exchange order holds is executed.
    pub fn update_fills(
        &mut self,
        client_order: &OrderSingle,
        exchange_order: &mut OrderSingle,
        client_fill: &mut Fill,
        ex_fill: &mut Fill,
        cl_cum_map: &mut CumQtyMap,
        ex_cum_map: &mut CumQtyMap,
    )
        requires
            old(client_fill)@.cl_ord_id == client_order@.cl_ord_id,
            old(ex_fill)@.cl_ord_id == old(exchange_order)@.cl_ord_id,
            old(cl_cum_map)@.contains_key(client_order@.cl_ord_id),
            old(ex_cum_map)@.contains_key(old(exchange_order)@.cl_ord_id),
            old(cl_cum_map)@[client_order@.cl_ord_id] + old(client_fill)@.leaves_qty
                == client_order@.qty,
            old(client_fill)@.leaves_qty <= old(exchange_order)@.qty ==> old(ex_cum_map)@[old(
                exchange_order,
            )@.cl_ord_id] + old(client_fill)@.leaves_qty <= u32::MAX,
        ensures
            ({
                let leaves = old(client_fill)@.leaves_qty;
                let avail = old(exchange_order)@.qty;
                let qty = min_qty(leaves, avail);
                let cl_cum = old(cl_cum_map)@[client_order@.cl_ord_id];
                let ex_cum = old(ex_cum_map)@[old(exchange_order)@.cl_ord_id];
                &&& final(client_fill)@ == reported(
                    old(client_fill)@,
                    old(exchange_order)@.cl_ord_id,
                    qty,
                    cl_cum + qty,
                    (leaves - qty) as nat,
                )
                &&& final(ex_fill)@ == reported(
                    old(ex_fill)@,
                    client_order@.cl_ord_id,
                    qty,
                    if leaves <= avail {
                        ex_cum + qty
                    } else {
                        qty
                    },
                    (avail - qty) as nat,
                )
                &&& final(exchange_order)@ == old(exchange_order)@.with_qty((avail - qty) as nat)
                &&& final(cl_cum_map)@ == old(cl_cum_map)@.insert(
                    client_order@.cl_ord_id,
                    cl_cum + qty,
                )
                &&& final(ex_cum_map)@ == if leaves <= avail {
                    old(ex_cum_map)@.insert(old(exchange_order)@.cl_ord_id, ex_cum + qty)
                } else {
                    old(ex_cum_map)@
                }
            }),
    {
        client_fill.set_secondary_cl_ord_id(exchange_order.cl_ord_id().clone());
        ex_fill.set_secondary_cl_ord_id(client_order.cl_ord_id().clone());
        let order_qty = client_order.qty();
        let avail_qty = exchange_order.qty();
        let leaves_qty = client_fill.leaves_qty();
        let cl_cum_qty = cl_cum_map.get(client_order.cl_ord_id()).unwrap();
        if leaves_qty <= avail_qty {
            self.exchange_partial_fill(
                cl_cum_qty,
                avail_qty,
                leaves_qty,
                client_fill,
                ex_fill,
                exchange_order,
                ex_cum_map,
            );
            cl_cum_map.insert(client_order.cl_ord_id().clone(), cl_cum_qty + leaves_qty);
        } else {
            self.client_order_partial_fill(
                order_qty,
                avail_qty,
                client_fill,
                ex_fill,
                exchange_order,
                cl_cum_map,
            );
        }
    }

    /// Returns the sum of the quantities of the fills of the side `side`. The
    /// sum has to fit in 32 bits.
    pub fn sum_of_filled_quantities(&self, fills: &Vec<Fill>, side: Side) -> (sum: u32)
        requires
            total_fill_qty(on_side(fill_views(fills@), side)) <= u32::MAX,
        ensures
            sum as nat == total_fill_qty(on_side(fill_views(fills@), side)),
    {
        let mut fills_for_sum: Vec<Fill> = Vec::new();
        let mut i: usize = 0;
        let ghost all = fill_views(fills@);
        assert(all.take(0) =~= Seq::<FillView>::empty());
        assert(fill_views(fills_for_sum@) =~= Seq::<FillView>::empty());
        while i < fills.len()
            invariant
                i <= fills.len(),
                all == fill_views(fills@),
                fill_views(fills_for_sum@) == on_side(all.take(i as int), side),
            decreases fills.len() - i,
        {
            let ghost before = fill_views(fills_for_sum@);
            proof {
                assert(all.take(i + 1).drop_last() =~= all.take(i as int));
                assert(all.take(i + 1).last() == fills@[i as int]@);
            }
            if fills[i].side() == side {
                fills_for_sum.push(fills[i].clone());
                assert(fill_views(fills_for_sum@) =~= before.push(fills@[i as int]@));
            }
            i += 1;
        }
        assert(all.take(i as int) =~= all);
        Aggregator::sigma(&fills_for_sum)
    }

    /// Takes the order at the head of `deq` out of the queue.
    pub fn remove_order(&self, deq: &mut VecDeque<OrderSingle>)
        ensures
            old(deq)@.len() == 0 ==> final(deq)@ == old(deq)@,
            old(deq)@.len() > 0 ==> final(deq)@ == old(deq)@.drop_first(),
    {
        let _ = deq.pop_front();
        assert(old(deq)@.len() > 0 ==> deq@ =~= old(deq)@.drop_first());
    }

    /// Matches `order` against the queue that rests at its price level in
    /// `matching_map`, head first, until the order is filled or the queue
    /// ends. Returns a client fill and an exchange fill for each order of the
    /// queue that was touched. The queue loses what was executed; the
    /// scoreboard holds for `order` the quantity that was executed of it. Where
    /// the map has no level at the price of the order, nothing is matched and
    /// neither the map nor the scoreboard changes.
    pub fn get_fills_for(
        &mut self,
        matching_map: &mut OrderMap,
        cl_cum_map: &mut CumQtyMap,
        order: &OrderSingle,
    ) -> (fills: Vec<Fill>)
        ensures
            executions(fills@) == scan_fills(
                order@,
                0,
                orders_at(old(matching_map)@, order@.key()),
            ),
            final(matching_map)@ == levels_after_scan(
                old(matching_map)@,
                order@.key(),
                order@.qty,
            ),
            has_key(old(matching_map)@, order@.key()) ==> final(cl_cum_map)@ == old(
                cl_cum_map,
            )@.insert(
                order@.cl_ord_id,
                min_qty(order@.qty, total_qty(orders_at(old(matching_map)@, order@.key()))),
            ),
            !has_key(old(matching_map)@, order@.key()) ==> final(cl_cum_map)@ == old(
                cl_cum_map,
            )@,
            ids_generated(fills@),
    {
        let mut fills: Vec<Fill> = Vec::new();
        let key = order.get_order_book_key();
        assert(executions(fills@) =~= Seq::<FillView>::empty());
        let found = matching_map.get(&key);
        if found.is_some() {
            cl_cum_map.insert(order.cl_ord_id().clone(), 0);
            let mut rest = clone_queue(found.unwrap());
            let ghost start = queue_view(rest@);
            let mut e_map = create_cum_qty_map(&rest);
            let mut client_fill = Fill::from(order);
            let mut done = false;
            let ghost mut taken: int = 0;
            assert(start.skip(0) =~= start);
            proof {
                order.lemma_qty_in_range();
            }
            while !done && rest.len() > 0
                invariant
                    reports_on(client_fill@, order@),
                    has_generated_ids(client_fill@),
                    ids_generated(fills@),
                    order@.qty <= u32::MAX,
                    cl_cum_map@.contains_key(order@.cl_ord_id),
                    cl_cum_map@[order@.cl_ord_id] + client_fill@.leaves_qty == order@.qty,
                    cl_cum_map@ == old(cl_cum_map)@.insert(
                        order@.cl_ord_id,
                        cl_cum_map@[order@.cl_ord_id],
                    ),
                    0 <= taken <= start.len(),
                    !done ==> queue_view(rest@) == start.skip(taken),
                    !done ==> e_map@ == zero_scoreboard(start),
                    !done ==> cl_cum_map@[order@.cl_ord_id] + total_qty(queue_view(rest@))
                        == total_qty(start),
                    !done ==> executions(fills@) + scan_fills(
                        order@,
                        cl_cum_map@[order@.cl_ord_id],
                        queue_view(rest@),
                    ) == scan_fills(order@, 0, start),
                    !done ==> consume(queue_view(rest@), client_fill@.leaves_qty) == consume(
                        start,
                        order@.qty,
                    ),
                    done ==> executions(fills@) == scan_fills(order@, 0, start),
                    done ==> queue_view(rest@) == consume(start, order@.qty),
                    done ==> cl_cum_map@[order@.cl_ord_id] == order@.qty && order@.qty
                        <= total_qty(start),
                decreases (if done { 0int } else { 1int }), rest.len(),
            {
                let ghost queue = queue_view(rest@);
                let ghost cum = cl_cum_map@[order@.cl_ord_id];
                let ghost leaves = client_fill@.leaves_qty;
                let ghost before = executions(fills@);
                let avail = rest[0].clone();
                self.remove_order(&mut rest);
                let mut exchange_order = avail.clone();
                let mut ex_fill = Fill::from(&avail);
                proof {
                    assert(queue[0] == avail@);
                    assert(queue_view(rest@) =~= queue.drop_first());
                    assert(start[taken] == avail@);
                    assert(zero_scoreboard(start).contains_key(avail@.cl_ord_id));
                    lemma_total_qty_first(queue);
                    avail.lemma_qty_in_range();
                    client_fill.lemma_quantities_in_range();
                }
                self.update_fills(
                    order,
                    &mut exchange_order,
                    &mut client_fill,
                    &mut ex_fill,
                    cl_cum_map,
                    &mut e_map,
                );
                let ghost qty = min_qty(leaves, avail@.qty);
                let ghost earlier = fills@;
                fills.push(client_fill.clone());
                fills.push(ex_fill);
                proof {
                    assert forall|i: int| 0 <= i < fills@.len() implies has_generated_ids(
                        #[trigger] fills@[i]@,
                    ) by {
                        if i < earlier.len() {
                            assert(fills@[i] == earlier[i]);
                        }
                    }
                    assert(executions(fills@) =~= before + execution_pair(
                        order@,
                        cum,
                        avail@,
                        qty,
                    ));
                    assert(cl_cum_map@ =~= old(cl_cum_map)@.insert(
                        order@.cl_ord_id,
                        cl_cum_map@[order@.cl_ord_id],
                    ));
                }
                if exchange_order.qty() != 0 {
                    rest.push_front(exchange_order);
                    assert(queue_view(rest@) =~= queue.update(
                        0,
                        queue[0].with_qty((queue[0].qty - qty) as nat),
                    ));
                }
                if *client_fill.status() == Status::Filled {
                    done = true;
                } else {
                    proof {
                        taken = taken + 1;
                        assert(queue.drop_first() =~= start.skip(taken));
                    }
                }
            }
            proof {
                if !done {
                    assert(queue_view(rest@).len() == 0);
                    assert(total_qty(queue_view(rest@)) == 0);
                }
            }
            if rest.len() == 0 {
                matching_map.remove(&key);
            } else {
                matching_map.insert(key, rest);
            }
        }
        fills
    }

    /// Matches the orders of the queue `deque`, head first, against the side
    /// `sell`. Returns the fills and what is left of the queue.
    pub fn match_level(&mut self, deque: &VecDeque<OrderSingle>, sell: &mut OrderMap) -> (out: (
        Vec<Fill>,
        VecDeque<OrderSingle>,
    ))
        ensures
            executions(out.0@) == queue_fills(queue_view(deque@), old(sell)@),
            queue_view(out.1@) == queue_left(queue_view(deque@), old(sell)@),
            final(sell)@ == queue_sell(queue_view(deque@), old(sell)@),
            ids_generated(out.0@),
    {
        let mut fills: Vec<Fill> = Vec::new();
        let mut left: VecDeque<OrderSingle> = VecDeque::new();
        let mut c_map = create_cum_qty_map(deque);
        let ghost buys = queue_view(deque@);
        let mut k: usize = 0;
        assert(buys.skip(0) =~= buys);
        assert(executions(fills@) =~= Seq::<FillView>::empty());
        assert(queue_view(left@) =~= Seq::<OrderView>::empty());
        while k < deque.len()
            invariant
                k <= deque.len(),
                buys == queue_view(deque@),
                ids_generated(fills@),
                executions(fills@) + queue_fills(buys.skip(k as int), sell@) == queue_fills(
                    buys,
                    old(sell)@,
                ),
                queue_view(left@) + queue_left(buys.skip(k as int), sell@) == queue_left(
                    buys,
                    old(sell)@,
                ),
                queue_sell(buys.skip(k as int), sell@) == queue_sell(buys, old(sell)@),
            decreases deque.len() - k,
        {
            let order = &deque[k];
            let ghost before = sell@;
            let ghost fills_before = executions(fills@);
            let ghost left_before = queue_view(left@);
            proof {
                assert(buys.skip(k as int)[0] == order@);
                assert(buys.skip(k as int).drop_first() =~= buys.skip(k + 1));
                order.lemma_qty_in_range();
            }
            let mut sub_fills = self.get_fills_for(sell, &mut c_map, order);
            proof {
                let sells = orders_at(before, order@.key());
                assert(executions(sub_fills@).len() == sub_fills@.len());
                if sells.len() > 0 {
                    assert(scan_fills(order@, 0, sells).len() >= 2);
                } else {
                    assert(total_qty(sells) == 0);
                }
            }
            let total: u32 = if sub_fills.len() == 0 {
                0
            } else {
                c_map.get(order.cl_ord_id()).unwrap()
            };
            if order.qty() != total {
                let mut order_clone = order.clone();
                order_clone.set_qty(order.qty() - total);
                left.push_back(order_clone);
                assert(queue_view(left@) =~= left_before + seq![
                    order@.with_qty((order@.qty - total) as nat),
                ]);
            }
            let ghost sub = executions(sub_fills@);
            let ghost earlier = fills@;
            let ghost added = sub_fills@;
            fills.append(&mut sub_fills);
            proof {
                assert forall|i: int| 0 <= i < fills@.len() implies has_generated_ids(
                    #[trigger] fills@[i]@,
                ) by {
                    if i < earlier.len() {
                        assert(fills@[i] == earlier[i]);
                    } else {
                        assert(fills@[i] == added[i - earlier.len()]);
                    }
                }
                assert(executions(fills@) =~= fills_before + sub);
                let rest_fills = queue_fills(buys.skip(k + 1), sell@);
                assert((fills_before + sub) + rest_fills =~= fills_before + (sub + rest_fills));
                let rest_left = queue_left(buys.skip(k + 1), sell@);
                if order@.qty != total {
                    let one = seq![order@.with_qty((order@.qty - total) as nat)];
                    assert((left_before + one) + rest_left =~= left_before + (one + rest_left));
                }
            }
            k += 1;
        }
        (fills, left)
    }

}

impl Matcher for FIFOMatcher {
    open spec fn fills_of(&self, book: BookView) -> Seq<FillView> {
        fifo_fills(book.buy, book.sell)
    }

    open spec fn book_after(&self, book: BookView) -> BookView {
        fifo_book(book)
    }

    /// Matches the buy side of the book against its sell side, level by level
    /// in the order of the buy levels and, within a level, order by order from
    /// the head of the queue. Each order is matched to the fullest extent
    /// possible against the queue that rests at its own price before the next
    /// order is tried. Returns the fills; the book keeps what was not executed.
    fn match_order_book(&mut self, order_book: &mut OrderBook) -> (fills: Vec<Fill>) {
        let buy = order_book.get_orders_for(Side::Buy);
        let mut sell = order_book.get_orders_for(Side::Sell);
        let mut fills: Vec<Fill> = Vec::new();
        let mut temp = OrderMap::new();
        let ghost sell0 = sell@;
        let mut i: usize = 0;
        assert(buy@.skip(0) =~= buy@);
        assert(executions(fills@) =~= Seq::<FillView>::empty());
        while i < buy.len()
            invariant
                i <= buy@.len(),
                levels_wf(buy@, Side::Buy),
                ids_generated(fills@),
                forall|j: int|
                    0 <= j < temp@.len() ==> has_key(
                        buy@.take(i as int),
                        (#[trigger] temp@[j]).key,
                    ),
                executions(fills@) + fifo_fills(buy@.skip(i as int), sell@) == fifo_fills(
                    buy@,
                    sell0,
                ),
                temp@ + fifo_buy(buy@.skip(i as int), sell@) == fifo_buy(buy@, sell0),
                fifo_sell(buy@.skip(i as int), sell@) == fifo_sell(buy@, sell0),
            decreases buy@.len() - i,
        {
            let key = buy.key_at(i);
            let deque = buy.queue_at(i);
            let ghost fills_before = executions(fills@);
            let ghost temp_before = temp@;
            let ghost sell_before = sell@;
            proof {
                assert(buy@.skip(i as int)[0] == buy@[i as int]);
                assert(buy@.skip(i as int).drop_first() =~= buy@.skip(i + 1));
            }
            let (mut level_fills, left) = self.match_level(deque, &mut sell);
            let ghost sub = executions(level_fills@);
            let ghost earlier = fills@;
            let ghost added = level_fills@;
            fills.append(&mut level_fills);
            proof {
                assert forall|j: int| 0 <= j < fills@.len() implies has_generated_ids(
                    #[trigger] fills@[j]@,
                ) by {
                    if j < earlier.len() {
                        assert(fills@[j] == earlier[j]);
                    } else {
                        assert(fills@[j] == added[j - earlier.len()]);
                    }
                }
                assert(executions(fills@) =~= fills_before + sub);
                let rest_fills = fifo_fills(buy@.skip(i + 1), sell@);
                assert((fills_before + sub) + rest_fills =~= fills_before + (sub + rest_fills));
            }
            if left.len() > 0 {
                proof {
                    if has_key(temp@, key@) {
                        let j = choose|j: int|
                            0 <= j < temp@.len() && (#[trigger] temp@[j]).key == key@;
                        assert(has_key(buy@.take(i as int), temp@[j].key));
                        let k = choose|k: int|
                            0 <= k < buy@.take(i as int).len() && (#[trigger] buy@.take(
                                i as int,
                            )[k]).key == key@;
                        assert(buy@[k].key != buy@[i as int].key);
                    }
                }
                temp.insert(key.clone(), left);
                proof {
                    let one = seq![LevelView { key: key@, orders: queue_view(left@) }];
                    assert(temp@ =~= temp_before + one);
                    let rest = fifo_buy(buy@.skip(i + 1), sell@);
                    assert((temp_before + one) + rest =~= temp_before + (one + rest));
                }
            }
            proof {
                assert forall|j: int| 0 <= j < temp@.len() implies has_key(
                    buy@.take(i + 1),
                    (#[trigger] temp@[j]).key,
                ) by {
                    if j < temp_before.len() {
                        assert(temp@[j] == temp_before[j]);
                        let k = choose|k: int|
                            0 <= k < buy@.take(i as int).len() && (#[trigger] buy@.take(
                                i as int,
                            )[k]).key == temp_before[j].key;
                        assert(buy@.take(i + 1)[k].key == temp_before[j].key);
                    } else {
                        assert(buy@.take(i + 1)[i as int].key == key@);
                    }
                }
            }
            i += 1;
        }
        proof {
            assert(temp@ + Seq::<LevelView>::empty() =~= temp@);
            lemma_fifo_book_wf(old(order_book)@);
            lemma_fifo_fills(old(order_book)@.buy, old(order_book)@.sell);
            lemma_fifo_sides(old(order_book)@.buy, old(order_book)@.sell);
        }
        let mut ob = OrderBook::new(temp, sell);
        order_book.update_self(&mut ob);
        fills
    }
}

} // verus!
