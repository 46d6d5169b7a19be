//! The pro-rata matcher: within a price level a sell order is shared among
//! the resting buy orders in proportion to their quantities.

use crate::matchers::fifo_matcher::min_qty;
use crate::matchers::matcher::Matcher;
use crate::matchers::reports::{lemma_prorata_fills, lemma_prorata_sides};
use crate::matchers::volume::lemma_round_volume;
use crate::model::book::{
    all_rest_at, book_wf, clone_queue, has_key, lemma_drop_first_wf, lemma_levels_settle_wf,
    lemma_orders_at_rest, lemma_prepend_wf, lemma_total_qty_first, levels_settle, levels_wf,
    orders_at, queue_total, queue_view, rests_at, total_qty, BookView, LevelView, OrderBook,
    OrderMap,
};
use crate::model::domain::{
    execution, executions, has_generated_ids, ids_generated, Fill, FillView, KeyView,
    OrderSingle, OrderView, Side, Status,
};
use std::collections::VecDeque;
use vstd::prelude::*;

verus! {

/// A resting buy order during a match, as contracts see it: the order with
/// the quantity that is still open, and the quantity executed of it so far.
pub struct Working {
    pub order: OrderView,
    pub filled: nat,
}

/// The orders of `orders` at the start of a match: nothing is executed yet.
pub open spec fn fresh(orders: Seq<OrderView>) -> Seq<Working> {
    orders.map_values(|order: OrderView| Working { order, filled: 0 })
}

/// The orders of `working`.
pub open spec fn orders_of(working: Seq<Working>) -> Seq<OrderView> {
    working.map_values(|entry: Working| entry.order)
}

/// What a buy order of `buy_qty` gets of a sell order of `sell_qty`, when the
/// buy orders of its level hold `total` together: its proportional share,
/// rounded down, and no more than the buy order holds.
pub open spec fn share(sell_qty: nat, buy_qty: nat, total: nat) -> nat {
    if total == 0 {
        0
    } else {
        min_qty(buy_qty, ((sell_qty * buy_qty) / total) as nat)
    }
}

/// The reports of sharing the order `sell`, of which `ex_cum` is executed,
/// among the buy orders `buys`, head first, with `total` as the sum that the
/// shares are taken of.
pub open spec fn round_fills(sell: OrderView, ex_cum: nat, buys: Seq<Working>, total: nat) -> Seq<
    FillView,
>
    decreases buys.len(),
{
    if buys.len() == 0 {
        Seq::empty()
    } else {
        let head = buys[0];
        let qty = share(sell.qty, head.order.qty, total);
        seq![
            execution(
                head.order,
                sell.cl_ord_id,
                qty,
                head.filled + qty,
                (head.order.qty - qty) as nat,
            ),
            execution(
                sell,
                head.order.cl_ord_id,
                qty,
                ex_cum + qty,
                (sell.qty - ex_cum - qty) as nat,
            ),
        ] + round_fills(sell, ex_cum + qty, buys.drop_first(), total)
    }
}

/// The quantity of a sell order of `sell_qty` that is executed when it is
/// shared among `buys`.
pub open spec fn round_filled(sell_qty: nat, buys: Seq<Working>, total: nat) -> nat
    decreases buys.len(),
{
    if buys.len() == 0 {
        0
    } else {
        share(sell_qty, buys[0].order.qty, total) + round_filled(
            sell_qty,
            buys.drop_first(),
            total,
        )
    }
}

/// The buy orders `buys` after a sell order of `sell_qty` was shared among
/// them: each with what is left of it, in their order, without those that
/// were filled.
pub open spec fn round_left(sell_qty: nat, buys: Seq<Working>, total: nat) -> Seq<Working>
    decreases buys.len(),
{
    if buys.len() == 0 {
        Seq::empty()
    } else {
        let head = buys[0];
        let qty = share(sell_qty, head.order.qty, total);
        let rest = round_left(sell_qty, buys.drop_first(), total);
        if qty < head.order.qty {
            seq![
                Working {
                    order: head.order.with_qty((head.order.qty - qty) as nat),
                    filled: head.filled + qty,
                },
            ] + rest
        } else {
            rest
        }
    }
}

/// The reports of a pro-rata match of the queue `sells` against the buy
/// orders `buys`: each sell order, head first, is shared among the buy orders
/// that are left when its turn comes.
pub open spec fn pro_fills(sells: Seq<OrderView>, buys: Seq<Working>) -> Seq<FillView>
    decreases sells.len(),
{
    if sells.len() == 0 {
        Seq::empty()
    } else {
        let total = total_qty(orders_of(buys));
        round_fills(sells[0], 0, buys, total) + pro_fills(
            sells.drop_first(),
            round_left(sells[0].qty, buys, total),
        )
    }
}

/// The buy orders that are left after a pro-rata match of `sells` against
/// `buys`.
pub open spec fn pro_left(sells: Seq<OrderView>, buys: Seq<Working>) -> Seq<Working>
    decreases sells.len(),
{
    if sells.len() == 0 {
        buys
    } else {
        pro_left(
            sells.drop_first(),
            round_left(sells[0].qty, buys, total_qty(orders_of(buys))),
        )
    }
}

/// The sell orders that are left after a pro-rata match of `sells` against
/// `buys`: each with the quantity that was not executed, in their order,
/// without those that were filled.
pub open spec fn pro_sells(sells: Seq<OrderView>, buys: Seq<Working>) -> Seq<OrderView>
    decreases sells.len(),
{
    if sells.len() == 0 {
        Seq::empty()
    } else {
        let total = total_qty(orders_of(buys));
        let filled = round_filled(sells[0].qty, buys, total);
        let rest = pro_sells(sells.drop_first(), round_left(sells[0].qty, buys, total));
        if filled < sells[0].qty {
            seq![sells[0].with_qty((sells[0].qty - filled) as nat)] + rest
        } else {
            rest
        }
    }
}

/// The reports of a pro-rata match of the levels `buy`, in their order,
/// against the side `sell`: each buy level is matched against the sell queue
/// at the same price.
pub open spec fn prorata_fills(buy: Seq<LevelView>, sell: Seq<LevelView>) -> Seq<FillView>
    decreases buy.len(),
{
    if buy.len() == 0 {
        Seq::empty()
    } else {
        let sells = orders_at(sell, buy[0].key);
        let buys = fresh(buy[0].orders);
        pro_fills(sells, buys) + prorata_fills(
            buy.drop_first(),
            levels_settle(sell, buy[0].key, pro_sells(sells, buys)),
        )
    }
}

/// The sell side after a pro-rata match of the levels `buy` against it.
pub open spec fn prorata_sell(buy: Seq<LevelView>, sell: Seq<LevelView>) -> Seq<LevelView>
    decreases buy.len(),
{
    if buy.len() == 0 {
        sell
    } else {
        let sells = orders_at(sell, buy[0].key);
        let buys = fresh(buy[0].orders);
        prorata_sell(buy.drop_first(), levels_settle(sell, buy[0].key, pro_sells(sells, buys)))
    }
}

/// The buy side after a pro-rata match of its levels `buy` against `sell`:
/// each level with what is left of its queue, without the levels of which
/// nothing is left.
pub open spec fn prorata_buy(buy: Seq<LevelView>, sell: Seq<LevelView>) -> Seq<LevelView>
    decreases buy.len(),
{
    if buy.len() == 0 {
        Seq::empty()
    } else {
        let sells = orders_at(sell, buy[0].key);
        let buys = fresh(buy[0].orders);
        let left = orders_of(pro_left(sells, buys));
        let rest = prorata_buy(
            buy.drop_first(),
            levels_settle(sell, buy[0].key, pro_sells(sells, buys)),
        );
        if left.len() > 0 {
            seq![LevelView { key: buy[0].key, orders: left }] + rest
        } else {
            rest
        }
    }
}

/// The book after a pro-rata match.
pub open spec fn prorata_book(book: BookView) -> BookView {
    BookView { buy: prorata_buy(book.buy, book.sell), sell: prorata_sell(book.buy, book.sell) }
}

/// Whether, for each entry of `working`, what is executed and what is open
/// fit in 32 bits together.
pub open spec fn in_range(working: Seq<Working>) -> bool {
    forall|i: int|
        0 <= i < working.len() ==> (#[trigger] working[i]).filled + working[i].order.qty
            <= u32::MAX
}

/// A share is no more than the buy order holds, and the shares of a sell
/// order leave its quantity whole: multiplied by the total, a share is no
/// more than the product of the two quantities.
pub proof fn lemma_share(sell_qty: nat, buy_qty: nat, total: nat)
    ensures
        share(sell_qty, buy_qty, total) <= buy_qty,
        share(sell_qty, buy_qty, total) * total <= sell_qty * buy_qty,
{
    if total > 0 {
        let whole = (sell_qty * buy_qty) / total;
        assert(0 <= whole && whole * total <= sell_qty * buy_qty) by (nonlinear_arith)
            requires
                whole == (sell_qty * buy_qty) / total,
                total > 0,
        ;
        let s = share(sell_qty, buy_qty, total);
        assert(s <= whole);
        assert(s * total <= whole * total) by (nonlinear_arith)
            requires
                s <= whole,
                total > 0,
        ;
    }
}

/// Buy orders that may rest at a level still may after a sell order was
/// shared among them.
pub proof fn lemma_round_left_rests(
    sell_qty: nat,
    buys: Seq<Working>,
    total: nat,
    key: KeyView,
    side: Side,
)
    requires
        all_rest_at(orders_of(buys), key, side),
    ensures
        all_rest_at(orders_of(round_left(sell_qty, buys, total)), key, side),
    decreases buys.len(),
{
    if buys.len() > 0 {
        let tail = buys.drop_first();
        assert forall|k: int| 0 <= k < orders_of(tail).len() implies rests_at(
            #[trigger] orders_of(tail)[k],
            key,
            side,
        ) by {
            assert(rests_at(orders_of(buys)[k + 1], key, side));
        }
        lemma_round_left_rests(sell_qty, tail, total, key, side);
        let rest = round_left(sell_qty, tail, total);
        let out = round_left(sell_qty, buys, total);
        let qty = share(sell_qty, buys[0].order.qty, total);
        assert(rests_at(orders_of(buys)[0], key, side));
        assert forall|k: int| 0 <= k < orders_of(out).len() implies rests_at(
            #[trigger] orders_of(out)[k],
            key,
            side,
        ) by {
            if qty < buys[0].order.qty {
                if k > 0 {
                    assert(out[k] == rest[k - 1]);
                    assert(rests_at(orders_of(rest)[k - 1], key, side));
                }
            } else {
                assert(out[k] == rest[k]);
                assert(rests_at(orders_of(rest)[k], key, side));
            }
        }
    }
}

/// Buy orders that may rest at a level still may after a pro-rata match.
pub proof fn lemma_pro_left_rests(
    sells: Seq<OrderView>,
    buys: Seq<Working>,
    key: KeyView,
    side: Side,
)
    requires
        all_rest_at(orders_of(buys), key, side),
    ensures
        all_rest_at(orders_of(pro_left(sells, buys)), key, side),
    decreases sells.len(),
{
    if sells.len() > 0 {
        let total = total_qty(orders_of(buys));
        lemma_round_left_rests(sells[0].qty, buys, total, key, side);
        lemma_pro_left_rests(
            sells.drop_first(),
            round_left(sells[0].qty, buys, total),
            key,
            side,
        );
    }
}

/// Sell orders that may rest at a level still may after a pro-rata match.
pub proof fn lemma_pro_sells_rests(
    sells: Seq<OrderView>,
    buys: Seq<Working>,
    key: KeyView,
    side: Side,
)
    requires
        all_rest_at(sells, key, side),
    ensures
        all_rest_at(pro_sells(sells, buys), key, side),
    decreases sells.len(),
{
    if sells.len() > 0 {
        let total = total_qty(orders_of(buys));
        let tail = sells.drop_first();
        assert forall|k: int| 0 <= k < tail.len() implies rests_at(
            #[trigger] tail[k],
            key,
            side,
        ) by {
            assert(rests_at(sells[k + 1], key, side));
        }
        let next = round_left(sells[0].qty, buys, total);
        lemma_pro_sells_rests(tail, next, key, side);
        let rest = pro_sells(tail, next);
        let out = pro_sells(sells, buys);
        let filled = round_filled(sells[0].qty, buys, total);
        assert(rests_at(sells[0], key, side));
        assert forall|k: int| 0 <= k < out.len() implies rests_at(
            #[trigger] out[k],
            key,
            side,
        ) by {
            if filled < sells[0].qty {
                if k > 0 {
                    assert(out[k] == rest[k - 1]);
                }
            } else {
                assert(out[k] == rest[k]);
            }
        }
    }
}

/// A pro-rata match leaves a well formed sell side well formed.
pub proof fn lemma_prorata_sell_wf(buy: Seq<LevelView>, sell: Seq<LevelView>)
    requires
        levels_wf(sell, Side::Sell),
    ensures
        levels_wf(prorata_sell(buy, sell), Side::Sell),
    decreases buy.len(),
{
    if buy.len() > 0 {
        let sells = orders_at(sell, buy[0].key);
        let buys = fresh(buy[0].orders);
        lemma_orders_at_rest(sell, buy[0].key, Side::Sell);
        lemma_pro_sells_rests(sells, buys, buy[0].key, Side::Sell);
        lemma_levels_settle_wf(sell, buy[0].key, pro_sells(sells, buys), Side::Sell);
        lemma_prorata_sell_wf(
            buy.drop_first(),
            levels_settle(sell, buy[0].key, pro_sells(sells, buys)),
        );
    }
}

/// A pro-rata match leaves a well formed buy side well formed, and opens no
/// level on it.
pub proof fn lemma_prorata_buy_wf(buy: Seq<LevelView>, sell: Seq<LevelView>)
    requires
        levels_wf(buy, Side::Buy),
    ensures
        levels_wf(prorata_buy(buy, sell), Side::Buy),
        forall|j: int|
            0 <= j < prorata_buy(buy, sell).len() ==> has_key(
                buy,
                (#[trigger] prorata_buy(buy, sell)[j]).key,
            ),
    decreases buy.len(),
{
    if buy.len() > 0 {
        let sells = orders_at(sell, buy[0].key);
        let buys = fresh(buy[0].orders);
        let tail = buy.drop_first();
        let after = levels_settle(sell, buy[0].key, pro_sells(sells, buys));
        lemma_drop_first_wf(buy, Side::Buy);
        lemma_prorata_buy_wf(tail, after);
        let rest = prorata_buy(tail, after);
        let out = prorata_buy(buy, sell);
        let left = orders_of(pro_left(sells, buys));
        assert(orders_of(buys) =~= buy[0].orders);
        lemma_pro_left_rests(sells, buys, buy[0].key, Side::Buy);
        assert forall|j: int| 0 <= j < rest.len() implies has_key(buy, (#[trigger] rest[j]).key)
            && rest[j].key != buy[0].key by {
            assert(has_key(tail, rest[j].key));
            let k = choose|k: int| 0 <= k < tail.len() && (#[trigger] tail[k]).key == rest[j].key;
            assert(buy[k + 1].key == rest[j].key);
        }
        if left.len() > 0 {
            let level = LevelView { key: buy[0].key, orders: left };
            if has_key(rest, level.key) {
                let j = choose|j: int| 0 <= j < rest.len() && (#[trigger] rest[j]).key == level.key;
                assert(rest[j].key != buy[0].key);
            }
            lemma_prepend_wf(level, rest, Side::Buy);
            assert(out[0].key == buy[0].key);
            assert forall|j: int| 0 <= j < out.len() implies has_key(
                buy,
                (#[trigger] out[j]).key,
            ) by {
                if j > 0 {
                    assert(out[j] == rest[j - 1]);
                }
            }
        }
    }
}

/// A pro-rata match leaves a well formed book well formed.
pub proof fn lemma_prorata_book_wf(book: BookView)
    requires
        book_wf(book),
    ensures
        book_wf(prorata_book(book)),
{
    lemma_prorata_buy_wf(book.buy, book.sell);
    lemma_prorata_sell_wf(book.buy, book.sell);
}

struct Resting {
    order: OrderSingle,
    filled: u32,
}

impl View for Resting {
    type V = Working;

    closed spec fn view(&self) -> Working {
        Working { order: self.order@, filled: self.filled as nat }
    }
}

/// The entries of a working queue, as contracts see them.
closed spec fn working_view(queue: Seq<Resting>) -> Seq<Working> {
    queue.map_values(|entry: Resting| entry@)
}

/// The pro-rata matcher.
#[derive(Debug)]
pub struct ProrataMatcher;

impl ProrataMatcher {
    pub fn new() -> (matcher: Self) {
        ProrataMatcher
    }

    /// Returns the share of a buy order of `buy_qty` in a sell order of
    /// `sell_qty`.
    fn share_of(sell_qty: u32, buy_qty: u32, total: u128) -> (qty: u32)
        ensures
            qty as nat == share(sell_qty as nat, buy_qty as nat, total as nat),
    {
        if total == 0 {
            0
        } else {
            assert(sell_qty * buy_qty <= u32::MAX * u32::MAX) by (nonlinear_arith)
                requires
                    sell_qty <= u32::MAX,
                    buy_qty <= u32::MAX,
            ;
            let product: u128 = (sell_qty as u128) * (buy_qty as u128);
            let whole: u128 = product / total;
            if whole < buy_qty as u128 {
                whole as u32
            } else {
                buy_qty
            }
        }
    }

    /// Takes the buy order at the head of `buy_orders`, executes `fill_qty`
    /// of it against the sell order `sec_id` and returns its fill. What is
    /// left of the order goes to the tail of the queue.
    fn create_client_fill(
        &self,
        sec_id: &String,
        fill_qty: u32,
        buy_orders: &mut VecDeque<Resting>,
    ) -> (cl_fill: Fill)
        requires
            old(buy_orders)@.len() > 0,
            fill_qty <= old(buy_orders)@[0]@.order.qty,
            old(buy_orders)@[0]@.filled + old(buy_orders)@[0]@.order.qty <= u32::MAX,
        ensures
            ({
                let head = old(buy_orders)@[0]@;
                let rest = working_view(old(buy_orders)@).drop_first();
                &&& cl_fill@.unlabelled() == execution(
                    head.order,
                    sec_id@,
                    fill_qty as nat,
                    head.filled + fill_qty as nat,
                    (head.order.qty - fill_qty) as nat,
                )
                &&& has_generated_ids(cl_fill@)
                &&& working_view(final(buy_orders)@) == if fill_qty < head.order.qty {
                    rest.push(
                        Working {
                            order: head.order.with_qty((head.order.qty - fill_qty) as nat),
                            filled: head.filled + fill_qty as nat,
                        },
                    )
                } else {
                    rest
                }
            }),
    {
        let mut resting = buy_orders.pop_front().unwrap();
        assert(working_view(buy_orders@) =~= working_view(old(buy_orders)@).drop_first());
        let mut cl_fill = Fill::from(&resting.order);
        let cl_cum_qty = resting.filled + fill_qty;
        cl_fill.set_qty(fill_qty);
        cl_fill.set_cum_qty(cl_cum_qty);
        cl_fill.set_secondary_cl_ord_id(sec_id.clone());
        cl_fill.set_leaves_qty(resting.order.qty() - fill_qty);
        if cl_fill.leaves_qty() == 0 {
            cl_fill.set_status(Status::Filled);
        } else {
            let left = resting.order.qty() - fill_qty;
            resting.order.set_qty(left);
            resting.filled = cl_cum_qty;
            cl_fill.set_status(Status::PartialFill);
            let ghost before = working_view(buy_orders@);
            buy_orders.push_back(resting);
            assert(working_view(buy_orders@) =~= before.push(resting@));
        }
        cl_fill
    }

    /// Returns the fill of the sell order for an execution of `fill_qty`
    /// against the buy order `sec_id`, after `ex_cum` was executed of the sell
    /// order before.
    fn create_exchange_fill(
        &self,
        sell_order: &OrderSingle,
        sec_id: &String,
        fill_qty: u32,
        ex_cum: u32,
    ) -> (ex_fill: Fill)
        requires
            ex_cum + fill_qty <= sell_order@.qty,
        ensures
            ex_fill@.unlabelled() == execution(
                sell_order@,
                sec_id@,
                fill_qty as nat,
                (ex_cum + fill_qty) as nat,
                (sell_order@.qty - ex_cum - fill_qty) as nat,
            ),
            has_generated_ids(ex_fill@),
    {
        proof {
            sell_order.lemma_qty_in_range();
        }
        let mut ex_fill = Fill::from(sell_order);
        let ex_cum_qty = ex_cum + fill_qty;
        ex_fill.set_qty(fill_qty);
        ex_fill.set_cum_qty(ex_cum_qty);
        ex_fill.set_leaves_qty(sell_order.qty() - ex_cum_qty);
        ex_fill.set_secondary_cl_ord_id(sec_id.clone());
        if ex_fill.leaves_qty() == 0 {
            ex_fill.set_status(Status::Filled);
        } else {
            ex_fill.set_status(Status::PartialFill);
        }
        ex_fill
    }

    /// Shares `sell_order` among the buy orders of `buy_orders`, head first:
    /// each gets its proportional share of the sell order, rounded down. The
    /// fills go to the end of `fills`; the buy orders that are not filled stay
    /// in the queue, in their order, with what is left of them. `total` is
    /// the sum of the buy orders, of which the shares are taken. Returns the
    /// quantity of the sell order that was executed.
    fn distribute(
        &self,
        sell_order: &OrderSingle,
        buy_orders: &mut VecDeque<Resting>,
        total: u128,
        fills: &mut Vec<Fill>,
    ) -> (filled: u32)
        requires
            in_range(working_view(old(buy_orders)@)),
            total as nat == total_qty(orders_of(working_view(old(buy_orders)@))),
            ids_generated(old(fills)@),
        ensures
            ids_generated(final(fills)@),
            total_qty(orders_of(working_view(final(buy_orders)@))) + filled == total,
            ({
                let buys = working_view(old(buy_orders)@);
                let total = total_qty(orders_of(buys));
                &&& executions(final(fills)@) == executions(old(fills)@) + round_fills(
                    sell_order@,
                    0,
                    buys,
                    total,
                )
                &&& working_view(final(buy_orders)@) == round_left(sell_order@.qty, buys, total)
                &&& filled as nat == round_filled(sell_order@.qty, buys, total)
                &&& filled as nat <= sell_order@.qty
                &&& in_range(working_view(final(buy_orders)@))
            }),
    {
        let n = buy_orders.len();
        let sell_qty = sell_order.qty();
        let mut ex_cum: u32 = 0;
        let mut j: usize = 0;
        let ghost snapshot = working_view(buy_orders@);
        let ghost mut kept: Seq<Working> = Seq::empty();
        let ghost mut passed: nat = 0;
        proof {
            assert(snapshot.skip(0) =~= snapshot);
            assert(snapshot.skip(0) + kept =~= snapshot);
            assert(kept + round_left(sell_qty as nat, snapshot, total as nat) =~= round_left(
                sell_qty as nat,
                snapshot,
                total as nat,
            ));
        }
        while j < n
            invariant
                j <= n,
                n == snapshot.len(),
                ids_generated(fills@),
                sell_qty as nat == sell_order@.qty,
                total as nat == total_qty(orders_of(snapshot)),
                in_range(snapshot),
                in_range(kept),
                working_view(buy_orders@) == snapshot.skip(j as int) + kept,
                kept + round_left(sell_qty as nat, snapshot.skip(j as int), total as nat)
                    == round_left(sell_qty as nat, snapshot, total as nat),
                executions(fills@) + round_fills(
                    sell_order@,
                    ex_cum as nat,
                    snapshot.skip(j as int),
                    total as nat,
                ) == executions(old(fills)@) + round_fills(sell_order@, 0, snapshot, total as nat),
                ex_cum + round_filled(sell_qty as nat, snapshot.skip(j as int), total as nat)
                    == round_filled(sell_qty as nat, snapshot, total as nat),
                passed + total_qty(orders_of(snapshot.skip(j as int))) == total,
                ex_cum * total <= sell_qty * passed,
                total == 0 ==> ex_cum == 0,
                ex_cum <= sell_qty,
            decreases n - j,
        {
            let ghost head = snapshot[j as int];
            let ghost rest = snapshot.skip(j + 1);
            let ghost fills_before = executions(fills@);
            let ghost kept_before = kept;
            proof {
                assert(snapshot.skip(j as int)[0] == head);
                assert(snapshot.skip(j as int).drop_first() =~= rest);
                assert(working_view(buy_orders@).len() == buy_orders@.len());
                assert((snapshot.skip(j as int) + kept)[0] == head);
                assert(working_view(buy_orders@)[0] == buy_orders@[0]@);
                assert(orders_of(snapshot.skip(j as int)).drop_first() =~= orders_of(rest));
                lemma_total_qty_first(orders_of(snapshot.skip(j as int)));
                lemma_share(sell_qty as nat, head.order.qty, total as nat);
                assert(head.filled + head.order.qty <= u32::MAX);
            }
            let fill_qty = Self::share_of(sell_qty, buy_orders[0].order.qty(), total);
            proof {
                let b = head.order.qty;
                if total > 0 {
                    assert((ex_cum + fill_qty) * total <= sell_qty * (passed + b))
                        by (nonlinear_arith)
                        requires
                            ex_cum * total <= sell_qty * passed,
                            fill_qty * total <= sell_qty * b,
                    ;
                    assert(ex_cum + fill_qty <= sell_qty) by (nonlinear_arith)
                        requires
                            (ex_cum + fill_qty) * total <= sell_qty * (passed + b),
                            passed + b <= total,
                            total > 0,
                    ;
                }
            }
            let cl_fill = self.create_client_fill(sell_order.cl_ord_id(), fill_qty, buy_orders);
            let buy_id = cl_fill.cl_ord_id().to_owned();
            let ex_fill = self.create_exchange_fill(sell_order, &buy_id, fill_qty, ex_cum);
            let ghost earlier = fills@;
            fills.push(cl_fill);
            fills.push(ex_fill);
            proof {
                assert forall|i: int| 0 <= i < fills@.len() implies has_generated_ids(
                    #[trigger] fills@[i]@,
                ) by {
                    if i < earlier.len() {
                        assert(fills@[i] == earlier[i]);
                    }
                }
                let pair = seq![
                    execution(
                        head.order,
                        sell_order@.cl_ord_id,
                        fill_qty as nat,
                        head.filled + fill_qty as nat,
                        (head.order.qty - fill_qty) as nat,
                    ),
                    execution(
                        sell_order@,
                        head.order.cl_ord_id,
                        fill_qty as nat,
                        (ex_cum + fill_qty) as nat,
                        (sell_order@.qty - ex_cum - fill_qty) as nat,
                    ),
                ];
                assert(executions(fills@) =~= fills_before + pair);
                let tail = round_fills(
                    sell_order@,
                    (ex_cum + fill_qty) as nat,
                    rest,
                    total as nat,
                );
                assert((fills_before + pair) + tail =~= fills_before + (pair + tail));
                let rest_left = round_left(sell_qty as nat, rest, total as nat);
                if fill_qty < head.order.qty {
                    let entry = Working {
                        order: head.order.with_qty((head.order.qty - fill_qty) as nat),
                        filled: head.filled + fill_qty as nat,
                    };
                    kept = kept_before.push(entry);
                    assert((kept_before + seq![entry]) + rest_left =~= kept_before + (seq![entry]
                        + rest_left));
                    assert(kept_before.push(entry) =~= kept_before + seq![entry]);
                    assert((snapshot.skip(j as int) + kept_before).drop_first().push(entry)
                        =~= rest + kept);
                } else {
                    assert((snapshot.skip(j as int) + kept_before).drop_first() =~= rest + kept);
                }
                passed = passed + head.order.qty;
                assert(ex_cum * total + fill_qty * total == (ex_cum + fill_qty) * total)
                    by (nonlinear_arith);
                assert(sell_qty * (passed - head.order.qty) + sell_qty * head.order.qty
                    == sell_qty * passed) by (nonlinear_arith);
            }
            ex_cum = ex_cum + fill_qty;
            j += 1;
        }
        proof {
            assert(snapshot.skip(n as int) + kept =~= kept);
            assert(kept + Seq::<Working>::empty() =~= kept);
            assert(executions(fills@) + Seq::<FillView>::empty() =~= executions(fills@));
            lemma_round_volume(sell_order@, 0, snapshot, total as nat);
        }
        ex_cum
    }

    /// Matches the queue `sell_orders` against the queue `buy_orders` of the
    /// same price level. Each sell order, head first, is shared among the buy
    /// orders that are left when its turn comes, in proportion to their
    /// quantities. Returns the fills, a client fill and an exchange fill for
    /// each buy order that a sell order was shared with. Both queues keep what
    /// was not executed.
    pub fn proportional_match(
        &mut self,
        buy_orders: &mut VecDeque<OrderSingle>,
        sell_orders: &mut VecDeque<OrderSingle>,
    ) -> (fills: Vec<Fill>)
        ensures
            executions(fills@) == pro_fills(
                queue_view(old(sell_orders)@),
                fresh(queue_view(old(buy_orders)@)),
            ),
            queue_view(final(buy_orders)@) == orders_of(
                pro_left(queue_view(old(sell_orders)@), fresh(queue_view(old(buy_orders)@))),
            ),
            queue_view(final(sell_orders)@) == pro_sells(
                queue_view(old(sell_orders)@),
                fresh(queue_view(old(buy_orders)@)),
            ),
            ids_generated(fills@),
    {
        let ghost buys0 = fresh(queue_view(buy_orders@));
        let ghost sells0 = queue_view(sell_orders@);
        let mut fills: Vec<Fill> = Vec::new();
        let mut working: VecDeque<Resting> = VecDeque::new();
        let mut total = queue_total(buy_orders);
        proof {
            assert(working_view(working@) + fresh(queue_view(buy_orders@)) =~= buys0);
            assert(orders_of(buys0) =~= queue_view(buy_orders@));
        }
        while buy_orders.len() > 0
            invariant
                working_view(working@) + fresh(queue_view(buy_orders@)) == buys0,
                in_range(working_view(working@)),
            decreases buy_orders.len(),
        {
            let ghost before = working_view(working@);
            let ghost queue = queue_view(buy_orders@);
            let order = buy_orders.pop_front().unwrap();
            proof {
                order.lemma_qty_in_range();
                assert(queue_view(buy_orders@) =~= queue.drop_first());
                assert(queue[0] == order@);
            }
            working.push_back(Resting { order, filled: 0 });
            proof {
                let entry = Working { order: order@, filled: 0 };
                assert(working_view(working@) =~= before.push(entry));
                assert(before.push(entry) + fresh(queue.drop_first()) =~= before + fresh(queue));
            }
        }
        proof {
            assert(working_view(working@) + fresh(queue_view(buy_orders@)) =~= working_view(
                working@,
            ));
            assert(executions(fills@) =~= Seq::<FillView>::empty());
        }
        let mut kept: VecDeque<OrderSingle> = VecDeque::new();
        assert(queue_view(kept@) =~= Seq::<OrderView>::empty());
        while sell_orders.len() > 0
            invariant
                in_range(working_view(working@)),
                total as nat == total_qty(orders_of(working_view(working@))),
                ids_generated(fills@),
                executions(fills@) + pro_fills(queue_view(sell_orders@), working_view(working@))
                    == pro_fills(sells0, buys0),
                pro_left(queue_view(sell_orders@), working_view(working@)) == pro_left(
                    sells0,
                    buys0,
                ),
                queue_view(kept@) + pro_sells(queue_view(sell_orders@), working_view(working@))
                    == pro_sells(sells0, buys0),
            decreases sell_orders.len(),
        {
            let ghost queue = queue_view(sell_orders@);
            let ghost buys = working_view(working@);
            let ghost fills_before = executions(fills@);
            let ghost kept_before = queue_view(kept@);
            let mut sell_order = sell_orders.pop_front().unwrap();
            proof {
                assert(queue_view(sell_orders@) =~= queue.drop_first());
                assert(queue[0] == sell_order@);
            }
            let ghost sell = sell_order@;
            let filled = self.distribute(&sell_order, &mut working, total, &mut fills);
            total = total - filled as u128;
            proof {
                let total = total_qty(orders_of(buys));
                let round = round_fills(sell, 0, buys, total);
                let tail = pro_fills(queue.drop_first(), working_view(working@));
                assert((fills_before + round) + tail =~= fills_before + (round + tail));
            }
            if filled < sell_order.qty() {
                let left = sell_order.qty() - filled;
                sell_order.set_qty(left);
                kept.push_back(sell_order);
                proof {
                    let one = seq![sell.with_qty((sell.qty - filled) as nat)];
                    let tail = pro_sells(queue.drop_first(), working_view(working@));
                    assert(queue_view(kept@) =~= kept_before + one);
                    assert((kept_before + one) + tail =~= kept_before + (one + tail));
                }
            }
        }
        proof {
            assert(executions(fills@) + Seq::<FillView>::empty() =~= executions(fills@));
            assert(queue_view(kept@) + Seq::<OrderView>::empty() =~= queue_view(kept@));
        }
        let ghost left = working_view(working@);
        assert(queue_view(buy_orders@) + orders_of(left) =~= orders_of(left));
        while working.len() > 0
            invariant
                queue_view(buy_orders@) + orders_of(working_view(working@)) == orders_of(left),
            decreases working.len(),
        {
            let ghost before = queue_view(buy_orders@);
            let ghost queue = working_view(working@);
            let resting = working.pop_front().unwrap();
            proof {
                assert(working_view(working@) =~= queue.drop_first());
                assert(queue[0] == resting@);
            }
            buy_orders.push_back(resting.order);
            proof {
                assert(queue_view(buy_orders@) =~= before.push(resting@.order));
                assert(before.push(resting@.order) + orders_of(queue.drop_first()) =~= before
                    + orders_of(queue));
            }
        }
        proof {
            assert(queue_view(buy_orders@) + orders_of(working_view(working@)) =~= queue_view(
                buy_orders@,
            ));
        }
        *sell_orders = kept;
        fills
    }

}

impl Matcher for ProrataMatcher {
    open spec fn fills_of(&self, book: BookView) -> Seq<FillView> {
        prorata_fills(book.buy, book.sell)
    }

    open spec fn book_after(&self, book: BookView) -> BookView {
        prorata_book(book)
    }

    /// Matches the book level by level, in the order of the buy levels: the
    /// buy queue of a level is matched against the sell queue at the same
    /// price by [`ProrataMatcher::proportional_match`]. Returns the fills; the
    /// book keeps what was not executed, without the levels of which nothing
    /// is left.
    fn match_order_book(&mut self, order_book: &mut OrderBook) -> (fills: Vec<Fill>) {
        let buy_map = order_book.get_orders_for(Side::Buy);
        let mut sell_map = order_book.get_orders_for(Side::Sell);
        let mut all_fills: Vec<Fill> = Vec::new();
        let mut new_buy = OrderMap::new();
        let ghost sell0 = sell_map@;
        let ghost book0 = order_book@;
        let mut i: usize = 0;
        assert(buy_map@.skip(0) =~= buy_map@);
        assert(executions(all_fills@) =~= Seq::<FillView>::empty());
        while i < buy_map.len()
            invariant
                i <= buy_map@.len(),
                levels_wf(buy_map@, Side::Buy),
                ids_generated(all_fills@),
                forall|j: int|
                    0 <= j < new_buy@.len() ==> has_key(
                        buy_map@.take(i as int),
                        (#[trigger] new_buy@[j]).key,
                    ),
                executions(all_fills@) + prorata_fills(buy_map@.skip(i as int), sell_map@)
                    == prorata_fills(buy_map@, sell0),
                new_buy@ + prorata_buy(buy_map@.skip(i as int), sell_map@) == prorata_buy(
                    buy_map@,
                    sell0,
                ),
                prorata_sell(buy_map@.skip(i as int), sell_map@) == prorata_sell(buy_map@, sell0),
            decreases buy_map@.len() - i,
        {
            let key = buy_map.key_at(i);
            let mut buy_orders = clone_queue(buy_map.queue_at(i));
            let ghost fills_before = executions(all_fills@);
            let ghost buy_before = new_buy@;
            let ghost sell_before = sell_map@;
            let ghost buys = fresh(buy_map@[i as int].orders);
            proof {
                assert(buy_map@.skip(i as int)[0] == buy_map@[i as int]);
                assert(buy_map@.skip(i as int).drop_first() =~= buy_map@.skip(i + 1));
                assert(orders_of(buys) =~= buy_map@[i as int].orders);
            }
            let found = sell_map.get(key);
            if found.is_some() {
                let mut sell_orders = clone_queue(found.unwrap());
                let mut fills = self.proportional_match(&mut buy_orders, &mut sell_orders);
                let ghost sub = executions(fills@);
                let ghost earlier = all_fills@;
                let ghost added = fills@;
                all_fills.append(&mut fills);
                proof {
                    assert forall|j: int| 0 <= j < all_fills@.len() implies has_generated_ids(
                        #[trigger] all_fills@[j]@,
                    ) by {
                        if j < earlier.len() {
                            assert(all_fills@[j] == earlier[j]);
                        } else {
                            assert(all_fills@[j] == added[j - earlier.len()]);
                        }
                    }
                    assert(executions(all_fills@) =~= fills_before + sub);
                }
                if sell_orders.len() == 0 {
                    sell_map.remove(key);
                } else {
                    sell_map.insert(key.clone(), sell_orders);
                }
                proof {
                    let tail = prorata_fills(buy_map@.skip(i + 1), sell_map@);
                    assert((fills_before + sub) + tail =~= fills_before + (sub + tail));
                }
            } else {
                proof {
                    assert(pro_fills(orders_at(sell_before, key@), buys) =~= Seq::<
                        FillView,
                    >::empty());
                    let tail = prorata_fills(buy_map@.skip(i + 1), sell_map@);
                    assert(fills_before + (Seq::<FillView>::empty() + tail) =~= fills_before
                        + tail);
                }
            }
            if buy_orders.len() > 0 {
                proof {
                    if has_key(new_buy@, key@) {
                        let j = choose|j: int|
                            0 <= j < new_buy@.len() && (#[trigger] new_buy@[j]).key == key@;
                        assert(has_key(buy_map@.take(i as int), new_buy@[j].key));
                        let k = choose|k: int|
                            0 <= k < buy_map@.take(i as int).len() && (#[trigger] buy_map@.take(
                                i as int,
                            )[k]).key == key@;
                        assert(buy_map@[k].key != buy_map@[i as int].key);
                    }
                }
                new_buy.insert(key.clone(), buy_orders);
                proof {
                    let one = seq![LevelView { key: key@, orders: queue_view(buy_orders@) }];
                    assert(new_buy@ =~= buy_before + one);
                    let rest = prorata_buy(buy_map@.skip(i + 1), sell_map@);
                    assert((buy_before + one) + rest =~= buy_before + (one + rest));
                }
            }
            proof {
                assert forall|j: int| 0 <= j < new_buy@.len() implies has_key(
                    buy_map@.take(i + 1),
                    (#[trigger] new_buy@[j]).key,
                ) by {
                    if j < buy_before.len() {
                        assert(new_buy@[j] == buy_before[j]);
                        let k = choose|k: int|
                            0 <= k < buy_map@.take(i as int).len() && (#[trigger] buy_map@.take(
                                i as int,
                            )[k]).key == buy_before[j].key;
                        assert(buy_map@.take(i + 1)[k].key == buy_before[j].key);
                    } else {
                        assert(buy_map@.take(i + 1)[i as int].key == key@);
                    }
                }
            }
            i += 1;
        }
        proof {
            assert(new_buy@ + Seq::<LevelView>::empty() =~= new_buy@);
            assert(executions(all_fills@) + Seq::<FillView>::empty() =~= executions(all_fills@));
            lemma_prorata_book_wf(book0);
            lemma_prorata_fills(book0.buy, book0.sell);
            lemma_prorata_sides(book0.buy, book0.sell);
        }
        order_book.update_order_book(new_buy, Side::Buy);
        order_book.update_order_book(sell_map, Side::Sell);
        all_fills
    }
}

} // verus!
