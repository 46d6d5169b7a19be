//! How the executed quantity of an order grows through a match. Where no
//! identifier occurs twice, the executed quantity that a fill of a pro-rata
//! match reports is the sum of what the fills of its order have executed up
//! to and with this fill; in a first-in-first-out match that holds of the
//! client fills.

use crate::matchers::fifo_matcher::{consume, execution_pair, fifo_fills, scan_fills};
use crate::matchers::levels::{
    fifo_fills_by_level, lemma_fifo_fills_by_level, lemma_prorata_fills_by_level, level_fills,
    prorata_fills_by_level,
};
use crate::matchers::prorata_matcher::{
    fresh, orders_of, pro_fills, prorata_fills, round_fills, round_left, share, Working,
};
use crate::matchers::reports::lemma_scan_fills;
use crate::model::book::{book_wf, orders_at, total_qty, BookView, LevelView};
use crate::model::domain::{execution, FillView, OrderView};
use vstd::prelude::*;

verus! {

/// The sum of the quantities of the fills of `fills` that report on the
/// order `id`.
pub open spec fn qty_for(fills: Seq<FillView>, id: Seq<char>) -> nat
    decreases fills.len(),
{
    if fills.len() == 0 {
        0
    } else {
        qty_for(fills.drop_last(), id) + if fills.last().cl_ord_id == id {
            fills.last().qty
        } else {
            0
        }
    }
}

/// Whether the executed quantity that each fill of `fills` reports is the
/// sum of what the fills of its order have executed up to and with it, where
/// the fills `past` come before `fills`.
pub open spec fn cum_is_sum_after(past: Seq<FillView>, fills: Seq<FillView>) -> bool {
    forall|j: int|
        0 <= j < fills.len() ==> (#[trigger] fills[j]).cum_qty == qty_for(
            past + fills.take(j + 1),
            fills[j].cl_ord_id,
        )
}

/// Whether the executed quantity that each fill of `fills` reports is the
/// sum of what the fills of its order have executed up to and with it.
pub open spec fn cum_is_sum(fills: Seq<FillView>) -> bool {
    forall|j: int|
        0 <= j < fills.len() ==> (#[trigger] fills[j]).cum_qty == qty_for(
            fills.take(j + 1),
            fills[j].cl_ord_id,
        )
}

/// Whether none of the buy orders `buys` has the identifier `id`.
pub open spec fn fresh_in(id: Seq<char>, buys: Seq<Working>) -> bool {
    forall|i: int| 0 <= i < buys.len() ==> (#[trigger] buys[i]).order.cl_ord_id != id
}

/// Whether no identifier occurs twice among the buy orders `buys`.
pub open spec fn distinct_buys(buys: Seq<Working>) -> bool
    decreases buys.len(),
{
    buys.len() == 0 || (fresh_in(buys[0].order.cl_ord_id, buys.drop_first()) && distinct_buys(
        buys.drop_first(),
    ))
}

/// Whether none of the orders `queue` has the identifier `id`.
pub open spec fn absent_from(id: Seq<char>, queue: Seq<OrderView>) -> bool {
    forall|k: int| 0 <= k < queue.len() ==> (#[trigger] queue[k]).cl_ord_id != id
}

/// Whether no identifier occurs twice among the orders `queue`.
pub open spec fn distinct_ids(queue: Seq<OrderView>) -> bool
    decreases queue.len(),
{
    queue.len() == 0 || (absent_from(queue[0].cl_ord_id, queue.drop_first()) && distinct_ids(
        queue.drop_first(),
    ))
}

/// Whether no sell order of `sells` has the identifier of a buy order of
/// `buys`.
pub open spec fn apart(sells: Seq<OrderView>, buys: Seq<Working>) -> bool {
    forall|k: int| 0 <= k < sells.len() ==> fresh_in((#[trigger] sells[k]).cl_ord_id, buys)
}

/// Whether what is executed of each buy order of `buys` is what the fills
/// `past` report for it.
pub open spec fn in_step(past: Seq<FillView>, buys: Seq<Working>) -> bool {
    forall|i: int|
        0 <= i < buys.len() ==> (#[trigger] buys[i]).filled == qty_for(
            past,
            buys[i].order.cl_ord_id,
        )
}

/// Whether the fills `past` report nothing for the sell orders `sells`.
pub open spec fn untouched(past: Seq<FillView>, sells: Seq<OrderView>) -> bool {
    forall|k: int| 0 <= k < sells.len() ==> qty_for(past, (#[trigger] sells[k]).cl_ord_id) == 0
}

/// Whether the fills `after` report for the order `id` what the fills
/// `before` report.
pub open spec fn same_for(before: Seq<FillView>, after: Seq<FillView>, id: Seq<char>) -> bool {
    qty_for(after, id) == qty_for(before, id)
}

/// What two lists of fills, one after the other, report for an order adds up.
pub proof fn lemma_qty_for_concat(first: Seq<FillView>, second: Seq<FillView>, id: Seq<char>)
    ensures
        qty_for(first + second, id) == qty_for(first, id) + qty_for(second, id),
    decreases second.len(),
{
    if second.len() == 0 {
        assert(first + second =~= first);
    } else {
        assert((first + second).drop_last() =~= first + second.drop_last());
        lemma_qty_for_concat(first, second.drop_last(), id);
    }
}

/// What a pair of fills reports for an order.
proof fn lemma_qty_for_pair(client: FillView, exchange: FillView, id: Seq<char>)
    ensures
        qty_for(seq![client, exchange], id) == (if client.cl_ord_id == id {
            client.qty
        } else {
            0
        }) + (if exchange.cl_ord_id == id {
            exchange.qty
        } else {
            0
        }),
        qty_for(seq![client], id) == (if client.cl_ord_id == id {
            client.qty
        } else {
            0
        }),
{
    let pair = seq![client, exchange];
    let one = seq![client];
    let none = Seq::<FillView>::empty();
    assert(pair.drop_last() =~= one);
    assert(one.drop_last() =~= none);
    assert(pair.last() == exchange);
    assert(one.last() == client);
    assert(qty_for(none, id) == 0);
    assert(qty_for(one, id) == qty_for(none, id) + if client.cl_ord_id == id {
        client.qty
    } else {
        0
    });
    assert(qty_for(pair, id) == qty_for(one, id) + if exchange.cl_ord_id == id {
        exchange.qty
    } else {
        0
    });
}

/// A round keeps the buy orders apart: the orders that are left have
/// identifiers of the orders that were there, each once.
pub proof fn lemma_round_left_distinct(sell_qty: nat, buys: Seq<Working>, total: nat)
    ensures
        distinct_buys(buys) ==> distinct_buys(round_left(sell_qty, buys, total)),
        forall|id: Seq<char>| #[trigger]
            fresh_in(id, buys) ==> fresh_in(id, round_left(sell_qty, buys, total)),
    decreases buys.len(),
{
    if buys.len() > 0 {
        let head = buys[0];
        let rest = buys.drop_first();
        let qty = share(sell_qty, head.order.qty, total);
        let rest_left = round_left(sell_qty, rest, total);
        let left = round_left(sell_qty, buys, total);
        lemma_round_left_distinct(sell_qty, rest, total);
        assert forall|id: Seq<char>| #[trigger] fresh_in(id, buys) implies fresh_in(id, left) by {
            assert(buys[0].order.cl_ord_id != id);
            assert forall|i: int| 0 <= i < rest.len() implies (#[trigger] rest[i]).order.cl_ord_id
                != id by {
                assert(rest[i] == buys[i + 1]);
            }
            assert(fresh_in(id, rest));
            assert(fresh_in(id, rest_left));
            assert forall|i: int| 0 <= i < left.len() implies (#[trigger] left[i]).order.cl_ord_id
                != id by {
                if qty < head.order.qty {
                    if i > 0 {
                        assert(left[i] == rest_left[i - 1]);
                    }
                } else {
                    assert(left[i] == rest_left[i]);
                }
            }
        }
        if distinct_buys(buys) {
            if qty < head.order.qty {
                assert(left.drop_first() =~= rest_left);
                assert(fresh_in(head.order.cl_ord_id, rest));
                assert(fresh_in(head.order.cl_ord_id, rest_left));
            }
        }
    }
}

/// The fills of one round of a pro-rata match, after the fills `past`, where
/// no buy order shares its identifier with another or with the sell order.
/// Each fill reports as executed the sum of what the fills of its order have
/// executed up to and with it. The buy orders that are left are in step with
/// the fills, and the fills report nothing for orders that took no part.
pub proof fn lemma_round_sums(
    past: Seq<FillView>,
    sell: OrderView,
    ex_cum: nat,
    buys: Seq<Working>,
    total: nat,
)
    requires
        distinct_buys(buys),
        fresh_in(sell.cl_ord_id, buys),
        in_step(past, buys),
        ex_cum == qty_for(past, sell.cl_ord_id),
    ensures
        cum_is_sum_after(past, round_fills(sell, ex_cum, buys, total)),
        in_step(
            past + round_fills(sell, ex_cum, buys, total),
            round_left(sell.qty, buys, total),
        ),
        forall|id: Seq<char>|
            id != sell.cl_ord_id && fresh_in(id, buys) ==> #[trigger] same_for(
                past,
                past + round_fills(sell, ex_cum, buys, total),
                id,
            ),
    decreases buys.len(),
{
    let fills = round_fills(sell, ex_cum, buys, total);
    let left = round_left(sell.qty, buys, total);
    if buys.len() == 0 {
        assert(past + fills =~= past);
    } else {
        let head = buys[0];
        let rest = buys.drop_first();
        let qty = share(sell.qty, head.order.qty, total);
        let client = execution(
            head.order,
            sell.cl_ord_id,
            qty,
            head.filled + qty,
            (head.order.qty - qty) as nat,
        );
        let exchange = execution(
            sell,
            head.order.cl_ord_id,
            qty,
            ex_cum + qty,
            (sell.qty - ex_cum - qty) as nat,
        );
        let pair = seq![client, exchange];
        let later = past + pair;
        let tail = round_fills(sell, ex_cum + qty, rest, total);
        let rest_left = round_left(sell.qty, rest, total);
        let head_id = head.order.cl_ord_id;
        assert(fills == pair + tail);
        assert(past + fills =~= later + tail);
        assert(head_id != sell.cl_ord_id);
        assert(head.filled == qty_for(past, head_id));
        assert forall|id: Seq<char>| true implies qty_for(later, id) == qty_for(past, id) + (
        if id == head_id {
            qty
        } else {
            0
        }) + (if id == sell.cl_ord_id {
            qty
        } else {
            0
        }) by {
            lemma_qty_for_concat(past, pair, id);
            lemma_qty_for_pair(client, exchange, id);
        }
        assert forall|i: int| 0 <= i < rest.len() implies (#[trigger] rest[i]).filled == qty_for(
            later,
            rest[i].order.cl_ord_id,
        ) by {
            assert(rest[i] == buys[i + 1]);
            assert(rest[i].order.cl_ord_id != head_id);
            assert(rest[i].order.cl_ord_id != sell.cl_ord_id);
        }
        assert forall|i: int| 0 <= i < rest.len() implies (#[trigger] rest[i]).order.cl_ord_id
            != sell.cl_ord_id by {
            assert(rest[i] == buys[i + 1]);
        }
        lemma_round_sums(later, sell, ex_cum + qty, rest, total);
        lemma_round_left_distinct(sell.qty, rest, total);
        assert forall|j: int| 0 <= j < fills.len() implies (#[trigger] fills[j]).cum_qty
            == qty_for(past + fills.take(j + 1), fills[j].cl_ord_id) by {
            if j == 0 {
                assert(fills.take(1) =~= seq![client]);
                lemma_qty_for_concat(past, seq![client], head_id);
                lemma_qty_for_pair(client, exchange, head_id);
            } else if j == 1 {
                assert(fills.take(2) =~= pair);
            } else {
                assert(fills[j] == tail[j - 2]);
                assert(past + fills.take(j + 1) =~= later + tail.take(j - 2 + 1));
            }
        }
        assert forall|id: Seq<char>| id != sell.cl_ord_id && fresh_in(id, buys) implies #[trigger]
            same_for(past, past + fills, id) by {
            assert(buys[0].order.cl_ord_id != id);
            assert forall|i: int| 0 <= i < rest.len() implies (#[trigger] rest[i]).order.cl_ord_id
                != id by {
                assert(rest[i] == buys[i + 1]);
            }
            assert(same_for(later, later + tail, id));
        }
        assert forall|i: int| 0 <= i < left.len() implies (#[trigger] left[i]).filled == qty_for(
            past + fills,
            left[i].order.cl_ord_id,
        ) by {
            if qty < head.order.qty {
                if i == 0 {
                    assert(fresh_in(head_id, rest));
                    assert(same_for(later, later + tail, head_id));
                } else {
                    assert(left[i] == rest_left[i - 1]);
                }
            } else {
                assert(left[i] == rest_left[i]);
            }
        }
    }
}

/// The fills of a pro-rata match of two queues, after the fills `past`, where
/// no identifier occurs twice: each fill reports as executed the sum of what
/// the fills of its order have executed up to and with it.
pub proof fn lemma_pro_sums(past: Seq<FillView>, sells: Seq<OrderView>, buys: Seq<Working>)
    requires
        distinct_buys(buys),
        distinct_ids(sells),
        apart(sells, buys),
        in_step(past, buys),
        untouched(past, sells),
    ensures
        cum_is_sum_after(past, pro_fills(sells, buys)),
        forall|id: Seq<char>|
            absent_from(id, sells) && fresh_in(id, buys) ==> #[trigger] same_for(
                past,
                past + pro_fills(sells, buys),
                id,
            ),
    decreases sells.len(),
{
    let fills = pro_fills(sells, buys);
    if sells.len() == 0 {
        assert(past + fills =~= past);
    } else {
        let sell = sells[0];
        let rest = sells.drop_first();
        let total = total_qty(orders_of(buys));
        let round = round_fills(sell, 0, buys, total);
        let next = round_left(sell.qty, buys, total);
        let later = past + round;
        let tail = pro_fills(rest, next);
        assert(fresh_in(sell.cl_ord_id, buys));
        assert(qty_for(past, sell.cl_ord_id) == 0);
        lemma_round_sums(past, sell, 0, buys, total);
        lemma_round_left_distinct(sell.qty, buys, total);
        assert forall|k: int| 0 <= k < rest.len() implies fresh_in(
            (#[trigger] rest[k]).cl_ord_id,
            next,
        ) && qty_for(later, rest[k].cl_ord_id) == 0 by {
            assert(rest[k] == sells[k + 1]);
            assert(fresh_in(sells[k + 1].cl_ord_id, buys));
            assert(rest[k].cl_ord_id != sell.cl_ord_id);
            assert(same_for(past, later, rest[k].cl_ord_id));
            assert(qty_for(past, sells[k + 1].cl_ord_id) == 0);
        }
        lemma_pro_sums(later, rest, next);
        assert(past + fills =~= later + tail);
        assert forall|id: Seq<char>| absent_from(id, sells) && fresh_in(id, buys) implies #[trigger]
            same_for(past, past + fills, id) by {
            assert(sells[0].cl_ord_id != id);
            assert forall|k: int| 0 <= k < rest.len() implies (#[trigger] rest[k]).cl_ord_id
                != id by {
                assert(rest[k] == sells[k + 1]);
            }
            assert(fresh_in(id, next));
            assert(same_for(past, later, id));
            assert(same_for(later, later + tail, id));
        }
        assert forall|j: int| 0 <= j < fills.len() implies (#[trigger] fills[j]).cum_qty
            == qty_for(past + fills.take(j + 1), fills[j].cl_ord_id) by {
            if j < round.len() {
                assert(fills[j] == round[j]);
                assert(fills.take(j + 1) =~= round.take(j + 1));
            } else {
                let m = j - round.len();
                assert(fills[j] == tail[m]);
                assert(past + fills.take(j + 1) =~= later + tail.take(m + 1));
            }
        }
    }
}

/// The buy orders of a queue in which no identifier occurs twice are apart
/// at the start of a match, and in step with no fills.
pub proof fn lemma_fresh_distinct(buys: Seq<OrderView>)
    requires
        distinct_ids(buys),
    ensures
        distinct_buys(fresh(buys)),
        in_step(Seq::<FillView>::empty(), fresh(buys)),
        forall|id: Seq<char>| #[trigger] absent_from(id, buys) ==> fresh_in(id, fresh(buys)),
    decreases buys.len(),
{
    assert forall|id: Seq<char>| #[trigger] absent_from(id, buys) implies fresh_in(
        id,
        fresh(buys),
    ) by {
        assert forall|i: int| 0 <= i < fresh(buys).len() implies (
        #[trigger] fresh(buys)[i]).order.cl_ord_id != id by {
            assert(buys[i].cl_ord_id != id);
        }
    }
    if buys.len() > 0 {
        lemma_fresh_distinct(buys.drop_first());
        assert(fresh(buys).drop_first() =~= fresh(buys.drop_first()));
        assert(absent_from(buys[0].cl_ord_id, buys.drop_first()));
    }
}

/// Whether no sell order of `sells` has the identifier of a buy order of
/// `buys`.
pub open spec fn queues_apart(sells: Seq<OrderView>, buys: Seq<OrderView>) -> bool {
    forall|k: int| 0 <= k < sells.len() ==> absent_from((#[trigger] sells[k]).cl_ord_id, buys)
}

/// The executed quantity through a pro-rata match of two queues in which no
/// identifier occurs twice: each fill reports as executed the sum of the
/// quantities of the fills of its order up to and with this fill. So the
/// executed quantity of an order never falls from one of its fills to the
/// next, and grows by what each fill executes.
pub proof fn lemma_pro_cum_is_sum(sells: Seq<OrderView>, buys: Seq<OrderView>)
    requires
        distinct_ids(sells),
        distinct_ids(buys),
        queues_apart(sells, buys),
    ensures
        cum_is_sum(pro_fills(sells, fresh(buys))),
{
    let none = Seq::<FillView>::empty();
    let fills = pro_fills(sells, fresh(buys));
    lemma_fresh_distinct(buys);
    assert forall|k: int| 0 <= k < sells.len() implies fresh_in(
        (#[trigger] sells[k]).cl_ord_id,
        fresh(buys),
    ) by {
        assert(absent_from(sells[k].cl_ord_id, buys));
    }
    lemma_pro_sums(none, sells, fresh(buys));
    assert forall|j: int| 0 <= j < fills.len() implies (#[trigger] fills[j]).cum_qty == qty_for(
        fills.take(j + 1),
        fills[j].cl_ord_id,
    ) by {
        assert(none + fills.take(j + 1) =~= fills.take(j + 1));
    }
}

/// Whether an order of the buy level `level`, or of the sell queue at its
/// price, has the identifier `id`.
pub open spec fn level_has(id: Seq<char>, level: LevelView, sell: Seq<LevelView>) -> bool {
    !absent_from(id, level.orders) || !absent_from(id, orders_at(sell, level.key))
}

/// Whether no identifier occurs at the buy level `level`, or in the sell
/// queue at its price, and at one of the buy levels `others` or in the sell
/// queue at its price.
pub open spec fn level_apart(level: LevelView, others: Seq<LevelView>, sell: Seq<LevelView>)
    -> bool {
    forall|m: int, id: Seq<char>|
        0 <= m < others.len() && #[trigger] level_has(id, others[m], sell) ==> !level_has(
            id,
            level,
            sell,
        )
}

/// Whether no identifier occurs twice among the orders of the buy levels
/// `buy` and of the sell queues at their prices.
pub open spec fn ids_apart(buy: Seq<LevelView>, sell: Seq<LevelView>) -> bool
    decreases buy.len(),
{
    buy.len() == 0 || {
        &&& distinct_ids(buy[0].orders)
        &&& distinct_ids(orders_at(sell, buy[0].key))
        &&& queues_apart(orders_at(sell, buy[0].key), buy[0].orders)
        &&& level_apart(buy[0], buy.drop_first(), sell)
        &&& ids_apart(buy.drop_first(), sell)
    }
}

/// Whether the fills `past` report nothing for the orders of the buy levels
/// `buy` and of the sell queues at their prices.
pub open spec fn silent_on(past: Seq<FillView>, buy: Seq<LevelView>, sell: Seq<LevelView>)
    -> bool {
    forall|m: int, id: Seq<char>|
        0 <= m < buy.len() && #[trigger] level_has(id, buy[m], sell) ==> qty_for(past, id) == 0
}

/// The fills of a pro-rata match, level by level, after the fills `past`,
/// where no identifier occurs twice: each fill reports as executed the sum of
/// what the fills of its order have executed up to and with it.
pub proof fn lemma_by_level_sums(past: Seq<FillView>, buy: Seq<LevelView>, sell: Seq<LevelView>)
    requires
        ids_apart(buy, sell),
        silent_on(past, buy, sell),
    ensures
        cum_is_sum_after(past, prorata_fills_by_level(buy, sell)),
    decreases buy.len(),
{
    let fills = prorata_fills_by_level(buy, sell);
    if buy.len() > 0 {
        let level = buy[0];
        let rest = buy.drop_first();
        let sells = orders_at(sell, level.key);
        let buys = fresh(level.orders);
        let first = pro_fills(sells, buys);
        let later = past + first;
        let tail = prorata_fills_by_level(rest, sell);
        lemma_fresh_distinct(level.orders);
        assert forall|k: int| 0 <= k < sells.len() implies fresh_in(
            (#[trigger] sells[k]).cl_ord_id,
            buys,
        ) && qty_for(past, sells[k].cl_ord_id) == 0 by {
            assert(absent_from(sells[k].cl_ord_id, level.orders));
            assert(level_has(sells[k].cl_ord_id, buy[0], sell));
        }
        assert forall|i: int| 0 <= i < buys.len() implies (#[trigger] buys[i]).filled == qty_for(
            past,
            buys[i].order.cl_ord_id,
        ) by {
            assert(level.orders[i].cl_ord_id == buys[i].order.cl_ord_id);
            assert(level_has(buys[i].order.cl_ord_id, buy[0], sell));
        }
        lemma_pro_sums(past, sells, buys);
        assert forall|m: int, id: Seq<char>|
            0 <= m < rest.len() && #[trigger] level_has(id, rest[m], sell) implies qty_for(
            later,
            id,
        ) == 0 by {
            assert(rest[m] == buy[m + 1]);
            assert(level_has(id, buy[m + 1], sell));
            assert(!level_has(id, level, sell));
            assert(fresh_in(id, buys));
            assert(same_for(past, later, id));
        }
        lemma_by_level_sums(later, rest, sell);
        assert forall|j: int| 0 <= j < fills.len() implies (#[trigger] fills[j]).cum_qty
            == qty_for(past + fills.take(j + 1), fills[j].cl_ord_id) by {
            if j < first.len() {
                assert(fills[j] == first[j]);
                assert(fills.take(j + 1) =~= first.take(j + 1));
            } else {
                let m = j - first.len();
                assert(fills[j] == tail[m]);
                assert(past + fills.take(j + 1) =~= later + tail.take(m + 1));
            }
        }
    }
}

/// The executed quantity through a pro-rata match of a well formed book in
/// which no identifier occurs twice: each fill reports as executed the sum of
/// the quantities of the fills of its order up to and with this fill. So the
/// executed quantity of an order never falls from one of its fills to the
/// next, and grows by what each fill executes.
pub proof fn lemma_prorata_cum_is_sum(book: BookView)
    requires
        book_wf(book),
        ids_apart(book.buy, book.sell),
    ensures
        cum_is_sum(prorata_fills(book.buy, book.sell)),
{
    let none = Seq::<FillView>::empty();
    let fills = prorata_fills(book.buy, book.sell);
    lemma_prorata_fills_by_level(book.buy, book.sell);
    lemma_by_level_sums(none, book.buy, book.sell);
    assert forall|j: int| 0 <= j < fills.len() implies (#[trigger] fills[j]).cum_qty == qty_for(
        fills.take(j + 1),
        fills[j].cl_ord_id,
    ) by {
        assert(none + fills.take(j + 1) =~= fills.take(j + 1));
    }
}

/// Whether the executed quantity that each client fill of `fills` reports is
/// the sum of what the fills of its order have executed up to and with it,
/// where the fills `past` come before `fills`.
pub open spec fn client_cum_is_sum_after(past: Seq<FillView>, fills: Seq<FillView>) -> bool {
    forall|j: int|
        0 <= j < fills.len() && j % 2 == 0 ==> (#[trigger] fills[j]).cum_qty == qty_for(
            past + fills.take(j + 1),
            fills[j].cl_ord_id,
        )
}

/// Whether the executed quantity that each client fill of `fills` reports is
/// the sum of what the fills of its order have executed up to and with it.
pub open spec fn client_cum_is_sum(fills: Seq<FillView>) -> bool {
    forall|j: int|
        0 <= j < fills.len() && j % 2 == 0 ==> (#[trigger] fills[j]).cum_qty == qty_for(
            fills.take(j + 1),
            fills[j].cl_ord_id,
        )
}

/// An identifier that no order of a queue has, no order has of what is left
/// of the queue.
pub proof fn lemma_consume_absent(queue: Seq<OrderView>, amount: nat, id: Seq<char>)
    requires
        absent_from(id, queue),
    ensures
        absent_from(id, consume(queue, amount)),
    decreases queue.len(),
{
    if queue.len() > 0 {
        let rest = queue.drop_first();
        assert forall|k: int| 0 <= k < rest.len() implies (#[trigger] rest[k]).cl_ord_id != id by {
            assert(rest[k] == queue[k + 1]);
        }
        if amount < queue[0].qty {
            let after = consume(queue, amount);
            assert forall|k: int| 0 <= k < after.len() implies (#[trigger] after[k]).cl_ord_id
                != id by {
                assert(queue[k].cl_ord_id != id);
            }
        } else if amount > queue[0].qty {
            lemma_consume_absent(rest, (amount - queue[0].qty) as nat, id);
        }
    }
}

/// The fills of matching one order against a queue, after the fills `past`,
/// where no order of the queue has the identifier of the order: each client
/// fill reports as executed the sum of what the fills of the order have
/// executed up to and with it, and the fills report nothing for orders that
/// took no part.
pub proof fn lemma_scan_sums(
    past: Seq<FillView>,
    client: OrderView,
    cum: nat,
    sells: Seq<OrderView>,
)
    requires
        absent_from(client.cl_ord_id, sells),
        cum == qty_for(past, client.cl_ord_id),
        cum <= client.qty,
    ensures
        client_cum_is_sum_after(past, scan_fills(client, cum, sells)),
        forall|id: Seq<char>|
            id != client.cl_ord_id && absent_from(id, sells) ==> #[trigger] same_for(
                past,
                past + scan_fills(client, cum, sells),
                id,
            ),
    decreases sells.len(),
{
    let fills = scan_fills(client, cum, sells);
    if sells.len() == 0 {
        assert(past + fills =~= past);
    } else {
        let leaves = (client.qty - cum) as nat;
        let head = sells[0];
        let rest = sells.drop_first();
        let qty = if leaves <= head.qty {
            leaves
        } else {
            head.qty
        };
        let pair = execution_pair(client, cum, head, qty);
        let later = past + pair;
        let tail = if leaves <= head.qty {
            Seq::<FillView>::empty()
        } else {
            scan_fills(client, cum + head.qty, rest)
        };
        assert(pair =~= seq![pair[0], pair[1]]);
        assert(fills =~= pair + tail);
        assert(past + fills =~= later + tail);
        assert(head.cl_ord_id != client.cl_ord_id);
        assert forall|id: Seq<char>| true implies qty_for(later, id) == qty_for(past, id) + (
        if id == client.cl_ord_id {
            qty
        } else {
            0
        }) + (if id == head.cl_ord_id {
            qty
        } else {
            0
        }) by {
            lemma_qty_for_concat(past, pair, id);
            lemma_qty_for_pair(pair[0], pair[1], id);
        }
        assert forall|k: int| 0 <= k < rest.len() implies (#[trigger] rest[k]).cl_ord_id
            != client.cl_ord_id by {
            assert(rest[k] == sells[k + 1]);
        }
        if leaves > head.qty {
            lemma_scan_sums(later, client, cum + head.qty, rest);
        } else {
            assert(later + tail =~= later);
        }
        assert forall|j: int| 0 <= j < fills.len() && j % 2 == 0 implies (
        #[trigger] fills[j]).cum_qty == qty_for(past + fills.take(j + 1), fills[j].cl_ord_id) by {
            if j == 0 {
                assert(fills.take(1) =~= seq![pair[0]]);
                lemma_qty_for_concat(past, seq![pair[0]], client.cl_ord_id);
                lemma_qty_for_pair(pair[0], pair[1], client.cl_ord_id);
            } else {
                assert(fills[j] == tail[j - 2]);
                assert(past + fills.take(j + 1) =~= later + tail.take(j - 2 + 1));
            }
        }
        assert forall|id: Seq<char>|
            id != client.cl_ord_id && absent_from(id, sells) implies #[trigger] same_for(
            past,
            past + fills,
            id,
        ) by {
            assert(sells[0].cl_ord_id != id);
            assert forall|k: int| 0 <= k < rest.len() implies (#[trigger] rest[k]).cl_ord_id
                != id by {
                assert(rest[k] == sells[k + 1]);
            }
            if leaves > head.qty {
                assert(same_for(later, later + tail, id));
            }
        }
    }
}

/// The fills of matching the buy queue of a price level against its sell
/// queue, after the fills `past`, where no identifier occurs twice: each
/// client fill reports as executed the sum of what the fills of its order
/// have executed up to and with it.
pub proof fn lemma_level_sums(past: Seq<FillView>, buys: Seq<OrderView>, sells: Seq<OrderView>)
    requires
        distinct_ids(buys),
        queues_apart(sells, buys),
        forall|i: int| 0 <= i < buys.len() ==> qty_for(past, (#[trigger] buys[i]).cl_ord_id) == 0,
    ensures
        client_cum_is_sum_after(past, level_fills(buys, sells)),
        forall|id: Seq<char>|
            absent_from(id, sells) && absent_from(id, buys) ==> #[trigger] same_for(
                past,
                past + level_fills(buys, sells),
                id,
            ),
    decreases buys.len(),
{
    let fills = level_fills(buys, sells);
    if buys.len() == 0 {
        assert(past + fills =~= past);
    } else {
        let head = buys[0];
        let rest = buys.drop_first();
        let first = scan_fills(head, 0, sells);
        let after = consume(sells, head.qty);
        let later = past + first;
        let tail = level_fills(rest, after);
        assert(past + fills =~= later + tail);
        assert(absent_from(head.cl_ord_id, sells)) by {
            assert forall|k: int| 0 <= k < sells.len() implies (#[trigger] sells[k]).cl_ord_id
                != head.cl_ord_id by {
                assert(absent_from(sells[k].cl_ord_id, buys));
                assert(buys[0].cl_ord_id != sells[k].cl_ord_id);
            }
        }
        lemma_scan_sums(past, head, 0, sells);
        assert forall|k: int| 0 <= k < after.len() implies absent_from(
            (#[trigger] after[k]).cl_ord_id,
            rest,
        ) by {
            let id = after[k].cl_ord_id;
            assert forall|i: int| 0 <= i < rest.len() implies (#[trigger] rest[i]).cl_ord_id
                != id by {
                assert(rest[i] == buys[i + 1]);
                assert(absent_from(buys[i + 1].cl_ord_id, sells)) by {
                    assert forall|m: int| 0 <= m < sells.len() implies (
                    #[trigger] sells[m]).cl_ord_id != buys[i + 1].cl_ord_id by {
                        assert(absent_from(sells[m].cl_ord_id, buys));
                    }
                }
                lemma_consume_absent(sells, head.qty, buys[i + 1].cl_ord_id);
            }
        }
        assert forall|i: int| 0 <= i < rest.len() implies qty_for(
            later,
            (#[trigger] rest[i]).cl_ord_id,
        ) == 0 by {
            let id = rest[i].cl_ord_id;
            assert(rest[i] == buys[i + 1]);
            assert(id != head.cl_ord_id);
            assert(absent_from(id, sells)) by {
                assert forall|m: int| 0 <= m < sells.len() implies (#[trigger] sells[m]).cl_ord_id
                    != id by {
                    assert(absent_from(sells[m].cl_ord_id, buys));
                }
            }
            assert(same_for(past, later, id));
            assert(qty_for(past, buys[i + 1].cl_ord_id) == 0);
        }
        lemma_level_sums(later, rest, after);
        lemma_scan_fills(head, 0, sells);
        assert forall|j: int| 0 <= j < fills.len() && j % 2 == 0 implies (
        #[trigger] fills[j]).cum_qty == qty_for(past + fills.take(j + 1), fills[j].cl_ord_id) by {
            if j < first.len() {
                assert(fills[j] == first[j]);
                assert(fills.take(j + 1) =~= first.take(j + 1));
            } else {
                let m = j - first.len();
                assert(fills[j] == tail[m]);
                assert(past + fills.take(j + 1) =~= later + tail.take(m + 1));
            }
        }
        assert forall|id: Seq<char>|
            absent_from(id, sells) && absent_from(id, buys) implies #[trigger] same_for(
            past,
            past + fills,
            id,
        ) by {
            assert(buys[0].cl_ord_id != id);
            assert forall|i: int| 0 <= i < rest.len() implies (#[trigger] rest[i]).cl_ord_id
                != id by {
                assert(rest[i] == buys[i + 1]);
            }
            lemma_consume_absent(sells, head.qty, id);
            assert(same_for(past, later, id));
            assert(same_for(later, later + tail, id));
        }
    }
}

/// The fills of a first-in-first-out match, level by level, after the fills
/// `past`, where no identifier occurs twice: each client fill reports as
/// executed the sum of what the fills of its order have executed up to and
/// with it.
pub proof fn lemma_fifo_by_level_sums(
    past: Seq<FillView>,
    buy: Seq<LevelView>,
    sell: Seq<LevelView>,
)
    requires
        ids_apart(buy, sell),
        silent_on(past, buy, sell),
    ensures
        client_cum_is_sum_after(past, fifo_fills_by_level(buy, sell)),
    decreases buy.len(),
{
    let fills = fifo_fills_by_level(buy, sell);
    if buy.len() > 0 {
        let level = buy[0];
        let rest = buy.drop_first();
        let sells = orders_at(sell, level.key);
        let first = level_fills(level.orders, sells);
        let later = past + first;
        let tail = fifo_fills_by_level(rest, sell);
        assert forall|i: int| 0 <= i < level.orders.len() implies qty_for(
            past,
            (#[trigger] level.orders[i]).cl_ord_id,
        ) == 0 by {
            assert(level_has(level.orders[i].cl_ord_id, buy[0], sell));
        }
        lemma_level_sums(past, level.orders, sells);
        assert forall|m: int, id: Seq<char>|
            0 <= m < rest.len() && #[trigger] level_has(id, rest[m], sell) implies qty_for(
            later,
            id,
        ) == 0 by {
            assert(rest[m] == buy[m + 1]);
            assert(level_has(id, buy[m + 1], sell));
            assert(!level_has(id, level, sell));
            assert(same_for(past, later, id));
        }
        lemma_fifo_by_level_sums(later, rest, sell);
        assert(first.len() % 2 == 0) by {
            lemma_level_fills_even(level.orders, sells);
        }
        assert forall|j: int| 0 <= j < fills.len() && j % 2 == 0 implies (
        #[trigger] fills[j]).cum_qty == qty_for(past + fills.take(j + 1), fills[j].cl_ord_id) by {
            if j < first.len() {
                assert(fills[j] == first[j]);
                assert(fills.take(j + 1) =~= first.take(j + 1));
            } else {
                let m = j - first.len();
                assert(fills[j] == tail[m]);
                assert(past + fills.take(j + 1) =~= later + tail.take(m + 1));
            }
        }
    }
}

/// The fills of matching two queues come in an even number.
pub proof fn lemma_level_fills_even(buys: Seq<OrderView>, sells: Seq<OrderView>)
    ensures
        level_fills(buys, sells).len() % 2 == 0,
    decreases buys.len(),
{
    if buys.len() > 0 {
        lemma_scan_fills(buys[0], 0, sells);
        lemma_level_fills_even(buys.drop_first(), consume(sells, buys[0].qty));
    }
}

/// The executed quantity of the buy orders through a first-in-first-out
/// match of a well formed book in which no identifier occurs twice: each
/// client fill reports as executed the sum of the quantities of the fills of
/// its order up to and with this fill. For the sell orders the count starts
/// anew with each buy order that reaches them.
pub proof fn lemma_fifo_client_cum_is_sum(book: BookView)
    requires
        book_wf(book),
        ids_apart(book.buy, book.sell),
    ensures
        client_cum_is_sum(fifo_fills(book.buy, book.sell)),
{
    let none = Seq::<FillView>::empty();
    let fills = fifo_fills(book.buy, book.sell);
    lemma_fifo_fills_by_level(book.buy, book.sell);
    lemma_fifo_by_level_sums(none, book.buy, book.sell);
    assert forall|j: int| 0 <= j < fills.len() && j % 2 == 0 implies (#[trigger] fills[j]).cum_qty
        == qty_for(fills.take(j + 1), fills[j].cl_ord_id) by {
        assert(none + fills.take(j + 1) =~= fills.take(j + 1));
    }
}

} // verus!
