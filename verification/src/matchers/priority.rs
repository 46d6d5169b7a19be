//! Time priority, said in one sentence: at each price, a first-in-first-out
//! match takes the volume that both sides can cover from the head of the buy
//! queue and from the head of the sell queue.

use crate::matchers::fifo_matcher::{
    consume, fifo_book, fifo_buy, fifo_sell, lemma_after_scan_wf, lemma_fifo_buy_wf,
    lemma_queue_sell_wf, levels_after_scan, min_qty, queue_left, queue_sell,
};
use crate::matchers::residuals::{lemma_consume_total, lemma_level_residual};
use crate::model::book::{
    all_rest_at, book_wf, has_key, key_kept, lemma_drop_first_wf, lemma_has_position,
    lemma_levels_settle_lookup, lemma_orders_at_rest, lemma_position_of, lemma_total_qty_first,
    levels_wf, orders_at, position_of, rests_at, total_qty, BookView, LevelView,
};
use crate::model::domain::{KeyView, OrderView, Side};
use vstd::prelude::*;

verus! {

/// Whether every order of `queue` has a quantity above zero.
pub open spec fn all_positive(queue: Seq<OrderView>) -> bool {
    forall|k: int| 0 <= k < queue.len() ==> (#[trigger] queue[k]).qty > 0
}

/// The volume that a buy queue and a sell queue at one price can both cover.
pub open spec fn matched(buys: Seq<OrderView>, sells: Seq<OrderView>) -> nat {
    min_qty(total_qty(buys), total_qty(sells))
}

/// What is left of the queue `buys` after its orders were matched, head
/// first, against the queue `sells`.
pub open spec fn level_left(buys: Seq<OrderView>, sells: Seq<OrderView>) -> Seq<OrderView>
    decreases buys.len(),
{
    if buys.len() == 0 {
        Seq::empty()
    } else {
        let filled = min_qty(buys[0].qty, total_qty(sells));
        let rest = level_left(buys.drop_first(), consume(sells, buys[0].qty));
        if filled < buys[0].qty {
            seq![buys[0].with_qty((buys[0].qty - filled) as nat)] + rest
        } else {
            rest
        }
    }
}

/// What is left of the queue `sells` after the orders of `buys` were
/// matched against it.
pub open spec fn level_sells(buys: Seq<OrderView>, sells: Seq<OrderView>) -> Seq<OrderView>
    decreases buys.len(),
{
    if buys.len() == 0 {
        sells
    } else {
        level_sells(buys.drop_first(), consume(sells, buys[0].qty))
    }
}

/// The orders after the head of a queue of positive orders are positive.
proof fn lemma_positive_rest(queue: Seq<OrderView>)
    requires
        all_positive(queue),
        queue.len() > 0,
    ensures
        all_positive(queue.drop_first()),
{
    assert forall|k: int| 0 <= k < queue.drop_first().len() implies (
    #[trigger] queue.drop_first()[k]).qty > 0 by {
        assert(queue[k + 1].qty > 0);
    }
}

/// Taking nothing from a queue of positive orders leaves the queue.
pub proof fn lemma_consume_nothing(queue: Seq<OrderView>)
    requires
        all_positive(queue),
    ensures
        consume(queue, 0) == queue,
{
    if queue.len() > 0 {
        assert(queue[0].qty > 0);
        assert(queue[0].with_qty(queue[0].qty) == queue[0]);
        assert(consume(queue, 0) =~= queue);
    }
}

/// What is left of a queue of positive orders is a queue of positive orders.
pub proof fn lemma_consume_positive(queue: Seq<OrderView>, amount: nat)
    requires
        all_positive(queue),
    ensures
        all_positive(consume(queue, amount)),
    decreases queue.len(),
{
    if queue.len() > 0 {
        lemma_positive_rest(queue);
        if amount < queue[0].qty {
            let after = consume(queue, amount);
            assert forall|k: int| 0 <= k < after.len() implies (#[trigger] after[k]).qty > 0 by {
                if k > 0 {
                    assert(after[k] == queue[k]);
                }
            }
        } else if amount > queue[0].qty {
            lemma_consume_positive(queue.drop_first(), (amount - queue[0].qty) as nat);
        }
    }
}

/// A queue of positive orders that sums to zero is empty.
proof fn lemma_total_zero_empty(queue: Seq<OrderView>)
    requires
        all_positive(queue),
        total_qty(queue) == 0,
    ensures
        queue.len() == 0,
{
    if queue.len() > 0 {
        lemma_total_qty_first(queue);
        assert(queue[0].qty > 0);
    }
}

/// Taking from a queue of positive orders all that it holds leaves nothing.
pub proof fn lemma_consume_exact(queue: Seq<OrderView>, amount: nat)
    requires
        all_positive(queue),
        amount >= total_qty(queue),
    ensures
        consume(queue, amount).len() == 0,
    decreases queue.len(),
{
    if queue.len() > 0 {
        lemma_total_qty_first(queue);
        lemma_positive_rest(queue);
        if amount == queue[0].qty {
            lemma_total_zero_empty(queue.drop_first());
        } else {
            lemma_consume_exact(queue.drop_first(), (amount - queue[0].qty) as nat);
        }
    }
}

/// Taking two amounts from a queue of positive orders, one after the other,
/// is taking their sum.
pub proof fn lemma_consume_twice(queue: Seq<OrderView>, first: nat, second: nat)
    requires
        all_positive(queue),
    ensures
        consume(consume(queue, first), second) == consume(queue, first + second),
    decreases queue.len(),
{
    if queue.len() > 0 {
        let head = queue[0];
        let rest = queue.drop_first();
        lemma_positive_rest(queue);
        if first < head.qty {
            let once = consume(queue, first);
            assert(once[0].qty == head.qty - first);
            assert(once.drop_first() =~= rest);
            if second < head.qty - first {
                assert(consume(once, second) =~= consume(queue, first + second));
            }
        } else if first == head.qty {
            if second == 0 {
                lemma_consume_nothing(rest);
            }
        } else {
            lemma_consume_twice(rest, (first - head.qty) as nat, second);
        }
    }
}

/// Time priority at one price level, for queues of positive orders: matching
/// the buy queue, head first, against the sell queue takes the volume that
/// both can cover from the head of each.
pub proof fn lemma_level_takes_matched(buys: Seq<OrderView>, sells: Seq<OrderView>)
    requires
        all_positive(buys),
        all_positive(sells),
    ensures
        level_left(buys, sells) == consume(buys, matched(buys, sells)),
        level_sells(buys, sells) == consume(sells, matched(buys, sells)),
    decreases buys.len(),
{
    if buys.len() == 0 {
        lemma_consume_nothing(sells);
    } else {
        let head = buys[0];
        let rest = buys.drop_first();
        let after = consume(sells, head.qty);
        lemma_positive_rest(buys);
        lemma_consume_positive(sells, head.qty);
        lemma_consume_total(sells, head.qty);
        lemma_total_qty_first(buys);
        lemma_level_takes_matched(rest, after);
        assert(head.qty > 0);
        if total_qty(sells) < head.qty {
            assert(after.len() == 0);
            assert(total_qty(after) == 0);
            lemma_consume_nothing(rest);
            lemma_consume_exact(sells, total_qty(sells));
            assert(consume(buys, total_qty(sells)) =~= seq![
                head.with_qty((head.qty - total_qty(sells)) as nat),
            ] + rest);
        } else {
            lemma_consume_twice(sells, head.qty, matched(rest, after));
            if matched(rest, after) == 0 {
                lemma_consume_nothing(rest);
            }
        }
    }
}

/// Matching the orders of one price level against a well formed side is
/// matching their queue against the queue of the side at that price.
pub proof fn lemma_queue_is_level(buys: Seq<OrderView>, sell: Seq<LevelView>, key: KeyView)
    requires
        all_rest_at(buys, key, Side::Buy),
        levels_wf(sell, Side::Sell),
    ensures
        queue_left(buys, sell) == level_left(buys, orders_at(sell, key)),
        orders_at(queue_sell(buys, sell), key) == level_sells(buys, orders_at(sell, key)),
    decreases buys.len(),
{
    if buys.len() > 0 {
        let head = buys[0];
        let rest = buys.drop_first();
        assert(rests_at(head, key, Side::Buy));
        assert forall|k: int| 0 <= k < rest.len() implies rests_at(
            #[trigger] rest[k],
            key,
            Side::Buy,
        ) by {
            assert(rests_at(buys[k + 1], key, Side::Buy));
        }
        let sells = orders_at(sell, key);
        let after = levels_after_scan(sell, key, head.qty);
        lemma_levels_settle_lookup(sell, key, consume(sells, head.qty));
        lemma_after_scan_wf(sell, key, head.qty, Side::Sell);
        lemma_queue_is_level(rest, after, key);
        if has_key(sell, key) {
            if consume(sells, head.qty).len() == 0 {
                assert(orders_at(after, key) =~= consume(sells, head.qty));
            }
        } else {
            assert(orders_at(after, key) =~= consume(sells, head.qty));
        }
    }
}

/// The orders of a well formed queue are positive.
pub proof fn lemma_resting_is_positive(queue: Seq<OrderView>, key: KeyView, side: Side)
    requires
        all_rest_at(queue, key, side),
    ensures
        all_positive(queue),
{
    assert forall|k: int| 0 <= k < queue.len() implies (#[trigger] queue[k]).qty > 0 by {
        assert(rests_at(queue[k], key, side));
    }
}

/// The queue under a key other than that of the first level is the queue
/// that the levels after the first have under it; under the key of the first
/// level, on a side on which no key occurs twice, they have none.
pub proof fn lemma_lookup_after_first(levels: Seq<LevelView>, key: KeyView, side: Side)
    requires
        levels_wf(levels, side),
        levels.len() > 0,
    ensures
        key != levels[0].key ==> key_kept(levels, levels.drop_first(), key),
        key == levels[0].key ==> orders_at(levels, key) == levels[0].orders && !has_key(
            levels.drop_first(),
            key,
        ),
{
    let rest = levels.drop_first();
    lemma_drop_first_wf(levels, side);
    if key == levels[0].key {
        lemma_position_of(levels, key, 0);
        if has_key(rest, key) {
            let j = choose|j: int| 0 <= j < rest.len() && (#[trigger] rest[j]).key == key;
            assert(rest[j].key != levels[0].key);
        }
    } else {
        if has_key(levels, key) {
            lemma_has_position(levels, key);
            let p = position_of(levels, key);
            assert(p > 0);
            assert(rest[p - 1] == levels[p]);
            assert forall|j: int| 0 <= j < p - 1 implies (#[trigger] rest[j]).key != key by {
                assert(rest[j] == levels[j + 1]);
                assert(levels[j + 1].key != key);
            }
            lemma_position_of(rest, key, p - 1);
        } else {
            if has_key(rest, key) {
                let j = choose|j: int| 0 <= j < rest.len() && (#[trigger] rest[j]).key == key;
                assert(levels[j + 1].key == key);
            }
        }
    }
}

/// Time priority for one price of a book: after a first-in-first-out match
/// of well formed sides, the buy queue and the sell queue at a price are the
/// queues from before the match without the volume that both could cover,
/// taken from the head of each.
pub proof fn lemma_fifo_takes_matched(buy: Seq<LevelView>, sell: Seq<LevelView>, key: KeyView)
    requires
        levels_wf(buy, Side::Buy),
        levels_wf(sell, Side::Sell),
    ensures
        orders_at(fifo_buy(buy, sell), key) == consume(
            orders_at(buy, key),
            matched(orders_at(buy, key), orders_at(sell, key)),
        ),
        orders_at(fifo_sell(buy, sell), key) == consume(
            orders_at(sell, key),
            matched(orders_at(buy, key), orders_at(sell, key)),
        ),
    decreases buy.len(),
{
    lemma_orders_at_rest(sell, key, Side::Sell);
    lemma_resting_is_positive(orders_at(sell, key), key, Side::Sell);
    if buy.len() == 0 {
        assert(!has_key(buy, key));
        assert(total_qty(orders_at(buy, key)) == 0);
        lemma_consume_nothing(orders_at(sell, key));
        assert(!has_key(fifo_buy(buy, sell), key));
    } else {
        let first = buy[0];
        let rest = buy.drop_first();
        let after = queue_sell(first.orders, sell);
        let left = queue_left(first.orders, sell);
        let rest_buy = fifo_buy(rest, after);
        let out = fifo_buy(buy, sell);
        lemma_drop_first_wf(buy, Side::Buy);
        lemma_queue_sell_wf(first.orders, sell, Side::Sell);
        lemma_fifo_takes_matched(rest, after, key);
        lemma_fifo_buy_wf(rest, after);
        lemma_fifo_buy_wf(buy, sell);
        lemma_level_residual(first.orders, sell, first.key);
        lemma_lookup_after_first(buy, key, Side::Buy);
        if left.len() > 0 {
            assert(out.drop_first() =~= rest_buy);
            lemma_lookup_after_first(out, key, Side::Buy);
        }
        if key == first.key {
            let sells = orders_at(sell, key);
            lemma_queue_is_level(first.orders, sell, key);
            lemma_resting_is_positive(first.orders, key, Side::Buy);
            lemma_level_takes_matched(first.orders, sells);
            assert(total_qty(orders_at(rest, key)) == 0);
            lemma_orders_at_rest(after, key, Side::Sell);
            lemma_resting_is_positive(orders_at(after, key), key, Side::Sell);
            lemma_consume_nothing(orders_at(after, key));
            if left.len() == 0 {
                if has_key(rest_buy, key) {
                    let j = choose|j: int|
                        0 <= j < rest_buy.len() && (#[trigger] rest_buy[j]).key == key;
                    assert(has_key(rest, rest_buy[j].key));
                }
                assert(orders_at(out, key) =~= left);
            }
        } else {
            assert(key_kept(sell, after, key));
        }
    }
}

/// Time priority: after a first-in-first-out match of a well formed book, the
/// buy queue and the sell queue at each price are the queues from before the
/// match without the volume that both could cover, taken from the head of
/// each queue. Orders are executed in the order in which they came to rest.
pub proof fn lemma_fifo_book_takes_matched(book: BookView, key: KeyView)
    requires
        book_wf(book),
    ensures
        orders_at(fifo_book(book).buy, key) == consume(
            orders_at(book.buy, key),
            matched(orders_at(book.buy, key), orders_at(book.sell, key)),
        ),
        orders_at(fifo_book(book).sell, key) == consume(
            orders_at(book.sell, key),
            matched(orders_at(book.buy, key), orders_at(book.sell, key)),
        ),
{
    lemma_fifo_takes_matched(book.buy, book.sell, key);
}

} // verus!
