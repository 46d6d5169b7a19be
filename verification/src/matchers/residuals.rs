//! What a match leaves in the book. After a first-in-first-out match no
//! price level has orders on both sides. A pro-rata match may leave a part of
//! a sell order unexecuted next to open buy orders, for rounding only.

use crate::matchers::fifo_matcher::{
    consume, fifo_book, fifo_buy, fifo_sell, lemma_after_scan_wf, lemma_fifo_buy_wf,
    lemma_queue_sell_wf, levels_after_scan, min_qty, queue_left, queue_sell,
};
use crate::matchers::levels::lemma_prorata_by_level;
use crate::matchers::priority::{all_positive, lemma_resting_is_positive};
use crate::matchers::prorata_matcher::{
    fresh, lemma_share, orders_of, pro_sells, prorata_book, round_filled, round_left, share,
    Working,
};
use crate::matchers::volume::{lemma_round_volume, lemma_total_qty_prepend};
use crate::model::book::{
    all_rest_at, book_wf, crosses, has_key, key_kept, lemma_drop_first_wf,
    lemma_levels_settle_lookup, lemma_orders_at_rest, lemma_total_qty_first, levels_wf,
    orders_at, rests_at,
    total_qty, BookView, LevelView,
};
use crate::model::domain::{KeyView, OrderView, Side};
use vstd::prelude::*;

verus! {

/// The sum of a queue with another order in place of its head.
pub proof fn lemma_total_qty_new_head(queue: Seq<OrderView>, head: OrderView)
    requires
        queue.len() > 0,
    ensures
        total_qty(queue.update(0, head)) + queue[0].qty == total_qty(queue) + head.qty,
{
    lemma_total_qty_first(queue);
    lemma_total_qty_first(queue.update(0, head));
    assert(queue.update(0, head).drop_first() =~= queue.drop_first());
}

/// Taking an amount from the head of a queue takes it from the sum of the
/// queue, as far as the sum goes. An amount above the sum leaves nothing.
pub proof fn lemma_consume_total(queue: Seq<OrderView>, amount: nat)
    ensures
        total_qty(consume(queue, amount)) + min_qty(amount, total_qty(queue)) == total_qty(queue),
        amount > total_qty(queue) ==> consume(queue, amount).len() == 0,
    decreases queue.len(),
{
    if queue.len() > 0 {
        lemma_total_qty_first(queue);
        if amount < queue[0].qty {
            lemma_total_qty_new_head(queue, queue[0].with_qty((queue[0].qty - amount) as nat));
        } else if amount > queue[0].qty {
            lemma_consume_total(queue.drop_first(), (amount - queue[0].qty) as nat);
        }
    }
}

/// When the orders of one price level were matched against a well formed
/// side, and something of them is left, the side has no level at their price
/// any more. The match opens no level on the side, and leaves the levels at
/// other prices as they were.
pub proof fn lemma_level_residual(buys: Seq<OrderView>, sell: Seq<LevelView>, key: KeyView)
    requires
        all_rest_at(buys, key, Side::Buy),
        levels_wf(sell, Side::Sell),
    ensures
        queue_left(buys, sell).len() > 0 ==> !has_key(queue_sell(buys, sell), key),
        has_key(queue_sell(buys, sell), key) ==> has_key(sell, key),
        forall|other: KeyView|
            other != key ==> #[trigger] key_kept(sell, queue_sell(buys, sell), other),
    decreases buys.len(),
{
    if buys.len() > 0 {
        let head = buys[0];
        let rest = buys.drop_first();
        assert(rests_at(head, key, Side::Buy));
        assert forall|k: int| 0 <= k < rest.len() implies rests_at(
            #[trigger] rest[k],
            key,
            Side::Buy,
        ) by {
            assert(rests_at(buys[k + 1], key, Side::Buy));
        }
        let sells = orders_at(sell, key);
        let after = levels_after_scan(sell, key, head.qty);
        lemma_levels_settle_lookup(sell, key, consume(sells, head.qty));
        lemma_after_scan_wf(sell, key, head.qty, Side::Sell);
        lemma_level_residual(rest, after, key);
        lemma_consume_total(sells, head.qty);
        assert forall|other: KeyView| other != key implies #[trigger] key_kept(
            sell,
            queue_sell(buys, sell),
            other,
        ) by {
            assert(key_kept(sell, after, other));
            assert(key_kept(after, queue_sell(rest, after), other));
        }
    } else {
        assert forall|other: KeyView| other != key implies #[trigger] key_kept(
            sell,
            queue_sell(buys, sell),
            other,
        ) by {}
    }
}

/// A first-in-first-out match opens no level on the sell side.
pub proof fn lemma_fifo_sell_keys(buy: Seq<LevelView>, sell: Seq<LevelView>, key: KeyView)
    requires
        levels_wf(buy, Side::Buy),
        levels_wf(sell, Side::Sell),
        has_key(fifo_sell(buy, sell), key),
    ensures
        has_key(sell, key),
    decreases buy.len(),
{
    if buy.len() > 0 {
        let after = queue_sell(buy[0].orders, sell);
        lemma_drop_first_wf(buy, Side::Buy);
        lemma_queue_sell_wf(buy[0].orders, sell, Side::Sell);
        lemma_fifo_sell_keys(buy.drop_first(), after, key);
        lemma_level_residual(buy[0].orders, sell, buy[0].key);
        if key != buy[0].key {
            assert(key_kept(sell, after, key));
        }
    }
}

/// After a first-in-first-out match of a well formed book no price has a
/// level on both sides: where a buy queue and a sell queue met, at most one
/// of them has anything left.
pub proof fn lemma_fifo_sides_apart(buy: Seq<LevelView>, sell: Seq<LevelView>, key: KeyView)
    requires
        levels_wf(buy, Side::Buy),
        levels_wf(sell, Side::Sell),
    ensures
        !(has_key(fifo_buy(buy, sell), key) && has_key(fifo_sell(buy, sell), key)),
    decreases buy.len(),
{
    if buy.len() > 0 {
        let rest = buy.drop_first();
        let after = queue_sell(buy[0].orders, sell);
        let left = queue_left(buy[0].orders, sell);
        let rest_buy = fifo_buy(rest, after);
        lemma_drop_first_wf(buy, Side::Buy);
        lemma_queue_sell_wf(buy[0].orders, sell, Side::Sell);
        lemma_fifo_sides_apart(rest, after, key);
        lemma_fifo_buy_wf(rest, after);
        lemma_level_residual(buy[0].orders, sell, buy[0].key);
        if has_key(fifo_buy(buy, sell), key) && has_key(fifo_sell(buy, sell), key) {
            let out = fifo_buy(buy, sell);
            let j = choose|j: int| 0 <= j < out.len() && (#[trigger] out[j]).key == key;
            if left.len() > 0 {
                if j == 0 {
                    assert(key == buy[0].key);
                    lemma_fifo_sell_keys(rest, after, key);
                } else {
                    assert(out[j] == rest_buy[j - 1]);
                    assert(has_key(rest_buy, key));
                }
            } else {
                assert(out[j] == rest_buy[j]);
                assert(has_key(rest_buy, key));
            }
        }
    }
}

/// After a first-in-first-out match of a well formed book no price level has
/// orders on both sides.
pub proof fn lemma_fifo_leaves_no_crossing(book: BookView)
    requires
        book_wf(book),
    ensures
        !crosses(fifo_book(book)),
{
    let after = fifo_book(book);
    if crosses(after) {
        let i = choose|i: int|
            0 <= i < after.buy.len() && has_key(after.sell, (#[trigger] after.buy[i]).key);
        assert(has_key(after.buy, after.buy[i].key));
        lemma_fifo_sides_apart(book.buy, book.sell, after.buy[i].key);
    }
}

/// The share of one buy order, against a positive total: where the sell
/// order is no larger than the total, the share lacks less than one unit of
/// the exact proportion; where it is at least as large, the share is the
/// whole buy order.
pub proof fn lemma_share_bounds(sell_qty: nat, buy_qty: nat, total: nat)
    requires
        total > 0,
    ensures
        sell_qty <= total ==> sell_qty * buy_qty <= share(sell_qty, buy_qty, total) * total + (
        total - 1),
        sell_qty >= total ==> share(sell_qty, buy_qty, total) == buy_qty,
{
    let product = sell_qty * buy_qty;
    let whole = product / total;
    assert(product == whole * total + product % total && 0 <= product % total < total)
        by (nonlinear_arith)
        requires
            whole == product / total,
            total > 0,
    ;
    if sell_qty <= total {
        assert(whole <= buy_qty) by (nonlinear_arith)
            requires
                whole * total <= sell_qty * buy_qty,
                sell_qty <= total,
                total > 0,
                product == sell_qty * buy_qty,
                whole * total <= product,
        ;
    }
    if sell_qty >= total {
        assert((whole + 1) * total == whole * total + total) by (nonlinear_arith);
        assert(whole >= buy_qty) by (nonlinear_arith)
            requires
                product == sell_qty * buy_qty,
                product < (whole + 1) * total,
                sell_qty >= total,
                total > 0,
        ;
    }
}

/// The shares of a sell order among buy orders, against a positive total:
/// multiplied by the total they are no more than the product of the sell
/// order and the sum of the buy orders, and where the sell order is no larger
/// than the total they lack less than one unit for each buy order. Where the
/// sell order is at least as large as the total, every buy order gets its
/// whole quantity.
pub proof fn lemma_round_filled_bounds(sell_qty: nat, buys: Seq<Working>, total: nat)
    requires
        total > 0,
    ensures
        round_filled(sell_qty, buys, total) * total <= sell_qty * total_qty(orders_of(buys)),
        sell_qty <= total ==> sell_qty * total_qty(orders_of(buys)) <= round_filled(
            sell_qty,
            buys,
            total,
        ) * total + buys.len() * (total - 1),
        sell_qty >= total ==> round_filled(sell_qty, buys, total) == total_qty(orders_of(buys)),
    decreases buys.len(),
{
    if buys.len() == 0 {
        assert(total_qty(orders_of(buys)) == 0);
        assert(0 * total == 0 && sell_qty * 0 == 0 && 0 * (total - 1) == 0) by (nonlinear_arith);
    } else {
        let rest = buys.drop_first();
        let b = buys[0].order.qty;
        let s = share(sell_qty, b, total);
        let f = round_filled(sell_qty, rest, total);
        let t = total_qty(orders_of(rest));
        let n = rest.len();
        lemma_round_filled_bounds(sell_qty, rest, total);
        lemma_total_qty_first(orders_of(buys));
        assert(orders_of(buys).drop_first() =~= orders_of(rest));
        assert(total_qty(orders_of(buys)) == b + t);
        lemma_share(sell_qty, b, total);
        lemma_share_bounds(sell_qty, b, total);
        assert((s + f) * total == s * total + f * total) by (nonlinear_arith);
        assert(sell_qty * (b + t) == sell_qty * b + sell_qty * t) by (nonlinear_arith);
        assert((n + 1) * (total - 1) == n * (total - 1) + (total - 1)) by (nonlinear_arith);
    }
}

/// Against a total of zero every share is zero, and nothing is executed.
pub proof fn lemma_round_filled_zero(sell_qty: nat, buys: Seq<Working>)
    ensures
        round_filled(sell_qty, buys, 0) == 0,
    decreases buys.len(),
{
    if buys.len() > 0 {
        lemma_round_filled_zero(sell_qty, buys.drop_first());
    }
}

/// A sell order is never executed beyond its quantity when it is shared
/// among buy orders in proportion to their quantities.
pub proof fn lemma_round_filled_le(sell_qty: nat, buys: Seq<Working>)
    ensures
        round_filled(sell_qty, buys, total_qty(orders_of(buys))) <= sell_qty,
{
    if total_qty(orders_of(buys)) > 0 {
        lemma_round_residual(sell_qty, buys);
    } else {
        lemma_round_filled_zero(sell_qty, buys);
    }
}

/// What a round of the pro-rata matcher leaves of a sell order, where the
/// buy orders hold something. The sell order is never executed beyond its
/// quantity. Where it is no larger than the sum of the buy orders, what stays
/// unexecuted of it is the loss of rounding the shares down: less than one
/// unit for each buy order. Where it is at least as large, every buy order is
/// filled.
pub proof fn lemma_round_residual(sell_qty: nat, buys: Seq<Working>)
    requires
        total_qty(orders_of(buys)) > 0,
    ensures
        round_filled(sell_qty, buys, total_qty(orders_of(buys))) <= sell_qty,
        sell_qty <= total_qty(orders_of(buys)) ==> sell_qty - round_filled(
            sell_qty,
            buys,
            total_qty(orders_of(buys)),
        ) < buys.len(),
        sell_qty >= total_qty(orders_of(buys)) ==> round_filled(
            sell_qty,
            buys,
            total_qty(orders_of(buys)),
        ) == total_qty(orders_of(buys)),
{
    let total = total_qty(orders_of(buys));
    let filled = round_filled(sell_qty, buys, total);
    let n = buys.len();
    lemma_round_filled_bounds(sell_qty, buys, total);
    assert(filled <= sell_qty) by (nonlinear_arith)
        requires
            filled * total <= sell_qty * total,
            total > 0,
    ;
    if sell_qty <= total {
        if n == 0 {
            assert(orders_of(buys).len() == 0);
        }
        let lost = sell_qty - filled;
        assert(lost * total == sell_qty * total - filled * total) by (nonlinear_arith)
            requires
                lost == sell_qty - filled,
        ;
        assert(lost < n) by (nonlinear_arith)
            requires
                lost * total <= n * (total - 1),
                total > 0,
                n > 0,
                lost >= 0,
        ;
    }
}

/// A round leaves no more buy orders than it found.
pub proof fn lemma_round_left_len(sell_qty: nat, buys: Seq<Working>, total: nat)
    ensures
        round_left(sell_qty, buys, total).len() <= buys.len(),
    decreases buys.len(),
{
    if buys.len() > 0 {
        lemma_round_left_len(sell_qty, buys.drop_first(), total);
    }
}

/// What a pro-rata match leaves of a queue of positive sell orders that the
/// buy orders can cover: the loss of rounding the shares down, which for each
/// sell order is less than one unit for each buy order.
pub proof fn lemma_pro_sells_residual(sells: Seq<OrderView>, buys: Seq<Working>)
    requires
        all_positive(sells),
        total_qty(sells) <= total_qty(orders_of(buys)),
    ensures
        total_qty(pro_sells(sells, buys)) + sells.len() <= sells.len() * buys.len(),
    decreases sells.len(),
{
    if sells.len() == 0 {
        assert(0 * buys.len() == 0) by (nonlinear_arith);
    } else {
        let head = sells[0];
        let rest = sells.drop_first();
        let total = total_qty(orders_of(buys));
        let filled = round_filled(head.qty, buys, total);
        let next = round_left(head.qty, buys, total);
        let n = buys.len();
        lemma_total_qty_first(sells);
        assert(head.qty > 0);
        assert forall|k: int| 0 <= k < rest.len() implies (#[trigger] rest[k]).qty > 0 by {
            assert(rest[k] == sells[k + 1]);
        }
        lemma_round_residual(head.qty, buys);
        lemma_round_volume(head, 0, buys, total);
        lemma_round_left_len(head.qty, buys, total);
        lemma_pro_sells_residual(rest, next);
        let rest_left = pro_sells(rest, next);
        if filled < head.qty {
            lemma_total_qty_prepend(head.with_qty((head.qty - filled) as nat), rest_left);
        }
        assert(total_qty(rest_left) + rest.len() <= rest.len() * n) by (nonlinear_arith)
            requires
                total_qty(rest_left) + rest.len() <= rest.len() * next.len(),
                next.len() <= n,
        ;
        assert((rest.len() + 1) * n == rest.len() * n + n) by (nonlinear_arith);
    }
}

/// What a pro-rata match leaves on the sell side at a price where the buy
/// queue could cover the sell queue: the loss of rounding the shares down,
/// which for each sell order of the queue is less than one unit for each buy
/// order of the level.
pub proof fn lemma_prorata_residual_at(book: BookView, key: KeyView)
    requires
        book_wf(book),
        total_qty(orders_at(book.sell, key)) <= total_qty(orders_at(book.buy, key)),
    ensures
        total_qty(orders_at(prorata_book(book).sell, key)) + orders_at(book.sell, key).len()
            <= orders_at(book.sell, key).len() * orders_at(book.buy, key).len(),
{
    let sells = orders_at(book.sell, key);
    let buys = fresh(orders_at(book.buy, key));
    lemma_prorata_by_level(book.buy, book.sell, key);
    lemma_orders_at_rest(book.sell, key, Side::Sell);
    lemma_resting_is_positive(sells, key, Side::Sell);
    assert(orders_of(buys) =~= orders_at(book.buy, key));
    lemma_pro_sells_residual(sells, buys);
}

} // verus!
