//! The order book: for each side, the price levels in the order in which they
//! were opened, each with the queue of the orders that rest at it.

use crate::model::domain::{
    DepthView, KeyView, MarketDepth, OrderBookKey, OrderSingle, OrderView, Side,
};
use std::collections::VecDeque;
use vstd::prelude::*;

verus! {

/// A price level, as contracts see it: its key and its queue, head first.
pub struct LevelView {
    pub key: KeyView,
    pub orders: Seq<OrderView>,
}

/// A book, as contracts see it: the levels of each side.
pub struct BookView {
    pub buy: Seq<LevelView>,
    pub sell: Seq<LevelView>,
}

/// The orders of a queue, as contracts see them.
pub open spec fn queue_view(queue: Seq<OrderSingle>) -> Seq<OrderView> {
    queue.map_values(|order: OrderSingle| order@)
}

/// The sum of the quantities of `orders`.
pub open spec fn total_qty(orders: Seq<OrderView>) -> nat
    decreases orders.len(),
{
    if orders.len() == 0 {
        0
    } else {
        total_qty(orders.drop_last()) + orders.last().qty
    }
}

/// The sum of a queue is the quantity of its head and the sum of the rest.
pub proof fn lemma_total_qty_first(orders: Seq<OrderView>)
    requires
        orders.len() > 0,
    ensures
        total_qty(orders) == orders[0].qty + total_qty(orders.drop_first()),
    decreases orders.len(),
{
    if orders.len() == 1 {
        assert(total_qty(orders.drop_last()) == 0);
        assert(total_qty(orders.drop_first()) == 0);
    } else {
        lemma_total_qty_first(orders.drop_last());
        assert(orders.drop_last().drop_first() =~= orders.drop_first().drop_last());
    }
}

/// Whether `levels` has a level under `key`.
pub open spec fn has_key(levels: Seq<LevelView>, key: KeyView) -> bool {
    exists|i: int| 0 <= i < levels.len() && (#[trigger] levels[i]).key == key
}

/// Whether `i` is the first level of `levels` under `key`.
pub open spec fn is_position_of(levels: Seq<LevelView>, key: KeyView, i: int) -> bool {
    &&& 0 <= i < levels.len()
    &&& levels[i].key == key
    &&& forall|j: int| 0 <= j < i ==> (#[trigger] levels[j]).key != key
}

/// The place of the first level under `key`, where there is one.
pub open spec fn position_of(levels: Seq<LevelView>, key: KeyView) -> int {
    choose|i: int| is_position_of(levels, key, i)
}

/// The queue that rests under `key`; empty where there is no such level.
pub open spec fn orders_at(levels: Seq<LevelView>, key: KeyView) -> Seq<OrderView> {
    if has_key(levels, key) {
        levels[position_of(levels, key)].orders
    } else {
        Seq::empty()
    }
}

/// Whether `order` may rest at the level `key` of the side `side`.
pub open spec fn rests_at(order: OrderView, key: KeyView, side: Side) -> bool {
    &&& order.is_valid()
    &&& order.side == side
    &&& order.key() == key
}

/// No two of `levels` have the same key.
pub open spec fn keys_distinct(levels: Seq<LevelView>) -> bool {
    forall|i: int, j: int|
        0 <= i < j < levels.len() ==> (#[trigger] levels[i]).key != (#[trigger] levels[j]).key
}

/// The levels of one side of a book are well formed: no key occurs twice, no
/// queue is empty, and every order is valid, of that side and at its own
/// price level.
pub open spec fn levels_wf(levels: Seq<LevelView>, side: Side) -> bool {
    &&& keys_distinct(levels)
    &&& forall|i: int| 0 <= i < levels.len() ==> (#[trigger] levels[i]).orders.len() > 0
    &&& forall|i: int, k: int|
        0 <= i < levels.len() && 0 <= k < levels[i].orders.len() ==> rests_at(
            #[trigger] levels[i].orders[k],
            levels[i].key,
            side,
        )
}

/// `levels` with `orders` as the queue under `key`: in place of the queue of
/// the first level under that key, or as a new last level.
pub open spec fn levels_insert(levels: Seq<LevelView>, key: KeyView, orders: Seq<OrderView>) -> Seq<
    LevelView,
> {
    if has_key(levels, key) {
        levels.update(position_of(levels, key), LevelView { key, orders })
    } else {
        levels.push(LevelView { key, orders })
    }
}

/// `levels` without the first level under `key`.
pub open spec fn levels_remove(levels: Seq<LevelView>, key: KeyView) -> Seq<LevelView> {
    if has_key(levels, key) {
        levels.remove(position_of(levels, key))
    } else {
        levels
    }
}

/// `levels` after the queue under `key` was matched and `orders` is left of
/// it: the level has that queue, or is gone when nothing is left. Where there
/// was no level under `key`, there is none after.
pub open spec fn levels_settle(levels: Seq<LevelView>, key: KeyView, orders: Seq<OrderView>) -> Seq<
    LevelView,
> {
    if has_key(levels, key) {
        if orders.len() == 0 {
            levels_remove(levels, key)
        } else {
            levels_insert(levels, key, orders)
        }
    } else {
        levels
    }
}

/// `levels` with `order` at the tail of the queue of its price level.
pub open spec fn levels_with_order(levels: Seq<LevelView>, order: OrderView) -> Seq<LevelView> {
    levels_insert(levels, order.key(), orders_at(levels, order.key()).push(order))
}

/// Where a level under `key` stands at place `bound`, there is a first one.
proof fn lemma_first_level(levels: Seq<LevelView>, key: KeyView, bound: int) -> (i: int)
    requires
        0 <= bound < levels.len(),
        levels[bound].key == key,
    ensures
        is_position_of(levels, key, i),
    decreases bound,
{
    if exists|j: int| 0 <= j < bound && (#[trigger] levels[j]).key == key {
        let j = choose|j: int| 0 <= j < bound && (#[trigger] levels[j]).key == key;
        lemma_first_level(levels, key, j)
    } else {
        bound
    }
}

/// Where `levels` has a level under `key`, `position_of` is the place of the
/// first one.
pub proof fn lemma_has_position(levels: Seq<LevelView>, key: KeyView)
    requires
        has_key(levels, key),
    ensures
        is_position_of(levels, key, position_of(levels, key)),
{
    let b = choose|i: int| 0 <= i < levels.len() && (#[trigger] levels[i]).key == key;
    let i = lemma_first_level(levels, key, b);
}

/// The first level under `key` is the only place that `is_position_of` admits.
pub proof fn lemma_position_of(levels: Seq<LevelView>, key: KeyView, i: int)
    requires
        is_position_of(levels, key, i),
    ensures
        has_key(levels, key),
        position_of(levels, key) == i,
        orders_at(levels, key) == levels[i].orders,
{
    let p = position_of(levels, key);
    assert(has_key(levels, key));
    lemma_has_position(levels, key);
    if p < i {
        assert(levels[p].key != key);
    }
    if i < p {
        assert(levels[i].key != key);
    }
}

#[derive(Debug)]
struct PriceLevel {
    key: OrderBookKey,
    orders: VecDeque<OrderSingle>,
}

impl View for PriceLevel {
    type V = LevelView;

    closed spec fn view(&self) -> LevelView {
        LevelView { key: self.key@, orders: queue_view(self.orders@) }
    }
}

/// Returns a copy of `queue`, order by order.
pub fn clone_queue(queue: &VecDeque<OrderSingle>) -> (copy: VecDeque<OrderSingle>)
    ensures
        queue_view(copy@) == queue_view(queue@),
{
    let copy = queue.clone();
    assert(queue_view(copy@) =~= queue_view(queue@));
    copy
}

impl Clone for PriceLevel {
    fn clone(&self) -> (copy: Self)
        ensures
            copy@ == self@,
    {
        PriceLevel { key: self.key.clone(), orders: clone_queue(&self.orders) }
    }
}

/// One side of a book: a map from price level to the queue that rests there.
#[derive(Debug)]
pub struct OrderMap {
    levels: Vec<PriceLevel>,
}

impl View for OrderMap {
    type V = Seq<LevelView>;

    closed spec fn view(&self) -> Seq<LevelView> {
        self.levels@.map_values(|level: PriceLevel| level@)
    }
}

impl Clone for OrderMap {
    fn clone(&self) -> (copy: Self)
        ensures
            copy@ == self@,
    {
        let levels = self.levels.clone();
        assert(levels@.map_values(|level: PriceLevel| level@) =~= self.levels@.map_values(
            |level: PriceLevel| level@,
        ));
        OrderMap { levels }
    }
}

impl OrderMap {
    /// An empty map.
    pub fn new() -> (map: Self)
        ensures
            map@ == Seq::<LevelView>::empty(),
    {
        let map = OrderMap { levels: Vec::new() };
        assert(map@ =~= Seq::<LevelView>::empty());
        map
    }

    /// The number of price levels.
    pub fn len(&self) -> (n: usize)
        ensures
            n == self@.len(),
    {
        self.levels.len()
    }

    pub fn is_empty(&self) -> (empty: bool)
        ensures
            empty == (self@.len() == 0),
    {
        self.levels.len() == 0
    }

    /// The place of the first level under `key`.
    pub fn position(&self, key: &OrderBookKey) -> (found: Option<usize>)
        ensures
            found is Some <==> has_key(self@, key@),
            found is Some ==> is_position_of(self@, key@, found->0 as int),
    {
        let mut i: usize = 0;
        while i < self.levels.len()
            invariant
                i <= self.levels.len(),
                forall|j: int| 0 <= j < i ==> (#[trigger] self@[j]).key != key@,
            decreases self.levels.len() - i,
        {
            if self.levels[i].key == *key {
                assert(self@[i as int].key == key@);
                return Some(i);
            }
            i += 1;
        }
        None
    }

    pub fn contains_key(&self, key: &OrderBookKey) -> (found: bool)
        ensures
            found == has_key(self@, key@),
    {
        self.position(key).is_some()
    }

    /// The queue that rests under `key`.
    pub fn get(&self, key: &OrderBookKey) -> (found: Option<&VecDeque<OrderSingle>>)
        ensures
            found is Some <==> has_key(self@, key@),
            found is Some ==> queue_view(found->0@) == orders_at(self@, key@),
    {
        match self.position(key) {
            Some(i) => {
                proof {
                    lemma_position_of(self@, key@, i as int);
                }
                Some(&self.levels[i].orders)
            },
            None => None,
        }
    }

    /// The key of the level at place `i`.
    pub fn key_at(&self, i: usize) -> (key: &OrderBookKey)
        requires
            i < self@.len(),
        ensures
            key@ == self@[i as int].key,
    {
        &self.levels[i].key
    }

    /// The queue of the level at place `i`.
    pub fn queue_at(&self, i: usize) -> (queue: &VecDeque<OrderSingle>)
        requires
            i < self@.len(),
        ensures
            queue_view(queue@) == self@[i as int].orders,
    {
        &self.levels[i].orders
    }

    /// Puts `orders` under `key`, in place of the queue that rested there or
    /// as a new last level.
    pub fn insert(&mut self, key: OrderBookKey, orders: VecDeque<OrderSingle>)
        ensures
            final(self)@ == levels_insert(old(self)@, key@, queue_view(orders@)),
    {
        match self.position(&key) {
            Some(i) => {
                proof {
                    lemma_position_of(self@, key@, i as int);
                }
                self.levels[i].orders = orders;
                assert(self@ =~= levels_insert(old(self)@, key@, queue_view(orders@)));
            },
            None => {
                self.levels.push(PriceLevel { key, orders });
                assert(self@ =~= levels_insert(old(self)@, key@, queue_view(orders@)));
            },
        }
    }

    /// Removes the first level under `key`, if there is one.
    pub fn remove(&mut self, key: &OrderBookKey)
        ensures
            final(self)@ == levels_remove(old(self)@, key@),
    {
        match self.position(key) {
            Some(i) => {
                proof {
                    lemma_position_of(self@, key@, i as int);
                }
                let _ = self.levels.remove(i);
                assert(self@ =~= levels_remove(old(self)@, key@));
            },
            None => {},
        }
    }

    /// Appends `order` to the queue of its price level, which is opened as the
    /// last level when the map does not have it yet.
    pub fn add_order(&mut self, order: OrderSingle)
        ensures
            final(self)@ == levels_with_order(old(self)@, order@),
    {
        let key = order.get_order_book_key();
        match self.position(&key) {
            Some(i) => {
                proof {
                    lemma_position_of(self@, key@, i as int);
                }
                self.levels[i].orders.push_back(order);
                assert(self@ =~= levels_with_order(old(self)@, order@)) by {
                    assert(queue_view(self.levels[i as int].orders@) =~= queue_view(
                        old(self).levels[i as int].orders@,
                    ).push(order@));
                }
            },
            None => {
                let mut orders = VecDeque::new();
                orders.push_back(order);
                assert(queue_view(orders@) =~= Seq::<OrderView>::empty().push(order@));
                self.levels.push(PriceLevel { key, orders });
                assert(self@ =~= levels_with_order(old(self)@, order@));
            },
        }
    }
}

/// The depth entries of `depths`, as contracts see them.
pub open spec fn depth_views(depths: Seq<MarketDepth>) -> Seq<DepthView> {
    depths.map_values(|depth: MarketDepth| depth@)
}

/// The market depth of `symbol` on the side `side`: for each level of the
/// symbol, in the order of the levels, its price and the sum of its queue.
pub open spec fn depth_of(levels: Seq<LevelView>, symbol: Seq<char>, side: Side) -> Seq<DepthView>
    decreases levels.len(),
{
    if levels.len() == 0 {
        Seq::empty()
    } else {
        let before = depth_of(levels.drop_last(), symbol, side);
        let level = levels.last();
        if level.key.symbol == symbol {
            before.push(DepthView { price: level.key.price, qty: total_qty(level.orders), side })
        } else {
            before
        }
    }
}

/// The symbols of `levels`, in the order of the levels.
pub open spec fn symbols_of(levels: Seq<LevelView>) -> Seq<Seq<char>> {
    levels.map_values(|level: LevelView| level.key.symbol)
}

/// `found` with those of `items` added, in their order, that it does not
/// hold yet.
pub open spec fn with_new(found: Seq<Seq<char>>, items: Seq<Seq<char>>) -> Seq<Seq<char>>
    decreases items.len(),
{
    if items.len() == 0 {
        found
    } else if found.contains(items[0]) {
        with_new(found, items.drop_first())
    } else {
        with_new(found.push(items[0]), items.drop_first())
    }
}

/// The symbols of a book, each once: those of the buy side in the order of
/// its levels, then what the sell side adds.
pub open spec fn symbols_of_book(book: BookView) -> Seq<Seq<char>> {
    with_new(with_new(Seq::empty(), symbols_of(book.buy)), symbols_of(book.sell))
}

/// The texts of `items`.
pub open spec fn symbol_texts(items: Seq<String>) -> Seq<Seq<char>> {
    items.map_values(|item: String| item@)
}

/// Returns the sum of the quantities of `queue`.
pub fn queue_total(queue: &VecDeque<OrderSingle>) -> (total: u128)
    ensures
        total as nat == total_qty(queue_view(queue@)),
{
    let ghost all = queue_view(queue@);
    let mut total: u128 = 0;
    let mut i: usize = 0;
    assert(all.take(0) =~= Seq::<OrderView>::empty());
    while i < queue.len()
        invariant
            i <= queue.len(),
            all == queue_view(queue@),
            total as nat == total_qty(all.take(i as int)),
            total <= i * u32::MAX,
        decreases queue.len() - i,
    {
        proof {
            assert(all.take(i + 1).drop_last() =~= all.take(i as int));
            queue@[i as int].lemma_qty_in_range();
            assert((i + 1) * u32::MAX == i * u32::MAX + u32::MAX) by (nonlinear_arith);
            assert(i * u32::MAX <= usize::MAX * u32::MAX) by (nonlinear_arith)
                requires
                    i <= usize::MAX,
            ;
        }
        total = total + queue[i].qty() as u128;
        i += 1;
    }
    assert(all.take(i as int) =~= all);
    total
}

/// Returns whether `items` holds the text `item`.
fn holds_text(items: &Vec<String>, item: &String) -> (found: bool)
    ensures
        found == symbol_texts(items@).contains(item@),
{
    let mut i: usize = 0;
    while i < items.len()
        invariant
            i <= items.len(),
            forall|j: int| 0 <= j < i ==> symbol_texts(items@)[j] != item@,
        decreases items.len() - i,
    {
        if items[i] == *item {
            assert(symbol_texts(items@)[i as int] == item@);
            return true;
        }
        i += 1;
    }
    false
}

impl OrderMap {
    /// The market depth of `symbol` in this map, for the side `side`.
    pub fn get_md(&self, symbol: &String, side: Side) -> (depths: Vec<MarketDepth>)
        ensures
            depth_views(depths@) == depth_of(self@, symbol@, side),
    {
        let mut depths: Vec<MarketDepth> = Vec::new();
        let mut i: usize = 0;
        assert(self@.take(0) =~= Seq::<LevelView>::empty());
        assert(depth_views(depths@) =~= Seq::<DepthView>::empty());
        while i < self.levels.len()
            invariant
                i <= self.levels.len(),
                depth_views(depths@) == depth_of(self@.take(i as int), symbol@, side),
            decreases self.levels.len() - i,
        {
            let ghost before = depth_views(depths@);
            proof {
                assert(self@.take(i + 1).drop_last() =~= self@.take(i as int));
                assert(self@.take(i + 1).last() == self@[i as int]);
            }
            if self.levels[i].key.has_symbol(symbol) {
                let aggregate = queue_total(&self.levels[i].orders);
                let md = MarketDepth::new(self.levels[i].key.price(), aggregate, side);
                depths.push(md);
                assert(depth_views(depths@) =~= before.push(md@));
            }
            i += 1;
        }
        assert(self@.take(i as int) =~= self@);
        depths
    }

    /// Adds to `found` the symbols of this map that it does not hold yet.
    fn add_symbols(&self, found: &mut Vec<String>)
        ensures
            symbol_texts(final(found)@) == with_new(symbol_texts(old(found)@), symbols_of(self@)),
    {
        let mut i: usize = 0;
        assert(symbols_of(self@).skip(0) =~= symbols_of(self@));
        while i < self.levels.len()
            invariant
                i <= self.levels.len(),
                with_new(symbol_texts(found@), symbols_of(self@).skip(i as int)) == with_new(
                    symbol_texts(old(found)@),
                    symbols_of(self@),
                ),
            decreases self.levels.len() - i,
        {
            let symbol = self.levels[i].key.symbol().to_owned();
            let ghost before = symbol_texts(found@);
            proof {
                assert(symbols_of(self@).skip(i as int)[0] == symbol@);
                assert(symbols_of(self@).skip(i as int).drop_first() =~= symbols_of(self@).skip(
                    i + 1,
                ));
            }
            if !holds_text(found, &symbol) {
                found.push(symbol);
                assert(symbol_texts(found@) =~= before.push(symbol@));
            }
            i += 1;
        }
    }
}

/// Returns whether every order of `queue` may rest at the level `key` of the
/// side `side`.
pub fn queue_rests_at(queue: &VecDeque<OrderSingle>, key: &OrderBookKey, side: Side) -> (ok: bool)
    ensures
        ok == all_rest_at(queue_view(queue@), key@, side),
{
    let mut k: usize = 0;
    while k < queue.len()
        invariant
            k <= queue.len(),
            forall|m: int| 0 <= m < k ==> rests_at(#[trigger] queue_view(queue@)[m], key@, side),
        decreases queue.len() - k,
    {
        let order = &queue[k];
        let rests = order.is_valid() && order.side() == side && order.price() == key.price()
            && key.has_symbol(order.symbol());
        assert(rests == rests_at(queue_view(queue@)[k as int], key@, side));
        if !rests {
            return false;
        }
        k += 1;
    }
    true
}

impl OrderMap {
    /// Returns whether the key of the level at place `i` occurs at a place
    /// before it.
    fn key_occurs_before(&self, i: usize) -> (found: bool)
        requires
            i < self@.len(),
        ensures
            found == exists|j: int| 0 <= j < i && (#[trigger] self@[j]).key == self@[i as int].key,
    {
        let mut j: usize = 0;
        while j < i
            invariant
                j <= i,
                i < self.levels.len(),
                forall|m: int| 0 <= m < j ==> (#[trigger] self@[m]).key != self@[i as int].key,
            decreases i - j,
        {
            if self.levels[j].key == self.levels[i].key {
                assert(self@[j as int].key == self@[i as int].key);
                return true;
            }
            j += 1;
        }
        false
    }

    /// Returns whether the map is a well formed side `side` of a book.
    pub fn is_well_formed(&self, side: Side) -> (ok: bool)
        ensures
            ok == levels_wf(self@, side),
    {
        let mut i: usize = 0;
        while i < self.levels.len()
            invariant
                i <= self.levels.len(),
                forall|a: int, b: int|
                    0 <= a < b < i ==> (#[trigger] self@[a]).key != (#[trigger] self@[b]).key,
                forall|a: int| 0 <= a < i ==> (#[trigger] self@[a]).orders.len() > 0,
                forall|a: int| 0 <= a < i ==> all_rest_at(
                    (#[trigger] self@[a]).orders,
                    self@[a].key,
                    side,
                ),
            decreases self.levels.len() - i,
        {
            if self.levels[i].orders.len() == 0 {
                assert(self@[i as int].orders.len() == 0);
                return false;
            }
            if self.key_occurs_before(i) {
                let ghost j = choose|j: int|
                    0 <= j < i && (#[trigger] self@[j]).key == self@[i as int].key;
                assert(self@[j].key == self@[i as int].key);
                return false;
            }
            if !queue_rests_at(&self.levels[i].orders, &self.levels[i].key, side) {
                proof {
                    let level = self@[i as int];
                    let k = choose|k: int|
                        0 <= k < level.orders.len() && !rests_at(
                            #[trigger] level.orders[k],
                            level.key,
                            side,
                        );
                    assert(!rests_at(self@[i as int].orders[k], self@[i as int].key, side));
                }
                return false;
            }
            i += 1;
        }
        proof {
            assert forall|a: int, k: int|
                0 <= a < self@.len() && 0 <= k < self@[a].orders.len() implies rests_at(
                #[trigger] self@[a].orders[k],
                self@[a].key,
                side,
            ) by {
                assert(all_rest_at(self@[a].orders, self@[a].key, side));
            }
        }
        true
    }
}

/// A book is well formed when both of its sides are.
pub open spec fn book_wf(book: BookView) -> bool {
    &&& levels_wf(book.buy, Side::Buy)
    &&& levels_wf(book.sell, Side::Sell)
}

/// The levels of the side `side` of `book`.
pub open spec fn side_of(book: BookView, side: Side) -> Seq<LevelView> {
    match side {
        Side::Buy => book.buy,
        Side::Sell => book.sell,
    }
}

/// `book` with `levels` as its side `side`.
pub open spec fn book_with_side(book: BookView, side: Side, levels: Seq<LevelView>) -> BookView {
    match side {
        Side::Buy => BookView { buy: levels, ..book },
        Side::Sell => BookView { sell: levels, ..book },
    }
}

/// `book` after `order` was handed in: an order that is not valid is left
/// out, a valid one rests at the tail of the queue of its side and level.
pub open spec fn book_with_order(book: BookView, order: OrderView) -> BookView {
    if order.is_valid() {
        book_with_side(book, order.side, levels_with_order(side_of(book, order.side), order))
    } else {
        book
    }
}

/// Whether `after` has under `key` what `before` has.
pub open spec fn key_kept(before: Seq<LevelView>, after: Seq<LevelView>, key: KeyView) -> bool {
    &&& has_key(after, key) == has_key(before, key)
    &&& orders_at(after, key) == orders_at(before, key)
}

/// After a queue was put under `key`, the side has that queue under the key,
/// and under every other key what it had before.
pub proof fn lemma_levels_insert_lookup(
    levels: Seq<LevelView>,
    key: KeyView,
    orders: Seq<OrderView>,
)
    ensures
        has_key(levels_insert(levels, key, orders), key),
        orders_at(levels_insert(levels, key, orders), key) == orders,
        forall|other: KeyView|
            other != key ==> #[trigger] key_kept(
                levels,
                levels_insert(levels, key, orders),
                other,
            ),
{
    let after = levels_insert(levels, key, orders);
    if has_key(levels, key) {
        let p = position_of(levels, key);
        lemma_has_position(levels, key);
        assert(after == levels.update(p, LevelView { key, orders }));
        assert forall|j: int| 0 <= j < p implies (#[trigger] after[j]).key != key by {
            assert(levels[j].key != key);
        }
        lemma_position_of(after, key, p);
        assert forall|other: KeyView| other != key implies #[trigger] key_kept(
            levels,
            after,
            other,
        ) by {
            lemma_same_keys_same_lookup(levels, after, other, p);
        }
    } else {
        assert(after == levels.push(LevelView { key, orders }));
        let p = levels.len() as int;
        assert forall|j: int| 0 <= j < p implies (#[trigger] after[j]).key != key by {
            assert(levels[j].key == after[j].key);
        }
        assert(after[p].key == key);
        lemma_position_of(after, key, p);
        assert forall|other: KeyView| other != key implies #[trigger] key_kept(
            levels,
            after,
            other,
        ) by {
            if has_key(levels, other) {
                let q = position_of(levels, other);
                lemma_has_position(levels, other);
                assert(after[q] == levels[q]);
                assert forall|j: int| 0 <= j < q implies (#[trigger] after[j]).key != other by {
                    assert(levels[j].key != other);
                }
                lemma_position_of(after, other, q);
            } else {
                if has_key(after, other) {
                    let i = choose|i: int|
                        0 <= i < after.len() && (#[trigger] after[i]).key == other;
                    assert(i < p);
                    assert(levels[i].key == other);
                }
            }
        }
    }
}

/// After the level under `key` was removed from a side on which no key occurs
/// twice, the side has no level under the key, and under every other key what
/// it had before.
pub proof fn lemma_levels_remove_lookup(levels: Seq<LevelView>, key: KeyView)
    requires
        keys_distinct(levels),
    ensures
        !has_key(levels_remove(levels, key), key),
        forall|other: KeyView|
            other != key ==> #[trigger] key_kept(levels, levels_remove(levels, key), other),
{
    let after = levels_remove(levels, key);
    if has_key(levels, key) {
        let p = position_of(levels, key);
        lemma_has_position(levels, key);
        assert(after == levels.remove(p));
        assert forall|i: int| 0 <= i < after.len() implies #[trigger] after[i] == levels[if i
            < p {
            i
        } else {
            i + 1
        }] by {}
        if has_key(after, key) {
            let i = choose|i: int| 0 <= i < after.len() && (#[trigger] after[i]).key == key;
            let a = if i < p {
                i
            } else {
                i + 1
            };
            assert(levels[a].key == key);
            if a < p {
                assert(levels[a].key != levels[p].key);
            } else {
                assert(levels[p].key != levels[a].key);
            }
        }
        assert forall|other: KeyView| other != key implies #[trigger] key_kept(
            levels,
            after,
            other,
        ) by {
            if has_key(levels, other) {
                let q = position_of(levels, other);
                lemma_has_position(levels, other);
                let b = if q < p {
                    q
                } else {
                    q - 1
                };
                assert(after[b] == levels[q]);
                assert forall|j: int| 0 <= j < b implies (#[trigger] after[j]).key != other by {
                    let a = if j < p {
                        j
                    } else {
                        j + 1
                    };
                    assert(after[j] == levels[a]);
                    assert(levels[a].key != other);
                }
                lemma_position_of(after, other, b);
            } else {
                if has_key(after, other) {
                    let i = choose|i: int|
                        0 <= i < after.len() && (#[trigger] after[i]).key == other;
                    let a = if i < p {
                        i
                    } else {
                        i + 1
                    };
                    assert(levels[a].key == other);
                }
            }
        }
    }
}

/// After a level of a side on which no key occurs twice was settled, the side
/// has under `key` the queue that is left, where there was a level and
/// something is left, and no level otherwise; under every other key it has
/// what it had before.
pub proof fn lemma_levels_settle_lookup(
    levels: Seq<LevelView>,
    key: KeyView,
    orders: Seq<OrderView>,
)
    requires
        keys_distinct(levels),
    ensures
        has_key(levels_settle(levels, key, orders), key) == (has_key(levels, key) && orders.len()
            > 0),
        has_key(levels, key) ==> orders_at(levels_settle(levels, key, orders), key) == orders,
        forall|other: KeyView|
            other != key ==> #[trigger] key_kept(
                levels,
                levels_settle(levels, key, orders),
                other,
            ),
{
    if has_key(levels, key) {
        if orders.len() == 0 {
            lemma_levels_remove_lookup(levels, key);
            assert(orders_at(levels_settle(levels, key, orders), key) =~= orders);
        } else {
            lemma_levels_insert_lookup(levels, key, orders);
        }
    }
}

/// After an order was added, the queue of its level is the earlier queue with
/// the order at its tail, and every other level has the queue it had.
pub proof fn lemma_levels_with_order(levels: Seq<LevelView>, order: OrderView)
    ensures
        orders_at(levels_with_order(levels, order), order.key()) == orders_at(
            levels,
            order.key(),
        ).push(order),
        forall|key: KeyView|
            key != order.key() ==> #[trigger] orders_at(levels_with_order(levels, order), key)
                == orders_at(levels, key),
        forall|key: KeyView|
            #[trigger] has_key(levels_with_order(levels, order), key) <==> (has_key(levels, key)
                || key == order.key()),
{
    let key0 = order.key();
    let after = levels_with_order(levels, order);
    let queue = orders_at(levels, key0).push(order);
    if has_key(levels, key0) {
        let p = position_of(levels, key0);
        lemma_has_position(levels, key0);
        assert(after == levels.update(p, LevelView { key: key0, orders: queue }));
        assert forall|j: int| 0 <= j < p implies (#[trigger] after[j]).key != key0 by {
            assert(levels[j].key != key0);
        }
        lemma_position_of(after, key0, p);
        assert forall|key: KeyView| key != key0 implies #[trigger] orders_at(after, key)
            == orders_at(levels, key) by {
            lemma_same_keys_same_lookup(levels, after, key, p);
        }
        assert forall|key: KeyView| #[trigger]
            has_key(after, key) <==> (has_key(levels, key) || key == key0) by {
            if has_key(after, key) {
                let i = choose|i: int| 0 <= i < after.len() && (#[trigger] after[i]).key == key;
                assert(levels[i].key == key);
            }
            if has_key(levels, key) {
                let i = choose|i: int| 0 <= i < levels.len() && (#[trigger] levels[i]).key == key;
                assert(after[i].key == key);
            }
        }
    } else {
        assert(after == levels.push(LevelView { key: key0, orders: queue }));
        let p = levels.len() as int;
        assert forall|j: int| 0 <= j < p implies (#[trigger] after[j]).key != key0 by {
            assert(levels[j].key == after[j].key);
        }
        assert(after[p].key == key0);
        lemma_position_of(after, key0, p);
        assert forall|key: KeyView| key != key0 implies #[trigger] orders_at(after, key)
            == orders_at(levels, key) by {
            if has_key(levels, key) {
                let q = position_of(levels, key);
                lemma_has_position(levels, key);
                assert(after[q] == levels[q]);
                assert forall|j: int| 0 <= j < q implies (#[trigger] after[j]).key != key by {
                    assert(levels[j].key != key);
                }
                lemma_position_of(after, key, q);
            } else {
                if has_key(after, key) {
                    let i = choose|i: int| 0 <= i < after.len() && (#[trigger] after[i]).key == key;
                    assert(i < p);
                    assert(levels[i].key == key);
                }
            }
        }
        assert forall|key: KeyView| #[trigger]
            has_key(after, key) <==> (has_key(levels, key) || key == key0) by {
            if has_key(after, key) && key != key0 {
                let i = choose|i: int| 0 <= i < after.len() && (#[trigger] after[i]).key == key;
                assert(levels[i].key == key);
            }
            if has_key(levels, key) {
                let i = choose|i: int| 0 <= i < levels.len() && (#[trigger] levels[i]).key == key;
                assert(after[i].key == key);
            }
        }
    }
}

/// Two maps of the same length whose keys agree place by place, and whose
/// queues agree everywhere but at place `p`, have the same queue under every
/// key but that of place `p`.
pub proof fn lemma_same_keys_same_lookup(
    levels: Seq<LevelView>,
    after: Seq<LevelView>,
    key: KeyView,
    p: int,
)
    requires
        0 <= p < levels.len(),
        after.len() == levels.len(),
        forall|i: int| 0 <= i < levels.len() ==> (#[trigger] after[i]).key == levels[i].key,
        forall|i: int| 0 <= i < levels.len() && i != p ==> #[trigger] after[i] == levels[i],
        key != levels[p].key,
    ensures
        has_key(after, key) == has_key(levels, key),
        orders_at(after, key) == orders_at(levels, key),
{
    if has_key(levels, key) {
        let q = position_of(levels, key);
        lemma_has_position(levels, key);
        assert(after[q].key == levels[q].key);
        assert forall|j: int| 0 <= j < q implies (#[trigger] after[j]).key != key by {
            assert(levels[j].key != key);
        }
        lemma_position_of(after, key, q);
        assert(after[q] == levels[q]);
    } else {
        if has_key(after, key) {
            let i = choose|i: int| 0 <= i < after.len() && (#[trigger] after[i]).key == key;
            assert(levels[i].key == key);
        }
    }
}

/// Whether every order of `orders` may rest at the level `key` of `side`.
pub open spec fn all_rest_at(orders: Seq<OrderView>, key: KeyView, side: Side) -> bool {
    forall|k: int| 0 <= k < orders.len() ==> rests_at(#[trigger] orders[k], key, side)
}

/// A well formed side stays well formed when a queue that is not empty, of
/// orders that may rest under `key`, is put under that key.
pub proof fn lemma_levels_insert_wf(
    levels: Seq<LevelView>,
    key: KeyView,
    orders: Seq<OrderView>,
    side: Side,
)
    requires
        levels_wf(levels, side),
        orders.len() > 0,
        all_rest_at(orders, key, side),
    ensures
        levels_wf(levels_insert(levels, key, orders), side),
{
    let after = levels_insert(levels, key, orders);
    if has_key(levels, key) {
        let p = position_of(levels, key);
        lemma_has_position(levels, key);
        assert(after == levels.update(p, LevelView { key, orders }));
        assert forall|i: int, j: int| 0 <= i < j < after.len() implies (#[trigger] after[i]).key
            != (#[trigger] after[j]).key by {
            assert(levels[i].key != levels[j].key);
        }
        assert forall|i: int, k: int|
            0 <= i < after.len() && 0 <= k < after[i].orders.len() implies rests_at(
            #[trigger] after[i].orders[k],
            after[i].key,
            side,
        ) by {
            if i == p {
                assert(rests_at(orders[k], key, side));
            } else {
                assert(rests_at(levels[i].orders[k], levels[i].key, side));
            }
        }
        assert forall|i: int| 0 <= i < after.len() implies (#[trigger] after[i]).orders.len()
            > 0 by {
            if i != p {
                assert(levels[i].orders.len() > 0);
            }
        }
    } else {
        assert(after == levels.push(LevelView { key, orders }));
        assert forall|i: int, j: int| 0 <= i < j < after.len() implies (#[trigger] after[i]).key
            != (#[trigger] after[j]).key by {
            if j < levels.len() {
                assert(levels[i].key != levels[j].key);
            } else {
                assert(levels[i].key != key);
            }
        }
        assert forall|i: int, k: int|
            0 <= i < after.len() && 0 <= k < after[i].orders.len() implies rests_at(
            #[trigger] after[i].orders[k],
            after[i].key,
            side,
        ) by {
            if i < levels.len() {
                assert(rests_at(levels[i].orders[k], levels[i].key, side));
            } else {
                assert(rests_at(orders[k], key, side));
            }
        }
        assert forall|i: int| 0 <= i < after.len() implies (#[trigger] after[i]).orders.len()
            > 0 by {
            if i < levels.len() {
                assert(levels[i].orders.len() > 0);
            }
        }
    }
}

/// A well formed side stays well formed when a level is removed.
pub proof fn lemma_levels_remove_wf(levels: Seq<LevelView>, key: KeyView, side: Side)
    requires
        levels_wf(levels, side),
    ensures
        levels_wf(levels_remove(levels, key), side),
{
    let after = levels_remove(levels, key);
    if has_key(levels, key) {
        let p = position_of(levels, key);
        lemma_has_position(levels, key);
        assert(after == levels.remove(p));
        assert forall|i: int| 0 <= i < after.len() implies #[trigger] after[i] == levels[if i
            < p {
            i
        } else {
            i + 1
        }] by {}
        assert forall|i: int, j: int| 0 <= i < j < after.len() implies (#[trigger] after[i]).key
            != (#[trigger] after[j]).key by {
            let a = if i < p {
                i
            } else {
                i + 1
            };
            let b = if j < p {
                j
            } else {
                j + 1
            };
            assert(levels[a].key != levels[b].key);
        }
        assert forall|i: int, k: int|
            0 <= i < after.len() && 0 <= k < after[i].orders.len() implies rests_at(
            #[trigger] after[i].orders[k],
            after[i].key,
            side,
        ) by {
            let a = if i < p {
                i
            } else {
                i + 1
            };
            assert(rests_at(levels[a].orders[k], levels[a].key, side));
        }
        assert forall|i: int| 0 <= i < after.len() implies (#[trigger] after[i]).orders.len()
            > 0 by {
            let a = if i < p {
                i
            } else {
                i + 1
            };
            assert(levels[a].orders.len() > 0);
        }
    }
}

/// A well formed side stays well formed when a level is settled with orders
/// that may rest at it.
pub proof fn lemma_levels_settle_wf(
    levels: Seq<LevelView>,
    key: KeyView,
    orders: Seq<OrderView>,
    side: Side,
)
    requires
        levels_wf(levels, side),
        all_rest_at(orders, key, side),
    ensures
        levels_wf(levels_settle(levels, key, orders), side),
{
    if has_key(levels, key) {
        if orders.len() == 0 {
            lemma_levels_remove_wf(levels, key, side);
        } else {
            lemma_levels_insert_wf(levels, key, orders, side);
        }
    }
}

/// The levels after the first of a well formed side are a well formed side.
pub proof fn lemma_drop_first_wf(levels: Seq<LevelView>, side: Side)
    requires
        levels_wf(levels, side),
        levels.len() > 0,
    ensures
        levels_wf(levels.drop_first(), side),
        all_rest_at(levels[0].orders, levels[0].key, side),
        levels[0].orders.len() > 0,
        forall|j: int|
            0 <= j < levels.drop_first().len() ==> (#[trigger] levels.drop_first()[j]).key
                != levels[0].key,
{
    let rest = levels.drop_first();
    assert forall|i: int, j: int| 0 <= i < j < rest.len() implies (#[trigger] rest[i]).key != (
    #[trigger] rest[j]).key by {
        assert(levels[i + 1].key != levels[j + 1].key);
    }
    assert forall|i: int| 0 <= i < rest.len() implies (#[trigger] rest[i]).orders.len() > 0 by {
        assert(levels[i + 1].orders.len() > 0);
    }
    assert forall|i: int, k: int|
        0 <= i < rest.len() && 0 <= k < rest[i].orders.len() implies rests_at(
        #[trigger] rest[i].orders[k],
        rest[i].key,
        side,
    ) by {
        assert(rests_at(levels[i + 1].orders[k], levels[i + 1].key, side));
    }
    assert forall|k: int| 0 <= k < levels[0].orders.len() implies rests_at(
        #[trigger] levels[0].orders[k],
        levels[0].key,
        side,
    ) by {}
    assert forall|j: int| 0 <= j < rest.len() implies (#[trigger] rest[j]).key
        != levels[0].key by {
        assert(levels[0].key != levels[j + 1].key);
    }
}

/// A level put in front of a well formed side, under a key that the side
/// does not have, with a queue that is not empty and may rest there, makes a
/// well formed side.
pub proof fn lemma_prepend_wf(level: LevelView, rest: Seq<LevelView>, side: Side)
    requires
        levels_wf(rest, side),
        level.orders.len() > 0,
        all_rest_at(level.orders, level.key, side),
        !has_key(rest, level.key),
    ensures
        levels_wf(seq![level] + rest, side),
{
    let out = seq![level] + rest;
    assert forall|i: int, j: int| 0 <= i < j < out.len() implies (#[trigger] out[i]).key != (
    #[trigger] out[j]).key by {
        assert(out[j] == rest[j - 1]);
        if i > 0 {
            assert(out[i] == rest[i - 1]);
        }
    }
    assert forall|i: int| 0 <= i < out.len() implies (#[trigger] out[i]).orders.len() > 0 by {
        if i > 0 {
            assert(out[i] == rest[i - 1]);
        }
    }
    assert forall|i: int, k: int|
        0 <= i < out.len() && 0 <= k < out[i].orders.len() implies rests_at(
        #[trigger] out[i].orders[k],
        out[i].key,
        side,
    ) by {
        if i > 0 {
            assert(out[i] == rest[i - 1]);
        } else {
            assert(rests_at(level.orders[k], level.key, side));
        }
    }
}

/// In a well formed side every order of the queue under `key` may rest there.
pub proof fn lemma_orders_at_rest(levels: Seq<LevelView>, key: KeyView, side: Side)
    requires
        levels_wf(levels, side),
    ensures
        all_rest_at(orders_at(levels, key), key, side),
        has_key(levels, key) ==> orders_at(levels, key).len() > 0,
{
    if has_key(levels, key) {
        let p = position_of(levels, key);
        lemma_has_position(levels, key);
        assert(levels[p].orders.len() > 0);
        assert forall|k: int| 0 <= k < orders_at(levels, key).len() implies rests_at(
            #[trigger] orders_at(levels, key)[k],
            key,
            side,
        ) by {
            assert(rests_at(levels[p].orders[k], levels[p].key, side));
        }
    }
}

/// A well formed side stays well formed when an order that may rest on it is
/// added.
pub proof fn lemma_levels_with_order_wf(levels: Seq<LevelView>, order: OrderView, side: Side)
    requires
        levels_wf(levels, side),
        order.is_valid(),
        order.side == side,
    ensures
        levels_wf(levels_with_order(levels, order), side),
{
    let key0 = order.key();
    lemma_orders_at_rest(levels, key0, side);
    let queue = orders_at(levels, key0).push(order);
    assert forall|k: int| 0 <= k < queue.len() implies rests_at(
        #[trigger] queue[k],
        key0,
        side,
    ) by {
        if k < queue.len() - 1 {
            assert(rests_at(orders_at(levels, key0)[k], key0, side));
        }
    }
    lemma_levels_insert_wf(levels, key0, queue, side);
}

/// Handing in an order that is not valid leaves the book as it was. A valid
/// order comes to rest at the tail of the queue of its side and price level,
/// which gets longer by one; the other queues of its side and the other side
/// of the book stay as they were. A well formed book stays well formed.
pub proof fn lemma_book_with_order(book: BookView, order: OrderView)
    ensures
        !order.is_valid() ==> book_with_order(book, order) == book,
        order.is_valid() ==> orders_at(
            side_of(book_with_order(book, order), order.side),
            order.key(),
        ) == orders_at(side_of(book, order.side), order.key()).push(order),
        order.is_valid() ==> orders_at(
            side_of(book_with_order(book, order), order.side),
            order.key(),
        ).len() == orders_at(side_of(book, order.side), order.key()).len() + 1,
        order.is_valid() ==> side_of(book_with_order(book, order), order.side.opposite())
            == side_of(book, order.side.opposite()),
        order.is_valid() ==> forall|key: KeyView|
            key != order.key() ==> #[trigger] orders_at(
                side_of(book_with_order(book, order), order.side),
                key,
            ) == orders_at(side_of(book, order.side), key),
        book_wf(book) ==> book_wf(book_with_order(book, order)),
{
    if order.is_valid() {
        lemma_levels_with_order(side_of(book, order.side), order);
        if book_wf(book) {
            lemma_levels_with_order_wf(side_of(book, order.side), order, order.side);
        }
    }
}

/// Whether some price level of `book` has orders on both sides.
pub open spec fn crosses(book: BookView) -> bool {
    exists|i: int| 0 <= i < book.buy.len() && has_key(book.sell, (#[trigger] book.buy[i]).key)
}

/// A two-sided order book.
#[derive(Debug)]
pub struct OrderBook {
    buy_orders: OrderMap,
    sell_orders: OrderMap,
}

impl View for OrderBook {
    type V = BookView;

    closed spec fn view(&self) -> BookView {
        BookView { buy: self.buy_orders@, sell: self.sell_orders@ }
    }
}

impl Clone for OrderBook {
    fn clone(&self) -> (copy: Self)
        ensures
            copy@ == self@,
    {
        OrderBook { buy_orders: self.buy_orders.clone(), sell_orders: self.sell_orders.clone() }
    }
}

impl Default for OrderBook {
    fn default() -> (book: Self)
        ensures
            book@ == (BookView { buy: Seq::empty(), sell: Seq::empty() }),
            book.wf(),
    {
        Self { buy_orders: OrderMap::new(), sell_orders: OrderMap::new() }
    }
}

impl OrderBook {
    /// Whether the book is well formed.
    pub open spec fn wf(&self) -> bool {
        book_wf(self@)
    }

    pub fn new(buy_orders: OrderMap, sell_orders: OrderMap) -> (book: Self)
        ensures
            book@ == (BookView { buy: buy_orders@, sell: sell_orders@ }),
    {
        Self { buy_orders, sell_orders }
    }

    /// Overwrites both sides of this book from `order_book`.
    pub fn update_self(&mut self, order_book: &mut Self)
        ensures
            final(self)@ == old(order_book)@,
            final(order_book)@ == old(order_book)@,
    {
        self.buy_orders = order_book.buy_orders.clone();
        self.sell_orders = order_book.sell_orders.clone();
    }

    /// Replaces one side of the book.
    pub fn update_order_book(&mut self, orders: OrderMap, side: Side)
        ensures
            final(self)@ == book_with_side(old(self)@, side, orders@),
    {
        match side {
            Side::Buy => self.buy_orders = orders,
            Side::Sell => self.sell_orders = orders,
        }
    }

    pub fn get_order_book(&self) -> (copy: Self)
        ensures
            copy@ == self@,
    {
        self.clone()
    }

    /// The side `side` and the side that it trades against, in this order.
    pub fn get_orders_for_matching(&self, side: Side) -> (sides: (OrderMap, OrderMap))
        ensures
            sides.0@ == side_of(self@, side),
            sides.1@ == side_of(self@, side.opposite()),
    {
        match side {
            Side::Buy => (self.buy_orders.clone(), self.sell_orders.clone()),
            Side::Sell => (self.sell_orders.clone(), self.buy_orders.clone()),
        }
    }

    pub fn get_orders_for(&self, side: Side) -> (orders: OrderMap)
        ensures
            orders@ == side_of(self@, side),
    {
        match side {
            Side::Buy => self.buy_orders.clone(),
            Side::Sell => self.sell_orders.clone(),
        }
    }

    /// Returns whether the book is well formed, which is what a match asks
    /// for. A book that was built order by order is.
    pub fn is_well_formed(&self) -> (ok: bool)
        ensures
            ok == self.wf(),
    {
        self.buy_orders.is_well_formed(Side::Buy) && self.sell_orders.is_well_formed(Side::Sell)
    }

    pub fn is_empty(&self) -> (empty: bool)
        ensures
            empty == (self@.buy.len() == 0 && self@.sell.len() == 0),
    {
        self.buy_orders.is_empty() && self.sell_orders.is_empty()
    }

    /// Adds `order` at the tail of the queue of its side and price level. An
    /// order that is not valid is left out and the book stays as it is.
    pub fn add_order_to_order_book(&mut self, order: OrderSingle)
        ensures
            final(self)@ == book_with_order(old(self)@, order@),
            old(self).wf() ==> final(self).wf(),
    {
        if order.is_valid() {
            proof {
                if self.wf() {
                    lemma_levels_with_order_wf(side_of(self@, order@.side), order@, order@.side);
                }
            }
            match order.side() {
                Side::Buy => self.buy_orders.add_order(order),
                Side::Sell => self.sell_orders.add_order(order),
            }
        }
    }

    /// The map of the side `side`, to read and to change.
    pub fn order_map(&mut self, side: Side) -> (map: &mut OrderMap)
        ensures
            map@ == side_of(old(self)@, side),
            final(self)@ == book_with_side(old(self)@, side, final(map)@),
    {
        if side == Side::Sell {
            &mut self.sell_orders
        } else {
            &mut self.buy_orders
        }
    }

    /// The symbols of the book, each once.
    pub fn get_excl_keys(&self) -> (symbols: Vec<String>)
        ensures
            symbol_texts(symbols@) == symbols_of_book(self@),
    {
        let mut excl_keys: Vec<String> = Vec::new();
        assert(symbol_texts(excl_keys@) =~= Seq::<Seq<char>>::empty());
        self.buy_orders.add_symbols(&mut excl_keys);
        self.sell_orders.add_symbols(&mut excl_keys);
        excl_keys
    }

    /// The market depth of `symbol`: the bids and the offers, each a list of
    /// prices with the quantity that rests there, in the order of the levels.
    pub fn market_depth(&self, symbol: &str) -> (depth: (Vec<MarketDepth>, Vec<MarketDepth>))
        ensures
            depth_views(depth.0@) == depth_of(self@.buy, symbol@, Side::Buy),
            depth_views(depth.1@) == depth_of(self@.sell, symbol@, Side::Sell),
    {
        let symbol = symbol.to_owned();
        let md_buy = self.buy_orders.get_md(&symbol, Side::Buy);
        let md_sell = self.sell_orders.get_md(&symbol, Side::Sell);
        (md_buy, md_sell)
    }
}

} // verus!
