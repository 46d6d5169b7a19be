use std::collections::VecDeque;

use matching_engine::common::utils::{create_order_from_string, price_field};
use matching_engine::model::book::{clone_queue, queue_total, OrderBook, OrderMap};
use matching_engine::model::domain::Side::{Buy, Sell};
use matching_engine::model::domain::{OrderBookKey, OrderSingle, OrderType};

fn book_order(line: &str) -> OrderSingle {
    match price_field(line) {
        Some(text) => match text.parse::<f64>() {
            Ok(price) => create_order_from_string(line.to_string(), price.to_bits()),
            Err(_) => OrderSingle::default(),
        },
        None => OrderSingle::default(),
    }
}

fn book_key(price: f64, symbol: &str) -> OrderBookKey {
    OrderBookKey::new(price.to_bits(), symbol.to_string())
}

fn ids(queue: &VecDeque<OrderSingle>) -> Vec<String> {
    queue.iter().map(|o| o.cl_ord_id().clone()).collect()
}

#[test]
fn test_adding_an_order_with_no_quantity_changes_nothing() {
    let mut book = OrderBook::default();
    book.add_order_to_order_book(book_order("id1 IBM 100 601.5 Buy"));
    book.add_order_to_order_book(book_order("id2 IBM 0 601.5 Buy"));
    let buy = book.get_orders_for(Buy);
    assert_eq!(buy.len(), 1);
    assert_eq!(ids(buy.get(&book_key(601.5, "IBM")).unwrap()), vec!["id1"]);
    assert!(book.get_orders_for(Sell).is_empty());
    let mut empty = OrderBook::default();
    empty.add_order_to_order_book(book_order("id2 IBM 0 601.5 Sell"));
    assert!(empty.is_empty());
}

#[test]
fn test_adding_an_invalid_order_changes_nothing() {
    let mut book = OrderBook::default();
    book.add_order_to_order_book(OrderSingle::default());
    book.add_order_to_order_book(OrderSingle::new(
        10,
        "IBM".to_string(),
        601.5f64.to_bits(),
        Buy,
        OrderType::Market,
        "id1".to_string(),
    ));
    book.add_order_to_order_book(book_order("id3 IBM 10 -601.5 Sell"));
    book.add_order_to_order_book(book_order("id3 IBM 10 0 Sell"));
    assert!(book.is_empty());
}

#[test]
fn test_adding_a_valid_order_lengthens_its_queue_by_one() {
    let mut book = OrderBook::default();
    let key = book_key(601.5, "IBM");
    for (n, id) in ["a", "b", "c", "d"].iter().enumerate() {
        let before = book.get_orders_for(Sell).get(&key).map_or(0, |q| q.len());
        assert_eq!(before, n);
        let line = format!("{} IBM 10 601.5 Sell", id);
        book.add_order_to_order_book(book_order(&line));
        book.add_order_to_order_book(book_order("other IBM 10 601.6 Sell"));
        let sell = book.get_orders_for(Sell);
        let queue = sell.get(&key).unwrap();
        assert_eq!(queue.len(), n + 1);
        assert_eq!(queue[n].cl_ord_id(), *id);
    }
    let sell = book.get_orders_for(Sell);
    assert_eq!(ids(sell.get(&key).unwrap()), vec!["a", "b", "c", "d"]);
    assert_eq!(sell.get(&book_key(601.6, "IBM")).unwrap().len(), 4);
    assert!(book.get_orders_for(Buy).is_empty());
    assert!(!book.is_empty());
}

#[test]
fn test_levels_are_by_symbol_and_exact_price() {
    let mut book = OrderBook::default();
    book.add_order_to_order_book(book_order("a IBM 10 601.5 Buy"));
    book.add_order_to_order_book(book_order("b TATA 10 601.5 Buy"));
    book.add_order_to_order_book(book_order("c IBM 10 601.50 Buy"));
    book.add_order_to_order_book(book_order("d IBM 10 601.5000001 Buy"));
    book.add_order_to_order_book(book_order("e IBM 10 601.5 Sell"));
    let buy = book.get_orders_for(Buy);
    assert_eq!(buy.len(), 3);
    assert_eq!(ids(buy.get(&book_key(601.5, "IBM")).unwrap()), vec!["a", "c"]);
    assert_eq!(ids(buy.get(&book_key(601.5, "TATA")).unwrap()), vec!["b"]);
    assert_eq!(ids(buy.get(&book_key(601.5000001, "IBM")).unwrap()), vec!["d"]);
    assert!(buy.get(&book_key(601.4, "IBM")).is_none());
    assert_eq!(buy.key_at(1), &book_key(601.5, "TATA"));
    assert_eq!(ids(buy.queue_at(0)), vec!["a", "c"]);
    assert_eq!(buy.position(&book_key(601.5000001, "IBM")), Some(2));
    assert_eq!(buy.position(&book_key(1.0, "IBM")), None);
    assert_eq!(book.get_orders_for(Sell).len(), 1);
}

#[test]
fn test_order_map_insert_and_remove() {
    let mut map = OrderMap::new();
    assert!(map.is_empty());
    let mut queue = VecDeque::new();
    queue.push_back(book_order("a IBM 10 601.5 Buy"));
    map.insert(book_key(601.5, "IBM"), clone_queue(&queue));
    map.add_order(book_order("b IBM 10 602.5 Buy"));
    map.add_order(book_order("c IBM 10 601.5 Buy"));
    assert_eq!(map.len(), 2);
    assert_eq!(ids(map.get(&book_key(601.5, "IBM")).unwrap()), vec!["a", "c"]);
    map.insert(book_key(601.5, "IBM"), queue);
    assert_eq!(ids(map.get(&book_key(601.5, "IBM")).unwrap()), vec!["a"]);
    assert_eq!(map.len(), 2);
    map.remove(&book_key(1.5, "IBM"));
    assert_eq!(map.len(), 2);
    map.remove(&book_key(601.5, "IBM"));
    assert_eq!(map.len(), 1);
    assert!(!map.contains_key(&book_key(601.5, "IBM")));
    assert!(map.contains_key(&book_key(602.5, "IBM")));
    let copy = map.clone();
    assert_eq!(copy.len(), 1);
}

#[test]
fn test_replacing_the_sides_of_a_book() {
    let mut first = OrderBook::default();
    first.add_order_to_order_book(book_order("a IBM 10 601.5 Buy"));
    let mut second = OrderBook::default();
    second.add_order_to_order_book(book_order("b IBM 10 602.5 Sell"));
    second.add_order_to_order_book(book_order("c IBM 10 603.5 Sell"));
    let sells = second.get_orders_for(Sell);
    first.update_order_book(sells, Sell);
    assert_eq!(first.get_orders_for(Buy).len(), 1);
    assert_eq!(first.get_orders_for(Sell).len(), 2);
    first.update_order_book(OrderMap::new(), Buy);
    assert!(first.get_orders_for(Buy).is_empty());
    let mut third = OrderBook::default();
    third.update_self(&mut first);
    assert_eq!(third.get_orders_for(Sell).len(), 2);
    assert_eq!(first.get_orders_for(Sell).len(), 2);
    let copy = third.get_order_book();
    assert_eq!(copy.get_orders_for(Sell).len(), 2);
    let made = OrderBook::new(third.get_orders_for(Sell), third.get_orders_for(Buy));
    assert_eq!(made.get_orders_for(Buy).len(), 2);
    assert!(made.get_orders_for(Sell).is_empty());
}

#[test]
fn test_order_map_of_a_side_can_be_changed_in_place() {
    let mut book = OrderBook::default();
    book.add_order_to_order_book(book_order("a IBM 10 601.5 Buy"));
    book.order_map(Sell).add_order(book_order("b IBM 10 602.5 Sell"));
    book.order_map(Buy).add_order(book_order("c IBM 10 601.5 Buy"));
    assert_eq!(book.get_orders_for(Sell).len(), 1);
    assert_eq!(ids(book.get_orders_for(Buy).get(&book_key(601.5, "IBM")).unwrap()), vec!["a", "c"]);
}

#[test]
fn test_queue_total() {
    let mut queue = VecDeque::new();
    assert_eq!(queue_total(&queue), 0);
    queue.push_back(book_order("a IBM 4294967295 601.5 Buy"));
    queue.push_back(book_order("b IBM 4294967295 601.5 Buy"));
    queue.push_back(book_order("c IBM 5 601.5 Buy"));
    assert_eq!(queue_total(&queue), 8589934595);
}

#[test]
fn test_symbols_of_a_book() {
    let mut book = OrderBook::default();
    assert!(book.get_excl_keys().is_empty());
    book.add_order_to_order_book(book_order("a IBM 10 601.5 Buy"));
    book.add_order_to_order_book(book_order("b TATA 10 601.5 Buy"));
    book.add_order_to_order_book(book_order("c IBM 10 602.5 Buy"));
    book.add_order_to_order_book(book_order("d INFY 10 602.5 Sell"));
    book.add_order_to_order_book(book_order("e TATA 10 602.5 Sell"));
    assert_eq!(book.get_excl_keys(), vec!["IBM", "TATA", "INFY"]);
}

#[test]
fn test_well_formed_books() {
    let mut book = OrderBook::default();
    assert!(book.is_well_formed());
    book.add_order_to_order_book(book_order("a IBM 10 601.5 Buy"));
    book.add_order_to_order_book(book_order("b IBM 10 601.5 Buy"));
    book.add_order_to_order_book(book_order("c IBM 10 602.5 Sell"));
    assert!(book.is_well_formed());
    let buy = book.get_orders_for(Buy);
    let sell = book.get_orders_for(Sell);
    assert!(buy.is_well_formed(Buy));
    assert!(!buy.is_well_formed(Sell));
    let swapped = OrderBook::new(sell, buy);
    assert!(!swapped.is_well_formed());
}

#[test]
fn test_maps_that_are_not_well_formed() {
    let queue = |lines: &[&str]| -> VecDeque<OrderSingle> {
        lines.iter().map(|line| book_order(line)).collect()
    };
    let mut empty_queue = OrderMap::new();
    empty_queue.insert(book_key(601.5, "IBM"), VecDeque::new());
    assert!(!empty_queue.is_well_formed(Buy));

    let mut wrong_level = OrderMap::new();
    wrong_level.insert(book_key(601.5, "IBM"), queue(&["a IBM 10 601.6 Buy"]));
    assert!(!wrong_level.is_well_formed(Buy));

    let mut wrong_symbol = OrderMap::new();
    wrong_symbol.insert(book_key(601.5, "IBM"), queue(&["a TATA 10 601.5 Buy"]));
    assert!(!wrong_symbol.is_well_formed(Buy));

    let mut no_quantity = OrderMap::new();
    no_quantity.insert(book_key(601.5, "IBM"), queue(&["a IBM 10 601.5 Buy", "b IBM 0 601.5 Buy"]));
    assert!(!no_quantity.is_well_formed(Buy));

    let mut good = OrderMap::new();
    good.insert(book_key(601.5, "IBM"), queue(&["a IBM 10 601.5 Buy", "b IBM 5 601.5 Buy"]));
    good.insert(book_key(601.5, "TATA"), queue(&["c TATA 10 601.5 Buy"]));
    assert!(good.is_well_formed(Buy));
    assert!(matching_engine::model::book::queue_rests_at(
        good.queue_at(1),
        good.key_at(1),
        Buy
    ));
    assert!(!matching_engine::model::book::queue_rests_at(
        good.queue_at(1),
        good.key_at(0),
        Buy
    ));
}
