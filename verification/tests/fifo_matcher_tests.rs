use std::collections::VecDeque;

use matching_engine::common::utils::{create_order_book, create_order_from_string, price_field};
use matching_engine::matchers::fifo_matcher::FIFOMatcher;
use matching_engine::matchers::matcher::{CumQtyMap, Matcher};
use matching_engine::model::book::{OrderBook, OrderMap};
use matching_engine::model::domain::Side::{Buy, Sell};
use matching_engine::model::domain::Status::{Filled, PartialFill};
use matching_engine::model::domain::{Fill, OrderBookKey, OrderSingle, Status};

fn fifo_order(line: &str) -> OrderSingle {
    match price_field(line) {
        Some(text) => match text.parse::<f64>() {
            Ok(price) => create_order_from_string(line.to_string(), price.to_bits()),
            Err(_) => OrderSingle::default(),
        },
        None => OrderSingle::default(),
    }
}

fn fifo_book(lines: &[&str]) -> OrderBook {
    let mut book = OrderBook::default();
    for line in lines {
        book.add_order_to_order_book(fifo_order(line));
    }
    book
}

fn fifo_orders_file() -> Vec<OrderSingle> {
    let input = vec![
        "id8 IBM 100 601.1 Buy",
        "id1 IBM 300 602.5 Buy",
        "id2 IBM 100 602.5 Buy",
        "id3 IBM 200 601.9 Buy",
        "id4 IBM 50 600.5 Buy",
        "id9 IBM 300 602.5 Sell",
        "id10 IBM 100 602.5 Sell",
        "id11 IBM 100 603.5 Sell",
    ];
    input.into_iter().map(fifo_order).collect()
}

fn fifo_test1_file() -> Vec<OrderSingle> {
    let input =
        vec!["b1 TATA 100 602.5 Buy", "b2 TATA 100 602.5 Buy", "s1 TATA 150 602.5 Sell"];
    input.into_iter().map(fifo_order).collect()
}

fn fifo_key(price: f64, symbol: &str) -> OrderBookKey {
    OrderBookKey::new(price.to_bits(), symbol.to_string())
}

fn queue_of(map: &OrderMap, price: f64) -> Vec<(String, u32)> {
    match map.get(&fifo_key(price, "IBM")) {
        Some(queue) => queue.iter().map(|o| (o.cl_ord_id().clone(), o.qty())).collect(),
        None => vec![],
    }
}

fn summary(fill: &Fill) -> (String, String, u32, u32, u32, Status) {
    (
        fill.cl_ord_id().to_string(),
        fill.secondary_cl_ord_id(),
        fill.qty(),
        fill.cum_qty(),
        fill.leaves_qty(),
        *fill.status(),
    )
}

fn row(id: &str, other: &str, qty: u32, cum: u32, leaves: u32, status: Status)
    -> (String, String, u32, u32, u32, Status) {
    (id.to_string(), other.to_string(), qty, cum, leaves, status)
}

#[test]
fn test_fifo_match_order_book() {
    let mut order_book = create_order_book(fifo_orders_file());
    let mut fifo = FIFOMatcher;
    fifo.match_order_book(&mut order_book);
    let buy = order_book.get_orders_for(Buy);
    let sell = order_book.get_orders_for(Sell);
    assert_eq!(buy.len(), 3);
    assert_eq!(sell.len(), 1);
}

#[test]
fn test_match_order_multiple_buy_orders_against_a_single_sell_order() {
    let input = fifo_test1_file();
    let mut order_book = create_order_book(input);
    let key2 = fifo_key(602.5, "TATA");
    let buy = order_book.get_orders_for(Buy);
    let sell = order_book.get_orders_for(Sell);

    assert_eq!(buy.len(), 1);
    assert_eq!(sell.len(), 1);
    assert_eq!(buy.contains_key(&key2), true);
    assert_eq!(sell.contains_key(&key2), true);

    let buy_orders = buy.get(&key2).unwrap();
    assert_eq!(buy_orders.len(), 2);
    let sell_orders = sell.get(&key2).unwrap();
    assert_eq!(sell_orders.len(), 1);
    let mut fifo = FIFOMatcher;
    let fills = fifo.match_order_book(&mut order_book);
    let client_fills: Vec<Fill> = fills.clone().into_iter().filter(|f| f.side() == Buy).collect();
    let ex_fills: Vec<Fill> = fills.clone().into_iter().filter(|f| f.side() == Sell).collect();
    assert_eq!(client_fills.len(), 2);
    assert_eq!(ex_fills.len(), 2);
    let all: Vec<_> = fills.iter().map(summary).collect();
    assert_eq!(
        all,
        vec![
            row("b1", "s1", 100, 100, 0, Filled),
            row("s1", "b1", 100, 100, 50, PartialFill),
            row("b2", "s1", 50, 50, 50, PartialFill),
            row("s1", "b2", 50, 50, 0, Filled),
        ]
    );
    let buy = order_book.get_orders_for(Buy);
    let left = buy.get(&key2).unwrap();
    assert_eq!(left.len(), 1);
    assert_eq!(left[0].cl_ord_id(), "b2");
    assert_eq!(left[0].qty(), 50);
    assert!(order_book.get_orders_for(Sell).is_empty());
}

#[test]
fn fifo_matcher_test_update_fills_order_qty_eq_available_qty() {
    let mut fifo = FIFOMatcher;
    let input = fifo_orders_file();
    let mut order_book = create_order_book(input);
    let cl_order = fifo_order("test1 IBM 100 601.1 Sell");
    let key = cl_order.get_order_book_key();
    order_book.add_order_to_order_book(cl_order.clone());
    let buy = order_book.get_orders_for(Buy);
    let sell = order_book.get_orders_for(Sell);
    let sell_orders = sell.get(&key).unwrap();
    let buy_orders = buy.get(&key).unwrap();
    let mut ex_cum_map = fifo.create_cum_qty_map(&buy_orders);
    let mut cl_cum_map = fifo.create_cum_qty_map(&sell_orders);
    let mut ex_order = buy_orders.clone().pop_front().unwrap();

    let mut client_fill = Fill::from(&cl_order);
    let mut ex_fill = Fill::from(&ex_order);

    fifo.update_fills(&cl_order, &mut ex_order, &mut client_fill, &mut ex_fill, &mut cl_cum_map, &mut ex_cum_map);

    assert_eq!(client_fill.qty(), 100);
    assert_eq!(client_fill.cum_qty(), 100);
    assert_eq!(client_fill.leaves_qty(), 0);
    assert_eq!(client_fill.status().clone(), Filled);
    assert_eq!(ex_fill.qty(), 100);
    assert_eq!(ex_fill.cum_qty(), 100);
    assert_eq!(ex_fill.leaves_qty(), 0);
    assert_eq!(ex_fill.status().clone(), Filled);
    assert_eq!(client_fill.secondary_cl_ord_id(), "id8");
    assert_eq!(ex_fill.secondary_cl_ord_id(), "test1");
    assert_eq!(ex_order.qty(), 0);
}

#[test]
fn fifo_matcher_test_order_match_after_order_book_match() {
    let input = fifo_orders_file();
    let mut order_book = create_order_book(input.clone());
    let mut fifo = FIFOMatcher;
    fifo.match_order_book(&mut order_book);
    let cl_order = fifo_order("test1 IBM 100 601.1 Sell");
    order_book.add_order_to_order_book(cl_order.clone());
    let key = cl_order.clone().get_order_book_key();
    let mut fifo = FIFOMatcher;
    let client_orders_map = order_book.get_orders_for(Sell);
    let ex_orders_map = order_book.get_orders_for(Buy);
    let client_orders = client_orders_map.get(&key).unwrap();
    let ex_orders = ex_orders_map.get(&key).unwrap();

    let mut ex_cum_map = fifo.create_cum_qty_map(ex_orders);
    let mut cl_cum_map = fifo.create_cum_qty_map(client_orders);
    let mut ex_order = ex_orders.clone().pop_front().unwrap();

    let mut client_fill = Fill::from(&cl_order);
    let mut ex_fill = Fill::from(&ex_order);

    fifo.update_fills(&cl_order, &mut ex_order, &mut client_fill, &mut ex_fill, &mut cl_cum_map, &mut ex_cum_map);
    assert_eq!(client_fill.qty(), 100);
    assert_eq!(client_fill.cum_qty(), 100);
    assert_eq!(client_fill.leaves_qty(), 0);
    assert_eq!(client_fill.status().clone(), Filled);
    assert_eq!(ex_fill.qty(), 100);
    assert_eq!(ex_fill.cum_qty(), 100);
    assert_eq!(ex_fill.leaves_qty(), 0);
    assert_eq!(ex_fill.status().clone(), Filled);
    assert_eq!(client_fill.secondary_cl_ord_id(), "id8");
    assert_eq!(ex_fill.secondary_cl_ord_id(), "test1");
    assert_eq!(ex_order.qty(), 0);
}

#[test]
fn fifo_matcher_test_update_fills_order_qty_less_than_available_qty() {
    let input = fifo_orders_file();
    let mut order_book = create_order_book(input);
    let cl_order = fifo_order("test1 IBM 50 601.1 Sell");
    order_book.add_order_to_order_book(cl_order.clone());
    let key = cl_order.get_order_book_key();
    let fifo = FIFOMatcher;
    let client_order_map = order_book.get_orders_for(Sell);
    let ex_order_map = order_book.get_orders_for(Buy);
    let cl_orders = client_order_map.get(&key).unwrap();
    let ex_orders = ex_order_map.get(&key).unwrap();
    let mut ex_cum_map = fifo.create_cum_qty_map(ex_orders);
    let mut cl_cum_map = fifo.create_cum_qty_map(cl_orders);
    let mut ex_order = ex_orders.clone().pop_front().unwrap();
    let mut fifo = FIFOMatcher;
    let mut client_fill = Fill::from(&cl_order);
    let mut ex_fill = Fill::from(&ex_order);

    fifo.update_fills(&cl_order, &mut ex_order, &mut client_fill, &mut ex_fill, &mut cl_cum_map, &mut ex_cum_map);
    assert_eq!(client_fill.qty(), 50);
    assert_eq!(client_fill.cum_qty(), 50);
    assert_eq!(client_fill.leaves_qty(), 0);
    assert_eq!(client_fill.status().clone(), Filled);
    assert_eq!(ex_fill.qty(), 50);
    assert_eq!(ex_fill.cum_qty(), 50);
    assert_eq!(ex_fill.leaves_qty(), 50);
    assert_eq!(ex_fill.status().clone(), PartialFill);
    assert_eq!(client_fill.secondary_cl_ord_id(), "id8");
    assert_eq!(ex_fill.secondary_cl_ord_id(), "test1");
    assert_eq!(ex_order.qty(), 50);
}

#[test]
fn fifo_matcher_test_update_fills_order_qty_greater_than_available_qty() {
    let input = fifo_orders_file();
    let mut order_book = create_order_book(input);
    let cl_order = fifo_order("test1 IBM 150 601.1 Sell");
    order_book.add_order_to_order_book(cl_order.clone());
    let key = cl_order.get_order_book_key();
    let fifo = FIFOMatcher;
    let client_order_map = order_book.get_orders_for(Sell);
    let ex_order_map = order_book.get_orders_for(Buy);
    let cl_orders = client_order_map.get(&key).unwrap();
    let ex_orders = ex_order_map.get(&key).unwrap();
    let mut ex_cum_map = fifo.create_cum_qty_map(ex_orders);
    let mut cl_cum_map = fifo.create_cum_qty_map(cl_orders);
    let mut ex_order = ex_orders.clone().pop_front().unwrap();
    let mut fifo = FIFOMatcher;
    let mut client_fill = Fill::from(&cl_order);
    let mut ex_fill = Fill::from(&ex_order);

    fifo.update_fills(&cl_order, &mut ex_order, &mut client_fill, &mut ex_fill, &mut cl_cum_map, &mut ex_cum_map);

    assert_eq!(client_fill.qty(), 100);
    assert_eq!(client_fill.cum_qty(), 100);
    assert_eq!(client_fill.leaves_qty(), 50);
    assert_eq!(client_fill.status().clone(), PartialFill);
    assert_eq!(ex_fill.qty(), 100);
    assert_eq!(ex_fill.cum_qty(), 100);
    assert_eq!(ex_fill.leaves_qty(), 0);
    assert_eq!(ex_fill.status().clone(), Filled);
    assert_eq!(client_fill.secondary_cl_ord_id(), "id8");
    assert_eq!(ex_fill.secondary_cl_ord_id(), "test1");
    assert_eq!(ex_order.qty(), 0);
}

#[test]
fn test_update_fills_records_the_scoreboards() {
    let mut fifo = FIFOMatcher::new();
    let cl_order = fifo_order("c IBM 150 601.1 Buy");
    let mut first = fifo_order("x IBM 100 601.1 Sell");
    let mut second = fifo_order("y IBM 80 601.1 Sell");
    let mut cl_cum_map = CumQtyMap::new();
    cl_cum_map.insert("c".to_string(), 0);
    let mut ex_cum_map = CumQtyMap::new();
    ex_cum_map.insert("x".to_string(), 0);
    ex_cum_map.insert("y".to_string(), 0);
    let mut client_fill = Fill::from(&cl_order);
    let mut ex_fill = Fill::from(&first);
    fifo.update_fills(&cl_order, &mut first, &mut client_fill, &mut ex_fill, &mut cl_cum_map, &mut ex_cum_map);
    assert_eq!(cl_cum_map.get(&"c".to_string()), Some(100));
    assert_eq!(ex_cum_map.get(&"x".to_string()), Some(0));
    assert_eq!(summary(&client_fill), row("c", "x", 100, 100, 50, PartialFill));
    assert_eq!(summary(&ex_fill), row("x", "c", 100, 100, 0, Filled));
    let mut ex_fill = Fill::from(&second);
    fifo.update_fills(&cl_order, &mut second, &mut client_fill, &mut ex_fill, &mut cl_cum_map, &mut ex_cum_map);
    assert_eq!(cl_cum_map.get(&"c".to_string()), Some(150));
    assert_eq!(ex_cum_map.get(&"y".to_string()), Some(50));
    assert_eq!(ex_cum_map.get(&"z".to_string()), None);
    assert!(!ex_cum_map.contains_key(&"z".to_string()));
    assert_eq!(summary(&client_fill), row("c", "y", 50, 150, 0, Filled));
    assert_eq!(summary(&ex_fill), row("y", "c", 50, 50, 30, PartialFill));
    assert_eq!(second.qty(), 30);
}

#[test]
fn test_the_two_branches_of_an_execution() {
    let mut fifo = FIFOMatcher::new();
    let client = fifo_order("c IBM 150 601.1 Buy");
    let mut exchange = fifo_order("x IBM 100 601.1 Sell");
    let mut client_fill = Fill::from(&client);
    let mut ex_fill = Fill::from(&exchange);
    let mut cl_cum_map = CumQtyMap::new();
    cl_cum_map.insert("c".to_string(), 0);
    fifo.client_order_partial_fill(150, 100, &mut client_fill, &mut ex_fill, &mut exchange, &mut cl_cum_map);
    assert_eq!(summary(&client_fill), row("c", "", 100, 100, 50, PartialFill));
    assert_eq!(summary(&ex_fill), row("x", "", 100, 100, 0, Filled));
    assert_eq!(exchange.qty(), 0);
    assert_eq!(cl_cum_map.get(&"c".to_string()), Some(100));

    let mut exchange = fifo_order("y IBM 80 601.1 Sell");
    let mut ex_fill = Fill::from(&exchange);
    let mut ex_cum_map = CumQtyMap::new();
    ex_cum_map.insert("y".to_string(), 5);
    fifo.exchange_partial_fill(100, 80, 50, &mut client_fill, &mut ex_fill, &mut exchange, &mut ex_cum_map);
    assert_eq!(summary(&client_fill), row("c", "", 50, 150, 0, Filled));
    assert_eq!(summary(&ex_fill), row("y", "", 50, 55, 30, PartialFill));
    assert_eq!(exchange.qty(), 30);
    assert_eq!(ex_cum_map.get(&"y".to_string()), Some(55));
}

#[test]
fn test_scoreboard_starts_at_zero_for_each_order() {
    let fifo = FIFOMatcher::new();
    let mut orders = VecDeque::new();
    orders.push_back(fifo_order("a IBM 150 601.1 Buy"));
    orders.push_back(fifo_order("b IBM 100 601.1 Buy"));
    let map = fifo.create_cum_qty_map(&orders);
    assert_eq!(map.get(&"a".to_string()), Some(0));
    assert_eq!(map.get(&"b".to_string()), Some(0));
    assert_eq!(map.get(&"c".to_string()), None);
    assert!(map.contains_key(&"a".to_string()));
}

#[test]
fn test_fifo_one_to_one_exact() {
    let mut book = fifo_book(&["A IBM 100 601.1 Buy", "B IBM 100 601.1 Sell"]);
    let fills = FIFOMatcher::new().match_order_book(&mut book);
    let all: Vec<_> = fills.iter().map(summary).collect();
    assert_eq!(all, vec![row("A", "B", 100, 100, 0, Filled), row("B", "A", 100, 100, 0, Filled)]);
    assert_eq!(fills[0].side(), Buy);
    assert_eq!(fills[1].side(), Sell);
    assert_eq!(fills[0].symbol(), "IBM");
    assert_eq!(f64::from_bits(fills[1].price()), 601.1);
    assert!(book.is_empty());
}

#[test]
fn test_fifo_buy_larger_than_sell() {
    let mut book = fifo_book(&["A IBM 150 601.1 Buy", "B IBM 100 601.1 Sell"]);
    let fills = FIFOMatcher::new().match_order_book(&mut book);
    let all: Vec<_> = fills.iter().map(summary).collect();
    assert_eq!(
        all,
        vec![row("A", "B", 100, 100, 50, PartialFill), row("B", "A", 100, 100, 0, Filled)]
    );
    assert_eq!(queue_of(&book.get_orders_for(Buy), 601.1), vec![("A".to_string(), 50)]);
    assert!(book.get_orders_for(Sell).is_empty());
}

#[test]
fn test_fifo_buy_smaller_than_sell() {
    let mut book = fifo_book(&["A IBM 50 601.1 Buy", "B IBM 100 601.1 Sell"]);
    let fills = FIFOMatcher::new().match_order_book(&mut book);
    let all: Vec<_> = fills.iter().map(summary).collect();
    assert_eq!(
        all,
        vec![row("A", "B", 50, 50, 0, Filled), row("B", "A", 50, 50, 50, PartialFill)]
    );
    assert!(book.get_orders_for(Buy).is_empty());
    assert_eq!(queue_of(&book.get_orders_for(Sell), 601.1), vec![("B".to_string(), 50)]);
}

#[test]
fn test_fifo_no_crossing_price() {
    let mut book = fifo_book(&["A IBM 100 600 Buy", "B IBM 100 601 Sell"]);
    for _ in 0..2 {
        let fills = FIFOMatcher::new().match_order_book(&mut book);
        assert!(fills.is_empty());
        assert_eq!(queue_of(&book.get_orders_for(Buy), 600.0), vec![("A".to_string(), 100)]);
        assert_eq!(queue_of(&book.get_orders_for(Sell), 601.0), vec![("B".to_string(), 100)]);
        assert_eq!(book.get_orders_for(Buy).len(), 1);
        assert_eq!(book.get_orders_for(Sell).len(), 1);
    }
}

#[test]
fn test_fifo_same_price_of_another_symbol_does_not_cross() {
    let mut book = fifo_book(&["A IBM 100 600 Buy", "B TATA 100 600 Sell"]);
    let fills = FIFOMatcher::new().match_order_book(&mut book);
    assert!(fills.is_empty());
    assert_eq!(book.get_orders_for(Buy).len(), 1);
    assert_eq!(book.get_orders_for(Sell).len(), 1);
}

#[test]
fn test_fifo_empty_book() {
    let mut book = OrderBook::default();
    let fills = FIFOMatcher::new().match_order_book(&mut book);
    assert!(fills.is_empty());
    assert!(book.is_empty());
}

#[test]
fn test_fifo_time_priority_within_a_level() {
    let mut book = fifo_book(&[
        "b1 IBM 120 601.1 Buy",
        "b2 IBM 80 601.1 Buy",
        "b3 IBM 50 601.1 Buy",
        "s1 IBM 100 601.1 Sell",
        "s2 IBM 60 601.1 Sell",
        "s3 IBM 70 601.1 Sell",
    ]);
    let fills = FIFOMatcher::new().match_order_book(&mut book);
    let all: Vec<_> = fills.iter().map(summary).collect();
    assert_eq!(
        all,
        vec![
            row("b1", "s1", 100, 100, 20, PartialFill),
            row("s1", "b1", 100, 100, 0, Filled),
            row("b1", "s2", 20, 120, 0, Filled),
            row("s2", "b1", 20, 20, 40, PartialFill),
            row("b2", "s2", 40, 40, 40, PartialFill),
            row("s2", "b2", 40, 40, 0, Filled),
            row("b2", "s3", 40, 80, 0, Filled),
            row("s3", "b2", 40, 40, 30, PartialFill),
            row("b3", "s3", 30, 30, 20, PartialFill),
            row("s3", "b3", 30, 30, 0, Filled),
        ]
    );
    assert_eq!(queue_of(&book.get_orders_for(Buy), 601.1), vec![("b3".to_string(), 20)]);
    assert!(book.get_orders_for(Sell).is_empty());
    let fifo = FIFOMatcher::new();
    assert_eq!(fifo.sum_of_filled_quantities(&fills, Buy), 230);
    assert_eq!(fifo.sum_of_filled_quantities(&fills, Sell), 230);
    for pair in fills.chunks(2) {
        assert_eq!(pair[0].qty(), pair[1].qty());
        assert_eq!(pair[0].secondary_cl_ord_id(), pair[1].cl_ord_id());
        assert_eq!(pair[1].secondary_cl_ord_id(), pair[0].cl_ord_id());
        assert_eq!(pair[0].side(), Buy);
        assert_eq!(pair[1].side(), Sell);
    }
    for fill in fills.iter() {
        assert_eq!(*fill.status() == Filled, fill.leaves_qty() == 0);
    }
}

#[test]
fn test_fifo_leaves_one_side_at_most_at_each_price() {
    let mut book = fifo_book(&[
        "b1 IBM 120 601.1 Buy",
        "b2 IBM 80 602.1 Buy",
        "b3 IBM 50 603.1 Buy",
        "s1 IBM 100 601.1 Sell",
        "s2 IBM 90 602.1 Sell",
        "s3 IBM 50 603.1 Sell",
        "s4 IBM 50 604.1 Sell",
    ]);
    let fills = FIFOMatcher::new().match_order_book(&mut book);
    assert_eq!(fills.len(), 6);
    let buy = book.get_orders_for(Buy);
    let sell = book.get_orders_for(Sell);
    assert_eq!(queue_of(&buy, 601.1), vec![("b1".to_string(), 20)]);
    assert_eq!(queue_of(&sell, 602.1), vec![("s2".to_string(), 10)]);
    assert_eq!(queue_of(&sell, 604.1), vec![("s4".to_string(), 50)]);
    assert_eq!(buy.len(), 1);
    assert_eq!(sell.len(), 2);
    for price in [601.1, 602.1, 603.1, 604.1] {
        let key = fifo_key(price, "IBM");
        assert!(!(buy.contains_key(&key) && sell.contains_key(&key)));
    }
}

#[test]
fn test_get_fills_for_one_order() {
    let mut fifo = FIFOMatcher::new();
    let book = fifo_book(&["s1 IBM 100 601.1 Sell", "s2 IBM 60 601.1 Sell", "s3 IBM 9 605 Sell"]);
    let mut sell = book.get_orders_for(Sell);
    let mut scoreboard = CumQtyMap::new();
    let order = fifo_order("b1 IBM 130 601.1 Buy");
    let fills = fifo.get_fills_for(&mut sell, &mut scoreboard, &order);
    let all: Vec<_> = fills.iter().map(summary).collect();
    assert_eq!(
        all,
        vec![
            row("b1", "s1", 100, 100, 30, PartialFill),
            row("s1", "b1", 100, 100, 0, Filled),
            row("b1", "s2", 30, 130, 0, Filled),
            row("s2", "b1", 30, 30, 30, PartialFill),
        ]
    );
    assert_eq!(scoreboard.get(&"b1".to_string()), Some(130));
    assert_eq!(queue_of(&sell, 601.1), vec![("s2".to_string(), 30)]);
    assert_eq!(queue_of(&sell, 605.0), vec![("s3".to_string(), 9)]);

    let order = fifo_order("b2 IBM 50 601.1 Buy");
    let fills = fifo.get_fills_for(&mut sell, &mut scoreboard, &order);
    assert_eq!(fills.len(), 2);
    assert_eq!(summary(&fills[0]), row("b2", "s2", 30, 30, 20, PartialFill));
    assert_eq!(scoreboard.get(&"b2".to_string()), Some(30));
    assert!(!sell.contains_key(&fifo_key(601.1, "IBM")));
    assert_eq!(sell.len(), 1);

    let order = fifo_order("b3 IBM 50 601.1 Buy");
    let fills = fifo.get_fills_for(&mut sell, &mut scoreboard, &order);
    assert!(fills.is_empty());
    assert_eq!(scoreboard.get(&"b3".to_string()), None);
    assert_eq!(scoreboard.get(&"b1".to_string()), Some(130));
    assert_eq!(scoreboard.get(&"b2".to_string()), Some(30));
    assert_eq!(sell.len(), 1);
    assert_eq!(queue_of(&sell, 605.0), vec![("s3".to_string(), 9)]);

    scoreboard.insert("b4".to_string(), 7);
    let order = fifo_order("b4 IBM 50 601.1 Buy");
    let fills = fifo.get_fills_for(&mut sell, &mut scoreboard, &order);
    assert!(fills.is_empty());
    assert_eq!(scoreboard.get(&"b4".to_string()), Some(7));
}

#[test]
fn test_match_level_and_remove_order() {
    let mut fifo = FIFOMatcher::new();
    let book = fifo_book(&["s1 IBM 100 601.1 Sell"]);
    let mut sell = book.get_orders_for(Sell);
    let mut queue = VecDeque::new();
    queue.push_back(fifo_order("b1 IBM 70 601.1 Buy"));
    queue.push_back(fifo_order("b2 IBM 70 601.1 Buy"));
    queue.push_back(fifo_order("b3 IBM 70 601.1 Buy"));
    let (fills, left) = fifo.match_level(&queue, &mut sell);
    assert_eq!(fills.len(), 4);
    let left: Vec<(String, u32)> = left.iter().map(|o| (o.cl_ord_id().clone(), o.qty())).collect();
    assert_eq!(left, vec![("b2".to_string(), 40), ("b3".to_string(), 70)]);
    assert!(sell.is_empty());
    fifo.remove_order(&mut queue);
    assert_eq!(queue.len(), 2);
    assert_eq!(queue[0].cl_ord_id(), "b2");
    let mut none: VecDeque<OrderSingle> = VecDeque::new();
    fifo.remove_order(&mut none);
    assert!(none.is_empty());
}

#[test]
fn test_fifo_fills_account_for_the_orders() {
    let lines = [
        "b1 IBM 120 601.1 Buy",
        "b2 IBM 80 601.1 Buy",
        "b3 IBM 50 602 Buy",
        "s1 IBM 100 601.1 Sell",
        "s2 IBM 60 601.1 Sell",
        "s3 IBM 500 602 Sell",
    ];
    let mut book = fifo_book(&lines);
    let before_buy: u128 = 250;
    let before_sell: u128 = 660;
    let fills = FIFOMatcher::new().match_order_book(&mut book);
    let client: u128 = fills.iter().step_by(2).map(|f| f.qty() as u128).sum();
    let exchange: u128 = fills.iter().skip(1).step_by(2).map(|f| f.qty() as u128).sum();
    assert_eq!(client, exchange);
    assert_eq!(client, 210);
    let resting = |map: &OrderMap| -> u128 {
        (0..map.len()).map(|i| matching_engine::model::book::queue_total(map.queue_at(i))).sum()
    };
    assert_eq!(client + resting(&book.get_orders_for(Buy)), before_buy);
    assert_eq!(exchange + resting(&book.get_orders_for(Sell)), before_sell);
    let quantity = |id: &str| -> u32 {
        lines.iter().map(|line| fifo_order(line)).find(|o| o.cl_ord_id() == id).unwrap().qty()
    };
    let mut last_cum: Vec<(String, u32)> = vec![];
    for fill in fills.iter().step_by(2) {
        assert_eq!(fill.cum_qty() + fill.leaves_qty(), quantity(fill.cl_ord_id()));
        let before = last_cum.iter().rev().find(|(id, _)| id == fill.cl_ord_id()).map_or(0, |e| e.1);
        assert_eq!(fill.cum_qty(), before + fill.qty());
        last_cum.push((fill.cl_ord_id().to_string(), fill.cum_qty()));
    }
    for fill in fills.iter().skip(1).step_by(2) {
        assert_eq!(fill.cum_qty(), fill.qty());
        assert!(fill.cum_qty() + fill.leaves_qty() <= quantity(fill.cl_ord_id()));
    }
    assert_eq!(summary(&fills[5]), row("s2", "b2", 40, 40, 0, Filled));
}

#[test]
fn test_fifo_fills_carry_generated_identifiers() {
    let mut book = fifo_book(&[
        "b1 IBM 120 601.1 Buy",
        "b2 IBM 80 601.1 Buy",
        "s1 IBM 100 601.1 Sell",
        "s2 IBM 60 601.1 Sell",
    ]);
    let fills = FIFOMatcher::new().match_order_book(&mut book);
    assert_eq!(fills.len(), 6);
    for fill in fills.iter() {
        for id in [fill.order_id(), fill.execution_id()] {
            assert!(!id.is_empty());
            assert!(id.chars().all(|c| c.is_ascii_digit()));
            assert!(!id.starts_with('0'));
            assert!(id.parse::<u128>().unwrap() > 1_600_000_000_000);
        }
    }
}
