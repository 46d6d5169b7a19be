use std::collections::VecDeque;

use matching_engine::common::utils::{create_order_book, create_order_from_string, price_field};
use matching_engine::matchers::matcher::Matcher;
use matching_engine::matchers::prorata_matcher::ProrataMatcher;
use matching_engine::model::domain::Side::{Buy, Sell};
use matching_engine::model::domain::Status::{Filled, PartialFill};
use matching_engine::model::domain::{Fill, OrderBook, OrderBookKey, OrderSingle, Status};

fn pro_order(line: &str) -> OrderSingle {
    match price_field(line) {
        Some(text) => match text.parse::<f64>() {
            Ok(price) => create_order_from_string(line.to_string(), price.to_bits()),
            Err(_) => OrderSingle::default(),
        },
        None => OrderSingle::default(),
    }
}

fn pro_orders_file() -> Vec<OrderSingle> {
    let input = vec![
        "id8 IBM 100 601.1 Buy",
        "id1 IBM 300 602.5 Buy",
        "id2 IBM 100 602.5 Buy",
        "id3 IBM 200 601.9 Buy",
        "id4 IBM 50 600.5 Buy",
        "id9 IBM 300 602.5 Sell",
        "id10 IBM 100 602.5 Sell",
        "id11 IBM 100 603.5 Sell",
    ];
    input.into_iter().map(pro_order).collect()
}

fn pro_queue(lines: &[&str]) -> VecDeque<OrderSingle> {
    lines.iter().map(|line| pro_order(line)).collect()
}

fn pro_book(lines: &[&str]) -> OrderBook {
    let mut book = OrderBook::default();
    for line in lines {
        book.add_order_to_order_book(pro_order(line));
    }
    book
}

fn resting(queue: &VecDeque<OrderSingle>) -> Vec<(String, u32)> {
    queue.iter().map(|o| (o.cl_ord_id().clone(), o.qty())).collect()
}

fn pro_summary(fill: &Fill) -> (String, String, u32, u32, u32, Status) {
    (
        fill.cl_ord_id().to_string(),
        fill.secondary_cl_ord_id(),
        fill.qty(),
        fill.cum_qty(),
        fill.leaves_qty(),
        *fill.status(),
    )
}

fn pro_row(id: &str, other: &str, qty: u32, cum: u32, leaves: u32, status: Status)
    -> (String, String, u32, u32, u32, Status) {
    (id.to_string(), other.to_string(), qty, cum, leaves, status)
}

fn assert_fills(fill: &Fill, fill_qty: u32, cum_qty: u32, leaves_qty: u32, status: Status) {
    assert_eq!(fill.qty(), fill_qty);
    assert_eq!(fill.cum_qty(), cum_qty);
    assert_eq!(fill.leaves_qty(), leaves_qty);
    assert_eq!(fill.status().clone(), status);
}

#[test]
fn test_proportional_match() {
    let mut buy_orders = VecDeque::new();
    buy_orders.push_back(pro_order("id8 IBM 300 602.5 Buy"));
    buy_orders.push_back(pro_order("id7 IBM 100 602.5 Buy"));
    let mut sell_orders = VecDeque::new();
    sell_orders.push_back(pro_order("id9 IBM 300 602.5 Sell"));
    sell_orders.push_back(pro_order("id10 IBM 100 602.5 Sell"));
    let mut pro = ProrataMatcher;
    let fills = pro.proportional_match(&mut buy_orders, &mut sell_orders);

    let _client_fills: VecDeque<Fill> = fills.clone().into_iter().filter(|f| f.side() == Buy).collect();

    let fills_for_id8: VecDeque<Fill> = fills.clone().into_iter().filter(|f| f.cl_ord_id() == "id8").collect();

    assert_eq!(fills_for_id8.len(), 2);
    for fill in fills_for_id8 {
        if fill.secondary_cl_ord_id() == "id9" {
            assert_fills(&fill, 225, 225, 75, PartialFill);
        } else if fill.secondary_cl_ord_id() == "id10" {
            assert_fills(&fill, 75, 300, 0, Filled);
        }
    }

    let fills_for_id7: VecDeque<Fill> = fills.clone().into_iter().filter(|f| f.cl_ord_id() == "id7").collect();
    for fill in fills_for_id7 {
        if fill.secondary_cl_ord_id() == "id9" {
            assert_fills(&fill, 75, 75, 25, PartialFill)
        } else if fill.secondary_cl_ord_id() == "id10" {
            assert_fills(&fill, 25, 100, 0, Filled)
        }
    }

    let exchange_fills: VecDeque<Fill> = fills.clone().into_iter().filter(|f| f.side() == Sell).collect();

    let ex_fills_for_id9: Vec<Fill> = exchange_fills.clone().into_iter().filter(|f| f.cl_ord_id() == "id9").collect();
    for fill in ex_fills_for_id9 {
        if fill.secondary_cl_ord_id() == "id8" {
            assert_fills(&fill, 225, 225, 75, PartialFill);
        } else if fill.secondary_cl_ord_id() == "id7" {
            assert_fills(&fill, 75, 300, 0, Filled);
        }
    }

    let ex_fills_for_id10: Vec<Fill> = exchange_fills.clone().into_iter().filter(|f| f.cl_ord_id() == "id10").collect();
    for fill in ex_fills_for_id10 {
        if fill.secondary_cl_ord_id() == "id8" {
            assert_fills(&fill, 75, 75, 25, PartialFill);
        } else if fill.secondary_cl_ord_id() == "id7" {
            assert_fills(&fill, 25, 100, 0, Filled);
        }
    }
}

#[test]
fn pro_rata_matcher_tests_test_match_order_book() {
    let mut order_book = create_order_book(pro_orders_file());
    let mut pro = ProrataMatcher;
    let fills = pro.match_order_book(&mut order_book);

    let client_fills: Vec<Fill> = fills.clone().into_iter().filter(|f| f.side() == Buy).collect();
    let exchange_fills: Vec<Fill> = fills.clone().into_iter().filter(|f| f.side() == Sell).collect();

    assert_eq!(client_fills.len(), 4);
    assert_eq!(exchange_fills.len(), 4);
    assert_eq!(order_book.get_orders_for(Buy).len(), 3);
    assert_eq!(order_book.get_orders_for(Sell).len(), 1);
    let (bids, offers) = order_book.market_depth("IBM");
    assert_eq!(bids.len(), 3);
    assert_eq!(offers.len(), 1);
}

#[test]
fn test_pro_rata_three_to_one_split() {
    let mut buy_orders = pro_queue(&["id8 IBM 300 602.5 Buy", "id7 IBM 100 602.5 Buy"]);
    let mut sell_orders = pro_queue(&["id9 IBM 300 602.5 Sell", "id10 IBM 100 602.5 Sell"]);
    let fills = ProrataMatcher::new().proportional_match(&mut buy_orders, &mut sell_orders);
    let all: Vec<_> = fills.iter().map(pro_summary).collect();
    assert_eq!(
        all,
        vec![
            pro_row("id8", "id9", 225, 225, 75, PartialFill),
            pro_row("id9", "id8", 225, 225, 75, PartialFill),
            pro_row("id7", "id9", 75, 75, 25, PartialFill),
            pro_row("id9", "id7", 75, 300, 0, Filled),
            pro_row("id8", "id10", 75, 300, 0, Filled),
            pro_row("id10", "id8", 75, 75, 25, PartialFill),
            pro_row("id7", "id10", 25, 100, 0, Filled),
            pro_row("id10", "id7", 25, 100, 0, Filled),
        ]
    );
    assert!(buy_orders.is_empty());
    assert!(sell_orders.is_empty());
    for pair in fills.chunks(2) {
        assert_eq!(pair[0].side(), Buy);
        assert_eq!(pair[1].side(), Sell);
        assert_eq!(pair[0].qty(), pair[1].qty());
        assert_eq!(pair[0].secondary_cl_ord_id(), pair[1].cl_ord_id());
        assert_eq!(pair[1].secondary_cl_ord_id(), pair[0].cl_ord_id());
    }
    for fill in fills.iter() {
        assert_eq!(*fill.status() == Filled, fill.leaves_qty() == 0);
    }
}

#[test]
fn test_pro_rata_rounds_shares_down() {
    let mut buy_orders =
        pro_queue(&["b1 IBM 100 602.5 Buy", "b2 IBM 100 602.5 Buy", "b3 IBM 100 602.5 Buy"]);
    let mut sell_orders = pro_queue(&["s1 IBM 100 602.5 Sell"]);
    let fills = ProrataMatcher::new().proportional_match(&mut buy_orders, &mut sell_orders);
    let all: Vec<_> = fills.iter().map(pro_summary).collect();
    assert_eq!(
        all,
        vec![
            pro_row("b1", "s1", 33, 33, 67, PartialFill),
            pro_row("s1", "b1", 33, 33, 67, PartialFill),
            pro_row("b2", "s1", 33, 33, 67, PartialFill),
            pro_row("s1", "b2", 33, 66, 34, PartialFill),
            pro_row("b3", "s1", 33, 33, 67, PartialFill),
            pro_row("s1", "b3", 33, 99, 1, PartialFill),
        ]
    );
    assert_eq!(
        resting(&buy_orders),
        vec![("b1".to_string(), 67), ("b2".to_string(), 67), ("b3".to_string(), 67)]
    );
    assert_eq!(resting(&sell_orders), vec![("s1".to_string(), 1)]);
}

#[test]
fn test_pro_rata_real_division() {
    let mut buy_orders = pro_queue(&["b1 IBM 1 602.5 Buy", "b2 IBM 2 602.5 Buy"]);
    let mut sell_orders = pro_queue(&["s1 IBM 3 602.5 Sell"]);
    let fills = ProrataMatcher::new().proportional_match(&mut buy_orders, &mut sell_orders);
    let all: Vec<_> = fills.iter().map(pro_summary).collect();
    assert_eq!(
        all,
        vec![
            pro_row("b1", "s1", 1, 1, 0, Filled),
            pro_row("s1", "b1", 1, 1, 2, PartialFill),
            pro_row("b2", "s1", 2, 2, 0, Filled),
            pro_row("s1", "b2", 2, 3, 0, Filled),
        ]
    );
    assert!(buy_orders.is_empty());
    assert!(sell_orders.is_empty());
}

#[test]
fn test_pro_rata_share_of_zero_is_reported() {
    let mut buy_orders = pro_queue(&["b1 IBM 1 602.5 Buy", "b2 IBM 1000 602.5 Buy"]);
    let mut sell_orders = pro_queue(&["s1 IBM 1 602.5 Sell"]);
    let fills = ProrataMatcher::new().proportional_match(&mut buy_orders, &mut sell_orders);
    let all: Vec<_> = fills.iter().map(pro_summary).collect();
    assert_eq!(
        all,
        vec![
            pro_row("b1", "s1", 0, 0, 1, PartialFill),
            pro_row("s1", "b1", 0, 0, 1, PartialFill),
            pro_row("b2", "s1", 0, 0, 1000, PartialFill),
            pro_row("s1", "b2", 0, 0, 1, PartialFill),
        ]
    );
    assert_eq!(resting(&buy_orders), vec![("b1".to_string(), 1), ("b2".to_string(), 1000)]);
    assert_eq!(resting(&sell_orders), vec![("s1".to_string(), 1)]);
}

#[test]
fn test_pro_rata_sell_larger_than_all_buys() {
    let mut buy_orders = pro_queue(&["b1 IBM 100 602.5 Buy", "b2 IBM 50 602.5 Buy"]);
    let mut sell_orders = pro_queue(&["s1 IBM 400 602.5 Sell", "s2 IBM 10 602.5 Sell"]);
    let fills = ProrataMatcher::new().proportional_match(&mut buy_orders, &mut sell_orders);
    let all: Vec<_> = fills.iter().map(pro_summary).collect();
    assert_eq!(
        all,
        vec![
            pro_row("b1", "s1", 100, 100, 0, Filled),
            pro_row("s1", "b1", 100, 100, 300, PartialFill),
            pro_row("b2", "s1", 50, 50, 0, Filled),
            pro_row("s1", "b2", 50, 150, 250, PartialFill),
        ]
    );
    assert!(buy_orders.is_empty());
    assert_eq!(resting(&sell_orders), vec![("s1".to_string(), 250), ("s2".to_string(), 10)]);
}

#[test]
fn test_pro_rata_large_quantities() {
    let mut buy_orders =
        pro_queue(&["b1 IBM 4294967295 602.5 Buy", "b2 IBM 4294967295 602.5 Buy"]);
    let mut sell_orders = pro_queue(&["s1 IBM 4294967295 602.5 Sell"]);
    let fills = ProrataMatcher::new().proportional_match(&mut buy_orders, &mut sell_orders);
    assert_eq!(fills.len(), 4);
    assert_eq!(fills[0].qty(), 2147483647);
    assert_eq!(fills[2].qty(), 2147483647);
    assert_eq!(fills[3].cum_qty(), 4294967294);
    assert_eq!(resting(&sell_orders), vec![("s1".to_string(), 1)]);
}

#[test]
fn test_pro_rata_empty_queues() {
    let mut buy_orders = pro_queue(&[]);
    let mut sell_orders = pro_queue(&["s1 IBM 400 602.5 Sell"]);
    let fills = ProrataMatcher::new().proportional_match(&mut buy_orders, &mut sell_orders);
    assert!(fills.is_empty());
    assert_eq!(resting(&sell_orders), vec![("s1".to_string(), 400)]);
    let mut buy_orders = pro_queue(&["b1 IBM 100 602.5 Buy"]);
    let mut sell_orders = pro_queue(&[]);
    let fills = ProrataMatcher::new().proportional_match(&mut buy_orders, &mut sell_orders);
    assert!(fills.is_empty());
    assert_eq!(resting(&buy_orders), vec![("b1".to_string(), 100)]);
}

#[test]
fn test_pro_rata_book_keeps_what_is_left() {
    let mut book = pro_book(&[
        "b1 IBM 100 602.5 Buy",
        "b2 IBM 100 602.5 Buy",
        "b3 IBM 100 602.5 Buy",
        "b4 IBM 10 601 Buy",
        "s1 IBM 100 602.5 Sell",
        "s2 IBM 40 601 Sell",
        "s3 IBM 40 600 Sell",
    ]);
    let fills = ProrataMatcher::new().match_order_book(&mut book);
    assert_eq!(fills.len(), 8);
    let buy = book.get_orders_for(Buy);
    let sell = book.get_orders_for(Sell);
    let key = |price: f64| OrderBookKey::new(price.to_bits(), "IBM".to_string());
    assert_eq!(
        resting(buy.get(&key(602.5)).unwrap()),
        vec![("b1".to_string(), 67), ("b2".to_string(), 67), ("b3".to_string(), 67)]
    );
    assert!(!buy.contains_key(&key(601.0)));
    assert_eq!(buy.len(), 1);
    assert_eq!(resting(sell.get(&key(602.5)).unwrap()), vec![("s1".to_string(), 1)]);
    assert_eq!(resting(sell.get(&key(601.0)).unwrap()), vec![("s2".to_string(), 30)]);
    assert_eq!(resting(sell.get(&key(600.0)).unwrap()), vec![("s3".to_string(), 40)]);
    assert_eq!(sell.len(), 3);
    assert_eq!(pro_summary(&fills[6]), pro_row("b4", "s2", 10, 10, 0, Filled));
    assert_eq!(pro_summary(&fills[7]), pro_row("s2", "b4", 10, 10, 30, PartialFill));
}

#[test]
fn test_pro_rata_no_crossing_price() {
    let mut book = pro_book(&["A IBM 100 600 Buy", "B IBM 100 601 Sell"]);
    for _ in 0..2 {
        let fills = ProrataMatcher::new().match_order_book(&mut book);
        assert!(fills.is_empty());
        assert_eq!(book.get_orders_for(Buy).len(), 1);
        assert_eq!(book.get_orders_for(Sell).len(), 1);
        let buy = book.get_orders_for(Buy);
        let queue = buy.get(&OrderBookKey::new(600f64.to_bits(), "IBM".to_string())).unwrap();
        assert_eq!(resting(queue), vec![("A".to_string(), 100)]);
    }
    let mut empty = OrderBook::default();
    assert!(ProrataMatcher::new().match_order_book(&mut empty).is_empty());
    assert!(empty.is_empty());
}

#[test]
fn test_pro_rata_fills_account_for_the_orders() {
    let buys = ["b1 IBM 100 602.5 Buy", "b2 IBM 70 602.5 Buy", "b3 IBM 30 602.5 Buy"];
    let sells = ["s1 IBM 90 602.5 Sell", "s2 IBM 50 602.5 Sell", "s3 IBM 200 602.5 Sell"];
    let mut buy_orders = pro_queue(&buys);
    let mut sell_orders = pro_queue(&sells);
    let fills = ProrataMatcher::new().proportional_match(&mut buy_orders, &mut sell_orders);
    let quantity = |id: &str| -> u32 {
        buys.iter().chain(sells.iter()).map(|l| pro_order(l)).find(|o| o.cl_ord_id() == id).unwrap().qty()
    };
    let mut last_cum: Vec<(String, u32)> = vec![];
    for fill in fills.iter() {
        assert_eq!(fill.cum_qty() + fill.leaves_qty(), quantity(fill.cl_ord_id()));
        let before = last_cum.iter().rev().find(|(id, _)| id == fill.cl_ord_id()).map_or(0, |e| e.1);
        assert_eq!(fill.cum_qty(), before + fill.qty());
        last_cum.push((fill.cl_ord_id().to_string(), fill.cum_qty()));
    }
    let client: u32 = fills.iter().step_by(2).map(|f| f.qty()).sum();
    let exchange: u32 = fills.iter().skip(1).step_by(2).map(|f| f.qty()).sum();
    assert_eq!(client, exchange);
    let left_buy: u32 = buy_orders.iter().map(|o| o.qty()).sum();
    let left_sell: u32 = sell_orders.iter().map(|o| o.qty()).sum();
    assert_eq!(client + left_buy, 200);
    assert_eq!(exchange + left_sell, 340);
    let first_round: u32 = fills.iter().take(6).step_by(2).map(|f| f.qty()).sum();
    assert_eq!(first_round, 45 + 31 + 13);
    assert!(90 - first_round < 3);
}

#[test]
fn test_pro_rata_fills_carry_generated_identifiers() {
    let mut book = pro_book(&[
        "b1 IBM 100 602.5 Buy",
        "b2 IBM 100 602.5 Buy",
        "s1 IBM 100 602.5 Sell",
        "s2 IBM 40 602.5 Sell",
    ]);
    let fills = ProrataMatcher::new().match_order_book(&mut book);
    assert_eq!(fills.len(), 8);
    for (place, fill) in fills.iter().enumerate() {
        assert_eq!(fill.side(), if place % 2 == 0 { Buy } else { Sell });
        assert!(*fill.status() == Filled || *fill.status() == PartialFill);
        for id in [fill.order_id(), fill.execution_id()] {
            assert!(!id.is_empty());
            assert!(id.chars().all(|c| c.is_ascii_digit()));
            assert!(id.parse::<u128>().unwrap() > 1_600_000_000_000);
        }
    }
    let sell = book.get_orders_for(Sell);
    let key = OrderBookKey::new(602.5f64.to_bits(), "IBM".to_string());
    let left: u32 = sell.get(&key).map_or(0, |queue| queue.iter().map(|o| o.qty()).sum());
    assert!(left + 2 <= 2 * 2);
}
