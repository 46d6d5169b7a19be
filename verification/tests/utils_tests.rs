use matching_engine::common::utils::{
    create_order_book, create_order_from_string, decimal_string, generate_id, id_from_parts,
    millis_from_parts, millis_since_epoch,
    parse_quantity, price_field, split_fields, Aggregator, Sigma,
};
use matching_engine::model::domain::Side::{Buy, Sell};
use matching_engine::model::domain::{Fill, OrderBook, OrderBookKey, OrderSingle, OrderType};

fn order_from(line: &str) -> OrderSingle {
    match price_field(line) {
        Some(text) => match text.parse::<f64>() {
            Ok(price) => create_order_from_string(line.to_string(), price.to_bits()),
            Err(_) => OrderSingle::default(),
        },
        None => OrderSingle::default(),
    }
}

fn key(price: f64, symbol: &str) -> OrderBookKey {
    OrderBookKey::new(price.to_bits(), symbol.to_string())
}

fn create_test_order_book() -> OrderBook {
    let input = vec![
        "id1 IBM 100 601.5 Buy",
        "id2 IBM 200 601.5 Buy",
        "id3 IBM 300 601.5 Buy",
        "id4 IBM 100 601.1 Buy",
        "id5 IBM 400 601.5 Buy",
        "id6 IBM 100 601.5 Sell",
        "id7 IBM 100 602.5 Sell",
    ];
    create_order_book(input.into_iter().map(order_from).collect())
}

#[test]
fn utils_test_values() {
    let order1 = "id1 IBM 300 602.5 Buy";
    let order2 = "id2 IBM 300 601.1 Buy";
    let order3 = "id3 IBM 300 601.1 Buy";
    let order4 = "id4 IBM 300 601.9 Buy";
    let mut order_book = OrderBook::default();
    order_book.add_order_to_order_book(order_from(order1));
    order_book.add_order_to_order_book(order_from(order2));
    order_book.add_order_to_order_book(order_from(order3));
    order_book.add_order_to_order_book(order_from(order4));
    let key1 = key(602.5, "IBM");
    let key2 = key(601.1, "IBM");
    let key3 = key(601.9, "IBM");
    let buy = order_book.get_orders_for(Buy);
    let orders = buy.get(&key1).unwrap();
    assert_eq!(buy.len(), 3);

    assert_eq!(orders.iter().len(), 1);
    let orders = buy.get(&key2).unwrap();

    assert_eq!(orders.iter().len(), 2);

    let orders = buy.get(&key3).unwrap();
    assert_eq!(orders.iter().len(), 1);
}

#[test]
fn test_create_order_book() {
    let order_book = create_test_order_book();
    let (buy, sell) = order_book.get_orders_for_matching(Buy);
    assert_eq!(buy.len(), 2);
    assert_eq!(sell.len(), 2);
}

#[test]
fn test_values_of_loaded_book() {
    let order_book = create_test_order_book();
    let (buy, sell) = order_book.get_orders_for_matching(Buy);
    let key1 = key(601.5, "IBM");
    let key2 = key(601.1, "IBM");
    let key3 = key(602.5, "IBM");
    let orders = buy.get(&key1).unwrap();
    assert_eq!(orders.iter().len(), 4);
    let orders = buy.get(&key2);
    assert_eq!(orders.iter().len(), 1);

    let orders = sell.get(&key1);
    assert_eq!(orders.iter().len(), 1);

    let orders = sell.get(&key3);
    assert_eq!(orders.iter().len(), 1);
}

#[test]
fn test_orders_for_matching_swaps_sides() {
    let order_book = create_test_order_book();
    let (own, other) = order_book.get_orders_for_matching(Sell);
    assert_eq!(own.len(), 2);
    assert!(own.contains_key(&key(602.5, "IBM")));
    assert!(other.contains_key(&key(601.1, "IBM")));
}

#[test]
fn test_order_from_line() {
    let order = order_from("id1 IBM 300 602.5 Buy");
    assert_eq!(order.cl_ord_id(), "id1");
    assert_eq!(order.symbol(), "IBM");
    assert_eq!(order.qty(), 300);
    assert_eq!(f64::from_bits(order.price()), 602.5);
    assert_eq!(order.side(), Buy);
    assert_eq!(order.order_type(), OrderType::Limit);
    assert!(order.is_valid());
}

#[test]
fn test_order_from_line_any_other_side_is_sell() {
    let order = order_from("id1 IBM 300 602.5 Sell");
    assert_eq!(order.side(), Sell);
    let order = order_from("id1 IBM 300 602.5 sideways");
    assert_eq!(order.side(), Sell);
}

#[test]
fn test_line_with_wrong_field_count_gives_default_order() {
    for line in ["", "id1 IBM 300 602.5", "id1 IBM 300 602.5 Buy extra", "id1  IBM 300 602.5 Buy"] {
        let order = create_order_from_string(line.to_string(), 602.5f64.to_bits());
        assert!(!order.is_valid());
        assert_eq!(order.qty(), 0);
        assert_eq!(order.cl_ord_id(), "");
        assert_eq!(order.symbol(), "");
        assert_eq!(order.price(), 0);
        assert_eq!(order.side(), Buy);
        assert!(price_field(line).is_none());
    }
}

#[test]
fn test_line_with_bad_quantity_gives_default_order() {
    for line in ["id1 IBM abc 602.5 Buy", "id1 IBM -5 602.5 Buy", "id1 IBM 4294967296 602.5 Buy"] {
        let order = create_order_from_string(line.to_string(), 602.5f64.to_bits());
        assert!(!order.is_valid());
        assert_eq!(order.qty(), 0);
        assert_eq!(order.cl_ord_id(), "");
    }
}

#[test]
fn test_price_field() {
    assert_eq!(price_field("id1 IBM 300 602.5 Buy"), Some("602.5".to_string()));
    assert_eq!(price_field("a b c d e"), Some("d".to_string()));
    assert_eq!(price_field("a b c d"), None);
}

#[test]
fn test_split_fields() {
    assert_eq!(split_fields(""), vec!["".to_string()]);
    assert_eq!(split_fields("abc"), vec!["abc".to_string()]);
    assert_eq!(split_fields("a b"), vec!["a".to_string(), "b".to_string()]);
    assert_eq!(split_fields("a  b "), vec!["a", "", "b", ""]);
    assert_eq!(split_fields(" x"), vec!["", "x"]);
    let std_split: Vec<&str> = "id1 IBM 300 602.5 Buy".split(" ").collect();
    assert_eq!(split_fields("id1 IBM 300 602.5 Buy"), std_split);
}

#[test]
fn test_parse_quantity() {
    assert_eq!(parse_quantity("0"), Some(0));
    assert_eq!(parse_quantity("300"), Some(300));
    assert_eq!(parse_quantity("+17"), Some(17));
    assert_eq!(parse_quantity("007"), Some(7));
    assert_eq!(parse_quantity("4294967295"), Some(4294967295));
    assert_eq!(parse_quantity("4294967296"), None);
    assert_eq!(parse_quantity("99999999999999999999999"), None);
    assert_eq!(parse_quantity(""), None);
    assert_eq!(parse_quantity("+"), None);
    assert_eq!(parse_quantity("-1"), None);
    assert_eq!(parse_quantity("1.5"), None);
    assert_eq!(parse_quantity("12a"), None);
    assert_eq!(parse_quantity(" 12"), None);
}

#[test]
fn test_create_order_book_takes_every_valid_order() {
    assert!(create_order_book(vec![]).is_empty());
    let one = vec![order_from("id1 IBM 300 602.5 Buy")];
    let book = create_order_book(one);
    let buy = book.get_orders_for(Buy);
    assert_eq!(buy.len(), 1);
    let queue = buy.get(&key(602.5, "IBM")).unwrap();
    assert_eq!(queue.len(), 1);
    assert_eq!(queue[0].cl_ord_id(), "id1");
    assert_eq!(queue[0].qty(), 300);
    assert!(book.get_orders_for(Sell).is_empty());
    let two = vec![order_from("id1 IBM 300 602.5 Buy"), order_from("id2 IBM 100 602.5 Sell")];
    let book = create_order_book(two);
    assert_eq!(book.get_orders_for(Buy).len(), 1);
    assert_eq!(book.get_orders_for(Sell).len(), 1);
}

#[test]
fn test_create_order_book_leaves_invalid_orders_out() {
    let input = vec![
        order_from("id1 IBM 300 602.5 Buy"),
        order_from("id2 IBM 0 602.5 Buy"),
        order_from("not an order"),
        order_from("id3 IBM 10 -1.5 Buy"),
        order_from("id4 IBM 10 602.5 Buy"),
    ];
    let book = create_order_book(input);
    let buy = book.get_orders_for(Buy);
    assert_eq!(buy.len(), 1);
    let queue = buy.get(&key(602.5, "IBM")).unwrap();
    assert_eq!(queue.len(), 2);
    assert_eq!(queue[0].cl_ord_id(), "id1");
    assert_eq!(queue[1].cl_ord_id(), "id4");
    assert!(book.get_orders_for(Sell).is_empty());
}

#[test]
fn test_sigma_of_orders() {
    let orders = vec![
        order_from("id1 IBM 300 602.5 Buy"),
        order_from("id2 IBM 100 602.5 Buy"),
        order_from("id3 IBM 25 601.5 Sell"),
    ];
    let sum: u32 = Aggregator::sigma(&orders);
    assert_eq!(sum, 425);
    let none: Vec<OrderSingle> = vec![];
    let sum: u32 = Aggregator::sigma(&none);
    assert_eq!(sum, 0);
}

#[test]
fn test_sigma_of_fills() {
    let mut first = Fill::from(&order_from("id1 IBM 300 602.5 Buy"));
    first.set_qty(225);
    let mut second = Fill::from(&order_from("id2 IBM 100 602.5 Buy"));
    second.set_qty(75);
    let sum: u32 = Aggregator::sigma(&vec![first, second]);
    assert_eq!(sum, 300);
}

#[test]
fn test_id_from_parts() {
    assert_eq!(id_from_parts(0, 1), "1");
    assert_eq!(id_from_parts(1700000000000, 1000000), "1700001000000");
    assert_eq!(id_from_parts(9, 1), "10");
    assert_eq!(id_from_parts(u64::MAX as u128, 1), "18446744073709551616");
}

#[test]
fn test_generate_id_is_a_positive_number() {
    let before = millis_since_epoch();
    for _ in 0..50 {
        let id = generate_id();
        assert!(!id.is_empty());
        assert!(id.chars().all(|c| c.is_ascii_digit()));
        assert!(!id.starts_with('0'));
        let number: u128 = id.parse().unwrap();
        assert!(number >= before + 1);
        assert!(number <= millis_since_epoch() + 1_000_000);
    }
}

#[test]
fn test_clock_is_past_the_epoch() {
    let millis = millis_since_epoch();
    assert!(millis > 1_600_000_000_000);
    assert!(millis_since_epoch() >= millis);
}

#[test]
fn test_decimal_string() {
    for n in [0u128, 1, 9, 10, 11, 99, 100, 101, 12345678901234567890, u128::MAX] {
        assert_eq!(decimal_string(n), n.to_string());
    }
}

#[test]
fn test_millis_from_parts() {
    assert_eq!(millis_from_parts(0, 0), 0);
    assert_eq!(millis_from_parts(0, 999), 999);
    assert_eq!(millis_from_parts(1, 0), 1000);
    assert_eq!(millis_from_parts(1_700_000_000, 123), 1_700_000_000_123);
    assert_eq!(millis_from_parts(u64::MAX, 999), 18_446_744_073_709_551_615_999);
}
