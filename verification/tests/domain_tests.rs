use std::collections::hash_map::DefaultHasher;
use std::hash::{Hash, Hasher};

use matching_engine::common::utils::{create_order_book, create_order_from_string, price_field};
use matching_engine::model::domain::Side::{Buy, Sell};
use matching_engine::model::domain::{
    has_visible_char, is_white_space_char, Fill, MarketDepth, OrderBook, OrderBookKey, OrderSingle,
    OrderType, Side, Status,
};

fn domain_order(line: &str) -> OrderSingle {
    match price_field(line) {
        Some(text) => match text.parse::<f64>() {
            Ok(price) => create_order_from_string(line.to_string(), price.to_bits()),
            Err(_) => OrderSingle::default(),
        },
        None => OrderSingle::default(),
    }
}

fn domain_book() -> OrderBook {
    let input = vec![
        "id8 IBM 100 601.1 Buy",
        "id1 IBM 300 602.5 Buy",
        "id2 IBM 100 602.5 Buy",
        "id3 IBM 200 601.9 Buy",
        "id4 TATA 50 600.5 Buy",
        "id9 IBM 300 602.5 Sell",
        "id10 IBM 100 602.5 Sell",
        "id11 INFY 100 603.5 Sell",
    ];
    create_order_book(input.into_iter().map(domain_order).collect())
}

#[test]
fn test_partial_equals() {
    let ok1 = OrderBookKey::new(101.5f64.to_bits(), "infy".to_string());
    let ok2 = OrderBookKey::new(101.1f64.to_bits(), "infy".to_string());
    let ok3 = OrderBookKey::new(101.5f64.to_bits(), "infy".to_string());

    assert_ne!(ok1, ok2);
    assert_eq!(ok1, ok3);
}

#[test]
fn test_orderbookkey_hash() {
    let ok1 = OrderBookKey::new(101.5f64.to_bits(), "infy".to_string());
    let ok2 = OrderBookKey::new(101.5f64.to_bits(), "infy".to_string());
    let ok3 = OrderBookKey::new(101.45f64.to_bits(), "infy".to_string());

    let mut hasher = DefaultHasher::new();

    ok1.hash(&mut hasher);
    let hash1 = hasher.finish();

    hasher = DefaultHasher::new();

    ok2.hash(&mut hasher);
    let hash2 = hasher.finish();

    hasher = DefaultHasher::new();

    ok3.hash(&mut hasher);
    let hash3 = hasher.finish();

    assert_eq!(hash1, hash2);
    assert_ne!(hash1, hash3);
    assert_ne!(hash2, hash3);
}

#[test]
fn test_print_md() {
    let ob = domain_book();
    let symbols = ob.get_excl_keys();
    assert_eq!(symbols, vec!["IBM", "TATA", "INFY"]);
    let (bids, offers) = ob.market_depth("IBM");
    let bids: Vec<(f64, u128, Side)> =
        bids.iter().map(|md| (f64::from_bits(md.price()), md.qty(), md.side())).collect();
    let offers: Vec<(f64, u128, Side)> =
        offers.iter().map(|md| (f64::from_bits(md.price()), md.qty(), md.side())).collect();
    assert_eq!(bids, vec![(601.1, 100, Buy), (602.5, 400, Buy), (601.9, 200, Buy)]);
    assert_eq!(offers, vec![(602.5, 400, Sell)]);
    let (bids, offers) = ob.market_depth("TATA");
    assert_eq!(bids.len(), 1);
    assert_eq!(bids[0].qty(), 50);
    assert!(offers.is_empty());
    let (bids, offers) = ob.market_depth("NONE");
    assert!(bids.is_empty());
    assert!(offers.is_empty());
}

#[test]
fn test_key_equality_is_by_price_and_symbol() {
    let key = OrderBookKey::new(101.5f64.to_bits(), "infy".to_string());
    assert_ne!(key, OrderBookKey::new(101.5f64.to_bits(), "INFY".to_string()));
    assert_eq!(key.clone(), key);
    assert_eq!(f64::from_bits(key.price()), 101.5);
    assert_eq!(key.symbol(), "infy");
    assert!(key.has_symbol(&"infy".to_string()));
    assert!(!key.has_symbol(&"ibm".to_string()));
}

#[test]
fn test_key_validity() {
    assert!(OrderBookKey::new(101.5f64.to_bits(), "infy".to_string()).is_valid());
    assert!(OrderBookKey::new(f64::INFINITY.to_bits(), "infy".to_string()).is_valid());
    assert!(OrderBookKey::new(f64::MIN_POSITIVE.to_bits(), " ".to_string()).is_valid());
    assert!(!OrderBookKey::new(101.5f64.to_bits(), "".to_string()).is_valid());
    assert!(!OrderBookKey::new(0.0f64.to_bits(), "infy".to_string()).is_valid());
    assert!(!OrderBookKey::new((-0.0f64).to_bits(), "infy".to_string()).is_valid());
    assert!(!OrderBookKey::new((-1.5f64).to_bits(), "infy".to_string()).is_valid());
    assert!(!OrderBookKey::new(f64::NAN.to_bits(), "infy".to_string()).is_valid());
    let mut key = OrderBookKey::new(0, "".to_string());
    key.set_price(2.5f64.to_bits());
    key.set_symbol("IBM".to_string());
    assert!(key.is_valid());
}

#[test]
fn test_order_validity() {
    let valid = |order: &OrderSingle| order.is_valid();
    let price = 601.5f64.to_bits();
    let new = |qty: u32, symbol: &str, price: u64, order_type: OrderType, id: &str| {
        OrderSingle::new(qty, symbol.to_string(), price, Buy, order_type, id.to_string())
    };
    assert!(valid(&new(10, "IBM", price, OrderType::Limit, "id1")));
    assert!(!valid(&new(0, "IBM", price, OrderType::Limit, "id1")));
    assert!(!valid(&new(10, "", price, OrderType::Limit, "id1")));
    assert!(!valid(&new(10, " \t", price, OrderType::Limit, "id1")));
    assert!(!valid(&new(10, "IBM", 0, OrderType::Limit, "id1")));
    assert!(!valid(&new(10, "IBM", (-601.5f64).to_bits(), OrderType::Limit, "id1")));
    assert!(!valid(&new(10, "IBM", f64::NAN.to_bits(), OrderType::Limit, "id1")));
    assert!(!valid(&new(10, "IBM", price, OrderType::Market, "id1")));
    assert!(!valid(&new(10, "IBM", price, OrderType::Limit, "")));
    assert!(!valid(&new(10, "IBM", price, OrderType::Limit, "\u{a0}\u{3000}")));
    assert!(valid(&new(u32::MAX, " I ", f64::INFINITY.to_bits(), OrderType::Limit, " x")));
    assert!(!valid(&OrderSingle::default()));
}

#[test]
fn test_white_space_is_that_of_the_standard_library() {
    for code in 0..0x11_0000u32 {
        if let Some(c) = char::from_u32(code) {
            assert_eq!(is_white_space_char(c), c.is_whitespace());
        }
    }
    assert!(has_visible_char(" a "));
    assert!(!has_visible_char(""));
    assert!(!has_visible_char(" \n\t"));
    for text in ["", " ", "x", "  y", "\u{2003}", "\u{2003}z\u{2003}"] {
        assert_eq!(has_visible_char(text), text.trim().len() > 0);
    }
}

#[test]
fn test_order_accessors() {
    let mut order = domain_order("id1 IBM 300 602.5 Buy");
    assert_eq!(order.matching_side(), Sell);
    let key = order.get_order_book_key();
    assert_eq!(key, OrderBookKey::new(602.5f64.to_bits(), "IBM".to_string()));
    order.set_qty(7);
    order.set_price(3.25f64.to_bits());
    order.set_side(Sell);
    assert_eq!(order.qty(), 7);
    assert_eq!(f64::from_bits(order.price()), 3.25);
    assert_eq!(order.side(), Sell);
    assert_eq!(order.matching_side(), Buy);
    let copy = order.clone();
    assert_eq!(copy.qty(), 7);
    assert_eq!(copy.cl_ord_id(), "id1");
    assert_eq!(copy.symbol(), "IBM");
}

#[test]
fn test_names_of_sides_types_and_statuses() {
    assert_eq!(Side::Buy.string_value(), "Buy");
    assert_eq!(Side::Sell.string_value(), "Sell");
    assert_eq!(Side::from(&"Buy".to_string()), Buy);
    assert_eq!(Side::from(&"Sell".to_string()), Sell);
    assert_eq!(Side::from(&"buy".to_string()), Sell);
    assert_eq!(Side::default(), Buy);
    assert_eq!(OrderType::Limit.string_value(), "Limit");
    assert_eq!(OrderType::Market.string_value(), "Market");
    assert_eq!(OrderType::from(&"Limit".to_string()), OrderType::Limit);
    assert_eq!(OrderType::from(&"Market".to_string()), OrderType::Market);
    assert_eq!(OrderType::from(&"".to_string()), OrderType::Market);
    assert_eq!(OrderType::default(), OrderType::Limit);
    let statuses = [
        (Status::New, '0', "New"),
        (Status::PendingNew, 'A', "Pending"),
        (Status::PartialFill, '1', "PartialFill"),
        (Status::Filled, '2', "Filled"),
        (Status::Rejected, '4', "Rejected"),
        (Status::Replaced, '5', "Replaced"),
        (Status::UNKNOWN, 'U', "???"),
    ];
    for (status, code, label) in statuses {
        assert_eq!(status.char_value(), code);
        assert_eq!(status.string_value(), label);
    }
    for (a, _, _) in statuses {
        for (b, _, _) in statuses {
            assert_eq!(a == b, a.char_value() == b.char_value());
        }
    }
}

#[test]
fn test_initial_fill() {
    let order = domain_order("id1 IBM 300 602.5 Sell");
    let fill = Fill::from(&order);
    assert_eq!(fill.qty(), 300);
    assert_eq!(fill.cum_qty(), 0);
    assert_eq!(fill.leaves_qty(), 300);
    assert_eq!(fill.cl_ord_id(), "id1");
    assert_eq!(fill.secondary_cl_ord_id(), "");
    assert_eq!(fill.symbol(), "IBM");
    assert_eq!(f64::from_bits(fill.price()), 602.5);
    assert_eq!(fill.side(), Sell);
    assert_eq!(*fill.status(), Status::Filled);
    assert_eq!(fill.exec_type(), Status::New);
    assert!(fill.order_id().chars().all(|c| c.is_ascii_digit()));
    assert!(fill.execution_id().chars().all(|c| c.is_ascii_digit()));
    assert!(!fill.order_id().is_empty());
    assert!(!fill.execution_id().is_empty());
}

#[test]
fn test_fill_with_given_ids_and_setters() {
    let order = domain_order("id1 IBM 300 602.5 Buy");
    let mut fill = Fill::from_order_with_ids(&order, "o1".to_string(), "e1".to_string());
    assert_eq!(fill.order_id(), "o1");
    assert_eq!(fill.execution_id(), "e1");
    assert_eq!(fill.leaves_qty(), 300);
    fill.set_qty(10);
    fill.set_cum_qty(20);
    fill.set_leaves_qty(280);
    fill.set_symbol("TATA".to_string());
    fill.set_secondary_cl_ord_id("id9".to_string());
    fill.set_status(Status::PartialFill);
    fill.set_order_id("o2".to_string());
    fill.set_side(Sell);
    let copy = fill.clone();
    assert_eq!(copy.qty(), 10);
    assert_eq!(copy.cum_qty(), 20);
    assert_eq!(copy.leaves_qty(), 280);
    assert_eq!(copy.symbol(), "TATA");
    assert_eq!(copy.secondary_cl_ord_id(), "id9");
    assert_eq!(*copy.status(), Status::PartialFill);
    assert_eq!(copy.order_id(), "o2");
    assert_eq!(copy.execution_id(), "e1");
    assert_eq!(copy.side(), Sell);
    let made = Fill::new(
        "IBM".to_string(),
        "o".to_string(),
        "e".to_string(),
        Status::New,
        1,
        2,
        3,
        9.5f64.to_bits(),
        Buy,
        "id".to_string(),
        Status::Rejected,
    );
    assert_eq!((made.qty(), made.leaves_qty(), made.cum_qty()), (1, 2, 3));
    assert_eq!(made.secondary_cl_ord_id(), "");
    assert_eq!(*made.status(), Status::Rejected);
}

#[test]
fn test_market_depth_entry() {
    let depth = MarketDepth::new(9.5f64.to_bits(), 12, Sell);
    assert_eq!(f64::from_bits(depth.price()), 9.5);
    assert_eq!(depth.qty(), 12);
    assert_eq!(depth.side(), Sell);
}

#[test]
fn test_orders_are_equal_by_identifier_alone() {
    let first = domain_order("id1 IBM 300 602.5 Buy");
    let second = domain_order("id1 TATA 5 1.5 Sell");
    let third = domain_order("id2 IBM 300 602.5 Buy");
    assert!(first == second);
    assert!(first != third);
    let hash_of = |order: &OrderSingle| {
        let mut hasher = DefaultHasher::new();
        order.hash(&mut hasher);
        hasher.finish()
    };
    assert_eq!(hash_of(&first), hash_of(&second));
    assert_ne!(hash_of(&first), hash_of(&third));
}
