use matching_engine::matchers::matcher::{get_matcher, AnyMatcher};
use matching_engine::model::domain::{OrderBook, OrderSingle, OrderType, Side};
use matching_engine::{get_cmd_args, trim_end, user_command, wants_help, CmdArgs, UserCommand};

fn one_level_book() -> OrderBook {
    let price = 602.5f64.to_bits();
    let new = |id: &str, qty: u32, side: Side| {
        OrderSingle::new(qty, "IBM".to_string(), price, side, OrderType::Limit, id.to_string())
    };
    let mut book = OrderBook::default();
    book.add_order_to_order_book(new("b1", 300, Side::Buy));
    book.add_order_to_order_book(new("b2", 100, Side::Buy));
    book.add_order_to_order_book(new("s1", 300, Side::Sell));
    book
}

#[test]
fn test_get_matcher_by_tag() {
    assert!(matches!(get_matcher(&"PRO".to_string()), AnyMatcher::ProRata(_)));
    assert!(matches!(get_matcher(&"FIFO".to_string()), AnyMatcher::Fifo(_)));
    assert!(matches!(get_matcher(&"".to_string()), AnyMatcher::Fifo(_)));
    assert!(matches!(get_matcher(&"pro".to_string()), AnyMatcher::Fifo(_)));
    assert!(matches!(get_matcher(&"anything".to_string()), AnyMatcher::Fifo(_)));
}

#[test]
fn test_chosen_matcher_matches_by_its_own_rule() {
    let mut book = one_level_book();
    let fills = get_matcher(&"FIFO".to_string()).match_order_book(&mut book);
    let qtys: Vec<u32> = fills.iter().map(|f| f.qty()).collect();
    assert_eq!(qtys, vec![300, 300]);
    let mut book = one_level_book();
    let fills = get_matcher(&"PRO".to_string()).match_order_book(&mut book);
    let qtys: Vec<u32> = fills.iter().map(|f| f.qty()).collect();
    assert_eq!(qtys, vec![225, 225, 75, 75]);
}

#[test]
fn test_cmd_args() {
    let args = |list: &[&str]| list.iter().map(|a| a.to_string()).collect::<Vec<String>>();
    let parsed: CmdArgs = get_cmd_args(args(&["sim", "orders.txt", "PRO"])).unwrap();
    assert_eq!(parsed.file_path, "orders.txt");
    assert_eq!(parsed.algo, "PRO");
    let parsed = get_cmd_args(args(&["sim", "orders.txt"])).unwrap();
    assert_eq!(parsed.file_path, "orders.txt");
    assert_eq!(parsed.algo, "FIFO");
    let parsed = get_cmd_args(args(&["sim", "orders.txt", "X", "more"])).unwrap();
    assert_eq!(parsed.algo, "X");
    assert_eq!(get_cmd_args(args(&["sim"])).err(), Some("No order file provided"));
    assert_eq!(get_cmd_args(args(&[])).err(), Some("No order file provided"));
}

#[test]
fn test_user_commands() {
    assert!(matches!(user_command("q"), UserCommand::Quit));
    assert!(matches!(user_command("quit now\n"), UserCommand::Quit));
    match user_command("id1 IBM 300 602.5 Buy\r\n") {
        UserCommand::Order(text) => assert_eq!(text, "id1 IBM 300 602.5 Buy"),
        UserCommand::Quit => panic!("an order line is no request to leave"),
    }
    match user_command(" q\n") {
        UserCommand::Order(text) => assert_eq!(text, " q"),
        UserCommand::Quit => panic!("the line does not start with q"),
    }
    match user_command("") {
        UserCommand::Order(text) => assert_eq!(text, ""),
        UserCommand::Quit => panic!("an empty line is no request to leave"),
    }
    assert!(wants_help(&"-h".to_string()));
    assert!(!wants_help(&"-help".to_string()));
    assert!(!wants_help(&"orders.txt".to_string()));
}

#[test]
fn test_trim_end() {
    for text in ["", " ", "a", "a b  ", "  a\t\n", "\u{3000}x\u{3000}\u{a0}", "x\u{200b}"] {
        assert_eq!(trim_end(text), text.trim_end());
    }
}
