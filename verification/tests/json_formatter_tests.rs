use matching_engine::formatters::json_formatter::JsonFormatter;
use matching_engine::model::domain::{Fill, OrderSingle, OrderType, Side};
use serde_json::{to_string, Value};

fn order_as_json(order: &OrderSingle) -> Value {
    let mut map = serde_json::Map::new();
    map.insert("qty".to_string(), Value::from(order.qty()));
    map.insert("symbol".to_string(), Value::from(order.symbol().clone()));
    map.insert("price".to_string(), Value::from(f64::from_bits(order.price())));
    map.insert("side".to_string(), Value::from(order.side().string_value()));
    map.insert("order_type".to_string(), Value::from(order.order_type().string_value()));
    map.insert("cl_ord_id".to_string(), Value::from(order.cl_ord_id().clone()));
    Value::Object(map)
}

fn fill_as_json(fill: &Fill) -> Value {
    let mut map = serde_json::Map::new();
    map.insert("symbol".to_string(), Value::from(fill.symbol()));
    map.insert("order_id".to_string(), Value::from(fill.order_id()));
    map.insert("execution_id".to_string(), Value::from(fill.execution_id()));
    map.insert("exec_type".to_string(), Value::from(fill.exec_type().string_value()));
    map.insert("qty".to_string(), Value::from(fill.qty()));
    map.insert("leaves_qty".to_string(), Value::from(fill.leaves_qty()));
    map.insert("cum_qty".to_string(), Value::from(fill.cum_qty()));
    map.insert("price".to_string(), Value::from(f64::from_bits(fill.price())));
    map.insert("side".to_string(), Value::from(fill.side().string_value()));
    map.insert("cl_ord_id".to_string(), Value::from(fill.cl_ord_id()));
    map.insert("secondary_cl_ord_id".to_string(), Value::from(fill.secondary_cl_ord_id()));
    map.insert("status".to_string(), Value::from(fill.status().string_value()));
    Value::Object(map)
}

#[test]
fn test_serialize_fill_and_order() {
    let order = OrderSingle::new(
        20,
        "IBM".to_string(),
        601.5f64.to_bits(),
        Side::Buy,
        OrderType::Limit,
        "id1".to_string(),
    );
    let string_val = to_string(&order_as_json(&order)).unwrap();
    println!("{string_val}");
    assert!(JsonFormatter::is_valid_json(&string_val));
    let fill = Fill::from(&order);
    let string_val = to_string(&fill_as_json(&fill)).unwrap();
    println!("{string_val}");
    assert!(JsonFormatter::is_valid_json(&string_val))
}

#[test]
fn test_serialized_order_reads_back() {
    let order = OrderSingle::new(
        20,
        "IBM".to_string(),
        601.5f64.to_bits(),
        Side::Buy,
        OrderType::Limit,
        "id1".to_string(),
    );
    let text = to_string(&order_as_json(&order)).unwrap();
    assert_eq!(
        text,
        "{\"cl_ord_id\":\"id1\",\"order_type\":\"Limit\",\"price\":601.5,\"qty\":20,\"side\":\"Buy\",\"symbol\":\"IBM\"}"
    );
    assert!(JsonFormatter::is_valid_json(&text));
    assert!(!JsonFormatter::is_valid_json(&text[..text.len() - 1]));
}

#[test]
fn test_text_that_is_not_json() {
    assert!(!JsonFormatter::is_valid_json(""));
    assert!(!JsonFormatter::is_valid_json("{\"qty\":20"));
    assert!(!JsonFormatter::is_valid_json("id1 IBM 20 601.5 Buy"));
    assert!(!JsonFormatter::is_valid_json("{qty:20}"));
    assert!(JsonFormatter::is_valid_json("[1, 2, 3]"));
    assert!(JsonFormatter::is_valid_json(" null "));
    assert!(JsonFormatter::is_valid_json("\"text\""));
}
