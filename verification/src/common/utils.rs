//! Sums of quantities, identifiers for execution reports, and the text form
//! of an order.

use crate::model::book::{book_with_order, queue_view, total_qty, BookView, OrderBook};
use crate::model::domain::{
    default_order, Fill, FillView, OrderSingle, OrderType, OrderView, Side,
};
use rand::Rng;
use std::time::{Duration, SystemTime, SystemTimeError};
use vstd::prelude::*;
use vstd::string::StringExecFns;

verus! {

/// The smallest random part of an identifier.
pub const MIN_RANDOM_PART: u64 = 1;

/// The largest random part of an identifier.
pub const MAX_RANDOM_PART: u64 = 1_000_000;

/// The character of the decimal digit `d`.
pub open spec fn digit_char(d: nat) -> char {
    if d == 0 {
        '0'
    } else if d == 1 {
        '1'
    } else if d == 2 {
        '2'
    } else if d == 3 {
        '3'
    } else if d == 4 {
        '4'
    } else if d == 5 {
        '5'
    } else if d == 6 {
        '6'
    } else if d == 7 {
        '7'
    } else if d == 8 {
        '8'
    } else {
        '9'
    }
}

/// The decimal numeral of `n`, without leading zeros.
pub open spec fn decimal_digits(n: nat) -> Seq<char>
    decreases n,
{
    if n < 10 {
        seq![digit_char(n)]
    } else {
        decimal_digits(n / 10).push(digit_char(n % 10))
    }
}

/// The most milliseconds that a clock reading can hold.
pub open spec fn max_millis() -> nat {
    (u64::MAX * 1000 + 999) as nat
}

/// An identifier is the decimal numeral of the sum of a clock reading, in
/// milliseconds, and a random part between one and one million.
pub open spec fn is_generated_id(id: Seq<char>) -> bool {
    exists|millis: nat, random: nat|
        millis <= max_millis() && MIN_RANDOM_PART <= random <= MAX_RANDOM_PART && id
            == #[trigger] decimal_digits(millis + random)
}

/// `std::time::SystemTime`, a reading of the system clock.
#[verifier::external_type_specification]
#[verifier::external_body]
pub struct ExSystemTime(SystemTime);

/// `std::time::SystemTimeError`, the error of a clock reading that lies before
/// the instant it is measured from.
#[verifier::external_type_specification]
#[verifier::external_body]
pub struct ExSystemTimeError(SystemTimeError);

/// `SystemTime::now` reads the system clock. Nothing is claimed of the reading.
pub assume_specification[ SystemTime::now ]() -> (now: SystemTime)
;

/// `SystemTime::duration_since` gives the time from `earlier` to `time`, or an
/// error when `earlier` is the later one. Nothing is claimed of the result.
pub assume_specification[ SystemTime::duration_since ](
    time: &SystemTime,
    earlier: SystemTime,
) -> (elapsed: Result<Duration, SystemTimeError>)
;

/// `Duration::as_secs` gives the whole seconds of a duration. Nothing is
/// claimed of the result.
pub assume_specification[ Duration::as_secs ](duration: &Duration) -> (secs: u64)
;

/// `Duration::subsec_millis` gives the part of a duration below one second,
/// in whole milliseconds: a number under one thousand.
pub assume_specification[ Duration::subsec_millis ](duration: &Duration) -> (millis: u32)
    ensures
        millis < 1000,
;

/// `std::time::UNIX_EPOCH`, the instant from which identifiers count time.
#[verifier::external_body]
fn unix_epoch() -> (epoch: SystemTime) {
    std::time::UNIX_EPOCH
}

/// `Rng::gen_range` on the thread's generator of `rand`, for an inclusive
/// range that is not empty: the number drawn lies in the range.
#[verifier::external_body]
fn random_in_range(low: u64, high: u64) -> (drawn: u64)
    requires
        low <= high,
    ensures
        low <= drawn <= high,
{
    rand::thread_rng().gen_range(low..=high)
}

/// The numeral of one decimal digit.
fn digit_str(d: u128) -> (numeral: &'static str)
    requires
        d < 10,
    ensures
        numeral@ == seq![digit_char(d as nat)],
{
    proof {
        reveal_strlit("0");
        reveal_strlit("1");
        reveal_strlit("2");
        reveal_strlit("3");
        reveal_strlit("4");
        reveal_strlit("5");
        reveal_strlit("6");
        reveal_strlit("7");
        reveal_strlit("8");
        reveal_strlit("9");
    }
    let numeral = if d == 0 {
        "0"
    } else if d == 1 {
        "1"
    } else if d == 2 {
        "2"
    } else if d == 3 {
        "3"
    } else if d == 4 {
        "4"
    } else if d == 5 {
        "5"
    } else if d == 6 {
        "6"
    } else if d == 7 {
        "7"
    } else if d == 8 {
        "8"
    } else {
        "9"
    };
    assert(numeral@ =~= seq![digit_char(d as nat)]);
    numeral
}

/// Returns the decimal numeral of `n`.
pub fn decimal_string(n: u128) -> (numeral: String)
    ensures
        numeral@ == decimal_digits(n as nat),
    decreases n,
{
    if n < 10 {
        digit_str(n).to_owned()
    } else {
        let mut numeral = decimal_string(n / 10);
        numeral.append(digit_str(n % 10));
        assert(numeral@ =~= decimal_digits((n / 10) as nat).push(digit_char((n % 10) as nat)));
        numeral
    }
}

/// The milliseconds that have passed since the Unix epoch; zero when the
/// clock stands before it.
pub fn millis_since_epoch() -> (millis: u128)
    ensures
        millis <= max_millis(),
{
    let now = SystemTime::now();
    match now.duration_since(unix_epoch()) {
        Ok(elapsed) => millis_from_parts(elapsed.as_secs(), elapsed.subsec_millis()),
        Err(_) => 0,
    }
}

/// The milliseconds of a clock reading that is given as whole seconds and
/// the milliseconds of the second that has begun.
pub fn millis_from_parts(secs: u64, sub_millis: u32) -> (millis: u128)
    ensures
        millis == secs * 1000 + sub_millis,
{
    (secs as u128) * 1000 + (sub_millis as u128)
}

/// The identifier made of a clock reading and a random part: the decimal
/// numeral of their sum.
pub fn id_from_parts(millis: u128, random: u64) -> (id: String)
    requires
        millis + random <= u128::MAX,
    ensures
        id@ == decimal_digits((millis + random) as nat),
{
    decimal_string(millis + random as u128)
}

/// Generates an identifier from the clock and a random number between one and
/// one million. Two identifiers may be equal.
pub fn generate_id() -> (id: String)
    ensures
        is_generated_id(id@),
{
    let num = random_in_range(MIN_RANDOM_PART, MAX_RANDOM_PART);
    let millis = millis_since_epoch();
    let id = id_from_parts(millis, num);
    assert(is_generated_id(id@)) by {
        assert(id@ == decimal_digits(millis as nat + num as nat));
    }
    id
}

/// The reports of `fills`, identifiers included.
pub open spec fn fill_views(fills: Seq<Fill>) -> Seq<FillView> {
    fills.map_values(|fill: Fill| fill@)
}

/// The sum of the quantities of `fills`.
pub open spec fn total_fill_qty(fills: Seq<FillView>) -> nat
    decreases fills.len(),
{
    if fills.len() == 0 {
        0
    } else {
        total_fill_qty(fills.drop_last()) + fills.last().qty
    }
}

/// The orders before place `i` sum to no more than all of them.
pub proof fn lemma_total_qty_prefix(orders: Seq<OrderView>, i: int)
    requires
        0 <= i <= orders.len(),
    ensures
        total_qty(orders.take(i)) <= total_qty(orders),
    decreases orders.len(),
{
    if i < orders.len() {
        lemma_total_qty_prefix(orders.drop_last(), i);
        assert(orders.drop_last().take(i) =~= orders.take(i));
    } else {
        assert(orders.take(i) =~= orders);
    }
}

/// The fills before place `i` sum to no more than all of them.
pub proof fn lemma_total_fill_qty_prefix(fills: Seq<FillView>, i: int)
    requires
        0 <= i <= fills.len(),
    ensures
        total_fill_qty(fills.take(i)) <= total_fill_qty(fills),
    decreases fills.len(),
{
    if i < fills.len() {
        lemma_total_fill_qty_prefix(fills.drop_last(), i);
        assert(fills.drop_last().take(i) =~= fills.take(i));
    } else {
        assert(fills.take(i) =~= fills);
    }
}

/// Sums quantities.
pub struct Aggregator;

/// A sum of quantities over a list of items.
pub trait Sigma<T> {
    /// The sum of the quantities of `items`.
    spec fn total(items: Seq<T>) -> nat;

    /// Aggregates the quantities in a list of orders or fills. The sum has to
    /// fit in 32 bits.
    fn sigma(items: &Vec<T>) -> (sum: u32)
        requires
            Self::total(items@) <= u32::MAX,
        ensures
            sum as nat == Self::total(items@),
    ;
}

impl Sigma<OrderSingle> for Aggregator {
    open spec fn total(items: Seq<OrderSingle>) -> nat {
        total_qty(queue_view(items))
    }

    fn sigma(items: &Vec<OrderSingle>) -> (sum: u32) {
        let mut sum: u32 = 0;
        let mut i: usize = 0;
        while i < items.len()
            invariant
                i <= items.len(),
                sum as nat == total_qty(queue_view(items@).take(i as int)),
                total_qty(queue_view(items@)) <= u32::MAX,
            decreases items.len() - i,
        {
            proof {
                let all = queue_view(items@);
                lemma_total_qty_prefix(all, i + 1);
                assert(all.take(i + 1).drop_last() =~= all.take(i as int));
            }
            sum = sum + items[i].qty();
            i += 1;
        }
        assert(queue_view(items@).take(i as int) =~= queue_view(items@));
        sum
    }
}

impl Sigma<Fill> for Aggregator {
    open spec fn total(items: Seq<Fill>) -> nat {
        total_fill_qty(fill_views(items))
    }

    fn sigma(items: &Vec<Fill>) -> (sum: u32) {
        let mut sum: u32 = 0;
        let mut i: usize = 0;
        while i < items.len()
            invariant
                i <= items.len(),
                sum as nat == total_fill_qty(fill_views(items@).take(i as int)),
                total_fill_qty(fill_views(items@)) <= u32::MAX,
            decreases items.len() - i,
        {
            proof {
                let all = fill_views(items@);
                lemma_total_fill_qty_prefix(all, i + 1);
                assert(all.take(i + 1).drop_last() =~= all.take(i as int));
            }
            sum = sum + items[i].qty();
            i += 1;
        }
        assert(fill_views(items@).take(i as int) =~= fill_views(items@));
        sum
    }
}

/// The fields of `text`: the pieces between its spaces. A text without a
/// space is one field, and two spaces in a row hold an empty field.
pub open spec fn fields_of(text: Seq<char>) -> Seq<Seq<char>>
    decreases text.len(),
{
    if text.len() == 0 {
        seq![Seq::empty()]
    } else {
        let before = fields_of(text.drop_last());
        if text.last() == ' ' {
            before.push(Seq::empty())
        } else {
            before.update(before.len() - 1, before.last().push(text.last()))
        }
    }
}

/// Whether `c` is a decimal digit.
pub open spec fn is_digit(c: char) -> bool {
    '0' <= c && c <= '9'
}

/// The value of the decimal digit `c`.
pub open spec fn digit_value(c: char) -> nat {
    (c as u32 - '0' as u32) as nat
}

/// The number that the decimal digits `digits` write.
pub open spec fn decimal_value(digits: Seq<char>) -> nat
    decreases digits.len(),
{
    if digits.len() == 0 {
        0
    } else {
        decimal_value(digits.drop_last()) * 10 + digit_value(digits.last())
    }
}

/// The digits of a quantity text: the text without a plus sign in front.
pub open spec fn unsigned_part(text: Seq<char>) -> Seq<char> {
    if text.len() > 0 && text[0] == '+' {
        text.skip(1)
    } else {
        text
    }
}

/// The quantity that `text` writes: one or more decimal digits, with or
/// without a plus sign in front, of a number that fits in 32 bits.
pub open spec fn quantity_of(text: Seq<char>) -> Option<u32> {
    let digits = unsigned_part(text);
    if digits.len() > 0 && (forall|i: int| 0 <= i < digits.len() ==> is_digit(#[trigger] digits[i]))
        && decimal_value(digits) <= u32::MAX {
        Some(decimal_value(digits) as u32)
    } else {
        None
    }
}

/// The price field of an order line, where the line has five fields.
pub open spec fn price_field_of(line: Seq<char>) -> Option<Seq<char>> {
    if fields_of(line).len() == 5 {
        Some(fields_of(line)[3])
    } else {
        None
    }
}

/// The order that the line `line` writes, at the price `price`: the fields
/// are identifier, symbol, quantity, price and side. A line that does not
/// have five fields, or whose quantity is not a number, gives the default
/// order, which is not valid.
pub open spec fn order_of_line(line: Seq<char>, price: u64) -> OrderView {
    let fields = fields_of(line);
    if fields.len() == 5 && quantity_of(fields[2]) is Some {
        OrderView {
            qty: quantity_of(fields[2])->0 as nat,
            symbol: fields[1],
            price,
            side: Side::of_name(fields[4]),
            order_type: OrderType::Limit,
            cl_ord_id: fields[0],
        }
    } else {
        default_order()
    }
}

/// The views of the texts of `fields`.
pub open spec fn texts(fields: Seq<String>) -> Seq<Seq<char>> {
    fields.map_values(|field: String| field@)
}

/// Splits `text` at its spaces.
pub fn split_fields(text: &str) -> (fields: Vec<String>)
    ensures
        texts(fields@) == fields_of(text@),
{
    let n = text.unicode_len();
    let mut fields: Vec<String> = Vec::new();
    let mut start: usize = 0;
    let mut i: usize = 0;
    proof {
        assert(text@.take(0) =~= Seq::<char>::empty());
        assert(texts(fields@).push(text@.subrange(0, 0)) =~= fields_of(text@.take(0)));
    }
    while i < n
        invariant
            n == text@.len(),
            start <= i <= n,
            texts(fields@).push(text@.subrange(start as int, i as int)) == fields_of(
                text@.take(i as int),
            ),
        decreases n - i,
    {
        let c = text.get_char(i);
        let ghost before = texts(fields@);
        let ghost current = text@.subrange(start as int, i as int);
        proof {
            assert(text@.take(i + 1).drop_last() =~= text@.take(i as int));
            assert(text@.take(i + 1).last() == c);
        }
        if c == ' ' {
            let field = text.substring_char(start, i).to_owned();
            fields.push(field);
            start = i + 1;
            proof {
                assert(texts(fields@) =~= before.push(current));
                assert(text@.subrange(start as int, i + 1) =~= Seq::<char>::empty());
            }
        } else {
            proof {
                assert(text@.subrange(start as int, i + 1) =~= current.push(c));
                assert(before.push(current).update(before.len() as int, current.push(c))
                    =~= before.push(current.push(c)));
            }
        }
        i += 1;
    }
    let ghost before = texts(fields@);
    let last = text.substring_char(start, n).to_owned();
    fields.push(last);
    proof {
        assert(text@.take(n as int) =~= text@);
        assert(texts(fields@) =~= before.push(text@.subrange(start as int, n as int)));
    }
    fields
}

/// Reads a quantity: decimal digits, with or without a plus sign in front.
pub fn parse_quantity(text: &str) -> (qty: Option<u32>)
    ensures
        qty == quantity_of(text@),
{
    let n = text.unicode_len();
    let first: usize = if n > 0 && text.get_char(0) == '+' {
        1
    } else {
        0
    };
    let ghost digits = unsigned_part(text@);
    if first == n {
        return None;
    }
    let mut value: u64 = 0;
    let mut i: usize = first;
    proof {
        assert(digits.take(0) =~= Seq::<char>::empty());
    }
    while i < n
        invariant
            n == text@.len(),
            first <= i <= n,
            first <= 1,
            digits == unsigned_part(text@),
            digits.len() == n - first,
            forall|j: int| 0 <= j < digits.len() ==> digits[j] == text@[j + first],
            forall|j: int| 0 <= j < i - first ==> is_digit(#[trigger] digits[j]),
            value as nat == decimal_value(digits.take(i - first)),
            value <= u32::MAX,
        decreases n - i,
    {
        let c = text.get_char(i);
        proof {
            assert(digits.take(i - first + 1).drop_last() =~= digits.take(i - first));
            assert(digits.take(i - first + 1).last() == c);
        }
        if !('0' <= c && c <= '9') {
            assert(!is_digit(digits[i - first]));
            return None;
        }
        let d: u64 = (c as u32 - '0' as u32) as u64;
        let next = value * 10 + d;
        if next > u32::MAX as u64 {
            proof {
                lemma_decimal_value_grows(digits, i - first + 1);
            }
            return None;
        }
        value = next;
        i += 1;
    }
    proof {
        assert(digits.take(n - first) =~= digits);
    }
    Some(value as u32)
}

/// The number that the digits before place `i` write is no more than the
/// number that all of them write.
pub proof fn lemma_decimal_value_grows(digits: Seq<char>, i: int)
    requires
        0 <= i <= digits.len(),
    ensures
        decimal_value(digits.take(i)) <= decimal_value(digits),
    decreases digits.len(),
{
    if i < digits.len() {
        lemma_decimal_value_grows(digits.drop_last(), i);
        assert(digits.drop_last().take(i) =~= digits.take(i));
    } else {
        assert(digits.take(i) =~= digits);
    }
}

/// Returns the price field of an order line, where the line has five fields.
pub fn price_field(line: &str) -> (field: Option<String>)
    ensures
        field is Some <==> price_field_of(line@) is Some,
        field is Some ==> field->0@ == price_field_of(line@)->0,
{
    let fields = split_fields(line);
    if fields.len() != 5 {
        None
    } else {
        assert(texts(fields@)[3] == fields@[3]@);
        Some(fields[3].clone())
    }
}

/// Creates an order from a line of the form
/// `<cl_ord_id> <symbol> <qty> <price> <side>`, with `price` as the price
/// that the fourth field writes. A malformed line gives the default order.
pub fn create_order_from_string(line: String, price: u64) -> (order: OrderSingle)
    ensures
        order@ == order_of_line(line@, price),
{
    let fields = split_fields(line.as_str());
    if fields.len() != 5 {
        OrderSingle::default()
    } else {
        proof {
            assert(texts(fields@)[0] == fields@[0]@);
            assert(texts(fields@)[1] == fields@[1]@);
            assert(texts(fields@)[2] == fields@[2]@);
            assert(texts(fields@)[4] == fields@[4]@);
        }
        match parse_quantity(fields[2].as_str()) {
            Some(qty) => {
                let cl_ord_id = fields[0].clone();
                let symbol = fields[1].clone();
                let side = Side::from(&fields[4]);
                OrderSingle::new(qty, symbol, price, side, OrderType::Limit, cl_ord_id)
            },
            None => OrderSingle::default(),
        }
    }
}

/// The book that holds the valid orders of `orders`, added in their order.
pub open spec fn book_of(orders: Seq<OrderView>) -> BookView
    decreases orders.len(),
{
    if orders.len() == 0 {
        BookView { buy: Seq::empty(), sell: Seq::empty() }
    } else {
        book_with_order(book_of(orders.drop_last()), orders.last())
    }
}

/// Creates an [`OrderBook`] with the valid orders of `input`, each at the tail
/// of the queue of its side and price level, in the order of the input.
/// Orders that are not valid are left out.
pub fn create_order_book(input: Vec<OrderSingle>) -> (order_book: OrderBook)
    ensures
        order_book.wf(),
        order_book@ == book_of(queue_view(input@)),
{
    let mut order_book = OrderBook::default();
    let mut i: usize = 0;
    assert(queue_view(input@).take(0) =~= Seq::<OrderView>::empty());
    while i < input.len()
        invariant
            i <= input.len(),
            order_book.wf(),
            order_book@ == book_of(queue_view(input@).take(i as int)),
        decreases input.len() - i,
    {
        proof {
            assert(queue_view(input@).take(i + 1).drop_last() =~= queue_view(input@).take(
                i as int,
            ));
        }
        let order = input[i].clone();
        if order.is_valid() {
            order_book.add_order_to_order_book(order);
        }
        i += 1;
    }
    assert(queue_view(input@).take(i as int) =~= queue_view(input@));
    order_book
}

} // verus!
