//! Orders, execution reports and the key under which orders rest.
//!
//! A price is held as a `u64`: the bit pattern of its IEEE 754 binary64 value.
//! For positive prices equal patterns mean equal prices and a larger pattern
//! means a larger price, so a pattern serves as the key of a price level.

use crate::common::utils::{generate_id, is_generated_id};
pub use crate::model::book::{OrderBook, OrderMap};
use vstd::prelude::*;

verus! {

/// The bit pattern of positive infinity, the largest pattern of a positive price.
pub const MAX_PRICE_BITS: u64 = 0x7FF0_0000_0000_0000;

/// Whether `bits` is the pattern of a price above zero.
pub open spec fn is_positive_price(bits: u64) -> bool {
    0 < bits <= MAX_PRICE_BITS
}

/// Whether `c` is a white space character.
pub open spec fn is_white_space(c: char) -> bool {
    ||| c == ' '
    ||| ('\u{9}' <= c && c <= '\u{d}')
    ||| c == '\u{85}'
    ||| c == '\u{a0}'
    ||| c == '\u{1680}'
    ||| ('\u{2000}' <= c && c <= '\u{200a}')
    ||| c == '\u{2028}'
    ||| c == '\u{2029}'
    ||| c == '\u{202f}'
    ||| c == '\u{205f}'
    ||| c == '\u{3000}'
}

/// Whether `s` holds a character that is not white space.
pub open spec fn is_not_blank(s: Seq<char>) -> bool {
    exists|i: int| 0 <= i < s.len() && !is_white_space(#[trigger] s[i])
}

/// Order type. Only limit orders can rest in a book.
#[derive(Clone, Copy, Debug, PartialEq, Eq, Structural)]
pub enum OrderType {
    Market,
    Limit,
}

impl OrderType {
    /// The name of the order type.
    pub open spec fn name(self) -> Seq<char> {
        match self {
            OrderType::Limit => "Limit"@,
            OrderType::Market => "Market"@,
        }
    }

    /// The order type that `name` stands for; any name but `Limit` gives `Market`.
    pub open spec fn of_name(name: Seq<char>) -> OrderType {
        if name == "Limit"@ {
            OrderType::Limit
        } else {
            OrderType::Market
        }
    }

    pub fn string_value(&self) -> (s: String)
        ensures
            s@ == self.name(),
    {
        match self {
            OrderType::Limit => "Limit".to_owned(),
            OrderType::Market => "Market".to_owned(),
        }
    }

    pub fn from(str: &String) -> (t: Self)
        ensures
            t == OrderType::of_name(str@),
    {
        let limit = "Limit".to_owned();
        if *str == limit {
            OrderType::Limit
        } else {
            OrderType::Market
        }
    }
}

impl Default for OrderType {
    fn default() -> (t: Self)
        ensures
            t == OrderType::Limit,
    {
        OrderType::Limit
    }
}

/// Side of an order.
#[derive(Clone, Copy, Debug, PartialEq, Eq, Structural)]
pub enum Side {
    Buy,
    Sell,
}

impl Side {
    /// The name of the side.
    pub open spec fn name(self) -> Seq<char> {
        match self {
            Side::Buy => "Buy"@,
            Side::Sell => "Sell"@,
        }
    }

    /// The side that `name` stands for; any name but `Buy` gives `Sell`.
    pub open spec fn of_name(name: Seq<char>) -> Side {
        if name == "Buy"@ {
            Side::Buy
        } else {
            Side::Sell
        }
    }

    /// The side that an order of this side trades against.
    pub open spec fn opposite(self) -> Side {
        match self {
            Side::Buy => Side::Sell,
            Side::Sell => Side::Buy,
        }
    }

    pub fn string_value(&self) -> (s: String)
        ensures
            s@ == self.name(),
    {
        match self {
            Side::Buy => "Buy".to_owned(),
            Side::Sell => "Sell".to_owned(),
        }
    }

    pub fn from(str: &String) -> (side: Self)
        ensures
            side == Side::of_name(str@),
    {
        let buy = "Buy".to_owned();
        if *str == buy {
            Side::Buy
        } else {
            Side::Sell
        }
    }
}

impl Default for Side {
    fn default() -> (side: Self)
        ensures
            side == Side::Buy,
    {
        Side::Buy
    }
}

/// Status of an order and of an execution.
#[derive(Clone, Copy, Debug, PartialEq, Eq, Structural)]
pub enum Status {
    New,
    PendingNew,
    PartialFill,
    Filled,
    Rejected,
    Replaced,
    UNKNOWN,
}

impl Status {
    /// The FIX character of the status.
    pub open spec fn code(self) -> char {
        match self {
            Status::New => '0',
            Status::PendingNew => 'A',
            Status::PartialFill => '1',
            Status::Filled => '2',
            Status::Rejected => '4',
            Status::Replaced => '5',
            Status::UNKNOWN => 'U',
        }
    }

    /// The printed name of the status.
    pub open spec fn label(self) -> Seq<char> {
        match self {
            Status::New => "New"@,
            Status::PendingNew => "Pending"@,
            Status::PartialFill => "PartialFill"@,
            Status::Filled => "Filled"@,
            Status::Rejected => "Rejected"@,
            Status::Replaced => "Replaced"@,
            Status::UNKNOWN => "???"@,
        }
    }

    /// The status of an order of which `leaves` is still open after an execution.
    pub open spec fn after_execution(leaves: nat) -> Status {
        if leaves == 0 {
            Status::Filled
        } else {
            Status::PartialFill
        }
    }

    /// Returns the FIX character of the status.
    pub fn char_value(&self) -> (c: char)
        ensures
            c == self.code(),
    {
        match self {
            Status::New => '0',
            Status::PendingNew => 'A',
            Status::PartialFill => '1',
            Status::Filled => '2',
            Status::Rejected => '4',
            Status::Replaced => '5',
            Status::UNKNOWN => 'U',
        }
    }

    pub fn string_value(&self) -> (s: &'static str)
        ensures
            s@ == self.label(),
    {
        match self {
            Status::New => "New",
            Status::PendingNew => "Pending",
            Status::PartialFill => "PartialFill",
            Status::Filled => "Filled",
            Status::Rejected => "Rejected",
            Status::Replaced => "Replaced",
            Status::UNKNOWN => "???",
        }
    }

    /// Two statuses are equal exactly when their FIX characters are.
    pub proof fn lemma_equal_iff_same_code(a: Status, b: Status)
        ensures
            (a == b) <==> (a.code() == b.code()),
    {
    }
}

/// Returns whether `s` holds a character that is not white space.
pub fn has_visible_char(s: &str) -> (b: bool)
    ensures
        b == is_not_blank(s@),
{
    let n = s.unicode_len();
    let mut i: usize = 0;
    while i < n
        invariant
            n == s@.len(),
            i <= n,
            forall|j: int| 0 <= j < i ==> is_white_space(#[trigger] s@[j]),
        decreases n - i,
    {
        let c = s.get_char(i);
        if !is_white_space_char(c) {
            return true;
        }
        i += 1;
    }
    false
}

/// Returns whether `c` is a white space character.
pub fn is_white_space_char(c: char) -> (b: bool)
    ensures
        b == is_white_space(c),
{
    c == ' ' || ('\u{9}' <= c && c <= '\u{d}') || c == '\u{85}' || c == '\u{a0}' || c
        == '\u{1680}' || ('\u{2000}' <= c && c <= '\u{200a}') || c == '\u{2028}' || c
        == '\u{2029}' || c == '\u{202f}' || c == '\u{205f}' || c == '\u{3000}'
}

/// The key of a price level, as contracts see it.
pub struct KeyView {
    pub price: u64,
    pub symbol: Seq<char>,
}

/// An order, as contracts see it.
pub struct OrderView {
    pub qty: nat,
    pub symbol: Seq<char>,
    pub price: u64,
    pub side: Side,
    pub order_type: OrderType,
    pub cl_ord_id: Seq<char>,
}

impl OrderView {
    /// The price level at which the order rests.
    pub open spec fn key(self) -> KeyView {
        KeyView { price: self.price, symbol: self.symbol }
    }

    /// An order can rest in a book when it is a limit order with a symbol, an
    /// identifier, a positive price and a positive quantity.
    pub open spec fn is_valid(self) -> bool {
        &&& is_not_blank(self.symbol)
        &&& is_positive_price(self.price)
        &&& self.qty > 0
        &&& self.order_type == OrderType::Limit
        &&& is_not_blank(self.cl_ord_id)
    }

    /// The same order with `qty` left open.
    pub open spec fn with_qty(self, qty: nat) -> OrderView {
        OrderView { qty, ..self }
    }
}

/// The order that a malformed input stands for; it is not valid.
pub open spec fn default_order() -> OrderView {
    OrderView {
        qty: 0,
        symbol: Seq::empty(),
        price: 0,
        side: Side::Buy,
        order_type: OrderType::Limit,
        cl_ord_id: Seq::empty(),
    }
}

/// An order: a quantity of a symbol to buy or to sell at a limit price.
#[derive(Debug)]
pub struct OrderSingle {
    qty: u32,
    symbol: String,
    price: u64,
    side: Side,
    order_type: OrderType,
    cl_ord_id: String,
}

impl View for OrderSingle {
    type V = OrderView;

    closed spec fn view(&self) -> OrderView {
        OrderView {
            qty: self.qty as nat,
            symbol: self.symbol@,
            price: self.price,
            side: self.side,
            order_type: self.order_type,
            cl_ord_id: self.cl_ord_id@,
        }
    }
}

impl Clone for OrderSingle {
    fn clone(&self) -> (copy: Self)
        ensures
            copy@ == self@,
    {
        OrderSingle {
            qty: self.qty,
            symbol: self.symbol.clone(),
            price: self.price,
            side: self.side,
            order_type: self.order_type,
            cl_ord_id: self.cl_ord_id.clone(),
        }
    }
}

impl PartialEq for OrderSingle {
    fn eq(&self, other: &Self) -> (equal: bool) {
        self.cl_ord_id == other.cl_ord_id
    }
}

impl Eq for OrderSingle {

}

impl vstd::std_specs::cmp::PartialEqSpecImpl for OrderSingle {
    open spec fn obeys_eq_spec() -> bool {
        true
    }

    /// Two orders are the same order when they have the same identifier.
    open spec fn eq_spec(&self, other: &Self) -> bool {
        self@.cl_ord_id == other@.cl_ord_id
    }
}

impl std::hash::Hash for OrderSingle {
    /// `Hash::hash` of the bytes of the identifier: orders that are equal
    /// feed a hasher the same bytes. Nothing is claimed of the hasher.
    #[verifier::external_body]
    fn hash<H: std::hash::Hasher>(&self, state: &mut H) {
        self.cl_ord_id.as_bytes().hash(state);
    }
}

impl Default for OrderSingle {
    fn default() -> (order: Self)
        ensures
            order@ == default_order(),
    {
        OrderSingle {
            qty: 0,
            symbol: String::new(),
            price: 0,
            side: Side::Buy,
            order_type: OrderType::Limit,
            cl_ord_id: String::new(),
        }
    }
}

impl OrderSingle {
    pub fn new(
        qty: u32,
        symbol: String,
        price: u64,
        side: Side,
        order_type: OrderType,
        cl_ord_id: String,
    ) -> (order: Self)
        ensures
            order@ == (OrderView {
                qty: qty as nat,
                symbol: symbol@,
                price,
                side,
                order_type,
                cl_ord_id: cl_ord_id@,
            }),
    {
        Self { qty, symbol, price, side, order_type, cl_ord_id }
    }

    /// The quantity of an order fits in 32 bits.
    pub proof fn lemma_qty_in_range(&self)
        ensures
            self@.qty <= u32::MAX,
    {
    }

    /// Returns `true` if the order is valid, `false` otherwise. Market orders
    /// are not supported.
    pub fn is_valid(&self) -> (valid: bool)
        ensures
            valid == self@.is_valid(),
    {
        has_visible_char(self.symbol.as_str()) && 0 < self.price && self.price <= MAX_PRICE_BITS
            && self.qty > 0 && self.order_type == OrderType::Limit && has_visible_char(
            self.cl_ord_id.as_str(),
        )
    }

    pub fn get_order_book_key(&self) -> (key: OrderBookKey)
        ensures
            key@ == self@.key(),
    {
        OrderBookKey::new(self.price, self.symbol.clone())
    }

    pub fn set_qty(&mut self, qty: u32)
        ensures
            final(self)@ == old(self)@.with_qty(qty as nat),
    {
        self.qty = qty;
    }

    pub fn set_price(&mut self, price: u64)
        ensures
            final(self)@ == (OrderView { price, ..old(self)@ }),
    {
        self.price = price;
    }

    pub fn set_side(&mut self, side: Side)
        ensures
            final(self)@ == (OrderView { side, ..old(self)@ }),
    {
        self.side = side;
    }

    pub fn matching_side(&self) -> (side: Side)
        ensures
            side == self@.side.opposite(),
    {
        match self.side {
            Side::Buy => Side::Sell,
            Side::Sell => Side::Buy,
        }
    }

    pub fn qty(&self) -> (qty: u32)
        ensures
            qty as nat == self@.qty,
    {
        self.qty
    }

    pub fn symbol(&self) -> (symbol: &String)
        ensures
            symbol@ == self@.symbol,
    {
        &self.symbol
    }

    pub fn side(&self) -> (side: Side)
        ensures
            side == self@.side,
    {
        self.side
    }

    pub fn order_type(&self) -> (order_type: OrderType)
        ensures
            order_type == self@.order_type,
    {
        self.order_type
    }

    pub fn cl_ord_id(&self) -> (cl_ord_id: &String)
        ensures
            cl_ord_id@ == self@.cl_ord_id,
    {
        &self.cl_ord_id
    }

    pub fn price(&self) -> (price: u64)
        ensures
            price == self@.price,
    {
        self.price
    }
}

/// The key on which [`OrderSingle`] instances are stored in an order book.
#[derive(Debug, Hash)]
pub struct OrderBookKey {
    price: u64,
    symbol: String,
}

impl View for OrderBookKey {
    type V = KeyView;

    closed spec fn view(&self) -> KeyView {
        KeyView { price: self.price, symbol: self.symbol@ }
    }
}

impl Clone for OrderBookKey {
    fn clone(&self) -> (copy: Self)
        ensures
            copy@ == self@,
    {
        OrderBookKey { price: self.price, symbol: self.symbol.clone() }
    }
}

impl PartialEq for OrderBookKey {
    fn eq(&self, other: &Self) -> (equal: bool) {
        self.price == other.price && self.symbol == other.symbol
    }
}

impl Eq for OrderBookKey {

}

impl vstd::std_specs::cmp::PartialEqSpecImpl for OrderBookKey {
    open spec fn obeys_eq_spec() -> bool {
        true
    }

    open spec fn eq_spec(&self, other: &Self) -> bool {
        self@ == other@
    }
}

impl OrderBookKey {
    pub fn new(price: u64, symbol: String) -> (key: Self)
        ensures
            key@ == (KeyView { price, symbol: symbol@ }),
    {
        Self { price, symbol }
    }

    /// A key is valid when its price is positive and its symbol is not empty.
    pub fn is_valid(&self) -> (valid: bool)
        ensures
            valid == (is_positive_price(self@.price) && self@.symbol.len() > 0),
    {
        0 < self.price && self.price <= MAX_PRICE_BITS && !self.symbol.as_str().is_empty()
    }

    pub fn price(&self) -> (price: u64)
        ensures
            price == self@.price,
    {
        self.price
    }

    pub fn symbol(&self) -> (symbol: &str)
        ensures
            symbol@ == self@.symbol,
    {
        self.symbol.as_str()
    }

    /// Returns whether the key is of the symbol `symbol`.
    pub fn has_symbol(&self, symbol: &String) -> (same: bool)
        ensures
            same == (self@.symbol == symbol@),
    {
        self.symbol == *symbol
    }

    pub fn set_price(&mut self, price: u64)
        ensures
            final(self)@ == (KeyView { price, ..old(self)@ }),
    {
        self.price = price;
    }

    pub fn set_symbol(&mut self, symbol: String)
        ensures
            final(self)@ == (KeyView { symbol: symbol@, ..old(self)@ }),
    {
        self.symbol = symbol;
    }
}

/// An execution report, as contracts see it.
pub struct FillView {
    pub symbol: Seq<char>,
    pub order_id: Seq<char>,
    pub execution_id: Seq<char>,
    pub exec_type: Status,
    pub qty: nat,
    pub leaves_qty: nat,
    pub cum_qty: nat,
    pub price: u64,
    pub side: Side,
    pub cl_ord_id: Seq<char>,
    pub secondary_cl_ord_id: Seq<char>,
    pub status: Status,
}

impl FillView {
    /// The report without its two generated identifiers.
    pub open spec fn unlabelled(self) -> FillView {
        FillView { order_id: Seq::empty(), execution_id: Seq::empty(), ..self }
    }
}

/// The report of an order before anything of it is executed, without
/// identifiers: the whole quantity is open.
pub open spec fn initial_fill(order: OrderView) -> FillView {
    FillView {
        symbol: order.symbol,
        order_id: Seq::empty(),
        execution_id: Seq::empty(),
        exec_type: Status::New,
        qty: order.qty,
        leaves_qty: order.qty,
        cum_qty: 0,
        price: order.price,
        side: order.side,
        cl_ord_id: order.cl_ord_id,
        secondary_cl_ord_id: Seq::empty(),
        status: Status::Filled,
    }
}

/// The report, without identifiers, of an execution of `qty` of `order`
/// against the order `counterparty`, after which `cum_qty` of the order is
/// executed and `leaves_qty` is open.
pub open spec fn execution(
    order: OrderView,
    counterparty: Seq<char>,
    qty: nat,
    cum_qty: nat,
    leaves_qty: nat,
) -> FillView {
    FillView {
        symbol: order.symbol,
        order_id: Seq::empty(),
        execution_id: Seq::empty(),
        exec_type: Status::New,
        qty,
        leaves_qty,
        cum_qty,
        price: order.price,
        side: order.side,
        cl_ord_id: order.cl_ord_id,
        secondary_cl_ord_id: counterparty,
        status: Status::after_execution(leaves_qty),
    }
}

/// The reports of `fills` without their generated identifiers.
pub open spec fn executions(fills: Seq<Fill>) -> Seq<FillView> {
    fills.map_values(|fill: Fill| fill@.unlabelled())
}

/// Whether the two identifiers of `fill` are generated identifiers.
pub open spec fn has_generated_ids(fill: FillView) -> bool {
    &&& is_generated_id(fill.order_id)
    &&& is_generated_id(fill.execution_id)
}

/// Whether each of `fills` carries two generated identifiers.
pub open spec fn ids_generated(fills: Seq<Fill>) -> bool {
    forall|i: int| 0 <= i < fills.len() ==> has_generated_ids(#[trigger] fills[i]@)
}

/// A fill: the report of one execution of an order.
#[derive(Debug)]
pub struct Fill {
    symbol: String,
    order_id: String,
    execution_id: String,
    exec_type: Status,
    qty: u32,
    leaves_qty: u32,
    cum_qty: u32,
    price: u64,
    side: Side,
    cl_ord_id: String,
    secondary_cl_ord_id: String,
    status: Status,
}

impl View for Fill {
    type V = FillView;

    closed spec fn view(&self) -> FillView {
        FillView {
            symbol: self.symbol@,
            order_id: self.order_id@,
            execution_id: self.execution_id@,
            exec_type: self.exec_type,
            qty: self.qty as nat,
            leaves_qty: self.leaves_qty as nat,
            cum_qty: self.cum_qty as nat,
            price: self.price,
            side: self.side,
            cl_ord_id: self.cl_ord_id@,
            secondary_cl_ord_id: self.secondary_cl_ord_id@,
            status: self.status,
        }
    }
}

impl Clone for Fill {
    fn clone(&self) -> (copy: Self)
        ensures
            copy@ == self@,
    {
        Fill {
            symbol: self.symbol.clone(),
            order_id: self.order_id.clone(),
            execution_id: self.execution_id.clone(),
            exec_type: self.exec_type,
            qty: self.qty,
            leaves_qty: self.leaves_qty,
            cum_qty: self.cum_qty,
            price: self.price,
            side: self.side,
            cl_ord_id: self.cl_ord_id.clone(),
            secondary_cl_ord_id: self.secondary_cl_ord_id.clone(),
            status: self.status,
        }
    }
}

impl Fill {
    pub fn new(
        symbol: String,
        order_id: String,
        execution_id: String,
        exec_type: Status,
        qty: u32,
        leaves_qty: u32,
        cum_qty: u32,
        price: u64,
        side: Side,
        cl_ord_id: String,
        status: Status,
    ) -> (fill: Self)
        ensures
            fill@ == (FillView {
                symbol: symbol@,
                order_id: order_id@,
                execution_id: execution_id@,
                exec_type,
                qty: qty as nat,
                leaves_qty: leaves_qty as nat,
                cum_qty: cum_qty as nat,
                price,
                side,
                cl_ord_id: cl_ord_id@,
                secondary_cl_ord_id: Seq::empty(),
                status,
            }),
    {
        Self {
            symbol,
            order_id,
            execution_id,
            exec_type,
            qty,
            leaves_qty,
            cum_qty,
            price,
            side,
            cl_ord_id,
            secondary_cl_ord_id: String::new(),
            status,
        }
    }

    /// The three quantities of a fill fit in 32 bits.
    pub proof fn lemma_quantities_in_range(&self)
        ensures
            self@.qty <= u32::MAX,
            self@.cum_qty <= u32::MAX,
            self@.leaves_qty <= u32::MAX,
    {
    }

    /// The initial fill of `order` under the two identifiers given.
    pub fn from_order_with_ids(
        order: &OrderSingle,
        order_id: String,
        execution_id: String,
    ) -> (fill: Self)
        ensures
            fill@ == (FillView {
                order_id: order_id@,
                execution_id: execution_id@,
                ..initial_fill(order@)
            }),
    {
        Self {
            qty: order.qty(),
            cum_qty: 0,
            leaves_qty: order.qty(),
            order_id,
            execution_id,
            price: order.price(),
            symbol: order.symbol().clone(),
            status: Status::Filled,
            side: order.side(),
            cl_ord_id: order.cl_ord_id().clone(),
            secondary_cl_ord_id: String::new(),
            exec_type: Status::New,
        }
    }

    /// The initial fill of `order`, under two freshly generated identifiers.
    pub fn from(order: &OrderSingle) -> (fill: Self)
        ensures
            fill@.unlabelled() == initial_fill(order@),
            is_generated_id(fill@.order_id),
            is_generated_id(fill@.execution_id),
    {
        let order_id = generate_id();
        let execution_id = generate_id();
        Fill::from_order_with_ids(order, order_id, execution_id)
    }

    pub fn set_qty(&mut self, qty: u32)
        ensures
            final(self)@ == (FillView { qty: qty as nat, ..old(self)@ }),
    {
        self.qty = qty;
    }

    pub fn set_cum_qty(&mut self, cum_qty: u32)
        ensures
            final(self)@ == (FillView { cum_qty: cum_qty as nat, ..old(self)@ }),
    {
        self.cum_qty = cum_qty;
    }

    pub fn set_leaves_qty(&mut self, leaves_qty: u32)
        ensures
            final(self)@ == (FillView { leaves_qty: leaves_qty as nat, ..old(self)@ }),
    {
        self.leaves_qty = leaves_qty;
    }

    pub fn set_symbol(&mut self, symbol: String)
        ensures
            final(self)@ == (FillView { symbol: symbol@, ..old(self)@ }),
    {
        self.symbol = symbol;
    }

    pub fn qty(&self) -> (qty: u32)
        ensures
            qty as nat == self@.qty,
    {
        self.qty
    }

    pub fn cum_qty(&self) -> (cum_qty: u32)
        ensures
            cum_qty as nat == self@.cum_qty,
    {
        self.cum_qty
    }

    pub fn leaves_qty(&self) -> (leaves_qty: u32)
        ensures
            leaves_qty as nat == self@.leaves_qty,
    {
        self.leaves_qty
    }

    pub fn cl_ord_id(&self) -> (cl_ord_id: &str)
        ensures
            cl_ord_id@ == self@.cl_ord_id,
    {
        self.cl_ord_id.as_str()
    }

    pub fn secondary_cl_ord_id(&self) -> (secondary_cl_ord_id: String)
        ensures
            secondary_cl_ord_id@ == self@.secondary_cl_ord_id,
    {
        self.secondary_cl_ord_id.clone()
    }

    pub fn set_secondary_cl_ord_id(&mut self, matching_side_id: String)
        ensures
            final(self)@ == (FillView { secondary_cl_ord_id: matching_side_id@, ..old(self)@ }),
    {
        self.secondary_cl_ord_id = matching_side_id;
    }

    pub fn set_status(&mut self, status: Status)
        ensures
            final(self)@ == (FillView { status, ..old(self)@ }),
    {
        self.status = status;
    }

    pub fn set_order_id(&mut self, order_id: String)
        ensures
            final(self)@ == (FillView { order_id: order_id@, ..old(self)@ }),
    {
        self.order_id = order_id;
    }

    pub fn status(&self) -> (status: &Status)
        ensures
            *status == self@.status,
    {
        &self.status
    }

    pub fn side(&self) -> (side: Side)
        ensures
            side == self@.side,
    {
        self.side
    }

    pub fn set_side(&mut self, side: Side)
        ensures
            final(self)@ == (FillView { side, ..old(self)@ }),
    {
        self.side = side
    }

    pub fn symbol(&self) -> (symbol: &str)
        ensures
            symbol@ == self@.symbol,
    {
        self.symbol.as_str()
    }

    pub fn price(&self) -> (price: u64)
        ensures
            price == self@.price,
    {
        self.price
    }

    pub fn order_id(&self) -> (order_id: &str)
        ensures
            order_id@ == self@.order_id,
    {
        self.order_id.as_str()
    }

    pub fn execution_id(&self) -> (execution_id: &str)
        ensures
            execution_id@ == self@.execution_id,
    {
        self.execution_id.as_str()
    }

    pub fn exec_type(&self) -> (exec_type: Status)
        ensures
            exec_type == self@.exec_type,
    {
        self.exec_type
    }
}

/// The quantity that rests at one price of one side of a book.
#[derive(Clone, Copy, Debug)]
pub struct MarketDepth {
    price: u64,
    qty: u128,
    side: Side,
}

/// A depth entry, as contracts see it.
pub struct DepthView {
    pub price: u64,
    pub qty: nat,
    pub side: Side,
}

impl View for MarketDepth {
    type V = DepthView;

    closed spec fn view(&self) -> DepthView {
        DepthView { price: self.price, qty: self.qty as nat, side: self.side }
    }
}

impl MarketDepth {
    pub fn new(price: u64, qty: u128, side: Side) -> (depth: Self)
        ensures
            depth@ == (DepthView { price, qty: qty as nat, side }),
    {
        Self { price, qty, side }
    }

    pub fn price(&self) -> (price: u64)
        ensures
            price == self@.price,
    {
        self.price
    }

    pub fn qty(&self) -> (qty: u128)
        ensures
            qty as nat == self@.qty,
    {
        self.qty
    }

    pub fn side(&self) -> (side: Side)
        ensures
            side == self@.side,
    {
        self.side
    }
}

} // verus!
