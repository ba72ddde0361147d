//! Orders and what they are made of.

use crate::allocation::Maker;
pub use crate::instrument::Price;
use crate::instrument::Qty;
use crate::sums;
use vstd::prelude::*;
use vstd::string::StringExecFns;

verus! {

/// The name that the exchange gives an order.
#[derive(Debug, PartialEq, Eq, Hash)]
pub struct ExchangeId(pub String);

impl View for ExchangeId {
    type V = Seq<char>;

    open spec fn view(&self) -> Seq<char> {
        self.0@
    }
}

impl Clone for ExchangeId {
    fn clone(&self) -> (r: Self)
        ensures
            r == *self,
    {
        ExchangeId(self.0.clone())
    }
}

/// The decimal digit of a number below ten.
pub open spec fn digit(d: nat) -> char {
    (48 + d) as char
}

/// A number in decimal notation, without leading zeros.
pub open spec fn digits(n: nat) -> Seq<char>
    decreases n,
{
    if n < 10 {
        seq![digit(n)]
    } else {
        digits(n / 10).push(digit(n % 10))
    }
}

/// The name of the order with a given sequence number.
pub open spec fn sequence_name(seq: nat) -> Seq<char> {
    "exchId-"@ + digits(seq)
}

/// Appends one decimal digit.
fn push_digit(text: &mut String, d: u64)
    requires
        d < 10,
    ensures
        final(text)@ == old(text)@.push(digit(d as nat)),
{
    let glyph: &str = if d == 0 {
        "0"
    } else if d == 1 {
        "1"
    } else if d == 2 {
        "2"
    } else if d == 3 {
        "3"
    } else if d == 4 {
        "4"
    } else if d == 5 {
        "5"
    } else if d == 6 {
        "6"
    } else if d == 7 {
        "7"
    } else if d == 8 {
        "8"
    } else {
        "9"
    };
    proof {
        reveal_strlit("0");
        reveal_strlit("1");
        reveal_strlit("2");
        reveal_strlit("3");
        reveal_strlit("4");
        reveal_strlit("5");
        reveal_strlit("6");
        reveal_strlit("7");
        reveal_strlit("8");
        reveal_strlit("9");
        assert(glyph@ =~= seq![digit(d as nat)]);
        assert(text@ + glyph@ =~= text@.push(digit(d as nat)));
    }
    text.append(glyph);
}

/// Appends a number in decimal notation.
fn push_digits(text: &mut String, n: u64)
    ensures
        final(text)@ == old(text)@ + digits(n as nat),
    decreases n,
{
    if n >= 10 {
        push_digits(text, n / 10);
    }
    push_digit(text, n % 10);
    proof {
        assert(text@ =~= old(text)@ + digits(n as nat));
    }
}

impl ExchangeId {
    /// The name of the order with a given sequence number.
    pub fn from_sequence(seq: u64) -> (r: ExchangeId)
        ensures
            r@ == sequence_name(seq as nat),
    {
        let mut text: String = "exchId-".to_owned();
        push_digits(&mut text, seq);
        ExchangeId(text)
    }

    /// Whether two names are the same.
    pub fn same(&self, other: &ExchangeId) -> (r: bool)
        ensures
            r == (self@ == other@),
    {
        self.0 == other.0
    }
}

/// The name of the client that owns an order.
#[derive(Debug, PartialEq, Eq, Hash)]
pub struct ClientId(pub String);

impl View for ClientId {
    type V = Seq<char>;

    open spec fn view(&self) -> Seq<char> {
        self.0@
    }
}

impl Clone for ClientId {
    fn clone(&self) -> (r: Self)
        ensures
            r == *self,
    {
        ClientId(self.0.clone())
    }
}

impl ClientId {
    /// Whether two names are the same.
    pub fn same(&self, other: &ClientId) -> (r: bool)
        ensures
            r == (self@ == other@),
    {
        self.0 == other.0
    }
}

/// The side of the book that an order stands on.
#[derive(Debug, Clone, Copy, PartialEq, Eq, Structural)]
pub enum Side {
    Ask,
    Bid,
}

/// What happens to the unfilled remainder of a limit order.
#[derive(Debug, Clone, Copy, PartialEq, Eq, Structural)]
pub enum TimeInForce {
    /// Good till cancel: the remainder rests.
    GTC,
    /// Immediate or cancel: the remainder is discarded.
    IOC,
    /// Fill or kill: all at once or nothing at all.
    FOK,
}

/// How an order executes, with the data that this takes and no other.
#[derive(Debug, Clone, Copy, PartialEq, Eq, Structural)]
pub enum OrderType {
    /// Execute at `price` or better.
    Limit { price: Price, tif: TimeInForce },
    /// Execute now at the best available prices.
    Market,
    /// Wait until the market trades at or past `trigger`, then `Market`.
    StopMarket { trigger: Price },
    /// Wait until the market trades at or past `trigger`, then `Limit`.
    StopLimit { trigger: Price, price: Price, tif: TimeInForce },
}

impl OrderType {
    pub fn limit_gtc(price: Price) -> (r: Self)
        ensures
            r == (OrderType::Limit { price, tif: TimeInForce::GTC }),
    {
        OrderType::Limit { price, tif: TimeInForce::GTC }
    }

    pub fn limit_ioc(price: Price) -> (r: Self)
        ensures
            r == (OrderType::Limit { price, tif: TimeInForce::IOC }),
    {
        OrderType::Limit { price, tif: TimeInForce::IOC }
    }

    pub fn limit_fok(price: Price) -> (r: Self)
        ensures
            r == (OrderType::Limit { price, tif: TimeInForce::FOK }),
    {
        OrderType::Limit { price, tif: TimeInForce::FOK }
    }

    pub fn stop_market(trigger: Price) -> (r: Self)
        ensures
            r == (OrderType::StopMarket { trigger }),
    {
        OrderType::StopMarket { trigger }
    }

    pub fn stop_limit(trigger: Price, price: Price) -> (r: Self)
        ensures
            r == (OrderType::StopLimit { trigger, price, tif: TimeInForce::GTC }),
    {
        OrderType::StopLimit { trigger, price, tif: TimeInForce::GTC }
    }

    pub open spec fn spec_limit_price(&self) -> Option<Price> {
        match *self {
            OrderType::Limit { price, .. } => Some(price),
            OrderType::StopLimit { price, .. } => Some(price),
            OrderType::Market => None,
            OrderType::StopMarket { .. } => None,
        }
    }

    /// The price that the order rests at, now or after triggering.
    #[verifier::when_used_as_spec(spec_limit_price)]
    pub fn limit_price(&self) -> (r: Option<Price>)
        ensures
            r == self.limit_price(),
    {
        match *self {
            OrderType::Limit { price, .. } => Some(price),
            OrderType::StopLimit { price, .. } => Some(price),
            OrderType::Market => None,
            OrderType::StopMarket { .. } => None,
        }
    }

    pub open spec fn spec_trigger(&self) -> Option<Price> {
        match *self {
            OrderType::StopMarket { trigger } => Some(trigger),
            OrderType::StopLimit { trigger, .. } => Some(trigger),
            OrderType::Limit { .. } => None,
            OrderType::Market => None,
        }
    }

    /// The price that a stop waits for.
    #[verifier::when_used_as_spec(spec_trigger)]
    pub fn trigger(&self) -> (r: Option<Price>)
        ensures
            r == self.trigger(),
    {
        match *self {
            OrderType::StopMarket { trigger } => Some(trigger),
            OrderType::StopLimit { trigger, .. } => Some(trigger),
            OrderType::Limit { .. } => None,
            OrderType::Market => None,
        }
    }

    /// Every price that the order carries: its trigger and its limit.
    pub fn prices(&self) -> (r: [Option<Price>; 2])
        ensures
            r@ == seq![self.trigger(), self.limit_price()],
    {
        [self.trigger(), self.limit_price()]
    }
}

#[derive(Debug, Clone, Copy, PartialEq, Eq, Structural)]
pub enum OrderLifecycle {
    New,
    PartiallyFilled,
    Filled,
    Cancelled,
}

impl Default for OrderLifecycle {
    fn default() -> (r: OrderLifecycle)
        ensures
            r == OrderLifecycle::New,
    {
        OrderLifecycle::New
    }
}

/// An order.
#[derive(Debug, PartialEq)]
pub struct Order {
    pub exchange_id: ExchangeId,
    pub client_id: ClientId,
    /// Carries the prices too.
    pub order_type: OrderType,
    pub side: Side,
    pub original_quantity: Qty,
    pub remaining_quantity: Qty,
    /// What the client says of the time. The book does not order by it.
    pub timestamp: u128,
    pub lifecycle: OrderLifecycle,
    /// The place in line that the book gives an order when it comes to rest.
    pub arrival: u32,
}

impl Clone for Order {
    fn clone(&self) -> (r: Self)
        ensures
            r == *self,
    {
        Order {
            exchange_id: self.exchange_id.clone(),
            client_id: self.client_id.clone(),
            order_type: self.order_type,
            side: self.side,
            original_quantity: self.original_quantity,
            remaining_quantity: self.remaining_quantity,
            timestamp: self.timestamp,
            lifecycle: self.lifecycle,
            arrival: self.arrival,
        }
    }
}

impl Order {
    /// A builder that has the time of the call and nothing else.
    pub fn builder() -> (r: OrderBuilder)
        ensures
            exists|timestamp: u128| r == OrderBuilder::spec_stamped(timestamp),
    {
        OrderBuilder::default()
    }
}

/// Puts an order together field by field.
#[derive(Debug)]
pub struct OrderBuilder {
    pub(crate) exchange_id: Option<ExchangeId>,
    pub(crate) client_id: Option<ClientId>,
    pub(crate) order_type: Option<OrderType>,
    pub(crate) side: Option<Side>,
    pub(crate) original_quantity: Option<Qty>,
    pub(crate) remaining_quantity: Option<Qty>,
    pub(crate) timestamp: Option<u128>,
    pub(crate) lifecycle: Option<OrderLifecycle>,
}

impl Clone for OrderBuilder {
    fn clone(&self) -> (r: Self)
        ensures
            r == *self,
    {
        OrderBuilder {
            exchange_id: match &self.exchange_id {
                Some(id) => Some(id.clone()),
                None => None,
            },
            client_id: match &self.client_id {
                Some(id) => Some(id.clone()),
                None => None,
            },
            order_type: self.order_type,
            side: self.side,
            original_quantity: self.original_quantity,
            remaining_quantity: self.remaining_quantity,
            timestamp: self.timestamp,
            lifecycle: self.lifecycle,
        }
    }
}

/// Nanoseconds since the Unix epoch by `SystemTime::elapsed`, or zero where the
/// clock stands before it. Nothing is claimed of the result.
#[verifier::external_body]
fn clock_nanos() -> (r: u128) {
    std::time::UNIX_EPOCH.elapsed().map_or(0, |since| since.as_nanos())
}

impl Default for OrderBuilder {
    fn default() -> (r: Self)
        ensures
            exists|timestamp: u128| r == OrderBuilder::spec_stamped(timestamp),
    {
        OrderBuilder::stamped(clock_nanos())
    }
}

impl OrderBuilder {
    pub open(crate) spec fn spec_stamped(timestamp: u128) -> Self {
        OrderBuilder {
            exchange_id: None,
            client_id: None,
            order_type: None,
            side: None,
            original_quantity: None,
            remaining_quantity: None,
            timestamp: Some(timestamp),
            lifecycle: Some(OrderLifecycle::New),
        }
    }

    /// A builder with a given timestamp and nothing else.
    pub fn stamped(timestamp: u128) -> (r: Self)
        ensures
            r == Self::spec_stamped(timestamp),
    {
        OrderBuilder {
            exchange_id: None,
            client_id: None,
            order_type: None,
            side: None,
            original_quantity: None,
            remaining_quantity: None,
            timestamp: Some(timestamp),
            lifecycle: Some(OrderLifecycle::New),
        }
    }

    /// Whether every field that has no default was given.
    pub open(crate) spec fn complete(self) -> bool {
        &&& self.exchange_id is Some
        &&& self.client_id is Some
        &&& self.order_type is Some
        &&& self.side is Some
        &&& self.original_quantity is Some
        &&& self.timestamp is Some
        &&& self.lifecycle is Some
    }

    /// The order that a complete builder makes: nothing of it is filled unless
    /// the remaining quantity was given.
    pub open(crate) spec fn built(self) -> Order {
        Order {
            exchange_id: self.exchange_id->0,
            client_id: self.client_id->0,
            order_type: self.order_type->0,
            side: self.side->0,
            original_quantity: self.original_quantity->0,
            remaining_quantity: match self.remaining_quantity {
                Some(remaining) => remaining,
                None => self.original_quantity->0,
            },
            timestamp: self.timestamp->0,
            lifecycle: self.lifecycle->0,
            arrival: 0,
        }
    }

    /// The order. Its place in line is given when it comes to rest.
    pub fn build(self) -> (r: Order)
        requires
            self.complete(),
        ensures
            r == self.built(),
    {
        let original_quantity = self.original_quantity.expect("quantity doesn't provided");
        Order {
            exchange_id: self.exchange_id.expect("exchange_id should be present"),
            client_id: self.client_id.expect("client_id should be present"),
            order_type: self.order_type.expect("order_type doesn't provided"),
            side: self.side.expect("side doesn't provided"),
            original_quantity,
            remaining_quantity: self.remaining_quantity.unwrap_or(original_quantity),
            timestamp: self.timestamp.expect("timestamp should be present"),
            lifecycle: self.lifecycle.expect("lifecycle should be present"),
            arrival: 0,
        }
    }

    pub open(crate) spec fn spec_with_timestamp(self, timestamp: u128) -> Self {
        OrderBuilder { timestamp: Some(timestamp), ..self }
    }

    pub fn timestamp(self, timestamp: u128) -> (r: Self)
        ensures
            r == self.spec_with_timestamp(timestamp),
    {
        OrderBuilder { timestamp: Some(timestamp), ..self }
    }

    /// Whether `next` is this builder with the given exchange id.
    pub open(crate) spec fn sets_exchange_id(self, id: Seq<char>, next: Self) -> bool {
        &&& next.exchange_id is Some
        &&& next.exchange_id->0@ == id
        &&& next == OrderBuilder { exchange_id: next.exchange_id, ..self }
    }

    pub fn exchange_id(self, exchange_id: &str) -> (r: Self)
        ensures
            self.sets_exchange_id(exchange_id@, r),
    {
        OrderBuilder { exchange_id: Some(ExchangeId(exchange_id.to_owned())), ..self }
    }

    /// Whether `next` is this builder with the given client id.
    pub open(crate) spec fn sets_client_id(self, id: Seq<char>, next: Self) -> bool {
        &&& next.client_id is Some
        &&& next.client_id->0@ == id
        &&& next == OrderBuilder { client_id: next.client_id, ..self }
    }

    pub fn client_id(self, client_id: &str) -> (r: Self)
        ensures
            self.sets_client_id(client_id@, r),
    {
        OrderBuilder { client_id: Some(ClientId(client_id.to_owned())), ..self }
    }

    pub open(crate) spec fn spec_with_order_type(self, order_type: OrderType) -> Self {
        OrderBuilder { order_type: Some(order_type), ..self }
    }

    pub fn order_type(self, order_type: OrderType) -> (r: Self)
        ensures
            r == self.spec_with_order_type(order_type),
    {
        OrderBuilder { order_type: Some(order_type), ..self }
    }

    pub open(crate) spec fn spec_with_side(self, side: Side) -> Self {
        OrderBuilder { side: Some(side), ..self }
    }

    pub fn side(self, side: Side) -> (r: Self)
        ensures
            r == self.spec_with_side(side),
    {
        OrderBuilder { side: Some(side), ..self }
    }

    pub open(crate) spec fn spec_with_quantity(self, quantity: Qty) -> Self {
        OrderBuilder { original_quantity: Some(quantity), ..self }
    }

    pub fn quantity(self, quantity: Qty) -> (r: Self)
        ensures
            r == self.spec_with_quantity(quantity),
    {
        OrderBuilder { original_quantity: Some(quantity), ..self }
    }

    pub open(crate) spec fn spec_with_remaining_quantity(self, remaining_quantity: Qty) -> Self {
        OrderBuilder { remaining_quantity: Some(remaining_quantity), ..self }
    }

    pub fn remaining_quantity(self, remaining_quantity: Qty) -> (r: Self)
        ensures
            r == self.spec_with_remaining_quantity(remaining_quantity),
    {
        OrderBuilder { remaining_quantity: Some(remaining_quantity), ..self }
    }

    pub open(crate) spec fn spec_with_lifecycle(self, lifecycle: OrderLifecycle) -> Self {
        OrderBuilder { lifecycle: Some(lifecycle), ..self }
    }

    pub fn lifecycle(self, lifecycle: OrderLifecycle) -> (r: Self)
        ensures
            r == self.spec_with_lifecycle(lifecycle),
    {
        OrderBuilder { lifecycle: Some(lifecycle), ..self }
    }
}

/// What is left of each order.
pub open spec fn remainders(orders: Seq<Order>) -> Seq<int> {
    orders.map_values(|o: Order| o.remaining_quantity.base() as int)
}

/// What is left of all the orders together.
pub open spec fn total_remaining(orders: Seq<Order>) -> int {
    sums::sum(remainders(orders))
}

/// An order as an allocation policy sees it.
pub open spec fn as_maker(order: Order) -> Maker {
    Maker { remaining_quantity: order.remaining_quantity, arrival: order.arrival as u128 }
}

/// A queue of orders as an allocation policy sees it.
pub open spec fn as_makers(orders: Seq<Order>) -> Seq<Maker> {
    orders.map_values(|o: Order| as_maker(o))
}

/// One price on one side, with its orders, oldest first, as an owned copy.
#[derive(Debug, PartialEq)]
pub struct PriceLevel {
    pub price: Price,
    pub side: Side,
    pub orders: Vec<Order>,
}

#[derive(Debug, Clone, Copy, PartialEq, Eq, Structural)]
pub enum OrderError {
    InvalidSide,
}

impl Clone for PriceLevel {
    fn clone(&self) -> (r: Self)
        ensures
            r.price == self.price,
            r.side == self.side,
            r.orders@ == self.orders@,
    {
        let mut orders: Vec<Order> = Vec::new();
        let mut i: usize = 0;
        while i < self.orders.len()
            invariant
                i <= self.orders@.len(),
                orders@ == self.orders@.take(i as int),
            decreases self.orders@.len() - i,
        {
            orders.push(self.orders[i].clone());
            proof {
                assert(orders@ =~= self.orders@.take(i + 1));
            }
            i = i + 1;
        }
        proof {
            assert(self.orders@.take(i as int) =~= self.orders@);
        }
        PriceLevel { price: self.price, side: self.side, orders }
    }
}

impl PriceLevel {
    /// A level without orders.
    pub fn new(price: Price, side: Side) -> (r: Self)
        ensures
            r.price == price,
            r.side == side,
            r.orders@ == Seq::<Order>::empty(),
    {
        PriceLevel { price, side, orders: Vec::new() }
    }

    pub fn is_empty(&self) -> (r: bool)
        ensures
            r == (self.orders@.len() == 0),
    {
        self.orders.len() == 0
    }

    pub fn order_count(&self) -> (r: usize)
        ensures
            r == self.orders@.len(),
    {
        self.orders.len()
    }

    /// Puts an order at the back, unless it is of the other side.
    pub fn add_order(&mut self, order: Order) -> (r: Result<&mut Self, OrderError>)
        ensures
            match r {
                Ok(level) => {
                    &&& order.side == old(self).side
                    &&& level.price == old(self).price
                    &&& level.side == old(self).side
                    &&& level.orders@ =~= old(self).orders@.push(order)
                    &&& *final(self) == *final(level)
                },
                Err(error) => {
                    &&& order.side != old(self).side
                    &&& error == OrderError::InvalidSide
                    &&& *final(self) == *old(self)
                },
            },
    {
        if order.side != self.side {
            return Err(OrderError::InvalidSide);
        }
        self.orders.push(order);
        Ok(self)
    }

    /// Takes the order of a given name out, if it is there.
    pub fn remove_order(&mut self, order_exchange_id: &ExchangeId) -> (r: Option<Order>)
        ensures
            final(self).price == old(self).price,
            final(self).side == old(self).side,
            match r {
                Some(order) => exists|i: int|
                    {
                        &&& 0 <= i < old(self).orders@.len()
                        &&& #[trigger] old(self).orders@[i] == order
                        &&& order.exchange_id@ == order_exchange_id@
                        &&& forall|j: int|
                            0 <= j < i ==> (#[trigger] old(self).orders@[j]).exchange_id@
                                != order_exchange_id@
                        &&& final(self).orders@ =~= old(self).orders@.remove(i)
                    },
                None => {
                    &&& forall|j: int|
                        0 <= j < old(self).orders@.len() ==> (
                        #[trigger] old(self).orders@[j]).exchange_id@ != order_exchange_id@
                    &&& final(self).orders@ == old(self).orders@
                },
            },
    {
        let mut i: usize = 0;
        while i < self.orders.len()
            invariant
                i <= self.orders@.len(),
                *self == *old(self),
                forall|j: int|
                    0 <= j < i ==> (#[trigger] self.orders@[j]).exchange_id@ != order_exchange_id@,
            decreases self.orders@.len() - i,
        {
            if self.orders[i].exchange_id.same(order_exchange_id) {
                let order = self.orders.remove(i);
                return Some(order);
            }
            i = i + 1;
        }
        None
    }

    /// What is left of the level. A level that holds more than 64 bits can count
    /// has no total.
    pub fn total_quantity(&self) -> (r: Qty)
        requires
            total_remaining(self.orders@) <= u64::MAX,
        ensures
            r.base() == total_remaining(self.orders@),
    {
        total_of(&self.orders)
    }

    /// The level as an allocation policy sees it.
    pub fn makers(&self) -> (r: Vec<Maker>)
        ensures
            r@ == as_makers(self.orders@),
    {
        let mut makers: Vec<Maker> = Vec::new();
        let mut i: usize = 0;
        while i < self.orders.len()
            invariant
                i <= self.orders@.len(),
                makers@ == as_makers(self.orders@).take(i as int),
            decreases self.orders@.len() - i,
        {
            makers.push(
                Maker {
                    remaining_quantity: self.orders[i].remaining_quantity,
                    arrival: self.orders[i].arrival as u128,
                },
            );
            proof {
                assert(makers@ =~= as_makers(self.orders@).take(i + 1));
            }
            i = i + 1;
        }
        proof {
            assert(as_makers(self.orders@).take(i as int) =~= as_makers(self.orders@));
        }
        makers
    }
}

/// What is left of all the orders together.
fn total_of(orders: &Vec<Order>) -> (r: Qty)
    requires
        total_remaining(orders@) <= u64::MAX,
    ensures
        r.base() == total_remaining(orders@),
{
    let ghost all = remainders(orders@);
    let mut total: u64 = 0;
    let mut i: usize = 0;
    proof {
        assert(all.take(0) =~= Seq::<int>::empty());
    }
    while i < orders.len()
        invariant
            i <= orders@.len(),
            all == remainders(orders@),
            sums::sum(all) <= u64::MAX,
            total == sums::sum(all.take(i as int)),
        decreases orders@.len() - i,
    {
        proof {
            sums::lemma_sum_step(all, i as int);
            sums::lemma_sum_prefix(all, i + 1);
        }
        total = total + orders[i].remaining_quantity.base();
        i = i + 1;
    }
    proof {
        assert(all.take(i as int) =~= all);
    }
    Qty::from_base_unchecked(total)
}

// ---------------------------------------------------------------- laws

/// The number that a string of decimal digits stands for.
spec fn value_of(text: Seq<char>) -> int
    decreases text.len(),
{
    if text.len() == 0 {
        0
    } else {
        10 * value_of(text.drop_last()) + (text.last() as int - 48)
    }
}

proof fn lemma_value_of_digits(n: nat)
    ensures
        value_of(digits(n)) == n,
    decreases n,
{
    if n < 10 {
        assert(digits(n).drop_last() =~= Seq::<char>::empty());
        assert(value_of(Seq::<char>::empty()) == 0);
    } else {
        lemma_value_of_digits(n / 10);
        assert(digits(n).drop_last() =~= digits(n / 10));
    }
}

/// No two sequence numbers give the same name.
pub proof fn sequence_names_are_distinct(a: nat, b: nat)
    requires
        sequence_name(a) == sequence_name(b),
    ensures
        a == b,
{
    let prefix = "exchId-"@;
    assert(digits(a) =~= sequence_name(a).skip(prefix.len() as int));
    assert(digits(b) =~= sequence_name(b).skip(prefix.len() as int));
    lemma_value_of_digits(a);
    lemma_value_of_digits(b);
}

/// A name is a fixed word and the number in decimal notation: one digit for a number
/// below ten, and otherwise the name of its tenth part with one digit more.
pub proof fn sequence_names_are_numbers(n: nat)
    ensures
        n < 10 ==> sequence_name(n) == seq![
            'e',
            'x',
            'c',
            'h',
            'I',
            'd',
            '-',
            (48 + n) as char,
        ],
        n >= 10 ==> sequence_name(n) == sequence_name(n / 10).push((48 + n % 10) as char),
{
    reveal_strlit("exchId-");
    if n < 10 {
        assert(sequence_name(n) =~= seq![
            'e',
            'x',
            'c',
            'h',
            'I',
            'd',
            '-',
            (48 + n) as char,
        ]);
    } else {
        assert(sequence_name(n) =~= sequence_name(n / 10).push((48 + n % 10) as char));
    }
}

/// A builder builds what it was told last, and is otherwise left as it was.
pub proof fn builders_set_one_field(
    builder: OrderBuilder,
    timestamp: u128,
    order_type: OrderType,
    side: Side,
    quantity: Qty,
    lifecycle: OrderLifecycle,
)
    requires
        builder.complete(),
    ensures
        builder.spec_with_timestamp(timestamp).built() == (Order { timestamp, ..builder.built() }),
        builder.spec_with_order_type(order_type).built() == (Order {
            order_type,
            ..builder.built()
        }),
        builder.spec_with_side(side).built() == (Order { side, ..builder.built() }),
        builder.spec_with_remaining_quantity(quantity).built() == (Order {
            remaining_quantity: quantity,
            ..builder.built()
        }),
        builder.spec_with_quantity(quantity).built().original_quantity == quantity,
        builder.spec_with_remaining_quantity(quantity).spec_with_quantity(
            quantity,
        ).built().remaining_quantity == quantity,
        builder.spec_with_lifecycle(lifecycle).built() == (Order { lifecycle, ..builder.built() }),
        builder.built().arrival == 0,
{
}

/// An order that is put together from nothing is what it was said to be: new, with
/// nothing of it filled and no place in line yet.
pub proof fn built_orders_are_as_told(
    timestamp: u128,
    order_type: OrderType,
    side: Side,
    quantity: Qty,
    name: Seq<char>,
    client: Seq<char>,
    named: OrderBuilder,
    owned: OrderBuilder,
)
    requires
        OrderBuilder::spec_stamped(timestamp).spec_with_order_type(order_type).spec_with_side(
            side,
        ).spec_with_quantity(quantity).sets_exchange_id(name, named),
        named.sets_client_id(client, owned),
    ensures
        owned.complete(),
        owned.built().exchange_id@ == name,
        owned.built().client_id@ == client,
        owned.built().order_type == order_type,
        owned.built().side == side,
        owned.built().original_quantity == quantity,
        owned.built().remaining_quantity == quantity,
        owned.built().timestamp == timestamp,
        owned.built().lifecycle == OrderLifecycle::New,
        owned.built().arrival == 0,
{
}

} // verus!
