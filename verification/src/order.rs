use vstd::prelude::*;
use vstd::std_specs::cmp::PartialEqSpecImpl;

verus! {

/// A character with the Unicode `White_Space` property, which is what `str::trim` strips.
pub open spec fn is_unicode_whitespace(c: char) -> bool {
    let n = c as u32;
    ||| 0x9 <= n <= 0xd
    ||| n == 0x20
    ||| n == 0x85
    ||| n == 0xa0
    ||| n == 0x1680
    ||| 0x2000 <= n <= 0x200a
    ||| n == 0x2028
    ||| n == 0x2029
    ||| n == 0x202f
    ||| n == 0x205f
    ||| n == 0x3000
}

/// `s` without its leading whitespace.
pub open spec fn trim_start_seq(s: Seq<char>) -> Seq<char>
    decreases s.len(),
{
    if s.len() > 0 && is_unicode_whitespace(s[0]) {
        trim_start_seq(s.drop_first())
    } else {
        s
    }
}

/// `s` without its trailing whitespace.
pub open spec fn trim_end_seq(s: Seq<char>) -> Seq<char>
    decreases s.len(),
{
    if s.len() > 0 && is_unicode_whitespace(s.last()) {
        trim_end_seq(s.drop_last())
    } else {
        s
    }
}

/// `s` without leading and trailing whitespace.
pub open spec fn trim_seq(s: Seq<char>) -> Seq<char> {
    trim_end_seq(trim_start_seq(s))
}

/// `str::to_uppercase`: the Unicode upper-case mapping of a string, which
/// depends on the string alone.
pub uninterp spec fn uppercase_of(s: Seq<char>) -> Seq<char>;

/// `str::trim`: the string without leading and trailing Unicode whitespace.
#[verifier::external_body]
pub(crate) fn str_trim(s: &str) -> (r: &str)
    ensures
        r@ == trim_seq(s@),
{
    s.trim()
}

/// `str::to_uppercase`; its result is named `uppercase_of`, with nothing more
/// claimed of it.
#[verifier::external_body]
fn str_to_uppercase(s: &str) -> (r: String)
    ensures
        r@ == uppercase_of(s@),
{
    s.to_uppercase()
}

/// A ticker symbol.
#[derive(Debug, Hash)]
pub struct Symbol(pub String);

impl Symbol {
    /// The symbol of `s`, trimmed and upper-cased.
    pub fn new(s: &str) -> (r: Symbol)
        ensures
            r.0@ == uppercase_of(trim_seq(s@)),
    {
        Symbol(str_to_uppercase(str_trim(s)))
    }

    /// The symbol's text.
    pub fn as_str(&self) -> (r: &str)
        ensures
            r@ == self.0@,
    {
        self.0.as_str()
    }
}

impl Clone for Symbol {
    fn clone(&self) -> (r: Self)
        ensures
            r == *self,
    {
        Symbol(self.0.clone())
    }
}

impl PartialEq for Symbol {
    fn eq(&self, other: &Self) -> (r: bool) {
        self.0 == other.0
    }
}

impl PartialEqSpecImpl for Symbol {
    open spec fn obeys_eq_spec() -> bool {
        true
    }

    open spec fn eq_spec(&self, other: &Symbol) -> bool {
        self.0@ == other.0@
    }
}

impl Eq for Symbol {
}

/// The four kinds of order.
#[derive(Debug, Clone, Copy, PartialEq, Eq, Structural)]
pub enum OrderType {
    MarketSell,
    LimitSell,
    MarketBuy,
    LimitBuy,
}

/// Client identifiers are UUIDs, held as their 128-bit value.
pub type ClientId = u128;

/// An order: prices are in cents.
#[derive(Debug)]
pub struct Order {
    pub client_id: Option<ClientId>,
    pub sym: Symbol,
    pub quantity: usize,
    pub price: i64,
    pub kind: Option<OrderType>,
    pub order_id: u16,
    pub cancelled: bool,
}

impl Clone for Order {
    fn clone(&self) -> (r: Self)
        ensures
            r == *self,
    {
        Order {
            client_id: self.client_id,
            sym: self.sym.clone(),
            quantity: self.quantity,
            price: self.price,
            kind: self.kind,
            order_id: self.order_id,
            cancelled: self.cancelled,
        }
    }
}

impl Order {
    /// A fresh order, without an order id (0) and not cancelled.
    pub fn new(
        client_id: Option<ClientId>,
        sym: Symbol,
        quantity: usize,
        price: i64,
        kind: Option<OrderType>,
    ) -> (r: Self)
        ensures
            r == (Order { client_id, sym, quantity, price, kind, order_id: 0, cancelled: false }),
    {
        Self { client_id, sym, quantity, price, kind, order_id: 0, cancelled: false }
    }

    /// Marks the order cancelled.
    pub fn cancel(&mut self)
        ensures
            *final(self) == (Order { cancelled: true, ..*old(self) }),
    {
        self.cancelled = true;
    }

    pub fn get_order_id(&self) -> (r: u16)
        ensures
            r == self.order_id,
    {
        self.order_id
    }

    pub fn get_client_id(&self) -> (r: Option<ClientId>)
        ensures
            r == self.client_id,
    {
        self.client_id
    }

    pub fn set_client_id(self, client_id: ClientId) -> (r: Self)
        ensures
            r == (Order { client_id: Some(client_id), ..self }),
    {
        let mut o = self;
        o.client_id = Some(client_id);
        o
    }

    pub fn set_order_id(self, order_id: u16) -> (r: Self)
        ensures
            r == (Order { order_id, ..self }),
    {
        let mut o = self;
        o.order_id = order_id;
        o
    }

    /// What the server acknowledges back to a client for this order.
    pub fn get_slim_view(&self) -> (r: OrderReceived)
        ensures
            r == (OrderReceived {
                order_id: self.order_id,
                price: self.price,
                kind: self.kind,
                sym: self.sym,
            }),
    {
        OrderReceived {
            order_id: self.order_id,
            price: self.price,
            kind: self.kind,
            sym: self.sym.clone(),
        }
    }
}

/// The acknowledgement of an order: enough for the client to cancel it later.
#[derive(Debug)]
pub struct OrderReceived {
    pub order_id: u16,
    pub price: i64,
    pub kind: Option<OrderType>,
    pub sym: Symbol,
}

/// A request to cancel a resting order.
#[derive(Debug)]
pub struct OrderCancel {
    pub client_id: ClientId,
    pub sym: Symbol,
    pub price_level: i64,
    pub kind: OrderType,
    pub order_id: u16,
}

impl Clone for OrderCancel {
    fn clone(&self) -> (r: Self)
        ensures
            r == *self,
    {
        OrderCancel {
            client_id: self.client_id,
            sym: self.sym.clone(),
            price_level: self.price_level,
            kind: self.kind,
            order_id: self.order_id,
        }
    }
}

/// Nanoseconds since the UNIX epoch; negative for a moment before it.
pub type Timestamp = i128;

/// `SystemTime::now()` measured against the UNIX epoch: whether the clock is set
/// before the epoch, and how many nanoseconds lie between the two. The clock is
/// read, so nothing is claimed of the values.
#[verifier::external_body]
pub(crate) fn clock_since_epoch() -> (r: (bool, u128)) {
    match std::time::SystemTime::now().duration_since(std::time::UNIX_EPOCH) {
        Ok(d) => (false, d.as_nanos()),
        Err(e) => (true, e.duration().as_nanos()),
    }
}

/// A clock reading as a signed count of nanoseconds: `nanos` after the epoch, or
/// before it when `before` is set.
pub open spec fn reading_time(before: bool, nanos: u128) -> int {
    if before {
        -(nanos as int)
    } else {
        nanos as int
    }
}

/// The timestamp of a clock reading: its signed time, with a distance beyond
/// `i128::MAX` nanoseconds held at that bound.
pub open spec fn stamp_of(before: bool, nanos: u128) -> int {
    let m = if nanos <= i128::MAX { nanos as int } else { i128::MAX as int };
    if before {
        -m
    } else {
        m
    }
}

/// Stamping keeps the clock's order and, within the range of `i128`, its value:
/// a reading no later than another gets a stamp no later than the other's, a
/// reading of `t` nanoseconds from the epoch with `|t| <= i128::MAX` is stamped
/// `t`, and two such readings at different times get different stamps.
pub proof fn law_stamps_follow_the_clock(b1: bool, n1: u128, b2: bool, n2: u128)
    ensures
        reading_time(b1, n1) <= reading_time(b2, n2) ==> stamp_of(b1, n1) <= stamp_of(b2, n2),
        n1 <= i128::MAX ==> stamp_of(b1, n1) == reading_time(b1, n1),
        n1 <= i128::MAX && n2 <= i128::MAX && reading_time(b1, n1) != reading_time(b2, n2) ==> stamp_of(b1, n1)
            != stamp_of(b2, n2),
{
}

/// The signed timestamp of a moment `nanos` nanoseconds after the epoch, or before
/// it when `before` is set. A distance beyond `i128::MAX` nanoseconds (about 5e21
/// years) is held at that bound.
pub fn signed_nanos(before: bool, nanos: u128) -> (r: Timestamp)
    ensures
        r == stamp_of(before, nanos),
{
    let m: i128 = if nanos <= 0x7fff_ffff_ffff_ffff_ffff_ffff_ffff_ffffu128 {
        nanos as i128
    } else {
        0x7fff_ffff_ffff_ffff_ffff_ffff_ffff_ffffi128
    };
    if before {
        -m
    } else {
        m
    }
}

/// The current time as a signed timestamp.
pub(crate) fn now_nanos() -> (r: Timestamp) {
    let (before, nanos) = clock_since_epoch();
    signed_nanos(before, nanos)
}

/// An order stamped with the time the sequencer saw it.
#[derive(Debug)]
pub struct TimedOrder {
    pub order: Order,
    pub dt: Timestamp,
}

impl Clone for TimedOrder {
    fn clone(&self) -> (r: Self)
        ensures
            r == *self,
    {
        TimedOrder { order: self.order.clone(), dt: self.dt }
    }
}

impl TimedOrder {
    /// Stamps `order` with the current time. The clock is read, so what the stamp
    /// is comes from `stamped`, given the reading.
    pub fn new(order: Order) -> (r: Self)
        ensures
            r.order == order,
    {
        let (before, nanos) = clock_since_epoch();
        Self::stamped(order, before, nanos)
    }

    /// Stamps `order` with the clock reading `nanos` nanoseconds after the epoch
    /// (before it when `before` is set).
    pub fn stamped(order: Order, before: bool, nanos: u128) -> (r: Self)
        ensures
            r.order == order,
            r.dt == stamp_of(before, nanos),
    {
        Self { order, dt: signed_nanos(before, nanos) }
    }
}

} // verus!
