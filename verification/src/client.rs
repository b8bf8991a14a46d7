use vstd::prelude::*;

use crate::freelist::MAX_ACTIVE_ORDERS;
use crate::order::{is_unicode_whitespace, str_trim, trim_end_seq, trim_seq, trim_start_seq, Order, OrderCancel, OrderReceived, OrderType, Symbol};
use crate::snapshot::decimal;
use crate::utils::ClientCommands;

verus! {

/// The value of a non-empty run of decimal digits.
pub open spec fn digits_value(s: Seq<char>) -> int
    decreases s.len(),
{
    if s.len() == 0 {
        0
    } else {
        digits_value(s.drop_last()) * 10 + (s.last() as int - '0' as int)
    }
}

pub open spec fn all_digits(s: Seq<char>) -> bool {
    forall|i: int| 0 <= i < s.len() ==> '0' <= #[trigger] s[i] <= '9'
}

proof fn lemma_digits_nonneg(s: Seq<char>)
    requires
        all_digits(s),
    ensures
        digits_value(s) >= 0,
    decreases s.len(),
{
    if s.len() > 0 {
        assert(all_digits(s.drop_last())) by {
            assert forall|i: int| 0 <= i < s.drop_last().len() implies '0' <= #[trigger] s.drop_last()[i] <= '9' by {
                assert(s.drop_last()[i] == s[i]);
            }
        }
        lemma_digits_nonneg(s.drop_last());
        assert('0' <= s[s.len() - 1] <= '9');
    }
}

/// A parsed unsigned value is not negative.
proof fn lemma_parse_unsigned_nonneg(s: Seq<char>, max: int)
    ensures
        parse_unsigned(s, max) matches Some(v) ==> 0 <= v <= max,
{
    let body = if s.len() > 0 && s[0] == '+' { s.drop_first() } else { s };
    if all_digits(body) {
        lemma_digits_nonneg(body);
    }
}

/// What `str::parse` gives for an unsigned integer type whose largest value is
/// `max`: an optional `+` and then at least one digit, with a value in range.
pub open spec fn parse_unsigned(s: Seq<char>, max: int) -> Option<int> {
    let body = if s.len() > 0 && s[0] == '+' { s.drop_first() } else { s };
    if body.len() > 0 && all_digits(body) && digits_value(body) <= max {
        Some(digits_value(body))
    } else {
        None
    }
}

/// What `str::parse` gives for a signed integer type: an optional `+` or `-` and
/// then at least one digit, with a value in `min..=max`.
pub open spec fn parse_signed(s: Seq<char>, min: int, max: int) -> Option<int> {
    let neg = s.len() > 0 && s[0] == '-';
    let body = if s.len() > 0 && (s[0] == '+' || s[0] == '-') { s.drop_first() } else { s };
    let v = if neg { -digits_value(body) } else { digits_value(body) };
    if body.len() > 0 && all_digits(body) && min <= v <= max {
        Some(v)
    } else {
        None
    }
}

/// `s.parse::<u16>().ok()`.
#[verifier::external_body]
fn parse_u16(s: &str) -> (r: Option<u16>)
    ensures
        r == (match parse_unsigned(s@, u16::MAX as int) {
            Some(v) => Some(v as u16),
            None => None,
        }),
{
    s.parse::<u16>().ok()
}

/// `s.parse::<usize>().ok()`.
#[verifier::external_body]
fn parse_usize(s: &str) -> (r: Option<usize>)
    ensures
        r == (match parse_unsigned(s@, usize::MAX as int) {
            Some(v) => Some(v as usize),
            None => None,
        }),
{
    s.parse::<usize>().ok()
}

/// `s.parse::<i64>().ok()`.
#[verifier::external_body]
fn parse_i64(s: &str) -> (r: Option<i64>)
    ensures
        r == (match parse_signed(s@, i64::MIN as int, i64::MAX as int) {
            Some(v) => Some(v as i64),
            None => None,
        }),
{
    s.parse::<i64>().ok()
}

/// `s.chars().collect()`.
#[verifier::external_body]
pub(crate) fn str_chars(s: &str) -> (r: Vec<char>)
    ensures
        r@ == s@,
{
    s.chars().collect()
}

/// `v.iter().collect()` into a `String`.
#[verifier::external_body]
pub(crate) fn string_of_chars(v: &[char]) -> (r: String)
    ensures
        r@ == v@,
{
    v.iter().collect()
}

/// The index of the first `@` in `s` at or after `from`, or `s.len()`.
pub open spec fn seg_end(s: Seq<char>, from: int) -> int
    decreases s.len() - from,
{
    if from >= s.len() || s[from] == '@' {
        from
    } else {
        seg_end(s, from + 1)
    }
}

/// The order kind a side letter stands for.
pub open spec fn side_kind(c: char) -> Option<OrderType> {
    if c == 'b' {
        Some(OrderType::MarketBuy)
    } else if c == 's' {
        Some(OrderType::MarketSell)
    } else if c == 'B' {
        Some(OrderType::LimitBuy)
    } else if c == 'S' {
        Some(OrderType::LimitSell)
    } else {
        None
    }
}

/// A new order `<side><sym>@<quantity>@<price>[@...]`, read from the text `t`
/// (already trimmed): its symbol, quantity, price and kind.
pub open spec fn parse_new_order(t: Seq<char>) -> Option<(Seq<char>, usize, i64, Option<OrderType>)> {
    let rest = t.drop_first();
    let e0 = seg_end(rest, 0);
    let e1 = seg_end(rest, e0 + 1);
    let e2 = seg_end(rest, e1 + 1);
    if e0 >= rest.len() || e1 >= rest.len() {
        None
    } else {
        match (
            parse_unsigned(rest.subrange(e0 + 1, e1), usize::MAX as int),
            parse_signed(rest.subrange(e1 + 1, e2), i64::MIN as int, i64::MAX as int),
        ) {
            (Some(q), Some(p)) => Some((rest.subrange(0, e0), q as usize, p as i64, side_kind(t[0]))),
            _ => None,
        }
    }
}

/// A line that `parse_order` can read without failing: after trimming it has a
/// first character of one byte, and a cancel names an order id the index has room for.
pub open spec fn parse_order_accepts(input: Seq<char>) -> bool {
    let t = trim_seq(input);
    &&& t.len() > 0
    &&& (t[0] as u32) < 0x80
    &&& t[0] == 'X' ==> (parse_unsigned(t.drop_first(), u16::MAX as int) matches Some(v) ==> v < MAX_ACTIVE_ORDERS)
}

/// The kind stored for an order type in an `OrderIndex`.
pub open spec fn type_code(ot: OrderType) -> u8 {
    match ot {
        OrderType::MarketBuy => 1,
        OrderType::MarketSell => 2,
        OrderType::LimitBuy => 3,
        OrderType::LimitSell => 4,
    }
}

/// The order type a stored kind stands for.
pub open spec fn code_type(v: u8) -> Option<OrderType> {
    if v == 1 {
        Some(OrderType::MarketBuy)
    } else if v == 2 {
        Some(OrderType::MarketSell)
    } else if v == 3 {
        Some(OrderType::LimitBuy)
    } else if v == 4 {
        Some(OrderType::LimitSell)
    } else {
        None
    }
}

/// What the client remembers of each of its acknowledged orders, by order id,
/// so that it can cancel them.
pub struct OrderIndex {
    id_to_plevel: Vec<i64>,
    id_to_type: Vec<u8>,
    valid: Vec<bool>,
    id_to_sym: Vec<Option<Symbol>>,
}

/// One remembered order: its price level, stored kind and symbol.
pub struct IndexEntry {
    pub price_level: i64,
    pub code: u8,
    pub sym: Symbol,
}

impl View for OrderIndex {
    /// The remembered orders by order id.
    type V = Map<u16, IndexEntry>;

    closed spec fn view(&self) -> Map<u16, IndexEntry> {
        Map::new(
            |id: u16| (id as int) < MAX_ACTIVE_ORDERS && self.valid@[id as int],
            |id: u16|
                IndexEntry {
                    price_level: self.id_to_plevel@[id as int],
                    code: self.id_to_type@[id as int],
                    sym: self.id_to_sym@[id as int].unwrap(),
                },
        )
    }
}

impl OrderIndex {
    /// Every table has a row per order id, and a remembered order has its symbol.
    pub closed spec fn wf(&self) -> bool {
        &&& self.id_to_plevel@.len() == MAX_ACTIVE_ORDERS
        &&& self.id_to_type@.len() == MAX_ACTIVE_ORDERS
        &&& self.valid@.len() == MAX_ACTIVE_ORDERS
        &&& self.id_to_sym@.len() == MAX_ACTIVE_ORDERS
        &&& forall|i: int| 0 <= i < MAX_ACTIVE_ORDERS && #[trigger] self.valid@[i] ==> self.id_to_sym@[i] is Some
    }

    /// An index that remembers nothing.
    pub fn new() -> (r: Self)
        ensures
            r.wf(),
            r@ == Map::<u16, IndexEntry>::empty(),
    {
        let mut id_to_sym: Vec<Option<Symbol>> = Vec::new();
        let mut i: usize = 0;
        while i < MAX_ACTIVE_ORDERS
            invariant
                i <= MAX_ACTIVE_ORDERS,
                id_to_sym@.len() == i,
                forall|j: int| 0 <= j < i ==> #[trigger] id_to_sym@[j] is None,
            decreases MAX_ACTIVE_ORDERS - i,
        {
            id_to_sym.push(None);
            i = i + 1;
        }
        let r = Self {
            id_to_plevel: vec![0i64; MAX_ACTIVE_ORDERS],
            id_to_type: vec![0u8; MAX_ACTIVE_ORDERS],
            valid: vec![false; MAX_ACTIVE_ORDERS],
            id_to_sym,
        };
        assert(r@ =~= Map::<u16, IndexEntry>::empty());
        r
    }

    /// The order type a stored kind stands for.
    pub fn map_int_to_order_type(&self, v: u8) -> (r: Option<OrderType>)
        ensures
            r == code_type(v),
    {
        match v {
            1 => Some(OrderType::MarketBuy),
            2 => Some(OrderType::MarketSell),
            3 => Some(OrderType::LimitBuy),
            4 => Some(OrderType::LimitSell),
            _ => None,
        }
    }

    /// The kind stored for an order type.
    pub fn map_order_type_to_idx(&self, ot: OrderType) -> (r: u8)
        ensures
            r == type_code(ot),
    {
        match ot {
            OrderType::MarketBuy => 1,
            OrderType::MarketSell => 2,
            OrderType::LimitBuy => 3,
            OrderType::LimitSell => 4,
        }
    }

    /// The price level, type and symbol of a remembered order of a known type.
    pub fn get_info_about_order(&self, order_id: u16) -> (r: Option<(i64, OrderType, Symbol)>)
        requires
            self.wf(),
            (order_id as int) < MAX_ACTIVE_ORDERS,
        ensures
            r == (if self@.contains_key(order_id) && code_type(self@[order_id].code) is Some {
                Some((self@[order_id].price_level, code_type(self@[order_id].code).unwrap(), self@[order_id].sym))
            } else {
                None
            }),
    {
        let idx: usize = order_id as usize;
        if !self.valid[idx] {
            return None;
        }
        let kind = self.map_int_to_order_type(self.id_to_type[idx]);
        match kind {
            None => None,
            Some(k) => {
                let sym = match &self.id_to_sym[idx] {
                    Some(s) => s.clone(),
                    None => {
                        proof {
                            assert(self.id_to_sym@[idx as int] is Some);
                        }
                        return None;
                    },
                };
                Some((self.id_to_plevel[idx], k, sym))
            },
        }
    }

    /// Remembers an acknowledged order, in place of any order with the same id.
    /// An order without a type is stored with type code 0.
    pub fn index_order(&mut self, or: OrderReceived)
        requires
            old(self).wf(),
            (or.order_id as int) < MAX_ACTIVE_ORDERS,
        ensures
            final(self).wf(),
            final(self)@ == old(self)@.insert(
                or.order_id,
                IndexEntry {
                    price_level: or.price,
                    code: match or.kind {
                        Some(k) => type_code(k),
                        None => 0,
                    },
                    sym: or.sym,
                },
            ),
    {
        let idx: usize = or.order_id as usize;
        let code = match or.kind {
            Some(k) => self.map_order_type_to_idx(k),
            None => 0,
        };
        self.id_to_plevel.set(idx, or.price);
        self.id_to_type.set(idx, code);
        self.id_to_sym.set(idx, Some(or.sym));
        self.valid.set(idx, true);
        proof {
            let e = IndexEntry { price_level: or.price, code, sym: or.sym };
            assert(self@ =~= old(self)@.insert(or.order_id, e));
        }
    }

    /// Forgets an order.
    pub fn remove_order(&mut self, order_id: u16)
        requires
            old(self).wf(),
            (order_id as int) < MAX_ACTIVE_ORDERS,
        ensures
            final(self).wf(),
            final(self)@ == old(self)@.remove(order_id),
    {
        let idx: usize = order_id as usize;
        self.valid.set(idx, false);
        assert(self@ =~= old(self)@.remove(order_id));
    }
}

/// `o` is the new order `<side><sym>@<quantity>@<price>` describes, with no client
/// id and no order id yet.
pub open spec fn is_new_order(o: Order, sym: Seq<char>, q: usize, p: i64, k: Option<OrderType>) -> bool {
    &&& o.client_id is None
    &&& o.sym.0@ == sym
    &&& o.quantity == q
    &&& o.price == p
    &&& o.kind == k
    &&& o.order_id == 0
    &&& !o.cancelled
}

/// What `parse_order` answers for the line `input`, and what it does to the index.
///
/// A line starting with `X` cancels the remembered order whose id follows, which
/// is then forgotten; any other line is a new order, where `b`, `s`, `B` and `S`
/// stand for market buy, market sell, limit buy and limit sell.
pub open spec fn parse_post(input: Seq<char>, old: Map<u16, IndexEntry>, new: Map<u16, IndexEntry>, r: Option<ClientCommands>) -> bool {
    let t = trim_seq(input);
    if t[0] == 'X' {
        match parse_unsigned(t.drop_first(), u16::MAX as int) {
            None => r is None && new == old,
            Some(v) => {
                let id = v as u16;
                if old.contains_key(id) && code_type(old[id].code) is Some {
                    &&& new == old.remove(id)
                    &&& r == Some(ClientCommands::Cancel(OrderCancel {
                        client_id: 0,
                        sym: old[id].sym,
                        price_level: old[id].price_level,
                        kind: code_type(old[id].code).unwrap(),
                        order_id: id,
                    }))
                } else {
                    r is None && new == old
                }
            },
        }
    } else {
        &&& new == old
        &&& match parse_new_order(t) {
            None => r is None,
            Some((sym, q, p, k)) => r matches Some(ClientCommands::New(o)) && is_new_order(o, sym, q, p, k),
        }
    }
}

/// `s@[from..to]`.
fn sub_chars(s: &Vec<char>, from: usize, to: usize) -> (r: Vec<char>)
    requires
        from <= to <= s@.len(),
    ensures
        r@ == s@.subrange(from as int, to as int),
{
    let mut out: Vec<char> = Vec::new();
    let mut i: usize = from;
    while i < to
        invariant
            from <= i <= to,
            to <= s@.len(),
            out@ == s@.subrange(from as int, i as int),
        decreases to - i,
    {
        out.push(s[i]);
        proof {
            assert(s@.subrange(from as int, i + 1) =~= s@.subrange(from as int, i as int).push(s@[i as int]));
        }
        i = i + 1;
    }
    out
}

/// The index of the first `@` in `s` at or after `from`, or `s.len()`.
fn find_at(s: &Vec<char>, from: usize) -> (r: usize)
    requires
        from <= s@.len(),
    ensures
        r == seg_end(s@, from as int),
        from <= r <= s@.len(),
{
    let mut i: usize = from;
    while i < s.len() && s[i] != '@'
        invariant
            from <= i <= s@.len(),
            seg_end(s@, from as int) == seg_end(s@, i as int),
        decreases s@.len() - i,
    {
        i = i + 1;
    }
    i
}

/// Reads one line typed at the client: a new order, or a cancel of a remembered
/// order by its id. Returns `None` for a line that does not parse or a cancel of
/// an order the index does not know.
pub fn parse_order(input: &str, order_index: &mut OrderIndex) -> (r: Option<ClientCommands>)
    requires
        old(order_index).wf(),
        parse_order_accepts(input@),
    ensures
        final(order_index).wf(),
        parse_post(input@, old(order_index)@, final(order_index)@, r),
{
    let t = str_trim(input);
    let mut chars = str_chars(t);
    let rest = chars.split_off(1);
    let side = chars[0];
    proof {
        assert(rest@ =~= t@.drop_first());
        assert(side == t@[0]);
    }
    if side == 'X' {
        let rest_str = string_of_chars(rest.as_slice());
        let order_id = match parse_u16(rest_str.as_str()) {
            Some(v) => v,
            None => return None,
        };
        proof {
            assert(rest_str@ == trim_seq(input@).drop_first());
            lemma_parse_unsigned_nonneg(rest_str@, u16::MAX as int);
        }
        match order_index.get_info_about_order(order_id) {
            Some((plevel, kind, sym)) => {
                order_index.remove_order(order_id);
                return Some(
                    ClientCommands::Cancel(
                        OrderCancel { client_id: 0, sym, price_level: plevel, kind, order_id },
                    ),
                );
            },
            None => {
                return None;
            },
        }
    }
    let e0 = find_at(&rest, 0);
    if e0 >= rest.len() {
        return None;
    }
    let e1 = find_at(&rest, e0 + 1);
    if e1 >= rest.len() {
        return None;
    }
    let e2 = find_at(&rest, e1 + 1);
    let sym = string_of_chars(sub_chars(&rest, 0, e0).as_slice());
    let q_str = string_of_chars(sub_chars(&rest, e0 + 1, e1).as_slice());
    let p_str = string_of_chars(sub_chars(&rest, e1 + 1, e2).as_slice());
    let quantity = match parse_usize(q_str.as_str()) {
        Some(q) => q,
        None => return None,
    };
    let price = match parse_i64(p_str.as_str()) {
        Some(p) => p,
        None => return None,
    };
    let kind = if side == 'b' {
        Some(OrderType::MarketBuy)
    } else if side == 's' {
        Some(OrderType::MarketSell)
    } else if side == 'B' {
        Some(OrderType::LimitBuy)
    } else if side == 'S' {
        Some(OrderType::LimitSell)
    } else {
        None
    };
    Some(ClientCommands::New(Order::new(None, Symbol(sym), quantity, price, kind)))
}

/// The stored kind of an order type reads back as that type.
pub proof fn law_type_code_roundtrip(ot: OrderType)
    ensures
        code_type(type_code(ot)) == Some(ot),
{
}

/// What an index remembers of an acknowledged order of a known type is what a
/// lookup gives back; once forgotten, a lookup finds nothing.
pub proof fn law_index_then_lookup(m: Map<u16, IndexEntry>, or: OrderReceived, k: OrderType)
    requires
        or.kind == Some(k),
    ensures
        ({
            let e = IndexEntry { price_level: or.price, code: type_code(k), sym: or.sym };
            let m2 = m.insert(or.order_id, e);
            &&& m2.contains_key(or.order_id)
            &&& code_type(m2[or.order_id].code) == Some(k)
            &&& m2[or.order_id].price_level == or.price
            &&& m2[or.order_id].sym == or.sym
            &&& !m2.remove(or.order_id).contains_key(or.order_id)
        }),
{
}

/// The decimal form of `p`, with a `-` when it is negative.
pub open spec fn signed_decimal(p: int) -> Seq<char> {
    if p < 0 {
        seq!['-'] + decimal((-p) as nat)
    } else {
        decimal(p as nat)
    }
}

/// The line `<action><ticker>@<quantity>@<price>`.
pub open spec fn order_line_text(action: char, ticker: Seq<char>, quantity: usize, price: i64) -> Seq<char> {
    seq![action] + ticker + seq!['@'] + decimal(quantity as nat) + seq!['@'] + signed_decimal(price as int)
}

/// `format!("{}{}@{}@{}", action, ticker, quantity, price)`.
#[verifier::external_body]
fn format_order_line(action: char, ticker: &str, quantity: usize, price: i64) -> (r: String)
    ensures
        r@ == order_line_text(action, ticker@, quantity, price),
{
    format!("{}{}@{}@{}", action, ticker, quantity, price)
}

/// The action of a drawn order: `b`, `B`, `s` or `S` by index.
pub open spec fn drawn_action_spec(i: usize) -> char {
    seq!['b', 'B', 's', 'S'][i as int]
}

/// The ticker spelled by letter indices, 0 for `A` up to 25 for `Z`.
pub open spec fn drawn_ticker_spec(letters: Seq<usize>) -> Seq<char> {
    Seq::new(letters.len(), |i: int| ((65 + letters[i]) as u8) as char)
}

/// The price of a drawn order: the last published price (150 when there is none)
/// moved by `noise`, held within `i64`.
pub open spec fn drawn_price_spec(last: Option<i64>, noise: i64) -> i64 {
    let base: int = match last {
        Some(p) => p as int,
        None => 150,
    };
    let x = base + noise;
    if x > i64::MAX {
        i64::MAX
    } else if x < i64::MIN {
        i64::MIN
    } else {
        x as i64
    }
}

/// The action of a drawn order, by index.
pub fn drawn_action(i: usize) -> (r: char)
    requires
        i < 4,
    ensures
        r == drawn_action_spec(i),
{
    if i == 0 {
        'b'
    } else if i == 1 {
        'B'
    } else if i == 2 {
        's'
    } else {
        'S'
    }
}

/// The ticker spelled by letter indices.
pub fn drawn_ticker(letters: &Vec<usize>) -> (r: String)
    requires
        forall|i: int| 0 <= i < letters@.len() ==> #[trigger] letters@[i] < 26,
    ensures
        r@ == drawn_ticker_spec(letters@),
{
    let mut out: Vec<char> = Vec::new();
    let mut i: usize = 0;
    while i < letters.len()
        invariant
            i <= letters@.len(),
            forall|j: int| 0 <= j < letters@.len() ==> #[trigger] letters@[j] < 26,
            out@ == drawn_ticker_spec(letters@).take(i as int),
        decreases letters@.len() - i,
    {
        let b: u8 = 65u8 + (letters[i] as u8);
        let c = b as char;
        out.push(c);
        proof {
            assert(drawn_ticker_spec(letters@).take(i + 1) =~= drawn_ticker_spec(letters@).take(i as int).push(c));
        }
        i = i + 1;
    }
    proof {
        assert(drawn_ticker_spec(letters@).take(i as int) =~= drawn_ticker_spec(letters@));
    }
    string_of_chars(out.as_slice())
}

/// The price of a drawn order.
pub fn drawn_price(last: Option<i64>, noise: i64) -> (r: i64)
    ensures
        r == drawn_price_spec(last, noise),
{
    let base: i64 = match last {
        Some(p) => p,
        None => 150,
    };
    let x: i128 = (base as i128) + (noise as i128);
    if x > 0x7fff_ffff_ffff_ffffi128 {
        0x7fff_ffff_ffff_ffffi64
    } else if x < -0x8000_0000_0000_0000i128 {
        -0x8000_0000_0000_0000i64
    } else {
        x as i64
    }
}

/// The line a client types for a new order.
pub fn order_line(action: char, ticker: &str, quantity: usize, price: i64) -> (r: String)
    ensures
        r@ == order_line_text(action, ticker@, quantity, price),
{
    format_order_line(action, ticker, quantity, price)
}

pub(crate) proof fn lemma_decimal(n: nat)
    ensures
        decimal(n).len() > 0,
        all_digits(decimal(n)),
        digits_value(decimal(n)) == n,
    decreases n,
{
    if n >= 10 {
        lemma_decimal(n / 10);
        let d = decimal(n / 10);
        let c = ((48 + n % 10) as u8) as char;
        assert(decimal(n) == d.push(c));
        assert(d.push(c).drop_last() =~= d);
        assert(c as int == 48 + n % 10);
        assert(digits_value(d.push(c)) == digits_value(d) * 10 + (c as int - '0' as int));
        assert('0' <= c <= '9');
        assert(all_digits(d.push(c))) by {
            assert forall|i: int| 0 <= i < d.push(c).len() implies '0' <= #[trigger] d.push(c)[i] <= '9' by {
                if i < d.len() {
                    assert(d.push(c)[i] == d[i]);
                }
            }
        }
    } else {
        let c = ((48 + n) as u8) as char;
        assert(decimal(n) == seq![c]);
        assert(seq![c].drop_last() =~= Seq::<char>::empty());
        assert(c as int == 48 + n);
        assert(seq![c].last() == c);
        assert(digits_value(seq![c]) == digits_value(Seq::<char>::empty()) * 10 + (c as int - '0' as int));
    }
}

proof fn lemma_seg_end(s: Seq<char>, from: int, k: int)
    requires
        0 <= from <= k <= s.len(),
        forall|j: int| from <= j < k ==> s[j] != '@',
        k == s.len() || s[k] == '@',
    ensures
        seg_end(s, from) == k,
    decreases k - from,
{
    if from < k {
        lemma_seg_end(s, from + 1, k);
    }
}

proof fn lemma_signed_decimal(p: i64)
    ensures
        signed_decimal(p as int).len() > 0,
        '0' <= signed_decimal(p as int).last() <= '9',
        forall|j: int| 0 <= j < signed_decimal(p as int).len() ==> #[trigger] signed_decimal(p as int)[j] != '@',
        parse_signed(signed_decimal(p as int), i64::MIN as int, i64::MAX as int) == Some(p as int),
{
    let dp = signed_decimal(p as int);
    if p < 0 {
        let dabs = decimal((-p) as nat);
        lemma_decimal((-p) as nat);
        assert(dp.last() == dabs.last());
        assert(dp.drop_first() =~= dabs);
        assert('0' <= dabs[0] <= '9');
        assert forall|j: int| 0 <= j < dp.len() implies #[trigger] dp[j] != '@' by {
            if j > 0 {
                assert(dp[j] == dabs[j - 1]);
                assert('0' <= dabs[j - 1] <= '9');
            }
        }
    } else {
        let dabs = decimal(p as nat);
        lemma_decimal(p as nat);
        assert('0' <= dabs[0] <= '9');
        assert forall|j: int| 0 <= j < dp.len() implies #[trigger] dp[j] != '@' by {
            assert('0' <= dabs[j] <= '9');
        }
    }
}

proof fn lemma_unsigned_decimal(q: usize)
    ensures
        forall|j: int| 0 <= j < decimal(q as nat).len() ==> #[trigger] decimal(q as nat)[j] != '@',
        parse_unsigned(decimal(q as nat), usize::MAX as int) == Some(q as int),
{
    let dq = decimal(q as nat);
    lemma_decimal(q as nat);
    assert('0' <= dq[0] <= '9');
    assert forall|j: int| 0 <= j < dq.len() implies #[trigger] dq[j] != '@' by {
        assert('0' <= dq[j] <= '9');
    }
}

proof fn lemma_line_fields(ticker: Seq<char>, dq: Seq<char>, dp: Seq<char>)
    requires
        forall|i: int| 0 <= i < ticker.len() ==> ticker[i] != '@',
        forall|j: int| 0 <= j < dq.len() ==> #[trigger] dq[j] != '@',
        forall|j: int| 0 <= j < dp.len() ==> #[trigger] dp[j] != '@',
    ensures
        ({
            let rest = ticker + seq!['@'] + dq + seq!['@'] + dp;
            let e0 = seg_end(rest, 0);
            let e1 = seg_end(rest, e0 + 1);
            let e2 = seg_end(rest, e1 + 1);
            &&& e0 == ticker.len()
            &&& e1 == ticker.len() + 1 + dq.len()
            &&& e2 == rest.len()
            &&& rest.subrange(0, e0) == ticker
            &&& rest.subrange(e0 + 1, e1) == dq
            &&& rest.subrange(e1 + 1, e2) == dp
        }),
{
    let rest = ticker + seq!['@'] + dq + seq!['@'] + dp;
    let e0 = ticker.len() as int;
    let e1 = e0 + 1 + dq.len();
    let e2 = rest.len() as int;
    assert forall|j: int| 0 <= j < e0 implies rest[j] != '@' by {
        assert(rest[j] == ticker[j]);
    }
    assert(rest[e0] == '@');
    lemma_seg_end(rest, 0, e0);
    assert forall|j: int| e0 + 1 <= j < e1 implies rest[j] != '@' by {
        assert(rest[j] == dq[j - e0 - 1]);
    }
    assert(rest[e1] == '@');
    lemma_seg_end(rest, e0 + 1, e1);
    assert forall|j: int| e1 + 1 <= j < e2 implies rest[j] != '@' by {
        assert(rest[j] == dp[j - e1 - 1]);
    }
    lemma_seg_end(rest, e1 + 1, e2);
    assert(rest.subrange(0, e0) =~= ticker);
    assert(rest.subrange(e0 + 1, e1) =~= dq);
    assert(rest.subrange(e1 + 1, e2) =~= dp);
}

/// A line for a new order, as `order_line` writes it, is read back by `parse_order`
/// as that order, when the action is a one-byte character other than `X` and not
/// whitespace, and the ticker holds no `@`.
pub proof fn law_parse_order_line(action: char, ticker: Seq<char>, q: usize, p: i64)
    requires
        action != 'X',
        (action as u32) < 0x80,
        !is_unicode_whitespace(action),
        forall|i: int| 0 <= i < ticker.len() ==> ticker[i] != '@',
    ensures
        trim_seq(order_line_text(action, ticker, q, p)) == order_line_text(action, ticker, q, p),
        parse_order_accepts(order_line_text(action, ticker, q, p)),
        parse_new_order(order_line_text(action, ticker, q, p)) == Some((ticker, q, p, side_kind(action))),
{
    let line = order_line_text(action, ticker, q, p);
    let dq = decimal(q as nat);
    let dp = signed_decimal(p as int);
    lemma_unsigned_decimal(q);
    lemma_signed_decimal(p);
    assert(line.last() == dp.last());
    assert(line[0] == action);
    assert(trim_start_seq(line) == line);
    assert(trim_end_seq(line) == line);
    assert(line.drop_first() =~= ticker + seq!['@'] + dq + seq!['@'] + dp);
    lemma_line_fields(ticker, dq, dp);
}

} // verus!
