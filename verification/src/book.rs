use vstd::prelude::*;

use crate::order::{Order, OrderType, Symbol};
use crate::security::{random_uuid, trunc_div, trunc_div_i128};

verus! {

/// An order with price `p` goes before one with price `q`: ascending by price,
/// or descending when `reverse`.
pub open spec fn price_before(p: i64, q: i64, reverse: bool) -> bool {
    if reverse {
        p > q
    } else {
        p < q
    }
}

pub open spec fn sorted_by_price(s: Seq<Order>, reverse: bool) -> bool {
    forall|i: int, j: int| 0 <= i < j < s.len() ==> !price_before(#[trigger] s[j].price, #[trigger] s[i].price, reverse)
}

/// `new` is `old` with `item` inserted; when `old` is sorted by price, behind the
/// orders that go before `item` and ahead of the others.
pub open spec fn inserted_by_price(old: Seq<Order>, new: Seq<Order>, item: Order, reverse: bool) -> bool {
    exists|pos: int|
        0 <= pos <= old.len() && new == old.insert(pos, item) && (sorted_by_price(old, reverse) ==> (forall|j: int|
            0 <= j < pos ==> price_before(#[trigger] old[j].price, item.price, reverse)) && (forall|j: int|
            pos <= j < old.len() ==> !price_before(#[trigger] old[j].price, item.price, reverse)))
}

/// Inserts `item` into `v` at the place a binary search by price finds: behind the
/// orders that go before it and ahead of the others, when `v` is sorted by price.
pub fn binary_insert_by_key(v: &mut Vec<Order>, item: Order, reverse: bool)
    ensures
        inserted_by_price(old(v)@, final(v)@, item, reverse),
{
    let mut lo: usize = 0;
    let mut hi: usize = v.len();
    while lo < hi
        invariant
            lo <= hi <= v@.len(),
            v@ == old(v)@,
            sorted_by_price(v@, reverse) ==> forall|j: int|
                0 <= j < lo ==> price_before(#[trigger] v@[j].price, item.price, reverse),
            sorted_by_price(v@, reverse) ==> forall|j: int|
                hi <= j < v@.len() ==> !price_before(#[trigger] v@[j].price, item.price, reverse),
        decreases hi - lo,
    {
        let mid = lo + (hi - lo) / 2;
        let p = v[mid].price;
        let goes_before = if reverse { p > item.price } else { p < item.price };
        if goes_before {
            lo = mid + 1;
        } else {
            hi = mid;
        }
    }
    v.insert(lo, item);
}

/// Takes up to `want` units from the front of `s`, each order fully except perhaps
/// the last: how many orders were reached, what was taken from each, and in all.
pub open spec fn take_units(s: Seq<Order>, want: nat) -> (nat, Seq<(Order, nat)>, nat)
    decreases s.len(),
{
    if want == 0 || s.len() == 0 {
        (0, seq![], 0)
    } else if s[0].quantity >= want {
        (1, seq![(s[0], want)], want)
    } else {
        let r = take_units(s.drop_first(), (want - s[0].quantity) as nat);
        (r.0 + 1, seq![(s[0], s[0].quantity as nat)] + r.1, (s[0].quantity + r.2) as nat)
    }
}

/// What the trades in `fills` cost in all.
pub open spec fn units_cost(fills: Seq<(Order, nat)>) -> int
    decreases fills.len(),
{
    if fills.len() == 0 {
        0
    } else {
        units_cost(fills.drop_last()) + fills.last().1 * fills.last().0.price
    }
}

/// The notice to the owner of a resting order about one trade.
pub open spec fn unit_notice(f: (Order, nat)) -> Order {
    Order { quantity: f.1 as usize, kind: None, order_id: 0, cancelled: false, ..f.0 }
}

/// The state of a book as the contracts see it.
pub struct BookView {
    pub id: usize,
    pub quantity: usize,
    pub bid: Seq<Order>,
    pub ask: Seq<Order>,
    pub notices: Seq<Vec<Order>>,
}

/// A simple order book of one instrument: two queues of resting orders and the
/// quantity on offer.
#[derive(Debug)]
pub struct Book {
    id: usize,
    _q: usize,
    bid: Vec<Order>,
    ask: Vec<Order>,
    notices: Vec<Vec<Order>>,
}

impl View for Book {
    type V = BookView;

    closed spec fn view(&self) -> BookView {
        BookView { id: self.id, quantity: self._q, bid: self.bid@, ask: self.ask@, notices: self.notices@ }
    }
}

/// The queue a market order of `kind` trades against: asks for a buy, bids for a sell.
pub open spec fn book_side(v: BookView, kind: OrderType) -> Seq<Order> {
    if kind == OrderType::MarketBuy {
        v.ask
    } else {
        v.bid
    }
}

/// A market order for `req` units trades: there is more than `req` on offer and
/// the queue it trades against holds at least `req`.
pub open spec fn consume_succeeds(v: BookView, kind: OrderType, req: nat) -> bool {
    req < v.quantity && take_units(book_side(v, kind), req).2 == req
}

/// What `consume_nowait` does: on success the orders reached are removed from the
/// front of the queue (the last one too, even when only part of it was taken),
/// the quantity on offer goes down by `req` for a buy and up for a sell, a batch
/// of notices is queued, and the result is the trade with its average price.
pub open spec fn consume_post(old: BookView, new: BookView, kind: OrderType, req: nat, r: Option<Order>) -> bool {
    if !consume_succeeds(old, kind, req) {
        new == old && r is None
    } else {
        let (n, fills, got) = take_units(book_side(old, kind), req);
        &&& new.id == old.id
        &&& new.quantity == (if kind == OrderType::MarketBuy { old.quantity - req } else { old.quantity + req })
        &&& (if kind == OrderType::MarketBuy {
            new.ask == old.ask.skip(n as int) && new.bid == old.bid
        } else {
            new.bid == old.bid.skip(n as int) && new.ask == old.ask
        })
        &&& new.notices == old.notices.push(new.notices.last())
        &&& new.notices.last()@ == fills.map_values(|f: (Order, nat)| unit_notice(f))
        &&& r matches Some(o) && o.client_id is Some && o.sym.0@ == Seq::<char>::empty() && o.quantity == req
            && o.kind == Some(kind) && o.order_id == 0 && !o.cancelled && o.price == (if req == 0 {
            0
        } else {
            trunc_div(units_cost(fills), req as int)
        })
    }
}

proof fn lemma_take_units(s: Seq<Order>, want: nat)
    ensures
        take_units(s, want).0 <= s.len(),
        take_units(s, want).2 <= want,
        take_units(s, want).1.len() == take_units(s, want).0,
    decreases s.len(),
{
    if want == 0 || s.len() == 0 {
    } else if s[0].quantity >= want {
    } else {
        lemma_take_units(s.drop_first(), (want - s[0].quantity) as nat);
    }
}

proof fn lemma_units_cost_prepend(a: Seq<(Order, nat)>, b: Seq<(Order, nat)>)
    ensures
        units_cost(a + b) == units_cost(a) + units_cost(b),
    decreases b.len(),
{
    if b.len() == 0 {
        assert(a + b =~= a);
    } else {
        assert((a + b).drop_last() =~= a + b.drop_last());
        lemma_units_cost_prepend(a, b.drop_last());
    }
}

/// Walks the front of `side` for `want` units without changing it.
fn scan_units(side: &Vec<Order>, want: usize) -> (r: (usize, Vec<Order>, usize, i128))
    ensures
        ({
            let (n, fills, got) = take_units(side@, want as nat);
            &&& r.0 == n
            &&& r.1@ == fills.map_values(|f: (Order, nat)| unit_notice(f))
            &&& r.2 == got
            &&& r.3 == units_cost(fills)
            &&& -(got as int) * 0x8000_0000_0000_0000 <= r.3 <= (got as int) * 0x7fff_ffff_ffff_ffff
        }),
{
    let ghost mut so_far: Seq<(Order, nat)> = seq![];
    let mut notices: Vec<Order> = Vec::new();
    let mut c: usize = 0;
    let mut x: i128 = 0;
    let mut i: usize = 0;
    proof {
        assert(side@.skip(0) =~= side@);
        assert(so_far + take_units(side@, want as nat).1 =~= take_units(side@, want as nat).1);
    }
    while i < side.len() && c < want
        invariant
            i <= side@.len(),
            c <= want,
            ({
                let whole = take_units(side@, want as nat);
                let part = take_units(side@.skip(i as int), (want - c) as nat);
                &&& whole.0 == i + part.0
                &&& whole.1 == so_far + part.1
                &&& whole.2 == c + part.2
            }),
            so_far.len() == i,
            notices@ == so_far.map_values(|f: (Order, nat)| unit_notice(f)),
            x == units_cost(so_far),
            -(c as int) * 0x8000_0000_0000_0000 <= x <= (c as int) * 0x7fff_ffff_ffff_ffff,
        decreases side@.len() - i,
    {
        let ghost suffix = side@.skip(i as int);
        assert(suffix[0] == side@[i as int]);
        assert(suffix.drop_first() =~= side@.skip(i + 1));
        let q = side[i].quantity;
        let price = side[i].price;
        let t: usize = if q >= want - c { want - c } else { q };
        let ghost e = (side@[i as int], t as nat);
        let n = Order {
            client_id: side[i].client_id,
            sym: side[i].sym.clone(),
            quantity: t,
            price,
            kind: None,
            order_id: 0,
            cancelled: false,
        };
        notices.push(n);
        proof {
            assert(n == unit_notice(e));
            assert(so_far.push(e).map_values(|f: (Order, nat)| unit_notice(f)) =~= so_far.map_values(
                |f: (Order, nat)| unit_notice(f),
            ).push(n));
            assert(so_far.push(e).drop_last() =~= so_far);
            assert(t as int * price as int <= t as int * 0x7fff_ffff_ffff_ffff) by (nonlinear_arith)
                requires
                    price <= 0x7fff_ffff_ffff_ffff,
                    t >= 0,
            ;
            assert(t as int * price as int >= -(t as int) * 0x8000_0000_0000_0000) by (nonlinear_arith)
                requires
                    price >= -0x8000_0000_0000_0000,
                    t >= 0,
            ;
            assert((c + t) * 0x8000_0000_0000_0000 < 0x7fff_ffff_ffff_ffff_ffff_ffff_ffff_ffff) by (nonlinear_arith)
                requires
                    c + t <= usize::MAX,
            ;
            let part = take_units(suffix, (want - c) as nat);
            if q >= want - c {
                assert(part == (1nat, seq![e], (want - c) as nat));
                assert(take_units(side@.skip(i + 1), 0).1 =~= Seq::<(Order, nat)>::empty());
                assert(so_far + seq![e] =~= so_far.push(e) + take_units(side@.skip(i + 1), 0).1);
            } else {
                let tail = take_units(side@.skip(i + 1), (want - c - t) as nat);
                assert(part == ((tail.0 + 1) as nat, seq![e] + tail.1, (t + tail.2) as nat));
                assert(so_far + (seq![e] + tail.1) =~= so_far.push(e) + tail.1);
            }
            so_far = so_far.push(e);
        }
        x = x + (t as i128) * (price as i128);
        c = c + t;
        i = i + 1;
    }
    proof {
        let part = take_units(side@.skip(i as int), (want - c) as nat);
        assert(part.1 =~= Seq::<(Order, nat)>::empty());
        assert(so_far + part.1 =~= so_far);
    }
    (i, notices, c, x)
}

impl Book {
    /// An empty book with `quantity` on offer.
    pub fn new(id: usize, quantity: usize) -> (r: Self)
        ensures
            r@ == (BookView {
                id,
                quantity,
                bid: Seq::empty(),
                ask: Seq::empty(),
                notices: Seq::empty(),
            }),
    {
        let r = Self { id, _q: quantity, bid: Vec::new(), ask: Vec::new(), notices: Vec::new() };
        assert(r@.notices =~= Seq::<Vec<Order>>::empty());
        r
    }

    /// A market buy of `req_sz` units against the asks.
    pub fn buy_nowait(&mut self, req_sz: usize) -> (r: Option<Order>)
        ensures
            consume_post(old(self)@, final(self)@, OrderType::MarketBuy, req_sz as nat, r),
    {
        self.consume_nowait(OrderType::MarketBuy, req_sz)
    }

    /// A market sell of `req_sz` units against the bids.
    pub fn sell_nowait(&mut self, req_sz: usize) -> (r: Option<Order>)
        requires
            consume_succeeds(old(self)@, OrderType::MarketSell, req_sz as nat) ==> old(self)@.quantity + req_sz
                <= usize::MAX,
        ensures
            consume_post(old(self)@, final(self)@, OrderType::MarketSell, req_sz as nat, r),
    {
        self.consume_nowait(OrderType::MarketSell, req_sz)
    }

    /// Puts a sell order on the asks by price, adding its quantity to what is on offer.
    pub fn sell_wait(&mut self, order: Order)
        requires
            old(self)@.quantity + order.quantity <= usize::MAX,
        ensures
            final(self)@.quantity == old(self)@.quantity + order.quantity,
            final(self)@.id == old(self)@.id,
            final(self)@.bid == old(self)@.bid,
            final(self)@.notices == old(self)@.notices,
            inserted_by_price(old(self)@.ask, final(self)@.ask, order, false),
    {
        let q = order.quantity;
        binary_insert_by_key(&mut self.ask, order, false);
        self._q = self._q + q;
    }

    /// Puts a buy order on the bids by descending price; the quantity on offer does
    /// not change.
    pub fn buy_wait(&mut self, order: Order)
        ensures
            final(self)@.quantity == old(self)@.quantity,
            final(self)@.id == old(self)@.id,
            final(self)@.ask == old(self)@.ask,
            final(self)@.notices == old(self)@.notices,
            inserted_by_price(old(self)@.bid, final(self)@.bid, order, true),
    {
        binary_insert_by_key(&mut self.bid, order, true);
    }

    /// The prices at the front of the bids and of the asks, when both hold orders.
    pub fn spread(self) -> (r: Option<(i64, i64)>)
        ensures
            r == (if self@.ask.len() == 0 || self@.bid.len() == 0 {
                None
            } else {
                Some((self@.bid[0].price, self@.ask[0].price))
            }),
    {
        if self.ask.len() == 0 || self.bid.len() == 0 {
            return None;
        }
        Some((self.bid[0].price, self.ask[0].price))
    }

    /// Hands out the queued trade notices, oldest batch first.
    pub fn take_notices(&mut self) -> (r: Vec<Vec<Order>>)
        ensures
            r@ == old(self)@.notices,
            final(self)@ == (BookView { notices: Seq::empty(), ..old(self)@ }),
    {
        let mut out: Vec<Vec<Order>> = Vec::new();
        std::mem::swap(&mut out, &mut self.notices);
        out
    }

    fn consume_nowait(&mut self, kind: OrderType, req_sz: usize) -> (r: Option<Order>)
        requires
            kind == OrderType::MarketBuy || kind == OrderType::MarketSell,
            kind == OrderType::MarketSell && consume_succeeds(old(self)@, kind, req_sz as nat) ==> old(self)@.quantity
                + req_sz <= usize::MAX,
        ensures
            consume_post(old(self)@, final(self)@, kind, req_sz as nat, r),
    {
        if req_sz >= self._q {
            return None;
        }
        let is_buy = kind == OrderType::MarketBuy;
        let (n, fills, c, x) = if is_buy {
            scan_units(&self.ask, req_sz)
        } else {
            scan_units(&self.bid, req_sz)
        };
        if c < req_sz {
            return None;
        }
        proof {
            lemma_take_units(if is_buy { self.ask@ } else { self.bid@ }, req_sz as nat);
        }
        if is_buy {
            let tail = self.ask.split_off(n);
            self.ask = tail;
            self._q = self._q - req_sz;
        } else {
            let tail = self.bid.split_off(n);
            self.bid = tail;
            self._q = self._q + req_sz;
        }
        let ghost old_notices = self.notices@;
        self.notices.push(fills);
        let price = if c == 0 {
            0
        } else {
            trunc_div_i128(x, c as i128)
        };
        Some(Order {
            client_id: Some(random_uuid()),
            sym: Symbol(String::new()),
            quantity: c,
            price,
            kind: Some(kind),
            order_id: 0,
            cancelled: false,
        })
    }
}

} // verus!
