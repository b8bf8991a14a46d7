use vstd::prelude::*;

use crate::book::{binary_insert_by_key, inserted_by_price, units_cost, unit_notice};
use crate::order::{Order, OrderType, Symbol};
use crate::security::{random_uuid, trunc_div, trunc_div_i128};

verus! {

/// Walks the asks for a buy of `req` units with `c` units already counted: each
/// order is counted whole until counting one would reach `req`; from that order
/// the amount by which the count would pass `req` is taken, and the walk stops.
/// Returns how many orders were reached, what was taken from each, the final
/// count, and whether the walk stopped at such an order.
pub open spec fn ask_walk(s: Seq<Order>, req: nat, c: nat) -> (nat, Seq<(Order, nat)>, nat, bool)
    decreases s.len(),
{
    if s.len() == 0 {
        (0, seq![], c, false)
    } else if s[0].quantity + c >= req {
        let diff = (s[0].quantity + c - req) as nat;
        (1, seq![(s[0], diff)], c + diff, true)
    } else {
        let r = ask_walk(s.drop_first(), req, (c + s[0].quantity) as nat);
        (r.0 + 1, seq![(s[0], s[0].quantity as nat)] + r.1, r.2, r.3)
    }
}

/// No running count of the walk passes `usize::MAX`.
pub open spec fn walk_fits(s: Seq<Order>, req: nat, c: nat) -> bool
    decreases s.len(),
{
    s.len() == 0 || (s[0].quantity + c <= usize::MAX && (s[0].quantity + c >= req || walk_fits(
        s.drop_first(),
        req,
        (c + s[0].quantity) as nat,
    )))
}

/// The asks after the walk: the order it stopped at gives up what was taken from it.
pub open spec fn walk_after(s: Seq<Order>, n: nat, fills: Seq<(Order, nat)>, stopped: bool) -> Seq<Order> {
    if stopped {
        s.update(n - 1, Order { quantity: (s[n - 1].quantity - fills.last().1) as usize, ..s[n - 1] })
    } else {
        s
    }
}

/// The state of the book as the contracts see it.
pub struct MatcherView {
    pub id: usize,
    pub quantity: usize,
    pub bid: Seq<Order>,
    pub ask: Seq<Order>,
    pub notices: Seq<Vec<Order>>,
}

/// A sell-side order book: resting sells kept in order of price, and the quantity on offer.
#[derive(Debug)]
pub struct Book {
    id: usize,
    _q: usize,
    bid: Vec<Order>,
    ask: Vec<Order>,
    notices: Vec<Vec<Order>>,
}

impl View for Book {
    type V = MatcherView;

    closed spec fn view(&self) -> MatcherView {
        MatcherView { id: self.id, quantity: self._q, bid: self.bid@, ask: self.ask@, notices: self.notices@ }
    }
}

/// What `buy_nowait` does. A buy of no less than what is on offer is refused.
/// Otherwise the asks are walked; the order the walk stopped at gives up what
/// was taken from it, even when the buy then fails; the buy fails when the final
/// count is below `req`. On success only the orders reached stay on the asks,
/// `req` comes off what is on offer, a batch of notices is queued, and the result
/// is the count with its average price.
pub open spec fn market_buy_post(old: MatcherView, new: MatcherView, req: nat, r: Option<Order>) -> bool {
    if req >= old.quantity {
        new == old && r is None
    } else {
        let (n, fills, c, stopped) = ask_walk(old.ask, req, 0);
        let after = walk_after(old.ask, n, fills, stopped);
        &&& new.id == old.id
        &&& new.bid == old.bid
        &&& if c < req {
            &&& new.ask == after
            &&& new.quantity == old.quantity
            &&& new.notices == old.notices
            &&& r is None
        } else {
            &&& new.ask == after.take(n as int)
            &&& new.quantity == old.quantity - req
            &&& new.notices == old.notices.push(new.notices.last())
            &&& new.notices.last()@ == fills.map_values(|f: (Order, nat)| unit_notice(f))
            &&& r matches Some(o) && o.client_id is Some && o.sym.0@ == Seq::<char>::empty() && o.quantity == c
                && o.kind == Some(OrderType::MarketBuy) && o.order_id == 0 && !o.cancelled && o.price == (if c == 0 {
                0
            } else {
                trunc_div(units_cost(fills), c as int)
            })
        }
    }
}

proof fn lemma_ask_walk(s: Seq<Order>, req: nat, c: nat)
    requires
        c <= req,
    ensures
        ask_walk(s, req, c).0 <= s.len(),
        ask_walk(s, req, c).1.len() == ask_walk(s, req, c).0,
        ask_walk(s, req, c).3 ==> ask_walk(s, req, c).0 > 0,
        ask_walk(s, req, c).3 ==> ask_walk(s, req, c).1.last().1 <= s[ask_walk(s, req, c).0 - 1].quantity,
        ask_walk(s, req, c).3 ==> ask_walk(s, req, c).1.last().0 == s[ask_walk(s, req, c).0 - 1],
    decreases s.len(),
{
    if s.len() == 0 {
    } else if s[0].quantity + c >= req {
    } else {
        let t = s.drop_first();
        lemma_ask_walk(t, req, (c + s[0].quantity) as nat);
        let r = ask_walk(t, req, (c + s[0].quantity) as nat);
        if r.3 {
            assert((seq![(s[0], s[0].quantity as nat)] + r.1).last() == r.1.last());
            assert(s[r.0 as int] == t[r.0 - 1]);
        }
    }
}

impl Book {
    /// An empty book with `quantity` on offer.
    pub fn new(id: usize, quantity: usize) -> (r: Self)
        ensures
            r@ == (MatcherView { id, quantity, bid: Seq::empty(), ask: Seq::empty(), notices: Seq::empty() }),
    {
        let r = Self { id, _q: quantity, bid: Vec::new(), ask: Vec::new(), notices: Vec::new() };
        assert(r@.notices =~= Seq::<Vec<Order>>::empty());
        r
    }

    /// Puts a sell order on the asks by price, adding its quantity to what is on offer.
    pub fn sell_wait(&mut self, order: Order)
        requires
            old(self)@.quantity + order.quantity <= usize::MAX,
        ensures
            final(self)@.quantity == old(self)@.quantity + order.quantity,
            final(self)@.id == old(self)@.id,
            final(self)@.bid == old(self)@.bid,
            final(self)@.notices == old(self)@.notices,
            inserted_by_price(old(self)@.ask, final(self)@.ask, order, false),
    {
        let q = order.quantity;
        binary_insert_by_key(&mut self.ask, order, false);
        self._q = self._q + q;
    }

    /// Hands out the queued trade notices, oldest batch first.
    pub fn take_notices(&mut self) -> (r: Vec<Vec<Order>>)
        ensures
            r@ == old(self)@.notices,
            final(self)@ == (MatcherView { notices: Seq::empty(), ..old(self)@ }),
    {
        let mut out: Vec<Vec<Order>> = Vec::new();
        std::mem::swap(&mut out, &mut self.notices);
        out
    }

    /// A market buy of `req_sz` units against the asks.
    pub fn buy_nowait(&mut self, req_sz: usize) -> (r: Option<Order>)
        requires
            req_sz < old(self)@.quantity ==> walk_fits(old(self)@.ask, req_sz as nat, 0),
        ensures
            market_buy_post(old(self)@, final(self)@, req_sz as nat, r),
    {
        if req_sz >= self._q {
            return None;
        }
        let ghost s0 = self.ask@;
        let ghost mut so_far: Seq<(Order, nat)> = seq![];
        let mut notices: Vec<Order> = Vec::new();
        let mut c: usize = 0;
        let mut x: i128 = 0;
        let mut i: usize = 0;
        let mut stopped = false;
        proof {
            lemma_ask_walk(s0, req_sz as nat, 0);
            assert(s0.skip(0) =~= s0);
            assert(so_far + ask_walk(s0, req_sz as nat, 0).1 =~= ask_walk(s0, req_sz as nat, 0).1);
        }
        while i < self.ask.len() && !stopped
            invariant
                self.ask@.len() == s0.len(),
                self.bid@ == old(self).bid@,
                self._q == old(self)._q,
                self.id == old(self).id,
                self.notices@ == old(self).notices@,
                req_sz < self._q,
                i <= s0.len(),
                !stopped ==> self.ask@ == s0,
                !stopped ==> walk_fits(s0.skip(i as int), req_sz as nat, c as nat),
                !stopped ==> c < req_sz || i == 0,
                ({
                    let whole = ask_walk(s0, req_sz as nat, 0);
                    &&& !stopped ==> {
                        let part = ask_walk(s0.skip(i as int), req_sz as nat, c as nat);
                        &&& whole.0 == i + part.0
                        &&& whole.1 == so_far + part.1
                        &&& whole.2 == part.2
                        &&& whole.3 == part.3
                    }
                    &&& stopped ==> {
                        &&& whole.0 == i
                        &&& whole.1 == so_far
                        &&& whole.2 == c
                        &&& whole.3
                        &&& self.ask@ == walk_after(s0, whole.0, whole.1, whole.3)
                    }
                }),
                so_far.len() == i,
                notices@ == so_far.map_values(|f: (Order, nat)| unit_notice(f)),
                x == units_cost(so_far),
                -(c as int) * 0x8000_0000_0000_0000 <= x <= (c as int) * 0x7fff_ffff_ffff_ffff,
            decreases s0.len() - i,
        {
            let ghost suffix = s0.skip(i as int);
            assert(suffix[0] == s0[i as int]);
            assert(suffix.drop_first() =~= s0.skip(i + 1));
            let q = self.ask[i].quantity;
            let price = self.ask[i].price;
            let take: usize;
            if q >= req_sz - c {
                take = q - (req_sz - c);
            } else {
                take = q;
            }
            let ghost e = (s0[i as int], take as nat);
            let n = Order {
                client_id: self.ask[i].client_id,
                sym: self.ask[i].sym.clone(),
                quantity: take,
                price,
                kind: None,
                order_id: 0,
                cancelled: false,
            };
            notices.push(n);
            proof {
                assert(n == unit_notice(e));
                assert(so_far.push(e).map_values(|f: (Order, nat)| unit_notice(f)) =~= so_far.map_values(
                    |f: (Order, nat)| unit_notice(f),
                ).push(n));
                assert(so_far.push(e).drop_last() =~= so_far);
                assert(take as int * price as int <= take as int * 0x7fff_ffff_ffff_ffff) by (nonlinear_arith)
                    requires
                        price <= 0x7fff_ffff_ffff_ffff,
                        take >= 0,
                ;
                assert(take as int * price as int >= -(take as int) * 0x8000_0000_0000_0000) by (nonlinear_arith)
                    requires
                        price >= -0x8000_0000_0000_0000,
                        take >= 0,
                ;
                assert(q + c <= usize::MAX);
                assert((c + take) * 0x8000_0000_0000_0000 < 0x7fff_ffff_ffff_ffff_ffff_ffff_ffff_ffff) by (nonlinear_arith)
                    requires
                        c + take <= usize::MAX,
                ;
            }
            x = x + (take as i128) * (price as i128);
            if q >= req_sz - c {
                let mut cur = self.ask[i].clone();
                cur.quantity = q - take;
                self.ask.set(i, cur);
                proof {
                    let whole = ask_walk(s0, req_sz as nat, 0);
                    assert(ask_walk(suffix, req_sz as nat, c as nat) == (1nat, seq![e], (c + take) as nat, true));
                    assert(so_far + seq![e] =~= so_far.push(e));
                    so_far = so_far.push(e);
                    assert(whole.1.last() == e);
                    assert(whole.0 == i + 1);
                    assert(self.ask@ =~= walk_after(s0, whole.0, whole.1, whole.3));
                }
                c = c + take;
                stopped = true;
            } else {
                proof {
                    let tail = ask_walk(s0.skip(i + 1), req_sz as nat, (c + q) as nat);
                    assert(ask_walk(suffix, req_sz as nat, c as nat) == ((tail.0 + 1) as nat, seq![e] + tail.1, tail.2, tail.3));
                    assert(so_far + (seq![e] + tail.1) =~= so_far.push(e) + tail.1);
                    so_far = so_far.push(e);
                }
                c = c + take;
            }
            i = i + 1;
        }
        proof {
            if !stopped {
                let part = ask_walk(s0.skip(i as int), req_sz as nat, c as nat);
                assert(part.1 =~= Seq::<(Order, nat)>::empty());
                assert(so_far + part.1 =~= so_far);
            }
        }
        if c < req_sz {
            return None;
        }
        self.ask.truncate(i);
        self._q = self._q - req_sz;
        self.notices.push(notices);
        let price = if c == 0 {
            0
        } else {
            trunc_div_i128(x, c as i128)
        };
        Some(Order {
            client_id: Some(random_uuid()),
            sym: Symbol(String::new()),
            quantity: c,
            price,
            kind: Some(OrderType::MarketBuy),
            order_id: 0,
            cancelled: false,
        })
    }
}

} // verus!
