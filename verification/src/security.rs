use vstd::prelude::*;

use crate::order::{clock_since_epoch, signed_nanos, stamp_of, ClientId, Order, OrderType, Symbol, TimedOrder, Timestamp};
use crate::utils::binary_insert_by_cmp;
use core::cmp::Ordering;

verus! {

/// Buy orders (market or limit) trade against the ask side.
pub open spec fn is_buy_kind(k: OrderType) -> bool {
    k == OrderType::MarketBuy || k == OrderType::LimitBuy
}

pub open spec fn is_limit_kind(k: OrderType) -> bool {
    k == OrderType::LimitBuy || k == OrderType::LimitSell
}

/// On the ask side (`is_ask`) a price `p` comes no later than `q` when it is not
/// higher; on the bid side, when it is not lower.
pub open spec fn at_or_ahead(is_ask: bool, p: i64, q: i64) -> bool {
    if is_ask {
        p <= q
    } else {
        p >= q
    }
}

/// A side of the book in priority order: best price first, and orders at one
/// price in the order they arrived.
pub open spec fn side_ordered(s: Seq<TimedOrder>, is_ask: bool) -> bool {
    forall|i: int, j: int|
        0 <= i < j < s.len() ==> at_or_ahead(is_ask, #[trigger] s[i].order.price, #[trigger] s[j].order.price)
}

/// Every resting order still has something to trade.
pub open spec fn all_positive(s: Seq<TimedOrder>) -> bool {
    forall|i: int| 0 <= i < s.len() ==> #[trigger] s[i].order.quantity > 0
}

/// The total quantity resting on a side.
pub open spec fn qty_total(s: Seq<TimedOrder>) -> nat
    decreases s.len(),
{
    if s.len() == 0 {
        0
    } else {
        s[0].order.quantity as nat + qty_total(s.drop_first())
    }
}

/// A resting order at `level` can trade with an incoming order: always for a
/// market order, and for a limit order when the level is at or better than its limit.
pub open spec fn crosses(is_buy: bool, is_limit: bool, limit: i64, level: i64) -> bool {
    !is_limit || at_or_ahead(is_buy, level, limit)
}

/// `t` with its order's quantity replaced.
pub open spec fn with_quantity(t: TimedOrder, q: usize) -> TimedOrder {
    TimedOrder { order: Order { quantity: q, ..t.order }, ..t }
}

/// Takes up to `want` units from the front of `side`, as far as the resting orders
/// cross. Returns the side that is left and the trades made, each as the resting
/// order traded against and the quantity taken from it.
pub open spec fn sweep(
    side: Seq<TimedOrder>,
    want: nat,
    is_buy: bool,
    is_limit: bool,
    limit: i64,
) -> (Seq<TimedOrder>, Seq<(Order, nat)>)
    decreases side.len(),
{
    if want == 0 || side.len() == 0 || !crosses(is_buy, is_limit, limit, side[0].order.price) {
        (side, seq![])
    } else if side[0].order.quantity <= want {
        let r = sweep(side.drop_first(), (want - side[0].order.quantity) as nat, is_buy, is_limit, limit);
        (r.0, seq![(side[0].order, side[0].order.quantity as nat)] + r.1)
    } else {
        (
            side.update(0, with_quantity(side[0], (side[0].order.quantity - want) as usize)),
            seq![(side[0].order, want)],
        )
    }
}

/// The quantity traded in `fills`.
pub open spec fn filled(fills: Seq<(Order, nat)>) -> nat
    decreases fills.len(),
{
    if fills.len() == 0 {
        0
    } else {
        filled(fills.drop_last()) + fills.last().1
    }
}

/// What `fills` cost, in cents.
pub open spec fn cost(fills: Seq<(Order, nat)>) -> int
    decreases fills.len(),
{
    if fills.len() == 0 {
        0
    } else {
        cost(fills.drop_last()) + fills.last().1 * fills.last().0.price
    }
}

/// The notice sent to the owner of a resting order about one trade.
pub open spec fn fill_notice(f: (Order, nat), sym: Symbol, kind: OrderType) -> Order {
    Order {
        client_id: f.0.client_id,
        sym,
        quantity: f.1 as usize,
        price: f.0.price,
        kind: Some(kind),
        order_id: f.0.order_id,
        cancelled: false,
    }
}

pub open spec fn fill_notices(fills: Seq<(Order, nat)>, sym: Symbol, kind: OrderType) -> Seq<Order> {
    fills.map_values(|f: (Order, nat)| fill_notice(f, sym, kind))
}

/// Integer division rounding toward zero, as Rust's `/` does.
pub open spec fn trunc_div(a: int, b: int) -> int {
    if a >= 0 {
        a / b
    } else {
        -((-a) / b)
    }
}

/// `new` is `old` with `item` put behind every order at its price or better, and
/// ahead of every order at a worse price.
pub open spec fn placed(old: Seq<TimedOrder>, new: Seq<TimedOrder>, item: TimedOrder, is_ask: bool) -> bool {
    exists|pos: int|
        0 <= pos <= old.len() && new == old.insert(pos, item) && (forall|j: int|
            0 <= j < pos ==> at_or_ahead(is_ask, #[trigger] old[j].order.price, item.order.price))
            && (forall|j: int|
            pos <= j < old.len() ==> !at_or_ahead(is_ask, #[trigger] old[j].order.price, item.order.price))
}

/// The state of one security's book as the contracts see it.
pub struct SecurityView {
    pub id: u128,
    pub sym: Symbol,
    /// Bids, highest price first.
    pub bid: Seq<TimedOrder>,
    /// Asks, lowest price first.
    pub ask: Seq<TimedOrder>,
    /// Batches of trade notices not yet handed out.
    pub notices: Seq<Vec<Order>>,
}

/// The order book of one security. Each side is kept in priority order; the
/// resting quantity of each side is kept beside it.
#[derive(Debug)]
pub struct Security {
    _id: u128,
    bid: Vec<TimedOrder>,
    ask: Vec<TimedOrder>,
    bid_q: usize,
    ask_q: usize,
    notices: Vec<Vec<Order>>,
    sym: Symbol,
}

impl View for Security {
    type V = SecurityView;

    closed spec fn view(&self) -> SecurityView {
        SecurityView {
            id: self._id,
            sym: self.sym,
            bid: self.bid@,
            ask: self.ask@,
            notices: self.notices@,
        }
    }
}

/// What `match_order` leaves behind: see `Security::match_order`.
pub open spec fn match_post(
    old: SecurityView,
    new: SecurityView,
    kind: OrderType,
    to: TimedOrder,
    r: Option<Order>,
) -> bool {
    let is_buy = is_buy_kind(kind);
    let is_limit = is_limit_kind(kind);
    let side = if is_buy { old.ask } else { old.bid };
    let new_side = if is_buy { new.ask } else { new.bid };
    let own = if is_buy { old.bid } else { old.ask };
    let new_own = if is_buy { new.bid } else { new.ask };
    let want = to.order.quantity as nat;
    if !is_limit && want > qty_total(side) {
        new == old && r is None
    } else {
        let (rest, fills) = sweep(side, want, is_buy, is_limit, to.order.price);
        let f = filled(fills);
        &&& new.id == old.id
        &&& new.sym == old.sym
        &&& new.notices.len() == old.notices.len() + 1
        &&& new.notices.take(old.notices.len() as int) == old.notices
        &&& new.notices.last()@ == fill_notices(fills, to.order.sym, kind)
        &&& new_side == rest
        &&& (if f < want && is_limit {
            placed(own, new_own, with_quantity(to, (want - f) as usize), !is_buy)
        } else {
            new_own == own
        })
        &&& r == (if f == want {
            Some(Order { quantity: want as usize, price: trunc_div(cost(fills), f as int) as i64, ..to.order })
        } else {
            None
        })
    }
}

/// Neither side is empty only where the best bid is below the best ask.
pub open spec fn not_crossed(bid: Seq<TimedOrder>, ask: Seq<TimedOrder>) -> bool {
    bid.len() > 0 && ask.len() > 0 ==> bid[0].order.price < ask[0].order.price
}

/// Two sides that make a book: each in priority order with positive quantities,
/// and each total fits a `usize`.
pub open spec fn sides_well_formed(bid: Seq<TimedOrder>, ask: Seq<TimedOrder>) -> bool {
    &&& side_ordered(bid, false)
    &&& all_positive(bid)
    &&& qty_total(bid) <= usize::MAX
    &&& side_ordered(ask, true)
    &&& all_positive(ask)
    &&& qty_total(ask) <= usize::MAX
    &&& not_crossed(bid, ask)
}

/// What a limit order would leave resting, added to the side it rests on, fits a `usize`.
pub open spec fn match_fits(old: SecurityView, kind: OrderType, to: TimedOrder) -> bool {
    let is_buy = is_buy_kind(kind);
    let side = if is_buy { old.ask } else { old.bid };
    let own = if is_buy { old.bid } else { old.ask };
    let want = to.order.quantity as nat;
    let (rest, fills) = sweep(side, want, is_buy, is_limit_kind(kind), to.order.price);
    is_limit_kind(kind) ==> qty_total(own) + (want - filled(fills)) <= usize::MAX
}

// ------------------------------------------------------------------------------------
// Lemmas
// ------------------------------------------------------------------------------------

proof fn lemma_qty_total_insert(s: Seq<TimedOrder>, pos: int, x: TimedOrder)
    requires
        0 <= pos <= s.len(),
    ensures
        qty_total(s.insert(pos, x)) == qty_total(s) + x.order.quantity,
    decreases s.len(),
{
    if pos == 0 {
        assert(s.insert(0, x).drop_first() =~= s);
    } else {
        assert(s.insert(pos, x).drop_first() =~= s.drop_first().insert(pos - 1, x));
        lemma_qty_total_insert(s.drop_first(), pos - 1, x);
    }
}

proof fn lemma_qty_total_remove(s: Seq<TimedOrder>, i: int)
    requires
        0 <= i < s.len(),
    ensures
        qty_total(s.remove(i)) + s[i].order.quantity == qty_total(s),
    decreases s.len(),
{
    if i == 0 {
        assert(s.remove(0) =~= s.drop_first());
    } else {
        assert(s.remove(i).drop_first() =~= s.drop_first().remove(i - 1));
        lemma_qty_total_remove(s.drop_first(), i - 1);
    }
}

/// What a sweep leaves is still in priority order with positive quantities, and
/// holds exactly the quantity that was not traded.
proof fn lemma_sweep_keeps(side: Seq<TimedOrder>, want: nat, is_buy: bool, is_limit: bool, limit: i64)
    requires
        all_positive(side),
        side_ordered(side, is_buy),
    ensures
        ({
            let (rest, fills) = sweep(side, want, is_buy, is_limit, limit);
            &&& all_positive(rest)
            &&& side_ordered(rest, is_buy)
            &&& qty_total(rest) + filled(fills) == qty_total(side)
            &&& filled(fills) <= want
            &&& (filled(fills) < want && rest.len() > 0 ==> !crosses(is_buy, is_limit, limit, rest[0].order.price))
            &&& (rest.len() > 0 ==> side.len() > 0 && at_or_ahead(is_buy, side[0].order.price, rest[0].order.price))
        }),
    decreases side.len(),
{
    let (rest, fills) = sweep(side, want, is_buy, is_limit, limit);
    if want == 0 || side.len() == 0 || !crosses(is_buy, is_limit, limit, side[0].order.price) {
    } else if side[0].order.quantity <= want {
        let tail = side.drop_first();
        assert(all_positive(tail));
        assert(side_ordered(tail, is_buy)) by {
            assert forall|i: int, j: int| 0 <= i < j < tail.len() implies at_or_ahead(
                is_buy,
                #[trigger] tail[i].order.price,
                #[trigger] tail[j].order.price,
            ) by {
                assert(tail[i] == side[i + 1] && tail[j] == side[j + 1]);
            }
        }
        lemma_sweep_keeps(tail, (want - side[0].order.quantity) as nat, is_buy, is_limit, limit);
        let r = sweep(tail, (want - side[0].order.quantity) as nat, is_buy, is_limit, limit);
        if r.0.len() > 0 {
            assert(tail[0] == side[1]);
            assert(at_or_ahead(is_buy, side[0].order.price, side[1].order.price));
        }
        lemma_filled_prepend(seq![(side[0].order, side[0].order.quantity as nat)], r.1);
        assert(seq![(side[0].order, side[0].order.quantity as nat)].drop_last() =~= Seq::<(Order, nat)>::empty());
        assert(filled(Seq::<(Order, nat)>::empty()) == 0);
    } else {
        let upd = side.update(0, with_quantity(side[0], (side[0].order.quantity - want) as usize));
        assert(upd.drop_first() =~= side.drop_first());
        assert(side_ordered(upd, is_buy)) by {
            assert forall|i: int, j: int| 0 <= i < j < upd.len() implies at_or_ahead(
                is_buy,
                #[trigger] upd[i].order.price,
                #[trigger] upd[j].order.price,
            ) by {
                assert(side[i].order.price == upd[i].order.price);
                assert(side[j].order.price == upd[j].order.price);
            }
        }
        assert(seq![(side[0].order, want)].drop_last() =~= Seq::<(Order, nat)>::empty());
        assert(filled(seq![(side[0].order, want)]) == want) by {
            let sg = seq![(side[0].order, want)];
            assert(sg.last() == (side[0].order, want));
            assert(filled(Seq::<(Order, nat)>::empty()) == 0);
        }
        assert(upd[0].order.quantity == side[0].order.quantity - want);
        assert(qty_total(upd) == upd[0].order.quantity + qty_total(upd.drop_first()));
        assert(qty_total(side) == side[0].order.quantity + qty_total(side.drop_first()));
    }
}

proof fn lemma_filled_prepend(a: Seq<(Order, nat)>, b: Seq<(Order, nat)>)
    ensures
        filled(a + b) == filled(a) + filled(b),
        cost(a + b) == cost(a) + cost(b),
    decreases b.len(),
{
    if b.len() == 0 {
        assert(a + b =~= a);
    } else {
        assert((a + b).drop_last() =~= a + b.drop_last());
        lemma_filled_prepend(a, b.drop_last());
    }
}

/// A market order for no more than a side holds is filled completely.
pub proof fn lemma_market_sweep_fills(side: Seq<TimedOrder>, want: nat, is_buy: bool, limit: i64)
    requires
        all_positive(side),
        side_ordered(side, is_buy),
        want <= qty_total(side),
    ensures
        filled(sweep(side, want, is_buy, false, limit).1) == want,
    decreases side.len(),
{
    lemma_sweep_keeps(side, want, is_buy, false, limit);
    if want == 0 {
    } else if side[0].order.quantity <= want {
        let tail = side.drop_first();
        assert(all_positive(tail));
        assert(side_ordered(tail, is_buy)) by {
            assert forall|i: int, j: int| 0 <= i < j < tail.len() implies at_or_ahead(
                is_buy,
                #[trigger] tail[i].order.price,
                #[trigger] tail[j].order.price,
            ) by {
                assert(tail[i] == side[i + 1] && tail[j] == side[j + 1]);
            }
        }
        lemma_market_sweep_fills(tail, (want - side[0].order.quantity) as nat, is_buy, limit);
        let r = sweep(tail, (want - side[0].order.quantity) as nat, is_buy, false, limit);
        lemma_filled_prepend(seq![(side[0].order, side[0].order.quantity as nat)], r.1);
        assert(seq![(side[0].order, side[0].order.quantity as nat)].drop_last() =~= Seq::<(Order, nat)>::empty());
        assert(filled(Seq::<(Order, nat)>::empty()) == 0);
    } else {
        assert(seq![(side[0].order, want)].drop_last() =~= Seq::<(Order, nat)>::empty());
    }
}

proof fn lemma_qty_total_push(s: Seq<TimedOrder>, x: TimedOrder)
    ensures
        qty_total(s.push(x)) == qty_total(s) + x.order.quantity,
{
    lemma_qty_total_insert(s, s.len() as int, x);
    assert(s.insert(s.len() as int, x) =~= s.push(x));
}

/// Resting order `s[i]` is the one a cancel request names.
pub open spec fn names_order(s: Seq<TimedOrder>, i: int, client_id: ClientId, order_id: u16, price_level: i64) -> bool {
    &&& s[i].order.price == price_level
    &&& s[i].order.client_id == Some(client_id)
    &&& s[i].order.order_id == order_id
}

/// The midpoint of the best bid and the best ask, rounded toward zero, when both
/// sides hold orders.
pub open spec fn mid_price(v: SecurityView) -> Option<i64> {
    if v.bid.len() > 0 && v.ask.len() > 0 {
        Some(trunc_div(v.bid[0].order.price + v.ask[0].order.price, 2) as i64)
    } else {
        None
    }
}

/// `new` is `side` after a cancel request that answered `r`: the first resting
/// order the request names is removed, if there is one.
pub open spec fn cancel_post(
    side: Seq<TimedOrder>,
    new: Seq<TimedOrder>,
    client_id: ClientId,
    order_id: u16,
    price_level: i64,
    r: bool,
) -> bool {
    &&& r == exists|i: int| 0 <= i < side.len() && #[trigger] names_order(side, i, client_id, order_id, price_level)
    &&& r ==> exists|i: int|
        0 <= i < side.len() && #[trigger] names_order(side, i, client_id, order_id, price_level) && (forall|j: int|
            0 <= j < i ==> !names_order(side, j, client_id, order_id, price_level)) && new == side.remove(i)
    &&& !r ==> new == side
}

/// A copy of a book for a snapshot: the symbol and both sides in priority order.
pub struct SecurityData {
    pub sym: Symbol,
    pub bid: Vec<TimedOrder>,
    pub ask: Vec<TimedOrder>,
}

/// The same, borrowed from a live book.
pub struct SecurityDataRef<'a> {
    pub sym: &'a Symbol,
    pub bid: &'a Vec<TimedOrder>,
    pub ask: &'a Vec<TimedOrder>,
}

// ------------------------------------------------------------------------------------
// Laws
// ------------------------------------------------------------------------------------

/// A sweep takes from a side exactly what it trades: what is left plus what was
/// traded is what the side held, and no more than was asked for is traded.
pub proof fn law_sweep_conserves_quantity(side: Seq<TimedOrder>, want: nat, is_buy: bool, is_limit: bool, limit: i64)
    requires
        all_positive(side),
        side_ordered(side, is_buy),
    ensures
        qty_total(sweep(side, want, is_buy, is_limit, limit).0) + filled(sweep(side, want, is_buy, is_limit, limit).1)
            == qty_total(side),
        filled(sweep(side, want, is_buy, is_limit, limit).1) <= want,
{
    lemma_sweep_keeps(side, want, is_buy, is_limit, limit);
}

/// A well-formed book keeps both sides in priority order with positive quantities.
pub proof fn lemma_wf_sides(s: Security)
    requires
        s.wf(),
    ensures
        all_positive(s@.bid),
        all_positive(s@.ask),
        side_ordered(s@.bid, false),
        side_ordered(s@.ask, true),
        not_crossed(s@.bid, s@.ask),
{
}

/// A book is never crossed: whenever both sides hold orders, the best bid is below
/// the best ask. Every operation on a book keeps it well formed, so this holds
/// after any sequence of them.
pub proof fn law_never_crossed(s: Security)
    requires
        s.wf(),
    ensures
        s@.bid.len() > 0 && s@.ask.len() > 0 ==> s@.bid[0].order.price < s@.ask[0].order.price,
{
}

/// A limit order only trades at its price or better: a buy never pays more than
/// its limit, a sell never receives less.
pub proof fn law_limit_respected(side: Seq<TimedOrder>, want: nat, is_buy: bool, limit: i64)
    ensures
        forall|i: int|
            0 <= i < sweep(side, want, is_buy, true, limit).1.len() ==> at_or_ahead(
                is_buy,
                #[trigger] sweep(side, want, is_buy, true, limit).1[i].0.price,
                limit,
            ),
    decreases side.len(),
{
    if want == 0 || side.len() == 0 || !crosses(is_buy, true, limit, side[0].order.price) {
    } else if side[0].order.quantity <= want {
        let rest_want = (want - side[0].order.quantity) as nat;
        law_limit_respected(side.drop_first(), rest_want, is_buy, limit);
        let r = sweep(side.drop_first(), rest_want, is_buy, true, limit);
        let all = sweep(side, want, is_buy, true, limit).1;
        assert forall|i: int| 0 <= i < all.len() implies at_or_ahead(is_buy, #[trigger] all[i].0.price, limit) by {
            if i > 0 {
                assert(all[i] == r.1[i - 1]);
            }
        }
    } else {
    }
}

/// Trades come in price-time priority: the first trade is with the order at the
/// front of the side, at its price.
pub proof fn law_front_trades_first(side: Seq<TimedOrder>, want: nat, is_buy: bool, is_limit: bool, limit: i64)
    requires
        want > 0,
        side.len() > 0,
        crosses(is_buy, is_limit, limit, side[0].order.price),
    ensures
        sweep(side, want, is_buy, is_limit, limit).1.len() > 0,
        sweep(side, want, is_buy, is_limit, limit).1[0].0 == side[0].order,
{
}

/// The best bid is the highest bid and the best ask the lowest ask.
pub proof fn law_spread_is_best(s: Security)
    requires
        s.wf(),
    ensures
        forall|i: int| 0 <= i < s@.bid.len() ==> #[trigger] s@.bid[i].order.price <= s@.bid[0].order.price,
        forall|i: int| 0 <= i < s@.ask.len() ==> #[trigger] s@.ask[i].order.price >= s@.ask[0].order.price,
{
    assert forall|i: int| 0 <= i < s@.bid.len() implies #[trigger] s@.bid[i].order.price <= s@.bid[0].order.price by {
        if i > 0 {
            assert(at_or_ahead(false, s.bid@[0].order.price, s.bid@[i].order.price));
        }
    }
    assert forall|i: int| 0 <= i < s@.ask.len() implies #[trigger] s@.ask[i].order.price >= s@.ask[0].order.price by {
        if i > 0 {
            assert(at_or_ahead(true, s.ask@[0].order.price, s.ask@[i].order.price));
        }
    }
}

/// A market order for no more than the opposite side holds is filled completely;
/// one for more is refused and changes nothing.
pub proof fn law_market_order_filled(old: Security, new: Security, kind: OrderType, to: TimedOrder, r: Option<Order>)
    requires
        old.wf(),
        !is_limit_kind(kind),
        to.order.quantity > 0,
        match_post(old@, new@, kind, to, r),
    ensures
        to.order.quantity <= qty_total(if is_buy_kind(kind) { old@.ask } else { old@.bid }) ==> (r matches Some(o)
            && o.quantity == to.order.quantity),
        to.order.quantity > qty_total(if is_buy_kind(kind) { old@.ask } else { old@.bid }) ==> r is None && new@
            == old@,
{
    let side = if is_buy_kind(kind) { old@.ask } else { old@.bid };
    if to.order.quantity <= qty_total(side) {
        lemma_market_sweep_fills(side, to.order.quantity as nat, is_buy_kind(kind), to.order.price);
    }
}

/// Matching an order neither creates nor destroys quantity: the side it trades
/// against loses what was traded, and the side it belongs to gains what a limit
/// order leaves resting.
pub proof fn law_match_conserves_quantity(old: Security, new: Security, kind: OrderType, to: TimedOrder, r: Option<Order>)
    requires
        old.wf(),
        match_post(old@, new@, kind, to, r),
    ensures
        ({
            let is_buy = is_buy_kind(kind);
            let side = if is_buy { old@.ask } else { old@.bid };
            let new_side = if is_buy { new@.ask } else { new@.bid };
            let own = if is_buy { old@.bid } else { old@.ask };
            let new_own = if is_buy { new@.bid } else { new@.ask };
            let want = to.order.quantity as nat;
            let f = filled(sweep(side, want, is_buy, is_limit_kind(kind), to.order.price).1);
            if !is_limit_kind(kind) && want > qty_total(side) {
                qty_total(new_side) == qty_total(side) && qty_total(new_own) == qty_total(own)
            } else {
                &&& qty_total(new_side) == qty_total(side) - f
                &&& qty_total(new_own) == qty_total(own) + (if is_limit_kind(kind) { want - f } else { 0 })
            }
        }),
        r matches Some(o) ==> o.quantity == to.order.quantity,
{
    let is_buy = is_buy_kind(kind);
    let is_limit = is_limit_kind(kind);
    let side = if is_buy { old@.ask } else { old@.bid };
    let own = if is_buy { old@.bid } else { old@.ask };
    let want = to.order.quantity as nat;
    if !(!is_limit && want > qty_total(side)) {
        lemma_sweep_keeps(side, want, is_buy, is_limit, to.order.price);
        let (rest, fills) = sweep(side, want, is_buy, is_limit, to.order.price);
        let f = filled(fills);
        if f < want && is_limit {
            let new_own = if is_buy { new@.bid } else { new@.ask };
            let item = with_quantity(to, (want - f) as usize);
            let pos = choose|pos: int|
                0 <= pos <= own.len() && new_own == own.insert(pos, item) && (forall|j: int|
                    0 <= j < pos ==> at_or_ahead(!is_buy, #[trigger] own[j].order.price, item.order.price)) && (forall|j: int|
                    pos <= j < own.len() ==> !at_or_ahead(!is_buy, #[trigger] own[j].order.price, item.order.price));
            lemma_qty_total_insert(own, pos, item);
        }
    }
}

// ------------------------------------------------------------------------------------
// Executable code
// ------------------------------------------------------------------------------------

/// `Uuid::new_v4()`, as its 128-bit value: random, with the version nibble set to
/// 4 and the variant bits to `10`.
#[verifier::external_body]
pub(crate) fn random_uuid() -> (r: u128)
    ensures
        r & 0xf000_c000_0000_0000_0000u128 == 0x4000_8000_0000_0000_0000u128,
{
    uuid::Uuid::new_v4().as_u128()
}

fn kind_is_buy(kind: OrderType) -> (r: bool)
    ensures
        r == is_buy_kind(kind),
{
    kind == OrderType::MarketBuy || kind == OrderType::LimitBuy
}

fn kind_is_limit(kind: OrderType) -> (r: bool)
    ensures
        r == is_limit_kind(kind),
{
    kind == OrderType::LimitBuy || kind == OrderType::LimitSell
}

fn crosses_exec(is_buy: bool, is_limit: bool, limit: i64, level: i64) -> (r: bool)
    ensures
        r == crosses(is_buy, is_limit, limit, level),
{
    !(is_limit && ((is_buy && level > limit) || (!is_buy && level < limit)))
}

/// `a / b` rounding toward zero, for `|a| <= b * 2^63`.
pub(crate) fn trunc_div_i128(a: i128, b: i128) -> (r: i64)
    requires
        0 < b <= usize::MAX,
        -b * 0x8000_0000_0000_0000 <= a <= b * 0x7fff_ffff_ffff_ffff,
    ensures
        r == trunc_div(a as int, b as int),
{
    if a >= 0 {
        proof {
            assert(a / b <= 0x7fff_ffff_ffff_ffff) by (nonlinear_arith)
                requires
                    b > 0,
                    0 <= a <= b * 0x7fff_ffff_ffff_ffff,
            ;
        }
        (a / b) as i64
    } else {
        proof {
            assert(b * 0x8000_0000_0000_0000 < 0x7fff_ffff_ffff_ffff_ffff_ffff_ffff_ffff) by (nonlinear_arith)
                requires
                    0 < b <= usize::MAX,
            ;
        }
        let m = -a;
        proof {
            assert(m / b <= 0x8000_0000_0000_0000) by (nonlinear_arith)
                requires
                    b > 0,
                    0 <= m <= b * 0x8000_0000_0000_0000,
            ;
        }
        (-(m / b)) as i64
    }
}

/// Trades up to `want` units against the front of `side`.
fn take_from_front(
    side: &mut Vec<TimedOrder>,
    want: usize,
    is_buy: bool,
    is_limit: bool,
    limit: i64,
    taker_sym: &Symbol,
    kind: OrderType,
) -> (res: (Vec<Order>, usize, i128))
    requires
        all_positive(old(side)@),
    ensures
        ({
            let (rest, fills) = sweep(old(side)@, want as nat, is_buy, is_limit, limit);
            &&& final(side)@ == rest
            &&& res.0@ == fill_notices(fills, *taker_sym, kind)
            &&& res.1 == filled(fills)
            &&& res.2 == cost(fills)
            &&& -(res.1 as int) * 0x8000_0000_0000_0000 <= res.2 <= (res.1 as int) * 0x7fff_ffff_ffff_ffff
        }),
{
    let ghost old_side = side@;
    let ghost mut so_far: Seq<(Order, nat)> = seq![];
    let mut notices: Vec<Order> = Vec::new();
    let mut rem: usize = want;
    let mut total: i128 = 0;
    let mut k: usize = 0;
    proof {
        assert(side@.skip(0) =~= side@);
        assert(so_far + sweep(side@, want as nat, is_buy, is_limit, limit).1 =~= sweep(side@, want as nat, is_buy, is_limit, limit).1);
    }
    while k < side.len() && rem > 0 && crosses_exec(is_buy, is_limit, limit, side[k].order.price)
        invariant
            side@.len() == old_side.len(),
            k <= side@.len(),
            rem <= want,
            all_positive(side@.skip(k as int)),
            ({
                let whole = sweep(old_side, want as nat, is_buy, is_limit, limit);
                let part = sweep(side@.skip(k as int), rem as nat, is_buy, is_limit, limit);
                &&& whole.0 == part.0
                &&& whole.1 == so_far + part.1
            }),
            notices@ == fill_notices(so_far, *taker_sym, kind),
            filled(so_far) + rem == want,
            total == cost(so_far),
            -(filled(so_far) as int) * 0x8000_0000_0000_0000 <= total <= (filled(so_far) as int)
                * 0x7fff_ffff_ffff_ffff,
        decreases side@.len() - k, rem,
    {
        let ghost suffix = side@.skip(k as int);
        assert(suffix[0] == side@[k as int]);
        let q = side[k].order.quantity;
        let price = side[k].order.price;
        let t: usize = if q <= rem { q } else { rem };
        let ghost e = (side@[k as int].order, t as nat);
        let n = Order {
            client_id: side[k].order.client_id,
            sym: taker_sym.clone(),
            quantity: t,
            price,
            kind: Some(kind),
            order_id: side[k].order.order_id,
            cancelled: false,
        };
        notices.push(n);
        proof {
            assert(n == fill_notice(e, *taker_sym, kind));
            assert(fill_notices(so_far.push(e), *taker_sym, kind) =~= fill_notices(so_far, *taker_sym, kind).push(n));
            assert(so_far.push(e).drop_last() =~= so_far);
            assert(t as int * price as int <= t as int * 0x7fff_ffff_ffff_ffff) by (nonlinear_arith)
                requires
                    price <= 0x7fff_ffff_ffff_ffff,
                    t >= 0,
            ;
            assert(t as int * price as int >= -(t as int) * 0x8000_0000_0000_0000) by (nonlinear_arith)
                requires
                    price >= -0x8000_0000_0000_0000,
                    t >= 0,
            ;
            assert(filled(so_far) + t <= want);
            assert(want <= usize::MAX);
            assert((filled(so_far) + t) * 0x8000_0000_0000_0000 < 0x7fff_ffff_ffff_ffff_ffff_ffff_ffff_ffff) by (nonlinear_arith)
                requires
                    filled(so_far) + t <= usize::MAX,
            ;
        }
        total = total + (t as i128) * (price as i128);
        if q <= rem {
            proof {
                let tail_sweep = sweep(side@.skip(k + 1), (rem - t) as nat, is_buy, is_limit, limit);
                assert(suffix.drop_first() =~= side@.skip(k + 1));
                assert(sweep(suffix, rem as nat, is_buy, is_limit, limit) == (tail_sweep.0, seq![e] + tail_sweep.1));
                assert(so_far + (seq![e] + tail_sweep.1) =~= so_far.push(e) + tail_sweep.1);
                assert(all_positive(side@.skip(k + 1))) by {
                    assert forall|i: int| 0 <= i < side@.skip(k + 1).len() implies #[trigger] side@.skip(k + 1)[i].order.quantity > 0 by {
                        assert(side@.skip(k + 1)[i] == suffix[i + 1]);
                    }
                }
                so_far = so_far.push(e);
            }
            rem = rem - t;
            k = k + 1;
        } else {
            let mut cur = side[k].clone();
            cur.order.quantity = q - rem;
            side.set(k, cur);
            proof {
                assert(sweep(suffix, rem as nat, is_buy, is_limit, limit) == (
                    suffix.update(0, with_quantity(suffix[0], (q - rem) as usize)),
                    seq![e],
                ));
                assert(side@.skip(k as int) =~= suffix.update(0, with_quantity(suffix[0], (q - rem) as usize)));
                assert(so_far + seq![e] =~= so_far.push(e));
                so_far = so_far.push(e);
                assert(all_positive(side@.skip(k as int))) by {
                    assert forall|i: int| 0 <= i < side@.skip(k as int).len() implies #[trigger] side@.skip(k as int)[i].order.quantity > 0 by {
                        if i > 0 {
                            assert(side@.skip(k as int)[i] == suffix[i]);
                        }
                    }
                }
                assert(sweep(side@.skip(k as int), 0, is_buy, is_limit, limit).1 =~= Seq::<(Order, nat)>::empty());
                assert(so_far + Seq::<(Order, nat)>::empty() =~= so_far);
            }
            rem = 0;
        }
    }
    proof {
        assert(sweep(side@.skip(k as int), rem as nat, is_buy, is_limit, limit).1 =~= Seq::<(Order, nat)>::empty());
        assert(so_far + Seq::<(Order, nat)>::empty() =~= so_far);
    }
    let tail = side.split_off(k);
    *side = tail;
    (notices, want - rem, total)
}


fn at_or_ahead_exec(is_ask: bool, p: i64, q: i64) -> (r: bool)
    ensures
        r == at_or_ahead(is_ask, p, q),
{
    if is_ask {
        p <= q
    } else {
        p >= q
    }
}

/// Puts `item` into `side` behind every order at its price or better.
fn place(side: &mut Vec<TimedOrder>, item: TimedOrder, is_ask: bool)
    requires
        side_ordered(old(side)@, is_ask),
    ensures
        placed(old(side)@, final(side)@, item, is_ask),
        side_ordered(final(side)@, is_ask),
{
    let p = item.order.price;
    let mut pos: usize = 0;
    while pos < side.len() && at_or_ahead_exec(is_ask, side[pos].order.price, p)
        invariant
            pos <= side@.len(),
            forall|j: int| 0 <= j < pos ==> at_or_ahead(is_ask, #[trigger] side@[j].order.price, p),
        decreases side@.len() - pos,
    {
        pos = pos + 1;
    }
    let ghost old_side = side@;
    proof {
        assert forall|j: int| pos <= j < old_side.len() implies !at_or_ahead(
            is_ask,
            #[trigger] old_side[j].order.price,
            p,
        ) by {
            if j > pos {
                assert(at_or_ahead(is_ask, old_side[pos as int].order.price, old_side[j].order.price));
            }
        }
    }
    side.insert(pos, item);
    proof {
        let new_side = side@;
        assert(new_side == old_side.insert(pos as int, item));
        assert forall|i: int, j: int| 0 <= i < j < new_side.len() implies at_or_ahead(
            is_ask,
            #[trigger] new_side[i].order.price,
            #[trigger] new_side[j].order.price,
        ) by {
            if j < pos {
                assert(new_side[i] == old_side[i] && new_side[j] == old_side[j]);
            } else if j == pos {
                assert(new_side[i] == old_side[i]);
            } else if i == pos {
                assert(new_side[j] == old_side[j - 1]);
            } else if i < pos {
                assert(new_side[i] == old_side[i] && new_side[j] == old_side[j - 1]);
            } else {
                assert(new_side[i] == old_side[i - 1] && new_side[j] == old_side[j - 1]);
            }
        }
    }
}

impl Security {
    /// Both sides are in priority order, every resting order has a positive
    /// quantity, the kept totals are the sides' resting quantities, and the best
    /// bid is below the best ask.
    pub closed spec fn wf(&self) -> bool {
        &&& side_ordered(self.bid@, false)
        &&& side_ordered(self.ask@, true)
        &&& all_positive(self.bid@)
        &&& all_positive(self.ask@)
        &&& self.bid_q == qty_total(self.bid@)
        &&& self.ask_q == qty_total(self.ask@)
        &&& not_crossed(self.bid@, self.ask@)
    }

    /// An empty book for `sym`, with a fresh random id.
    pub fn new(sym: Symbol) -> (r: Self)
        ensures
            r.wf(),
            r@.sym == sym,
            r@.bid == Seq::<TimedOrder>::empty(),
            r@.ask == Seq::<TimedOrder>::empty(),
            r@.notices == Seq::<Vec<Order>>::empty(),
            r@.id & 0xf000_c000_0000_0000_0000u128 == 0x4000_8000_0000_0000_0000u128,
    {
        Self {
            _id: random_uuid(),
            bid: Vec::new(),
            ask: Vec::new(),
            bid_q: 0,
            ask_q: 0,
            notices: Vec::new(),
            sym,
        }
    }

    pub fn sym(&self) -> (r: &Symbol)
        ensures
            *r == self@.sym,
    {
        &self.sym
    }

    /// The quantity a market order of `kind` can trade against.
    pub fn get_q(&self, kind: &OrderType) -> (r: usize)
        requires
            self.wf(),
            !is_limit_kind(*kind),
        ensures
            r == qty_total(if is_buy_kind(*kind) { self@.ask } else { self@.bid }),
    {
        match kind {
            OrderType::MarketBuy => self.ask_q,
            _ => self.bid_q,
        }
    }

    /// Matches an incoming order of `kind` against the book.
    ///
    /// A market order for more than the opposite side holds is refused and changes
    /// nothing. Otherwise the order trades against the resting orders in priority
    /// order (for a limit order, only those at its price or better), a batch of trade
    /// notices is queued, and if the order was filled completely the result is the
    /// order with its average price; a limit order not filled completely rests with
    /// what is left of it.
    pub fn match_order(&mut self, kind: OrderType, to: TimedOrder) -> (r: Option<Order>)
        requires
            old(self).wf(),
            to.order.quantity > 0,
            match_fits(old(self)@, kind, to),
        ensures
            final(self).wf(),
            match_post(old(self)@, final(self)@, kind, to, r),
    {
        let is_limit = kind_is_limit(kind);
        let is_buy = kind_is_buy(kind);
        if !is_limit && to.order.quantity > self.get_q(&kind) {
            return None;
        }
        let want = to.order.quantity;
        let ghost side = if is_buy { self.ask@ } else { self.bid@ };
        proof {
            lemma_sweep_keeps(side, want as nat, is_buy, is_limit, to.order.price);
        }
        let (fills, f, total) = if is_buy {
            take_from_front(&mut self.ask, want, is_buy, is_limit, to.order.price, &to.order.sym, kind)
        } else {
            take_from_front(&mut self.bid, want, is_buy, is_limit, to.order.price, &to.order.sym, kind)
        };
        if is_buy {
            self.ask_q = self.ask_q - f;
        } else {
            self.bid_q = self.bid_q - f;
        }
        let ghost old_notices = self.notices@;
        self.notices.push(fills);
        proof {
            assert(self.notices@.take(old_notices.len() as int) =~= old_notices);
        }
        let rem = want - f;
        if rem > 0 {
            if !is_limit {
                return None;
            }
            let ghost rest = if is_buy { self.bid@ } else { self.ask@ };
            let mut resting = to;
            resting.order.quantity = rem;
            if is_buy {
                self.bid_q = self.bid_q + rem;
                place(&mut self.bid, resting, false);
            } else {
                self.ask_q = self.ask_q + rem;
                place(&mut self.ask, resting, true);
            }
            proof {
                let new_side = if is_buy { self.bid@ } else { self.ask@ };
                let pos = choose|pos: int|
                    0 <= pos <= rest.len() && new_side == rest.insert(pos, resting) && (forall|j: int|
                        0 <= j < pos ==> at_or_ahead(!is_buy, #[trigger] rest[j].order.price, resting.order.price))
                        && (forall|j: int|
                        pos <= j < rest.len() ==> !at_or_ahead(!is_buy, #[trigger] rest[j].order.price, resting.order.price));
                lemma_qty_total_insert(rest, pos, resting);
                assert(all_positive(new_side)) by {
                    assert forall|i: int| 0 <= i < new_side.len() implies #[trigger] new_side[i].order.quantity > 0 by {
                        if i < pos {
                            assert(new_side[i] == rest[i]);
                        } else if i > pos {
                            assert(new_side[i] == rest[i - 1]);
                        }
                    }
                }
                assert(resting == with_quantity(to, (want - f) as usize));
            }
            return None;
        }
        let mut done = to.order;
        done.price = trunc_div_i128(total, f as i128);
        done.quantity = f;
        Some(done)
    }

    pub fn buy_nowait(&mut self, to: TimedOrder) -> (r: Option<Order>)
        requires
            old(self).wf(),
            to.order.quantity > 0,
        ensures
            final(self).wf(),
            match_post(old(self)@, final(self)@, OrderType::MarketBuy, to, r),
    {
        self.match_order(OrderType::MarketBuy, to)
    }

    pub fn sell_nowait(&mut self, to: TimedOrder) -> (r: Option<Order>)
        requires
            old(self).wf(),
            to.order.quantity > 0,
        ensures
            final(self).wf(),
            match_post(old(self)@, final(self)@, OrderType::MarketSell, to, r),
    {
        self.match_order(OrderType::MarketSell, to)
    }

    pub fn buy_wait(&mut self, to: TimedOrder) -> (r: Option<Order>)
        requires
            old(self).wf(),
            to.order.quantity > 0,
            match_fits(old(self)@, OrderType::LimitBuy, to),
        ensures
            final(self).wf(),
            match_post(old(self)@, final(self)@, OrderType::LimitBuy, to, r),
    {
        self.match_order(OrderType::LimitBuy, to)
    }

    pub fn sell_wait(&mut self, to: TimedOrder) -> (r: Option<Order>)
        requires
            old(self).wf(),
            to.order.quantity > 0,
            match_fits(old(self)@, OrderType::LimitSell, to),
        ensures
            final(self).wf(),
            match_post(old(self)@, final(self)@, OrderType::LimitSell, to, r),
    {
        self.match_order(OrderType::LimitSell, to)
    }
}


/// Checks that `side` is in priority order with positive quantities, and sums it.
fn checked_side_total(side: &Vec<TimedOrder>, is_ask: bool) -> (r: Option<usize>)
    ensures
        match r {
            Some(t) => side_ordered(side@, is_ask) && all_positive(side@) && t == qty_total(side@),
            None => !(side_ordered(side@, is_ask) && all_positive(side@) && qty_total(side@) <= usize::MAX),
        },
{
    let mut k: usize = 0;
    let mut total: usize = 0;
    while k < side.len()
        invariant
            k <= side@.len(),
            side_ordered(side@.take(k as int), is_ask),
            all_positive(side@.take(k as int)),
            total == qty_total(side@.take(k as int)),
        decreases side@.len() - k,
    {
        let ghost pre = side@.take(k as int);
        assert(side@.take(k + 1) =~= pre.push(side@[k as int]));
        if side[k].order.quantity == 0 {
            proof {
                assert(!all_positive(side@)) by {
                    assert(side@[k as int].order.quantity == 0);
                }
            }
            return None;
        }
        if k > 0 && !at_or_ahead_exec(is_ask, side[k - 1].order.price, side[k].order.price) {
            proof {
                assert(!side_ordered(side@, is_ask)) by {
                    assert(!at_or_ahead(is_ask, side@[k - 1].order.price, side@[k as int].order.price));
                }
            }
            return None;
        }
        proof {
            lemma_qty_total_push(pre, side@[k as int]);
        }
        match total.checked_add(side[k].order.quantity) {
            Some(t) => {
                total = t;
            },
            None => {
                proof {
                    lemma_qty_total_prefix_le(side@, k as int + 1);
                }
                return None;
            },
        }
        proof {
            let now = side@.take(k + 1);
            assert forall|i: int, j: int| 0 <= i < j < now.len() implies at_or_ahead(
                is_ask,
                #[trigger] now[i].order.price,
                #[trigger] now[j].order.price,
            ) by {
                if j == k {
                    if i < k - 1 {
                        assert(at_or_ahead(is_ask, pre[i].order.price, pre[k - 1].order.price));
                    }
                } else {
                    assert(now[i] == pre[i] && now[j] == pre[j]);
                }
            }
        }
        k = k + 1;
    }
    proof {
        assert(side@.take(k as int) =~= side@);
    }
    Some(total)
}

proof fn lemma_qty_total_prefix_le(s: Seq<TimedOrder>, k: int)
    requires
        0 <= k <= s.len(),
    ensures
        qty_total(s.take(k)) <= qty_total(s),
    decreases s.len() - k,
{
    if k < s.len() {
        lemma_qty_total_prefix_le(s, k + 1);
        assert(s.take(k + 1) =~= s.take(k).push(s[k]));
        lemma_qty_total_push(s.take(k), s[k]);
    } else {
        assert(s.take(k) =~= s);
    }
}

/// The first resting order in `s` that a cancel request names.
fn find_named(s: &Vec<TimedOrder>, client_id: ClientId, order_id: u16, price_level: i64) -> (r: Option<usize>)
    ensures
        match r {
            Some(i) => i < s@.len() && names_order(s@, i as int, client_id, order_id, price_level) && forall|j: int|
                0 <= j < i ==> !names_order(s@, j, client_id, order_id, price_level),
            None => forall|j: int| 0 <= j < s@.len() ==> !names_order(s@, j, client_id, order_id, price_level),
        },
{
    let mut i: usize = 0;
    while i < s.len()
        invariant
            i <= s@.len(),
            forall|j: int| 0 <= j < i ==> !names_order(s@, j, client_id, order_id, price_level),
        decreases s@.len() - i,
    {
        let o = &s[i].order;
        if o.price == price_level && o.client_id == Some(client_id) && o.order_id == order_id {
            return Some(i);
        }
        i = i + 1;
    }
    None
}

impl Security {
    /// The best bid and the best ask, when both sides hold orders.
    pub fn spread(&self) -> (r: Option<(i64, i64)>)
        ensures
            r == (if self@.bid.len() > 0 && self@.ask.len() > 0 {
                Some((self@.bid[0].order.price, self@.ask[0].order.price))
            } else {
                None
            }),
    {
        if self.bid.len() == 0 || self.ask.len() == 0 {
            return None;
        }
        Some((self.bid[0].order.price, self.ask[0].order.price))
    }

    /// The midpoint of the spread, rounded toward zero.
    pub fn current_price(&self) -> (r: Option<i64>)
        ensures
            r == mid_price(self@),
    {
        match self.spread() {
            Some((lb, ub)) => Some(trunc_div_i128((ub as i128) + (lb as i128), 2)),
            None => None,
        }
    }

    /// Removes the resting order that `client_id` placed as `order_id` at
    /// `price_level`, on the side that orders of `kind` rest on. Returns whether
    /// there was one.
    pub fn cancel_order_by_id(
        &mut self,
        client_id: ClientId,
        order_id: u16,
        price_level: i64,
        kind: OrderType,
    ) -> (r: bool)
        requires
            old(self).wf(),
        ensures
            final(self).wf(),
            final(self)@.id == old(self)@.id,
            final(self)@.sym == old(self)@.sym,
            final(self)@.notices == old(self)@.notices,
            is_buy_kind(kind) ==> final(self)@.ask == old(self)@.ask,
            !is_buy_kind(kind) ==> final(self)@.bid == old(self)@.bid,
            cancel_post(
                if is_buy_kind(kind) { old(self)@.bid } else { old(self)@.ask },
                if is_buy_kind(kind) { final(self)@.bid } else { final(self)@.ask },
                client_id,
                order_id,
                price_level,
                r,
            ),
    {
        let is_buy = kind_is_buy(kind);
        let ghost side = if is_buy { self.bid@ } else { self.ask@ };
        let found = {
            let s: &Vec<TimedOrder> = if is_buy { &self.bid } else { &self.ask };
            find_named(s, client_id, order_id, price_level)
        };
        match found {
            None => {
                proof {
                    assert(!exists|i: int| 0 <= i < side.len() && #[trigger] names_order(side, i, client_id, order_id, price_level));
                    let fs = if is_buy { self@.bid } else { self@.ask };
                    assert(fs == side);
                    assert(cancel_post(side, fs, client_id, order_id, price_level, false));
                }
                false
            },
            Some(i) => {
                let q = if is_buy { self.bid[i].order.quantity } else { self.ask[i].order.quantity };
                proof {
                    lemma_qty_total_remove(side, i as int);
                }
                if is_buy {
                    self.bid.remove(i);
                    self.bid_q = self.bid_q - q;
                } else {
                    self.ask.remove(i);
                    self.ask_q = self.ask_q - q;
                }
                proof {
                    let new_side = side.remove(i as int);
                    assert(all_positive(new_side)) by {
                        assert forall|j: int| 0 <= j < new_side.len() implies #[trigger] new_side[j].order.quantity > 0 by {
                            if j < i {
                                assert(new_side[j] == side[j]);
                            } else {
                                assert(new_side[j] == side[j + 1]);
                            }
                        }
                    }
                    assert(side_ordered(new_side, !is_buy)) by {
                        assert forall|a: int, b: int| 0 <= a < b < new_side.len() implies at_or_ahead(
                            !is_buy,
                            #[trigger] new_side[a].order.price,
                            #[trigger] new_side[b].order.price,
                        ) by {
                            let a2 = if a < i { a } else { a + 1 };
                            let b2 = if b < i { b } else { b + 1 };
                            assert(new_side[a] == side[a2] && new_side[b] == side[b2]);
                        }
                    }
                    assert(names_order(side, i as int, client_id, order_id, price_level));
                    let fs = if is_buy { self@.bid } else { self@.ask };
                    assert(fs == new_side);
                    assert(cancel_post(side, fs, client_id, order_id, price_level, true));
                }
                true
            },
        }
    }

    /// Hands out the queued trade notices, oldest batch first.
    pub fn take_notices(&mut self) -> (r: Vec<Vec<Order>>)
        requires
            old(self).wf(),
        ensures
            final(self).wf(),
            r@ == old(self)@.notices,
            final(self)@ == (SecurityView { notices: Seq::empty(), ..old(self)@ }),
    {
        let mut out: Vec<Vec<Order>> = Vec::new();
        std::mem::swap(&mut out, &mut self.notices);
        out
    }

    /// Borrows the book for a snapshot.
    pub fn to_data_ref(&self) -> (r: SecurityDataRef<'_>)
        ensures
            *r.sym == self@.sym,
            r.bid@ == self@.bid,
            r.ask@ == self@.ask,
    {
        SecurityDataRef { sym: &self.sym, bid: &self.bid, ask: &self.ask }
    }

    /// Rebuilds a book from a snapshot, when the snapshot is a well-formed book:
    /// both sides in priority order, positive quantities, totals that fit a `usize`,
    /// and the best bid below the best ask.
    pub fn from_data(d: SecurityData) -> (r: Option<Security>)
        ensures
            match r {
                Some(s) => {
                    &&& s.wf()
                    &&& s@.sym == d.sym
                    &&& s@.bid == d.bid@
                    &&& s@.ask == d.ask@
                    &&& s@.notices == Seq::<Vec<Order>>::empty()
                    &&& sides_well_formed(d.bid@, d.ask@)
                },
                None => !sides_well_formed(d.bid@, d.ask@),
            },
    {
        let bid_q = match checked_side_total(&d.bid, false) {
            Some(t) => t,
            None => return None,
        };
        let ask_q = match checked_side_total(&d.ask, true) {
            Some(t) => t,
            None => return None,
        };
        if d.bid.len() > 0 && d.ask.len() > 0 && d.bid[0].order.price >= d.ask[0].order.price {
            return None;
        }
        Some(Security {
            _id: random_uuid(),
            bid: d.bid,
            ask: d.ask,
            bid_q,
            ask_q,
            notices: Vec::new(),
            sym: d.sym,
        })
    }
}


// ------------------------------------------------------------------------------------
// Price history
// ------------------------------------------------------------------------------------

/// The price of a security at a moment; `None` when its book had no spread.
#[derive(Debug)]
pub struct SecPrice {
    pub sym: Symbol,
    pub price: Option<i64>,
    pub dt: Timestamp,
}

impl Clone for SecPrice {
    fn clone(&self) -> (r: Self)
        ensures
            r == *self,
    {
        SecPrice { sym: self.sym.clone(), price: self.price, dt: self.dt }
    }
}

impl SecPrice {
    /// The price of `sym`, stamped with the current time. The clock is read, so
    /// what the stamp is comes from `stamped`, given the reading.
    pub fn new(sym: Symbol, price: Option<i64>) -> (r: Self)
        ensures
            r.sym == sym,
            r.price == price,
    {
        let (before, nanos) = clock_since_epoch();
        Self::stamped(sym, price, before, nanos)
    }

    /// The price of `sym`, stamped with the clock reading `nanos` nanoseconds
    /// after the epoch (before it when `before` is set).
    pub fn stamped(sym: Symbol, price: Option<i64>, before: bool, nanos: u128) -> (r: Self)
        ensures
            r.sym == sym,
            r.price == price,
            r.dt == stamp_of(before, nanos),
    {
        Self { sym, price, dt: signed_nanos(before, nanos) }
    }
}

/// A series of prices, meant to be in time order.
#[derive(Debug)]
pub struct SecPriceVec {
    pub prices: Vec<SecPrice>,
}

impl Clone for SecPriceVec {
    fn clone(&self) -> (r: Self)
        ensures
            r.prices@ == self.prices@,
    {
        let mut out: Vec<SecPrice> = Vec::new();
        let mut i: usize = 0;
        while i < self.prices.len()
            invariant
                i <= self.prices@.len(),
                out@ == self.prices@.take(i as int),
            decreases self.prices@.len() - i,
        {
            out.push(self.prices[i].clone());
            proof {
                assert(self.prices@.take(i + 1) =~= self.prices@.take(i as int).push(self.prices@[i as int]));
            }
            i = i + 1;
        }
        proof {
            assert(self.prices@.take(i as int) =~= self.prices@);
        }
        SecPriceVec { prices: out }
    }
}

/// Timestamps never decrease along `s`.
pub open spec fn dt_sorted(s: Seq<SecPrice>) -> bool {
    forall|i: int, j: int| 0 <= i < j < s.len() ==> #[trigger] s[i].dt <= #[trigger] s[j].dt
}

/// A missing price counts as 0.
pub open spec fn price_value(p: SecPrice) -> int {
    match p.price {
        Some(x) => x as int,
        None => 0,
    }
}

/// The sum of the prices of `s[a..b]`.
pub open spec fn price_sum(s: Seq<SecPrice>, a: int, b: int) -> int
    decreases b - a,
{
    if b <= a {
        0
    } else {
        price_sum(s, a, b - 1) + price_value(s[b - 1])
    }
}

/// The sum of the squared prices of `s[a..b]`.
pub open spec fn square_sum(s: Seq<SecPrice>, a: int, b: int) -> int
    decreases b - a,
{
    if b <= a {
        0
    } else {
        square_sum(s, a, b - 1) + price_value(s[b - 1]) * price_value(s[b - 1])
    }
}

pub open spec fn fits_i64(x: int) -> bool {
    i64::MIN <= x <= i64::MAX
}

/// `s[a..=e]` runs from an entry stamped `start` to one stamped `end`.
pub open spec fn window(s: Seq<SecPrice>, a: int, e: int, start: Timestamp, end: Timestamp) -> bool {
    0 <= a <= e < s.len() && s[a].dt == start && s[e].dt == end
}

/// Summing the prices of any window from `start` to `end`, front to back, never
/// leaves the range of `i64`.
pub open spec fn sums_fit(s: Seq<SecPrice>, start: Timestamp, end: Timestamp) -> bool {
    forall|a: int, e: int, k: int|
        #![trigger window(s, a, e, start, end), price_sum(s, a, k)]
        window(s, a, e, start, end) && a < k <= e + 1 ==> fits_i64(price_sum(s, a, k))
}

/// Squaring the prices of any window from `start` to `end`, and summing the
/// squares front to back, never leaves the range of `i64`.
pub open spec fn squares_fit(s: Seq<SecPrice>, start: Timestamp, end: Timestamp) -> bool {
    &&& forall|a: int, e: int, k: int|
        #![trigger window(s, a, e, start, end), s[k]]
        window(s, a, e, start, end) && a <= k <= e ==> fits_i64(price_value(s[k]) * price_value(s[k]))
    &&& forall|a: int, e: int, k: int|
        #![trigger window(s, a, e, start, end), square_sum(s, a, k)]
        window(s, a, e, start, end) && a < k <= e + 1 ==> fits_i64(square_sum(s, a, k))
}

/// The mean price of `s[a..=e]`, rounded toward zero.
pub open spec fn mean_of(s: Seq<SecPrice>, a: int, e: int) -> int {
    trunc_div(price_sum(s, a, e + 1), e - a + 1)
}

/// The mean of the squares less the square of the mean, each mean rounded toward zero.
pub open spec fn variance_of(s: Seq<SecPrice>, a: int, e: int) -> int {
    trunc_div(square_sum(s, a, e + 1), e - a + 1) - mean_of(s, a, e) * mean_of(s, a, e)
}

pub open spec fn has_dt(s: Seq<SecPrice>, t: Timestamp) -> bool {
    exists|i: int| 0 <= i < s.len() && #[trigger] s[i].dt == t
}

proof fn lemma_square_sum_nonneg(s: Seq<SecPrice>, a: int, b: int)
    ensures
        square_sum(s, a, b) >= 0,
    decreases b - a,
{
    if b > a {
        lemma_square_sum_nonneg(s, a, b - 1);
        let p = price_value(s[b - 1]);
        assert(p * p >= 0) by (nonlinear_arith);
    }
}

/// The squared distances of the prices of `s[a..b]` from `x` sum to
/// `Q - 2xS + (b-a)x^2`, which is therefore not negative.
proof fn lemma_deviation_nonneg(s: Seq<SecPrice>, a: int, b: int, x: int)
    requires
        a <= b,
    ensures
        square_sum(s, a, b) - 2 * x * price_sum(s, a, b) + (b - a) * x * x >= 0,
    decreases b - a,
{
    if b > a {
        lemma_deviation_nonneg(s, a, b - 1, x);
        let p = price_value(s[b - 1]);
        let q0 = square_sum(s, a, b - 1);
        let s0 = price_sum(s, a, b - 1);
        let n0 = b - 1 - a;
        let qq = square_sum(s, a, b);
        let ss = price_sum(s, a, b);
        let nn = b - a;
        assert(qq == q0 + p * p);
        assert(ss == s0 + p);
        assert(qq - 2 * x * ss + nn * x * x >= 0) by (nonlinear_arith)
            requires
                qq == q0 + p * p,
                ss == s0 + p,
                nn == n0 + 1,
                q0 - 2 * x * s0 + n0 * x * x >= 0,
        ;
        assert((p - x) * (p - x) >= 0) by (nonlinear_arith);
    } else {
        let qq = square_sum(s, a, b);
        let ss = price_sum(s, a, b);
        let nn = b - a;
        assert(qq - 2 * x * ss + nn * x * x >= 0) by (nonlinear_arith)
            requires
                qq == 0,
                ss == 0,
                nn == 0,
        ;
    }
}

/// Cauchy-Schwarz for a window: `n * (sum of squares) >= (sum)^2`.
proof fn lemma_cauchy_schwarz(s: Seq<SecPrice>, a: int, b: int)
    requires
        a <= b,
    ensures
        (b - a) * square_sum(s, a, b) >= price_sum(s, a, b) * price_sum(s, a, b),
    decreases b - a,
{
    if b > a {
        lemma_cauchy_schwarz(s, a, b - 1);
        lemma_deviation_nonneg(s, a, b - 1, price_value(s[b - 1]));
        let x = price_value(s[b - 1]);
        let q0 = square_sum(s, a, b - 1);
        let s0 = price_sum(s, a, b - 1);
        let n0 = b - 1 - a;
        assert((n0 + 1) * (q0 + x * x) - (s0 + x) * (s0 + x) == (n0 * q0 - s0 * s0) + (q0 - 2 * x * s0 + n0 * x * x))
            by (nonlinear_arith);
    }
}

/// The square of the rounded mean is at most the rounded mean of the squares.
proof fn lemma_mean_square_le(total: int, squares: int, n: int)
    requires
        n > 0,
        squares >= 0,
        n * squares >= total * total,
    ensures
        trunc_div(total, n) * trunc_div(total, n) <= trunc_div(squares, n),
{
    let m = trunc_div(total, n);
    let am = if m >= 0 { m } else { -m };
    let at = if total >= 0 { total } else { -total };
    assert(am * n <= at) by (nonlinear_arith)
        requires
            n > 0,
            am == (if total >= 0 { total / n } else { (-total) / n }),
            at == (if total >= 0 { total } else { -total }),
    ;
    assert(m * m == am * am) by (nonlinear_arith)
        requires
            am == (if m >= 0 { m } else { -m }),
    ;
    assert(total * total == at * at) by (nonlinear_arith)
        requires
            at == (if total >= 0 { total } else { -total }),
    ;
    assert(am * n * (am * n) <= at * at) by (nonlinear_arith)
        requires
            0 <= am * n <= at,
    ;
    assert(am * am * n <= squares) by (nonlinear_arith)
        requires
            n > 0,
            am * n * (am * n) <= n * squares,
    ;
    assert(am * am <= squares / n) by (nonlinear_arith)
        requires
            n > 0,
            am * am * n <= squares,
            squares >= 0,
    ;
}

/// The variance of a window is never negative.
pub proof fn lemma_variance_nonneg(s: Seq<SecPrice>, a: int, e: int)
    requires
        0 <= a <= e,
    ensures
        variance_of(s, a, e) >= 0,
{
    lemma_cauchy_schwarz(s, a, e + 1);
    lemma_square_sum_nonneg(s, a, e + 1);
    lemma_mean_square_le(price_sum(s, a, e + 1), square_sum(s, a, e + 1), e - a + 1);
}

/// `i64::isqrt`: the square root rounded down.
#[verifier::external_body]
fn i64_isqrt(v: i64) -> (r: i64)
    requires
        v >= 0,
    ensures
        r >= 0,
        r * r <= v < (r + 1) * (r + 1),
{
    v.isqrt()
}

/// `s[i]` is the first entry stamped `t`.
pub open spec fn first_stamped(s: Seq<SecPrice>, i: int, t: Timestamp) -> bool {
    &&& 0 <= i < s.len()
    &&& s[i].dt == t
    &&& forall|j: int| 0 <= j < i ==> #[trigger] s[j].dt != t
}

/// The index of the first entry stamped `t` (meaningful when there is one).
pub open spec fn first_dt(s: Seq<SecPrice>, t: Timestamp) -> int {
    choose|i: int| first_stamped(s, i, t)
}

proof fn lemma_first_dt(s: Seq<SecPrice>, i: int, t: Timestamp)
    requires
        first_stamped(s, i, t),
    ensures
        first_dt(s, t) == i,
{
    let k = first_dt(s, t);
    assert(first_stamped(s, k, t));
    if k < i {
        assert(s[k].dt != t);
    } else if i < k {
        assert(s[i].dt != t);
    }
}

/// The variance of the window from the first entry stamped `start` to the first
/// stamped `end`: what `variance` returns, and what `std_deviation` takes the
/// square root of.
pub open spec fn window_variance(s: Seq<SecPrice>, start: Timestamp, end: Timestamp) -> int {
    variance_of(s, first_dt(s, start), first_dt(s, end))
}

/// Finds the first entry stamped `key`.
fn find_dt(v: &Vec<SecPrice>, key: Timestamp) -> (r: Option<usize>)
    requires
        dt_sorted(v@),
    ensures
        r matches Some(i) ==> first_stamped(v@, i as int, key),
        r is None ==> !has_dt(v@, key),
{
    let mut lo: usize = 0;
    let mut hi: usize = v.len();
    while lo < hi
        invariant
            lo <= hi <= v@.len(),
            dt_sorted(v@),
            forall|i: int| 0 <= i < lo ==> #[trigger] v@[i].dt < key,
            forall|i: int| hi <= i < v@.len() ==> #[trigger] v@[i].dt >= key,
        decreases hi - lo,
    {
        let mid = lo + (hi - lo) / 2;
        if v[mid].dt < key {
            lo = mid + 1;
        } else {
            hi = mid;
        }
    }
    if lo < v.len() && v[lo].dt == key {
        return Some(lo);
    }
    proof {
        assert forall|i: int| 0 <= i < v@.len() implies #[trigger] v@[i].dt != key by {
            if i >= lo {
                assert(v@[lo as int].dt <= v@[i].dt);
            }
        }
    }
    None
}

impl SecPriceVec {
    /// One price per pair, each stamped with the current time, in the given order.
    pub fn new(v: Vec<(Symbol, Option<i64>)>) -> (r: Self)
        ensures
            r.prices@.len() == v@.len(),
            forall|i: int|
                0 <= i < v@.len() ==> #[trigger] r.prices@[i].sym == v@[i].0 && r.prices@[i].price == v@[i].1,
    {
        let mut prices: Vec<SecPrice> = Vec::new();
        let mut i: usize = 0;
        while i < v.len()
            invariant
                i <= v@.len(),
                prices@.len() == i,
                forall|j: int|
                    0 <= j < i ==> #[trigger] prices@[j].sym == v@[j].0 && prices@[j].price == v@[j].1,
            decreases v@.len() - i,
        {
            let sym = v[i].0.clone();
            let price = v[i].1;
            prices.push(SecPrice::new(sym, price));
            i = i + 1;
        }
        Self { prices }
    }

    /// Adds a price at its place in time: behind every price stamped earlier and
    /// ahead of every price stamped at the same time or later, when the series is in
    /// time order.
    pub fn add_price(&mut self, sp: SecPrice)
        ensures
            exists|pos: int|
                0 <= pos <= old(self).prices@.len() && final(self).prices@ == old(self).prices@.insert(pos, sp)
                    && (dt_sorted(old(self).prices@) ==> (forall|i: int|
                    0 <= i < pos ==> #[trigger] old(self).prices@[i].dt < sp.dt) && (forall|i: int|
                    pos <= i < old(self).prices@.len() ==> #[trigger] old(self).prices@[i].dt >= sp.dt)),
            dt_sorted(old(self).prices@) ==> dt_sorted(final(self).prices@),
    {
        let key = sp.dt;
        let mut lo: usize = 0;
        let mut hi: usize = self.prices.len();
        while lo < hi
            invariant
                lo <= hi <= self.prices@.len(),
                self.prices@ == old(self).prices@,
                dt_sorted(self.prices@) ==> forall|i: int| 0 <= i < lo ==> #[trigger] self.prices@[i].dt < key,
                dt_sorted(self.prices@) ==> forall|i: int|
                    hi <= i < self.prices@.len() ==> #[trigger] self.prices@[i].dt >= key,
            decreases hi - lo,
        {
            let mid = lo + (hi - lo) / 2;
            if self.prices[mid].dt < key {
                lo = mid + 1;
            } else {
                hi = mid;
            }
        }
        let ghost old_prices = self.prices@;
        self.prices.insert(lo, sp);
        proof {
            let new_prices = self.prices@;
            if dt_sorted(old_prices) {
                assert forall|i: int, j: int| 0 <= i < j < new_prices.len() implies #[trigger] new_prices[i].dt
                    <= #[trigger] new_prices[j].dt by {
                    let i2 = if i < lo { i } else { i - 1 };
                    let j2 = if j < lo { j } else { j - 1 };
                    if i != lo && j != lo {
                        assert(new_prices[i] == old_prices[i2] && new_prices[j] == old_prices[j2]);
                    } else if i == lo {
                        assert(new_prices[j] == old_prices[j2]);
                    } else {
                        assert(new_prices[i] == old_prices[i2]);
                    }
                }
            }
            assert(0 <= lo <= old_prices.len() && new_prices == old_prices.insert(lo as int, sp));
        }
    }
}

impl SecPriceVec {
    /// The price of the last entry, if there is one.
    pub fn get_most_recent_price(&self) -> (r: Option<i64>)
        ensures
            r == (if self.prices@.len() > 0 { self.prices@.last().price } else { None }),
    {
        if self.prices.len() > 0 {
            return self.prices[self.prices.len() - 1].price;
        }
        None
    }

    /// The first entry stamped `start` and the first stamped `end`, when
    /// `start <= end` and both exist.
    fn window_bounds(&self, start: Timestamp, end: Timestamp) -> (r: Option<(usize, usize)>)
        requires
            dt_sorted(self.prices@),
        ensures
            match r {
                Some((a, e)) => window(self.prices@, a as int, e as int, start, end) && a == first_dt(
                    self.prices@,
                    start,
                ) && e == first_dt(self.prices@, end),
                None => !(start <= end && has_dt(self.prices@, start) && has_dt(self.prices@, end)),
            },
    {
        if start > end {
            return None;
        }
        let a = match find_dt(&self.prices, start) {
            Some(i) => i,
            None => return None,
        };
        let e = if start == end {
            a
        } else {
            match find_dt(&self.prices, end) {
                Some(j) => j,
                None => return None,
            }
        };
        proof {
            if e < a {
                assert(self.prices@[e as int].dt <= self.prices@[a as int].dt);
            }
            lemma_first_dt(self.prices@, a as int, start);
            lemma_first_dt(self.prices@, e as int, end);
        }
        Some((a, e))
    }

    /// The sum of the prices of `prices[a..=e]`.
    fn window_sum(&self, a: usize, e: usize, Ghost(start): Ghost<Timestamp>, Ghost(end): Ghost<Timestamp>) -> (r: i64)
        requires
            window(self.prices@, a as int, e as int, start, end),
            sums_fit(self.prices@, start, end),
        ensures
            r == price_sum(self.prices@, a as int, e + 1),
    {
        let len = self.prices.len();
        let mut acc: i64 = 0;
        let mut k: usize = a;
        while k <= e
            invariant
                len == self.prices@.len(),
                window(self.prices@, a as int, e as int, start, end),
                sums_fit(self.prices@, start, end),
                a <= k <= e + 1,
                acc == price_sum(self.prices@, a as int, k as int),
            decreases e + 1 - k,
        {
            let v: i64 = match self.prices[k].price {
                Some(x) => x,
                None => 0,
            };
            proof {
                assert(fits_i64(price_sum(self.prices@, a as int, k + 1)));
            }
            acc = acc + v;
            k = k + 1;
        }
        acc
    }

    /// The sum of the squared prices of `prices[a..=e]`.
    fn window_square_sum(
        &self,
        a: usize,
        e: usize,
        Ghost(start): Ghost<Timestamp>,
        Ghost(end): Ghost<Timestamp>,
    ) -> (r: i64)
        requires
            window(self.prices@, a as int, e as int, start, end),
            squares_fit(self.prices@, start, end),
        ensures
            r == square_sum(self.prices@, a as int, e + 1),
    {
        let len = self.prices.len();
        let mut acc: i64 = 0;
        let mut k: usize = a;
        while k <= e
            invariant
                len == self.prices@.len(),
                window(self.prices@, a as int, e as int, start, end),
                squares_fit(self.prices@, start, end),
                a <= k <= e + 1,
                acc == square_sum(self.prices@, a as int, k as int),
            decreases e + 1 - k,
        {
            proof {
                assert(fits_i64(price_value(self.prices@[k as int]) * price_value(self.prices@[k as int])));
                assert(fits_i64(square_sum(self.prices@, a as int, k + 1)));
            }
            let v: i64 = match self.prices[k].price {
                Some(x) => x * x,
                None => 0,
            };
            acc = acc + v;
            k = k + 1;
        }
        acc
    }

    /// The mean price between the entries stamped `start` and `end`, rounded
    /// toward zero; `None` when `start > end` or either stamp is missing.
    pub fn mean(&self, start: Timestamp, end: Timestamp) -> (r: Option<i64>)
        requires
            dt_sorted(self.prices@),
            sums_fit(self.prices@, start, end),
        ensures
            r is Some <==> (start <= end && has_dt(self.prices@, start) && has_dt(self.prices@, end)),
            r matches Some(m) ==> m == mean_of(self.prices@, first_dt(self.prices@, start), first_dt(self.prices@, end)),
    {
        let (a, e) = match self.window_bounds(start, end) {
            Some(w) => w,
            None => return None,
        };
        let total = self.window_sum(a, e, Ghost(start), Ghost(end));
        let len = self.prices.len();
        assert(e < len);
        let n = e - a + 1;
        proof {
            assert(-(n as int) * 0x8000_0000_0000_0000 <= total <= (n as int) * 0x7fff_ffff_ffff_ffff)
                by (nonlinear_arith)
                requires
                    n >= 1,
                    i64::MIN <= total <= i64::MAX,
            ;
        }
        let m = trunc_div_i128(total as i128, n as i128);
        proof {
            assert(window(self.prices@, a as int, e as int, start, end));
        }
        Some(m)
    }

    /// The mean of the squared prices less the square of the mean price, between
    /// the entries stamped `start` and `end`, each mean rounded toward zero.
    pub fn variance(&self, start: Timestamp, end: Timestamp) -> (r: Option<i64>)
        requires
            dt_sorted(self.prices@),
            sums_fit(self.prices@, start, end),
            squares_fit(self.prices@, start, end),
        ensures
            r is Some <==> (start <= end && has_dt(self.prices@, start) && has_dt(self.prices@, end)),
            r matches Some(v) ==> v >= 0 && v == window_variance(self.prices@, start, end),
    {
        let (a, e) = match self.window_bounds(start, end) {
            Some(w) => w,
            None => return None,
        };
        let total = self.window_sum(a, e, Ghost(start), Ghost(end));
        let squares = self.window_square_sum(a, e, Ghost(start), Ghost(end));
        let len = self.prices.len();
        assert(e < len);
        let n = e - a + 1;
        proof {
            assert(-(n as int) * 0x8000_0000_0000_0000 <= total <= (n as int) * 0x7fff_ffff_ffff_ffff)
                by (nonlinear_arith)
                requires
                    n >= 1,
                    i64::MIN <= total <= i64::MAX,
            ;
            assert(-(n as int) * 0x8000_0000_0000_0000 <= squares <= (n as int) * 0x7fff_ffff_ffff_ffff)
                by (nonlinear_arith)
                requires
                    n >= 1,
                    i64::MIN <= squares <= i64::MAX,
            ;
        }
        let mu = trunc_div_i128(total as i128, n as i128);
        let r = trunc_div_i128(squares as i128, n as i128);
        proof {
            lemma_variance_nonneg(self.prices@, a as int, e as int);
            lemma_square_sum_nonneg(self.prices@, a as int, e + 1);
            assert(r >= 0);
            assert(mu * mu >= 0) by (nonlinear_arith);
            assert(window(self.prices@, a as int, e as int, start, end));
        }
        let var = r - mu * mu;
        Some(var)
    }

    /// The square root of what `variance` gives for the same stamps, rounded down;
    /// `None` exactly when `variance` gives `None`.
    pub fn std_deviation(&self, start: Timestamp, end: Timestamp) -> (r: Option<i64>)
        requires
            dt_sorted(self.prices@),
            sums_fit(self.prices@, start, end),
            squares_fit(self.prices@, start, end),
        ensures
            r is Some <==> (start <= end && has_dt(self.prices@, start) && has_dt(self.prices@, end)),
            r matches Some(d) ==> d >= 0 && d * d <= window_variance(self.prices@, start, end) < (d + 1) * (d
                + 1),
    {
        let var = match self.variance(start, end) {
            Some(v) => v,
            None => return None,
        };
        Some(i64_isqrt(var))
    }
}

} // verus!
