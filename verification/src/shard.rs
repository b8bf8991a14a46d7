use vstd::prelude::*;

use std::hash::BuildHasher;

use crate::order::{ClientId, Order, OrderCancel, OrderType, Symbol, TimedOrder};
use crate::security::{
    SecPrice, SecPriceVec, cancel_post, filled, mid_price, is_buy_kind, is_limit_kind, match_fits, match_post, qty_total, sweep, Security,
    SecurityData, SecurityDataRef, SecurityView, sides_well_formed,
};

verus! {

/// `str`'s `Hash` fed to a fresh `DefaultHasher`: a function of the string alone.
pub uninterp spec fn default_hash_of(s: Seq<char>) -> u64;

/// Hashes `s` as `DefaultHasher::new()`, `Hash::hash` and `finish` do, through
/// `BuildHasher::hash_one`.
#[verifier::external_body]
fn str_hash(s: &str) -> (r: u64)
    ensures
        r == default_hash_of(s@),
{
    std::hash::BuildHasherDefault::<std::collections::hash_map::DefaultHasher>::default().hash_one(s)
}

/// The shard, of `n`, that handles `symbol`.
pub fn shard_for(symbol: &Symbol, n: usize) -> (r: usize)
    requires
        n > 0,
    ensures
        r as int == (default_hash_of(symbol.0@) as int) % (n as int),
        r < n,
{
    let h = str_hash(symbol.as_str());
    (h % (n as u64)) as usize
}

/// What a shard works on: a new order, or a request to cancel one.
#[derive(Debug)]
pub enum ShardedOrder {
    Add(TimedOrder),
    Cancel(OrderCancel),
}

/// What a shard does after handling one request.
#[derive(Debug)]
pub struct ShardStep {
    /// The order slot to give back to its client.
    pub drop_slot: Option<(ClientId, u16)>,
    /// The security whose price to publish, with its price.
    pub price: Option<(Symbol, Option<i64>)>,
    /// Trade notices to send to the owners of resting orders.
    pub notices: Vec<Vec<Order>>,
    /// Whether to write a snapshot of the shard now.
    pub snapshot_due: bool,
}

/// The books of the securities one shard handles.
pub struct Shard {
    securities: Vec<Security>,
}

impl View for Shard {
    type V = Seq<SecurityView>;

    closed spec fn view(&self) -> Seq<SecurityView> {
        self.securities@.map_values(|s: Security| s@)
    }
}

/// The book in `v` for `sym`, if there is one.
pub open spec fn book_index(v: Seq<SecurityView>, sym: Symbol, i: int) -> bool {
    0 <= i < v.len() && v[i].sym.0@ == sym.0@
}

pub open spec fn has_book(v: Seq<SecurityView>, sym: Symbol) -> bool {
    exists|i: int| #[trigger] book_index(v, sym, i)
}

/// A book with nothing in it.
pub open spec fn empty_book(id: u128, sym: Symbol) -> SecurityView {
    SecurityView { id, sym, bid: Seq::empty(), ask: Seq::empty(), notices: Seq::empty() }
}

/// A matched order that is filled completely.
pub open spec fn fills_completely(v: SecurityView, kind: OrderType, to: TimedOrder) -> bool {
    let side = if is_buy_kind(kind) { v.ask } else { v.bid };
    let want = to.order.quantity as nat;
    &&& !(!is_limit_kind(kind) && want > qty_total(side))
    &&& filled(sweep(side, want, is_buy_kind(kind), is_limit_kind(kind), to.order.price).1) == want
}

/// `add_order` can take `to`: an order with a kind has a positive quantity, and
/// what rests after matching fits a `usize`.
pub open spec fn add_fits(v: Seq<SecurityView>, to: TimedOrder) -> bool {
    to.order.kind matches Some(k) ==> {
        &&& to.order.quantity > 0
        &&& forall|i: int| #[trigger] book_index(v, to.order.sym, i) ==> match_fits(v[i], k, to)
    }
}

/// What `add_order` leaves behind: the book for the order's symbol (made empty
/// first when there is none) has matched the order.
pub open spec fn add_post(old: Seq<SecurityView>, new: Seq<SecurityView>, to: TimedOrder, r: Option<Order>) -> bool {
    let sym = to.order.sym;
    if has_book(old, sym) {
        exists|i: int|
            #[trigger] book_index(old, sym, i) && new.len() == old.len() && (forall|j: int|
                0 <= j < old.len() && j != i ==> new[j] == old[j]) && match to.order.kind {
                Some(k) => match_post(old[i], new[i], k, to, r),
                None => new[i] == old[i] && r is None,
            }
    } else {
        &&& new.len() == old.len() + 1
        &&& new.take(old.len() as int) == old
        &&& match to.order.kind {
            Some(k) => match_post(empty_book(new.last().id, sym), new.last(), k, to, r),
            None => new.last() == empty_book(new.last().id, sym) && r is None,
        }
    }
}

/// Adding an order touches the book of its symbol alone: every book for another
/// symbol is left as it was, and the order is matched against the book for its
/// symbol, or against an empty book made for it, which then comes last.
pub proof fn law_add_order_touches_one_book(
    old: Seq<SecurityView>,
    new: Seq<SecurityView>,
    to: TimedOrder,
    r: Option<Order>,
    k: OrderType,
)
    requires
        add_post(old, new, to, r),
        to.order.kind == Some(k),
    ensures
        new.len() >= old.len(),
        forall|j: int| 0 <= j < old.len() && old[j].sym.0@ != to.order.sym.0@ ==> #[trigger] new[j] == old[j],
        has_book(old, to.order.sym) ==> exists|i: int|
            #[trigger] book_index(old, to.order.sym, i) && match_post(old[i], new[i], k, to, r),
        !has_book(old, to.order.sym) ==> new.len() == old.len() + 1 && match_post(
            empty_book(new.last().id, to.order.sym),
            new.last(),
            k,
            to,
            r,
        ),
{
    if !has_book(old, to.order.sym) {
        assert forall|j: int| 0 <= j < old.len() && old[j].sym.0@ != to.order.sym.0@ implies #[trigger] new[j]
            == old[j] by {
            assert(new.take(old.len() as int)[j] == new[j]);
        }
    }
}

/// Matching `to` against the book for its symbol would fill it completely.
pub open spec fn add_fills(v: Seq<SecurityView>, to: TimedOrder) -> bool {
    to.order.kind matches Some(k) && if has_book(v, to.order.sym) {
        exists|i: int| #[trigger] book_index(v, to.order.sym, i) && fills_completely(v[i], k, to)
    } else {
        fills_completely(empty_book(0, to.order.sym), k, to)
    }
}

/// What a cancel request does to the book for its symbol.
pub open spec fn book_cancel_post(old: SecurityView, new: SecurityView, oc: OrderCancel, r: bool) -> bool {
    let is_buy = is_buy_kind(oc.kind);
    &&& new.id == old.id
    &&& new.sym == old.sym
    &&& new.notices == old.notices
    &&& (is_buy ==> new.ask == old.ask)
    &&& (!is_buy ==> new.bid == old.bid)
    &&& cancel_post(
        if is_buy { old.bid } else { old.ask },
        if is_buy { new.bid } else { new.ask },
        oc.client_id,
        oc.order_id,
        oc.price_level,
        r,
    )
}

/// What `cancel_order` does: a request for a symbol without a book changes nothing
/// and answers `false`.
pub open spec fn shard_cancel_post(old: Seq<SecurityView>, new: Seq<SecurityView>, oc: OrderCancel, r: bool) -> bool {
    if has_book(old, oc.sym) {
        exists|i: int|
            #[trigger] book_index(old, oc.sym, i) && new == old.update(i, new[i]) && book_cancel_post(
                old[i],
                new[i],
                oc,
                r,
            )
    } else {
        new == old && !r
    }
}

proof fn lemma_empty_fits(id: u128, sym: Symbol, k: OrderType, to: TimedOrder)
    ensures
        match_fits(empty_book(id, sym), k, to),
{
    let side = Seq::<TimedOrder>::empty();
    assert(sweep(side, to.order.quantity as nat, is_buy_kind(k), is_limit_kind(k), to.order.price).1 =~= Seq::<
        (Order, nat),
    >::empty());
    assert(filled(Seq::<(Order, nat)>::empty()) == 0);
}

impl Shard {
    /// Every book is well formed and no two books share a symbol.
    pub closed spec fn wf(&self) -> bool {
        &&& forall|i: int| 0 <= i < self.securities@.len() ==> #[trigger] self.securities@[i].wf()
        &&& forall|i: int, j: int|
            0 <= i < j < self.securities@.len() ==> #[trigger] self.securities@[i]@.sym.0@
                != #[trigger] self.securities@[j]@.sym.0@
    }

    /// A shard with no books.
    pub fn new() -> (r: Self)
        ensures
            r.wf(),
            r@ == Seq::<SecurityView>::empty(),
    {
        let r = Shard { securities: Vec::new() };
        assert(r@ =~= Seq::<SecurityView>::empty());
        r
    }

    /// The book for `sym`.
    fn find(&self, sym: &Symbol) -> (r: Option<usize>)
        ensures
            match r {
                Some(i) => book_index(self@, *sym, i as int),
                None => !has_book(self@, *sym),
            },
    {
        let mut i: usize = 0;
        while i < self.securities.len()
            invariant
                i <= self.securities@.len(),
                forall|j: int| 0 <= j < i ==> !book_index(self@, *sym, j),
            decreases self.securities@.len() - i,
        {
            if *self.securities[i].sym() == *sym {
                return Some(i);
            }
            i = i + 1;
        }
        None
    }

    /// Matches `to` against the book for its symbol, making an empty book for the
    /// symbol first when there is none. An order without a kind matches nothing.
    pub fn add_order(&mut self, to: TimedOrder) -> (r: Option<Order>)
        requires
            old(self).wf(),
            add_fits(old(self)@, to),
        ensures
            final(self).wf(),
            add_post(old(self)@, final(self)@, to, r),
    {
        let ghost old_view = self@;
        let found = self.find(&to.order.sym);
        let idx = match found {
            Some(i) => i,
            None => {
                let sec = Security::new(to.order.sym.clone());
                self.securities.push(sec);
                proof {
                    let n = self.securities@.len() - 1;
                    assert(self@.take(n) =~= old_view);
                    assert forall|i: int, j: int|
                        0 <= i < j < self.securities@.len() implies #[trigger] self.securities@[i]@.sym.0@
                        != #[trigger] self.securities@[j]@.sym.0@ by {
                        if j == n {
                            assert(!book_index(old_view, to.order.sym, i));
                            assert(self.securities@[i]@ == old_view[i]);
                        } else {
                            assert(self.securities@[i] == old(self).securities@[i]);
                            assert(self.securities@[j] == old(self).securities@[j]);
                        }
                    }
                }
                self.securities.len() - 1
            },
        };
        let ghost before = self.securities@;
        let ghost before_view = self@;
        assert(before_view[idx as int] == before[idx as int]@);
        let mut sec = self.securities.remove(idx);
        proof {
            assert(sec.wf());
            if found is None {
                assert(sec@ == empty_book(sec@.id, to.order.sym));
                if let Some(k) = to.order.kind {
                    lemma_empty_fits(sec@.id, to.order.sym, k, to);
                }
            } else {
                assert(book_index(old_view, to.order.sym, idx as int));
            }
        }
        let ghost sec_old = sec@;
        let r = match to.order.kind {
            Some(OrderType::MarketBuy) => sec.buy_nowait(to),
            Some(OrderType::MarketSell) => sec.sell_nowait(to),
            Some(OrderType::LimitSell) => sec.sell_wait(to),
            Some(OrderType::LimitBuy) => sec.buy_wait(to),
            None => None,
        };
        proof {
            assert(sec@.sym == sec_old.sym);
        }
        self.securities.insert(idx, sec);
        proof {
            assert(self.securities@ =~= before.update(idx as int, sec));
            let nv = self@;
            assert(nv =~= before_view.update(idx as int, sec@));
            assert forall|i: int, j: int|
                0 <= i < j < self.securities@.len() implies #[trigger] self.securities@[i]@.sym.0@
                != #[trigger] self.securities@[j]@.sym.0@ by {
                assert(before[i]@.sym.0@ != before[j]@.sym.0@);
            }
            if found is Some {
                assert(book_index(old_view, to.order.sym, idx as int));
                assert(add_post(old_view, nv, to, r));
            } else {
                assert(nv.take(old_view.len() as int) =~= old_view);
                assert(nv.last() == sec@);
                assert(sec_old == empty_book(sec@.id, to.order.sym));
                assert(!has_book(old_view, to.order.sym));
            }
        }
        r
    }
}

impl Shard {
    /// Cancels a resting order in the book for the request's symbol.
    pub fn cancel_order(&mut self, oc: OrderCancel) -> (r: bool)
        requires
            old(self).wf(),
        ensures
            final(self).wf(),
            shard_cancel_post(old(self)@, final(self)@, oc, r),
    {
        let ghost old_view = self@;
        match self.find(&oc.sym) {
            None => false,
            Some(idx) => {
                let ghost before = self.securities@;
                let mut sec = self.securities.remove(idx);
                let ghost sec_old = sec@;
                let r = sec.cancel_order_by_id(oc.client_id, oc.order_id, oc.price_level, oc.kind);
                self.securities.insert(idx, sec);
                proof {
                    assert(self.securities@ =~= before.update(idx as int, sec));
                    assert(self@ =~= old_view.update(idx as int, self@[idx as int]));
                    assert(self@ =~= old_view.update(idx as int, sec@));
                    assert forall|i: int, j: int|
                        0 <= i < j < self.securities@.len() implies #[trigger] self.securities@[i]@.sym.0@
                        != #[trigger] self.securities@[j]@.sym.0@ by {
                        assert(before[i]@.sym.0@ != before[j]@.sym.0@);
                    }
                    assert(old_view[idx as int] == sec_old);
                    assert(book_cancel_post(old_view[idx as int], self@[idx as int], oc, r));
                    assert(book_index(old_view, oc.sym, idx as int));
                }
                r
            },
        }
    }
}

/// The slot a filled order gives back: its client's and its own id.
pub open spec fn slot_of(fo: Option<Order>) -> Option<(ClientId, u16)> {
    match fo {
        Some(o) => Some((o.client_id.unwrap(), o.order_id)),
        None => None,
    }
}

/// `i` counts requests modulo 2^16; `j` is the count after one more.
pub open spec fn next_count(i: usize, j: usize) -> bool {
    j == (i + 1) % 65536
}

impl Shard {
    fn take_book_notices(&mut self, idx: usize) -> (r: (Vec<Vec<Order>>, Option<i64>))
        requires
            old(self).wf(),
            idx < old(self)@.len(),
        ensures
            final(self).wf(),
            final(self)@ == old(self)@.update(idx as int, SecurityView { notices: Seq::empty(), ..old(self)@[idx as int] }),
            r.0@ == old(self)@[idx as int].notices,
            r.1 == mid_price(old(self)@[idx as int]),
    {
        let ghost before = self.securities@;
        let ghost old_view = self@;
        let mut sec = self.securities.remove(idx);
        let notices = sec.take_notices();
        let price = sec.current_price();
        self.securities.insert(idx, sec);
        proof {
            assert(self.securities@ =~= before.update(idx as int, sec));
            assert(self@ =~= old_view.update(idx as int, sec@));
            assert(old_view[idx as int] == before[idx as int]@);
            assert forall|i: int, j: int|
                0 <= i < j < self.securities@.len() implies #[trigger] self.securities@[i]@.sym.0@
                != #[trigger] self.securities@[j]@.sym.0@ by {
                assert(before[i]@.sym.0@ != before[j]@.sym.0@);
            }
        }
        (notices, price)
    }

    /// Handles one request, as a shard's loop does: a cancel gives back the order's
    /// slot when it succeeds; a new order is matched, gives back its slot when it is
    /// filled completely, hands out the trade notices of its book, publishes the
    /// book's price, and counts toward the next snapshot, due every 2^16 orders.
    pub fn handle(&mut self, so: ShardedOrder, it: &mut usize) -> (step: ShardStep)
        requires
            old(self).wf(),
            *old(it) < 65536,
            so matches ShardedOrder::Add(to) ==> add_fits(old(self)@, to) && (add_fills(old(self)@, to)
                ==> to.order.client_id is Some),
        ensures
            final(self).wf(),
            *final(it) < 65536,
            match so {
                ShardedOrder::Cancel(oc) => {
                    &&& shard_cancel_post(old(self)@, final(self)@, oc, step.drop_slot is Some)
                    &&& step.drop_slot is Some ==> step.drop_slot == Some((oc.client_id, oc.order_id))
                    &&& step.price is None
                    &&& step.notices@.len() == 0
                    &&& !step.snapshot_due
                    &&& *final(it) == *old(it)
                },
                ShardedOrder::Add(to) => exists|mid: Seq<SecurityView>, fo: Option<Order>, i: int|
                    #![trigger add_post(old(self)@, mid, to, fo), book_index(mid, to.order.sym, i)]
                    {
                        &&& add_post(old(self)@, mid, to, fo)
                        &&& book_index(mid, to.order.sym, i)
                        &&& final(self)@ == mid.update(i, SecurityView { notices: Seq::empty(), ..mid[i] })
                        &&& step.notices@ == mid[i].notices
                        &&& fo matches Some(o) ==> o.client_id is Some
                        &&& step.drop_slot == slot_of(fo)
                        &&& step.price == Some((to.order.sym, mid_price(mid[i])))
                        &&& next_count(*old(it), *final(it))
                        &&& step.snapshot_due == (*final(it) == 0)
                    },
            },
    {
        match so {
            ShardedOrder::Cancel(oc) => {
                let client_id = oc.client_id;
                let order_id = oc.order_id;
                let done = self.cancel_order(oc);
                let drop_slot = if done { Some((client_id, order_id)) } else { None };
                ShardStep { drop_slot, price: None, notices: Vec::new(), snapshot_due: false }
            },
            ShardedOrder::Add(to) => {
                let ghost old_view = self@;
                let ghost to0 = to;
                let sym = to.order.sym.clone();
                let fo = self.add_order(to);
                let ghost mid = self@;
                proof {
                    if has_book(old_view, sym) {
                        let i = choose|i: int| #[trigger] book_index(old_view, sym, i) && mid.len() == old_view.len()
                            && (forall|j: int| 0 <= j < old_view.len() && j != i ==> mid[j] == old_view[j])
                            && match to0.order.kind {
                            Some(k) => match_post(old_view[i], mid[i], k, to0, fo),
                            None => mid[i] == old_view[i] && fo is None,
                        };
                        assert(book_index(mid, sym, i));
                        if fo is Some {
                            assert(fills_completely(old_view[i], to0.order.kind.unwrap(), to0));
                            assert(add_fills(old_view, to0));
                        }
                    } else {
                        assert(book_index(mid, sym, mid.len() - 1));
                        if fo is Some {
                            let k = to0.order.kind.unwrap();
                            assert(fills_completely(empty_book(mid.last().id, sym), k, to0));
                            assert(empty_book(mid.last().id, sym).ask == empty_book(0, sym).ask);
                            assert(empty_book(mid.last().id, sym).bid == empty_book(0, sym).bid);
                            assert(fills_completely(empty_book(0, sym), k, to0));
                        }
                    }
                }
                let idx = match self.find(&sym) {
                    Some(i) => i,
                    None => {
                        return ShardStep { drop_slot: None, price: None, notices: Vec::new(), snapshot_due: false };
                    },
                };
                let drop_slot = match &fo {
                    Some(o) => match o.client_id {
                        Some(c) => Some((c, o.order_id)),
                        None => None,
                    },
                    None => None,
                };
                let (notices, price) = self.take_book_notices(idx);
                let next: usize = *it + 1;
                proof {
                    assert(next & 65535 == 0 <==> next == 65536) by (bit_vector)
                        requires
                            1 <= next <= 65536,
                    ;
                }
                let due = next & 65535 == 0;
                *it = if due { 0 } else { next };
                proof {
                    assert(book_index(mid, to0.order.sym, idx as int));
                }
                ShardStep { drop_slot, price: Some((sym, price)), notices, snapshot_due: due }
            },
        }
    }

    /// Borrows every book for a snapshot.
    pub fn to_data_refs(&self) -> (r: Vec<SecurityDataRef<'_>>)
        ensures
            r@.len() == self@.len(),
            forall|i: int|
                0 <= i < r@.len() ==> *(#[trigger] r@[i]).sym == self@[i].sym && r@[i].bid@ == self@[i].bid
                    && r@[i].ask@ == self@[i].ask,
    {
        let mut out: Vec<SecurityDataRef<'_>> = Vec::new();
        let mut i: usize = 0;
        while i < self.securities.len()
            invariant
                i <= self.securities@.len(),
                out@.len() == i,
                forall|j: int|
                    0 <= j < i ==> *(#[trigger] out@[j]).sym == self@[j].sym && out@[j].bid@ == self@[j].bid
                        && out@[j].ask@ == self@[j].ask,
            decreases self.securities@.len() - i,
        {
            out.push(self.securities[i].to_data_ref());
            i = i + 1;
        }
        out
    }

    /// Loads a book from a snapshot, in place of any book for the same symbol.
    /// Returns whether the snapshot held a well-formed book.
    pub fn load(&mut self, d: SecurityData) -> (r: bool)
        requires
            old(self).wf(),
        ensures
            final(self).wf(),
            r == sides_well_formed(d.bid@, d.ask@),
            load_post(old(self)@, final(self)@, d, r),
    {
        let ghost old_view = self@;
        let sec = match Security::from_data(d) {
            Some(s) => s,
            None => return false,
        };
        let ghost sym = sec@.sym;
        match self.find(sec.sym()) {
            Some(idx) => {
                let ghost before = self.securities@;
                self.securities.set(idx, sec);
                proof {
                    assert(self.securities@ =~= before.update(idx as int, sec));
                    assert(self@ =~= old_view.update(idx as int, self@[idx as int]));
                    assert forall|i: int, j: int|
                        0 <= i < j < self.securities@.len() implies #[trigger] self.securities@[i]@.sym.0@
                        != #[trigger] self.securities@[j]@.sym.0@ by {
                        assert(before[i]@.sym.0@ != before[j]@.sym.0@);
                    }
                    assert(book_index(self@, sym, idx as int));
                }
            },
            None => {
                self.securities.push(sec);
                proof {
                    let n = self.securities@.len() - 1;
                    assert forall|i: int, j: int|
                        0 <= i < j < self.securities@.len() implies #[trigger] self.securities@[i]@.sym.0@
                        != #[trigger] self.securities@[j]@.sym.0@ by {
                        if j == n {
                            assert(!book_index(old_view, sym, i));
                            assert(self.securities@[i]@ == old_view[i]);
                        } else {
                            assert(self.securities@[i] == old(self).securities@[i]);
                            assert(self.securities@[j] == old(self).securities@[j]);
                        }
                    }
                    assert(book_index(self@, sym, n));
                    assert(self@ =~= old_view.push(self@.last()));
                }
            },
        }
        true
    }
}

#[verifier::external_type_specification]
#[verifier::external_body]
#[verifier::reject_recursive_types(K)]
#[verifier::reject_recursive_types(V)]
#[verifier::reject_recursive_types(S)]
pub struct ExDashMap<K, V, S>(dashmap::DashMap<K, V, S>);

/// `DashMap::iter`, cloning each value. Other threads write the map meanwhile and
/// it is walked in hash order, so nothing is claimed of what comes back.
#[verifier::external_body]
fn dashmap_values(m: &dashmap::DashMap<Symbol, SecPrice>) -> Vec<SecPrice> {
    m.iter().map(|kv| kv.value().clone()).collect()
}

/// The latest price of every security, in no particular order.
pub fn list_all_security_prices(global_prices: &dashmap::DashMap<Symbol, SecPrice>) -> SecPriceVec {
    SecPriceVec { prices: dashmap_values(global_prices) }
}

/// A book just read from `d`: its symbol and sides, and no notices.
pub open spec fn loaded_from(v: SecurityView, d: SecurityData) -> bool {
    &&& v.sym == d.sym
    &&& v.bid == d.bid@
    &&& v.ask == d.ask@
    &&& v.notices == Seq::<Vec<Order>>::empty()
}

/// What `load` does: a snapshot that is no book changes nothing; otherwise the
/// book read from it takes the place of the book for its symbol, or is added last
/// when there is none.
pub open spec fn load_post(old: Seq<SecurityView>, new: Seq<SecurityView>, d: SecurityData, r: bool) -> bool {
    if !r {
        new == old
    } else if has_book(old, d.sym) {
        exists|i: int| #[trigger] book_index(old, d.sym, i) && new == old.update(i, new[i]) && loaded_from(new[i], d)
    } else {
        new == old.push(new.last()) && loaded_from(new.last(), d)
    }
}

/// What `accepts` answers: an order without a kind is taken; otherwise it needs a
/// positive quantity and a client id, and for a limit order, where its symbol has a
/// book, what the side it would rest on holds plus its own quantity must fit a `usize`.
pub open spec fn accepts_order(v: Seq<SecurityView>, to: TimedOrder) -> bool {
    match to.order.kind {
        None => true,
        Some(k) => {
            &&& to.order.quantity > 0
            &&& to.order.client_id is Some
            &&& is_limit_kind(k) ==> forall|i: int|
                #[trigger] book_index(v, to.order.sym, i) ==> qty_total(
                    if is_buy_kind(k) { v[i].bid } else { v[i].ask },
                ) + to.order.quantity <= usize::MAX
        },
    }
}

/// An order without a kind is always taken.
pub proof fn law_admission_kindless(v: Seq<SecurityView>, to: TimedOrder)
    requires
        to.order.kind is None,
    ensures
        accepts_order(v, to),
{
}

/// What the shard admits of an order of kind `k` is decided by the order, its
/// symbol's book and the room on the side it would rest on: it needs a positive
/// quantity and a client id; with both, a market order is taken, a limit order for
/// a symbol that has no book yet is taken, and a limit order for a symbol whose
/// book is `v[i]` (the only one for it) is taken exactly when what rests on its
/// side plus its own quantity fits a `usize`.
pub proof fn law_admission(v: Seq<SecurityView>, to: TimedOrder, k: OrderType, i: int)
    requires
        to.order.kind == Some(k),
    ensures
        accepts_order(v, to) ==> to.order.quantity > 0 && to.order.client_id is Some,
        to.order.quantity > 0 && to.order.client_id is Some && !is_limit_kind(k) ==> accepts_order(v, to),
        to.order.quantity > 0 && to.order.client_id is Some && !has_book(v, to.order.sym) ==> accepts_order(v, to),
        to.order.quantity > 0 && to.order.client_id is Some && is_limit_kind(k) && book_index(v, to.order.sym, i)
            && (forall|j: int| #[trigger] book_index(v, to.order.sym, j) ==> j == i) ==> (accepts_order(v, to)
            <==> qty_total(if is_buy_kind(k) { v[i].bid } else { v[i].ask }) + to.order.quantity <= usize::MAX),
{
    if to.order.quantity > 0 && to.order.client_id is Some && !has_book(v, to.order.sym) {
        assert forall|j: int| !#[trigger] book_index(v, to.order.sym, j) by {
            if book_index(v, to.order.sym, j) {
                assert(has_book(v, to.order.sym));
            }
        }
    }
}

/// Admission does not look at the price: two orders that differ only in price are
/// both taken or both refused.
pub proof fn law_admission_ignores_price(v: Seq<SecurityView>, to: TimedOrder, p: i64)
    ensures
        accepts_order(v, to) == accepts_order(
            v,
            TimedOrder { order: Order { price: p, ..to.order }, ..to },
        ),
{
    let to2 = TimedOrder { order: Order { price: p, ..to.order }, ..to };
    assert(to2.order.sym == to.order.sym && to2.order.kind == to.order.kind);
    assert(to2.order.quantity == to.order.quantity && to2.order.client_id == to.order.client_id);
    if let Some(k) = to.order.kind {
        assert((forall|i: int| #[trigger] book_index(v, to.order.sym, i) ==> qty_total(
            if is_buy_kind(k) { v[i].bid } else { v[i].ask },
        ) + to.order.quantity <= usize::MAX) == (forall|i: int| #[trigger] book_index(v, to2.order.sym, i) ==> qty_total(
            if is_buy_kind(k) { v[i].bid } else { v[i].ask },
        ) + to2.order.quantity <= usize::MAX));
    }
}

impl Shard {
    /// A cheap test that `add_order` and `handle` can take `to`: an order without a
    /// kind always; otherwise one with a positive quantity and a client id and, for
    /// a limit order, when the side it would rest on and its own quantity together
    /// fit a `usize`.
    pub fn accepts(&self, to: &TimedOrder) -> (r: bool)
        requires
            self.wf(),
        ensures
            r == accepts_order(self@, *to),
            r ==> add_fits(self@, *to) && (add_fills(self@, *to) ==> to.order.client_id is Some),
    {
        let k = match to.order.kind {
            None => return true,
            Some(k) => k,
        };
        if to.order.quantity == 0 || to.order.client_id.is_none() {
            return false;
        }
        match self.find(&to.order.sym) {
            None => {
                proof {
                    assert forall|i: int| #[trigger] book_index(self@, to.order.sym, i) implies match_fits(
                        self@[i],
                        k,
                        *to,
                    ) by {
                        assert(has_book(self@, to.order.sym));
                    }
                }
                true
            },
            Some(idx) => {
                let sec = &self.securities[idx];
                let ok = match k {
                    OrderType::MarketBuy | OrderType::MarketSell => true,
                    OrderType::LimitBuy => sec.get_q(&OrderType::MarketSell) <= usize::MAX - to.order.quantity,
                    OrderType::LimitSell => sec.get_q(&OrderType::MarketBuy) <= usize::MAX - to.order.quantity,
                };
                proof {
                    assert(self@[idx as int] == self.securities@[idx as int]@);
                    assert forall|i: int| #[trigger] book_index(self@, to.order.sym, i) implies i == idx by {
                        assert(self.securities@[i]@.sym.0@ == self.securities@[idx as int]@.sym.0@);
                    }
                    if ok {
                        assert forall|i: int| #[trigger] book_index(self@, to.order.sym, i) implies match_fits(
                            self@[i],
                            k,
                            *to,
                        ) by {
                            assert(self.securities@[i]@.sym.0@ == self.securities@[idx as int]@.sym.0@);
                            assert(i == idx);
                            let v = self@[i];
                            crate::security::lemma_wf_sides(self.securities@[i]);
                            let side = if is_buy_kind(k) { v.ask } else { v.bid };
                            crate::security::law_sweep_conserves_quantity(
                                side,
                                to.order.quantity as nat,
                                is_buy_kind(k),
                                is_limit_kind(k),
                                to.order.price,
                            );
                        }
                    }
                }
                ok
            },
        }
    }
}

/// Orders per second of each shard from the counts at the start and end of an
/// interval of `secs` seconds.
pub open spec fn rates_of(prev: Seq<u64>, now: Seq<u64>, secs: u64) -> Seq<u64> {
    Seq::new(now.len(), |i: int| ((now[i] - prev[i]) / (secs as int)) as u64)
}

/// The sum of `s`.
pub open spec fn sum_u64(s: Seq<u64>) -> int
    decreases s.len(),
{
    if s.len() == 0 {
        0
    } else {
        sum_u64(s.drop_last()) + s.last()
    }
}

/// Orders per second of each shard over an interval of `secs` seconds, from the
/// counts at its start and end, and the total.
pub fn throughput(prev: &Vec<u64>, now: &Vec<u64>, secs: u64) -> (r: (Vec<u64>, u64))
    requires
        secs > 0,
        prev@.len() == now@.len(),
        forall|i: int| 0 <= i < now@.len() ==> #[trigger] prev@[i] <= now@[i],
        sum_u64(rates_of(prev@, now@, secs)) <= u64::MAX,
    ensures
        r.0@ == rates_of(prev@, now@, secs),
        forall|i: int| 0 <= i < now@.len() ==> #[trigger] r.0@[i] == (now@[i] - prev@[i]) / (secs as int),
        r.1 == sum_u64(r.0@),
{
    let ghost all = rates_of(prev@, now@, secs);
    let mut rates: Vec<u64> = Vec::new();
    let mut total: u64 = 0;
    let mut i: usize = 0;
    while i < now.len()
        invariant
            secs > 0,
            prev@.len() == now@.len(),
            forall|j: int| 0 <= j < now@.len() ==> #[trigger] prev@[j] <= now@[j],
            all == rates_of(prev@, now@, secs),
            sum_u64(all) <= u64::MAX,
            i <= now@.len(),
            rates@ == all.take(i as int),
            total == sum_u64(rates@),
        decreases now@.len() - i,
    {
        let rate = (now[i] - prev[i]) / secs;
        proof {
            assert(all[i as int] == rate);
            assert(all.take(i + 1) =~= all.take(i as int).push(rate));
            assert(all.take(i + 1).drop_last() =~= all.take(i as int));
            lemma_sum_prefix_le(all, i + 1);
        }
        rates.push(rate);
        total = total + rate;
        i = i + 1;
    }
    proof {
        assert(all.take(i as int) =~= all);
    }
    (rates, total)
}

proof fn lemma_sum_prefix_le(s: Seq<u64>, k: int)
    requires
        0 <= k <= s.len(),
    ensures
        sum_u64(s.take(k)) <= sum_u64(s),
    decreases s.len() - k,
{
    if k < s.len() {
        lemma_sum_prefix_le(s, k + 1);
        assert(s.take(k + 1).drop_last() =~= s.take(k));
    } else {
        assert(s.take(k) =~= s);
    }
}

} // verus!
