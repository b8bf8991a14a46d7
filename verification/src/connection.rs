use vstd::prelude::*;

use std::collections::HashMap;

use crate::freelist::FreeList;
use crate::order::{ClientId, Order, OrderCancel, OrderReceived};
use crate::utils::ClientCommands;

verus! {

broadcast use vstd::std_specs::hash::group_hash_axioms;

/// The order slots of the connected clients.
pub struct Hub {
    slots_per_conn: HashMap<ClientId, FreeList>,
}

impl View for Hub {
    /// Each connected client's taken slots.
    type V = Map<ClientId, Set<u16>>;

    closed spec fn view(&self) -> Map<ClientId, Set<u16>> {
        Map::new(|k: ClientId| self.slots_per_conn@.contains_key(k), |k: ClientId| self.slots_per_conn@[k]@)
    }
}

impl Hub {
    /// Every client's slot list is well formed.
    pub closed spec fn wf(&self) -> bool {
        forall|k: ClientId| #[trigger] self.slots_per_conn@.contains_key(k) ==> self.slots_per_conn@[k].wf()
    }

    /// A hub with no clients.
    pub fn new() -> (r: Self)
        ensures
            r.wf(),
            r@ == Map::<ClientId, Set<u16>>::empty(),
    {
        let r = Self { slots_per_conn: HashMap::new() };
        assert(r@ =~= Map::<ClientId, Set<u16>>::empty());
        r
    }

    /// Connects client `id`, with only slot 0 taken.
    pub fn register(&mut self, id: ClientId)
        requires
            old(self).wf(),
        ensures
            final(self).wf(),
            final(self)@ == old(self)@.insert(id, set![0u16]),
    {
        self.slots_per_conn.insert(id, FreeList::new());
        assert(self@ =~= old(self)@.insert(id, set![0u16]));
    }

    /// Disconnects client `id`.
    pub fn unregister(&mut self, id: &ClientId)
        requires
            old(self).wf(),
        ensures
            final(self).wf(),
            final(self)@ == old(self)@.remove(*id),
    {
        self.slots_per_conn.remove(id);
        assert(self@ =~= old(self)@.remove(*id));
    }

    /// Takes the smallest free slot of client `id`; `None` when the client is not
    /// connected or has no free slot.
    pub fn claim_slot(&mut self, id: ClientId) -> (r: Option<u16>)
        requires
            old(self).wf(),
        ensures
            final(self).wf(),
            match r {
                Some(s) => {
                    &&& old(self)@.contains_key(id)
                    &&& !old(self)@[id].contains(s)
                    &&& forall|t: u16| t < s ==> old(self)@[id].contains(t)
                    &&& final(self)@ == old(self)@.insert(id, old(self)@[id].insert(s))
                },
                None => {
                    &&& final(self)@ == old(self)@
                    &&& old(self)@.contains_key(id) ==> forall|t: u16| old(self)@[id].contains(t)
                },
            },
    {
        match self.slots_per_conn.remove(&id) {
            None => {
                assert(self@ =~= old(self)@);
                None
            },
            Some(mut free) => {
                let r = free.claim_slot();
                self.slots_per_conn.insert(id, free);
                proof {
                    match r {
                        Some(s) => {
                            assert(self@ =~= old(self)@.insert(id, old(self)@[id].insert(s)));
                        },
                        None => {
                            assert(self@ =~= old(self)@);
                        },
                    }
                }
                r
            },
        }
    }

    /// Frees slot `slot_idx` of client `id`, when the client is connected.
    pub fn drop_slot(&mut self, id: ClientId, slot_idx: u16)
        requires
            old(self).wf(),
        ensures
            final(self).wf(),
            final(self)@ == (if old(self)@.contains_key(id) {
                old(self)@.insert(id, old(self)@[id].remove(slot_idx))
            } else {
                old(self)@
            }),
    {
        match self.slots_per_conn.remove(&id) {
            None => {
                assert(self@ =~= old(self)@);
            },
            Some(mut free) => {
                free.drop_slot(slot_idx);
                self.slots_per_conn.insert(id, free);
                assert(self@ =~= old(self)@.insert(id, old(self)@[id].remove(slot_idx)));
            },
        }
    }

    /// Takes in an order from client `id`: when the client has a free slot, the
    /// order is stamped with the client's id and the slot as its order id.
    pub fn accept_order(&mut self, id: ClientId, ord: Order) -> (r: Option<Order>)
        requires
            old(self).wf(),
        ensures
            final(self).wf(),
            match r {
                Some(o) => {
                    &&& old(self)@.contains_key(id)
                    &&& !old(self)@[id].contains(o.order_id)
                    &&& forall|t: u16| t < o.order_id ==> old(self)@[id].contains(t)
                    &&& final(self)@ == old(self)@.insert(id, old(self)@[id].insert(o.order_id))
                    &&& o == (Order { client_id: Some(id), order_id: o.order_id, ..ord })
                },
                None => {
                    &&& final(self)@ == old(self)@
                    &&& old(self)@.contains_key(id) ==> forall|t: u16| old(self)@[id].contains(t)
                },
            },
    {
        match self.claim_slot(id) {
            Some(s) => Some(ord.set_client_id(id).set_order_id(s)),
            None => None,
        }
    }
}

/// The orders of `orders` that carry a client id, each with that id, in order:
/// who is to hear about which trade.
pub open spec fn recipients_of(orders: Seq<Order>) -> Seq<(ClientId, Order)>
    decreases orders.len(),
{
    if orders.len() == 0 {
        seq![]
    } else {
        let rest = recipients_of(orders.drop_last());
        match orders.last().client_id {
            Some(c) => rest.push((c, orders.last())),
            None => rest,
        }
    }
}

/// An order that names the client that placed it.
pub open spec fn has_owner(o: Order) -> bool {
    o.client_id is Some
}

/// Every notice that names a client goes to that client, in the order of the
/// batch, and nothing else is sent: the recipients are exactly the notices that
/// carry a client id, each paired with that id.
pub proof fn law_every_notice_delivered(orders: Seq<Order>)
    ensures
        recipients_of(orders) == orders.filter(|o: Order| has_owner(o)).map_values(
            |o: Order| (o.client_id.unwrap(), o),
        ),
        recipients_of(orders).len() == orders.filter(|o: Order| has_owner(o)).len(),
        forall|k: int|
            0 <= k < recipients_of(orders).len() ==> #[trigger] recipients_of(orders)[k] == (
                orders.filter(|o: Order| has_owner(o))[k].client_id.unwrap(),
                orders.filter(|o: Order| has_owner(o))[k],
            ),
    decreases orders.len(),
{
    reveal(Seq::filter);
    let f = |o: Order| has_owner(o);
    let g = |o: Order| (o.client_id.unwrap(), o);
    if orders.len() > 0 {
        law_every_notice_delivered(orders.drop_last());
        let sub = orders.drop_last().filter(f);
        if has_owner(orders.last()) {
            assert(sub.push(orders.last()).map_values(g) =~= sub.map_values(g).push(g(orders.last())));
        }
    } else {
        assert(orders.filter(f).map_values(g) =~= Seq::<(ClientId, Order)>::empty());
    }
}

/// A batch in which every notice names its client sends one notice per trade,
/// to the client each names.
pub proof fn law_owned_batch_delivered_whole(orders: Seq<Order>)
    requires
        forall|i: int| 0 <= i < orders.len() ==> #[trigger] orders[i].client_id is Some,
    ensures
        recipients_of(orders).len() == orders.len(),
        forall|i: int|
            0 <= i < orders.len() ==> #[trigger] recipients_of(orders)[i] == (orders[i].client_id.unwrap(), orders[i]),
    decreases orders.len(),
{
    if orders.len() > 0 {
        let s = orders.drop_last();
        assert forall|i: int| 0 <= i < s.len() implies #[trigger] s[i].client_id is Some by {
            assert(s[i] == orders[i]);
        }
        law_owned_batch_delivered_whole(s);
        assert forall|i: int| 0 <= i < orders.len() implies #[trigger] recipients_of(orders)[i] == (
            orders[i].client_id.unwrap(),
            orders[i],
        ) by {
            if i < orders.len() - 1 {
                assert(s[i] == orders[i]);
            } else {
                assert(orders[i] == orders.last());
            }
        }
    }
}

/// Who is to hear about each trade of a batch.
pub fn notice_recipients(orders: &Vec<Order>) -> (r: Vec<(ClientId, Order)>)
    ensures
        r@ == recipients_of(orders@),
        r@ == orders@.filter(|o: Order| has_owner(o)).map_values(|o: Order| (o.client_id.unwrap(), o)),
{
    let mut out: Vec<(ClientId, Order)> = Vec::new();
    let mut i: usize = 0;
    while i < orders.len()
        invariant
            i <= orders@.len(),
            out@ == recipients_of(orders@.take(i as int)),
        decreases orders@.len() - i,
    {
        proof {
            assert(orders@.take(i + 1).drop_last() =~= orders@.take(i as int));
        }
        match orders[i].client_id {
            Some(c) => {
                out.push((c, orders[i].clone()));
            },
            None => {},
        }
        i = i + 1;
    }
    proof {
        assert(orders@.take(i as int) =~= orders@);
        law_every_notice_delivered(orders@);
    }
    out
}

/// What a connection's reader sees next.
#[derive(Debug)]
pub enum ReaderEvent {
    /// A decoded command from the client.
    Command(ClientCommands),
    /// A ping, with its payload.
    Ping(Vec<u8>),
    /// A pong.
    Pong,
    /// The client closed the connection.
    Close,
    /// Any other message.
    Other,
    /// No pong came within the heartbeat timeout.
    Timeout,
}

/// What the reader does about it.
#[derive(Debug)]
pub enum ReaderAction {
    /// Send the command on to the sequencer, then acknowledge it to the client
    /// when there is an acknowledgement.
    Forward(ClientCommands, Option<OrderReceived>),
    /// Answer a ping with a pong carrying the same payload.
    ReplyPong(Vec<u8>),
    /// Restart the heartbeat timeout.
    Refresh,
    /// Stop reading.
    Stop,
    /// Nothing.
    Ignore,
}

/// The reader's decision for one event from client `client`: a new order takes
/// one of the client's order slots and is forwarded stamped with the client's id
/// and the slot (it is dropped when no slot is free); a cancel is forwarded with
/// the client's id.
pub fn reader_step(hub: &mut Hub, client: ClientId, ev: ReaderEvent) -> (r: ReaderAction)
    requires
        old(hub).wf(),
    ensures
        final(hub).wf(),
        match ev {
            ReaderEvent::Command(ClientCommands::New(o)) => match r {
                ReaderAction::Forward(ClientCommands::New(s), Some(ack)) => {
                    &&& old(hub)@.contains_key(client)
                    &&& !old(hub)@[client].contains(s.order_id)
                    &&& forall|t: u16| t < s.order_id ==> old(hub)@[client].contains(t)
                    &&& final(hub)@ == old(hub)@.insert(client, old(hub)@[client].insert(s.order_id))
                    &&& s == (Order { client_id: Some(client), order_id: s.order_id, ..o })
                    &&& ack == (OrderReceived { order_id: s.order_id, price: s.price, kind: s.kind, sym: s.sym })
                },
                ReaderAction::Ignore => {
                    &&& final(hub)@ == old(hub)@
                    &&& old(hub)@.contains_key(client) ==> forall|t: u16| old(hub)@[client].contains(t)
                },
                _ => false,
            },
            ReaderEvent::Command(ClientCommands::Cancel(c)) => {
                &&& final(hub)@ == old(hub)@
                &&& r == ReaderAction::Forward(ClientCommands::Cancel(OrderCancel { client_id: client, ..c }), None)
            },
            ReaderEvent::Ping(p) => final(hub)@ == old(hub)@ && r == ReaderAction::ReplyPong(p),
            ReaderEvent::Pong => final(hub)@ == old(hub)@ && r == ReaderAction::Refresh,
            ReaderEvent::Close => final(hub)@ == old(hub)@ && r == ReaderAction::Stop,
            ReaderEvent::Other => final(hub)@ == old(hub)@ && r == ReaderAction::Ignore,
            ReaderEvent::Timeout => final(hub)@ == old(hub)@ && r == ReaderAction::Stop,
        },
{
    match ev {
        ReaderEvent::Command(ClientCommands::New(o)) => match hub.accept_order(client, o) {
            Some(s) => {
                let ack = s.get_slim_view();
                ReaderAction::Forward(ClientCommands::New(s), Some(ack))
            },
            None => ReaderAction::Ignore,
        },
        ReaderEvent::Command(ClientCommands::Cancel(c)) => {
            let mut c = c;
            c.client_id = client;
            ReaderAction::Forward(ClientCommands::Cancel(c), None)
        },
        ReaderEvent::Ping(p) => ReaderAction::ReplyPong(p),
        ReaderEvent::Pong => ReaderAction::Refresh,
        ReaderEvent::Close => ReaderAction::Stop,
        ReaderEvent::Other => ReaderAction::Ignore,
        ReaderEvent::Timeout => ReaderAction::Stop,
    }
}

} // verus!
