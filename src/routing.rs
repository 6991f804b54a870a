use vstd::prelude::*;

use crate::transport::{
    established, lemma_not_pending, lemma_pending_conns_update, lemma_pending_push, conn_matches, held, lemma_accounted_update, route_spec, slot_at, Address, ConnState,
    Connection, Frame, Packet, RouteOutcome, Transmit, Transport, ANY_PORT, PACKET_CAPACITY,
};

verus! {

/// `h` is the lowest connection slot with local port `port` and remote `remote`.
pub open spec fn first_conn(conns: Seq<Option<Connection>>, port: u8, remote: Address, h: int) -> bool {
    &&& 0 <= h < conns.len()
    &&& conn_matches(conns[h], port, remote)
    &&& forall|j: int| 0 <= j < h ==> !conn_matches(#[trigger] conns[j], port, remote)
}

/// `h` is the lowest empty connection slot.
pub open spec fn first_free(conns: Seq<Option<Connection>>, h: int) -> bool {
    &&& 0 <= h < conns.len()
    &&& conns[h] is None
    &&& forall|j: int| 0 <= j < h ==> (#[trigger] conns[j]) is Some
}

impl Transport {
    /// The port whose listening socket takes a new connection to `port`: the
    /// one bound to `port` itself, else the catch-all socket.
    pub open spec fn listener_port(&self, port: u8) -> u8 {
        if self.is_bound(port) { port } else { ANY_PORT }
    }

    /// Only the drop counter may differ.
    pub open spec fn same_but_drops(&self, other: &Transport) -> bool {
        &&& other.conns == self.conns
        &&& other.listeners == self.listeners
        &&& other.pool.owned() == self.pool.owned()
        &&& other.pool.capacity_spec() == self.pool.capacity_spec()
        &&& other.routes == self.routes
        &&& other.node_id == self.node_id
        &&& other.default_iface == self.default_iface
        &&& other.queue_capacity == self.queue_capacity
    }

    /// `p` is a packet made for `frame` in a buffer that `self` had free and
    /// `next` owns.
    pub open spec fn fresh_packet_for(&self, next: &Transport, p: Packet, frame: Frame) -> bool {
        &&& p.src == frame.src
        &&& p.dst == frame.dst
        &&& p.data@ == frame.data@
        &&& !self.pool.owned().contains(p.slot as int)
        &&& next.pool.owned() == self.pool.owned().insert(p.slot as int)
        &&& next.pool.capacity_spec() == self.pool.capacity_spec()
    }

    /// The lowest open connection with local port `port` and remote `remote`.
    pub fn find_conn(&self, port: u8, remote: Address) -> (r: Option<usize>)
        ensures
            r matches Some(h) ==> first_conn(self.conns@, port, remote, h as int),
            r is None ==> forall|h: int| 0 <= h < self.conns@.len() ==> !conn_matches(#[trigger] self.conns@[h], port, remote),
    {
        let mut k: usize = 0;
        while k < self.conns.len()
            invariant
                k <= self.conns@.len(),
                forall|j: int| 0 <= j < k ==> !conn_matches(#[trigger] self.conns@[j], port, remote),
            decreases self.conns@.len() - k,
        {
            match &self.conns[k] {
                Some(c) => {
                    if c.local_port == port && c.remote == remote {
                        return Some(k);
                    }
                },
                None => {},
            }
            k = k + 1;
        }
        None
    }

    /// The lowest empty connection slot.
    pub fn free_slot(&self) -> (r: Option<usize>)
        ensures
            r matches Some(h) ==> first_free(self.conns@, h as int),
            r is None ==> forall|h: int| 0 <= h < self.conns@.len() ==> (#[trigger] self.conns@[h]) is Some,
    {
        let mut k: usize = 0;
        while k < self.conns.len() && self.conns[k].is_some()
            invariant
                k <= self.conns@.len(),
                forall|j: int| 0 <= j < k ==> (#[trigger] self.conns@[j]) is Some,
            decreases self.conns@.len() - k,
        {
            k = k + 1;
        }
        if k < self.conns.len() {
            Some(k)
        } else {
            None
        }
    }

    fn drop_frame(&mut self) -> (r: RouteOutcome)
        ensures
            r is Dropped,
            old(self).same_but_drops(final(self)),
            final(self).pool == old(self).pool,
            final(self).drops == old(self).drops.saturating_add(1),
    {
        self.drops = self.drops.saturating_add(1);
        RouteOutcome::Dropped
    }

    /// The routing engine's work on one incoming frame. A frame too large for
    /// a buffer, or one that finds the pool exhausted, is dropped. A frame for
    /// another node is sent on through the interface the routes choose, or
    /// dropped where there is none. A frame for this node goes to the lowest
    /// open connection from its source to its destination port, unless that
    /// connection's queue is full; with no such connection, the listening
    /// socket of its port (else the catch-all socket) opens a connection for
    /// it, unless its backlog is full, no connection slot is free or queues
    /// hold no packet at all; with no
    /// such socket it is dropped. A dropped frame holds no buffer and counts
    /// in `drops`; nothing waits on a reader. `now` is the time of arrival.
    pub fn route_frame(&mut self, frame: Frame, now: u64) -> (r: RouteOutcome)
        requires
            old(self).wf(),
        ensures
            final(self).wf(),
            r is Dropped ==> old(self).same_but_drops(final(self)) && final(self).drops == old(self).drops.saturating_add(1),
            r is Forward ==> old(self).same_but_drops(final(self)) && final(self).drops == old(self).drops,
            frame.data@.len() > PACKET_CAPACITY || old(self).pool.exhausted() ==> r is Dropped,
            frame.data@.len() <= PACKET_CAPACITY && !old(self).pool.exhausted() && frame.dst.node != old(self).node_id ==> {
                match route_spec(old(self).routes@, old(self).default_iface, frame.dst.node) {
                    Some(iface) => r == RouteOutcome::Forward(Transmit { iface, frame }),
                    None => r is Dropped,
                }
            },
            frame.data@.len() <= PACKET_CAPACITY && !old(self).pool.exhausted() && frame.dst.node == old(self).node_id ==> {
                let port = frame.dst.port;
                &&& forall|h: int| #[trigger] first_conn(old(self).conns@, port, frame.src, h) ==> {
                    let (a, b) = (old(self).conn(h), final(self).conn(h));
                    if a.inbound@.len() < old(self).queue_capacity {
                        &&& r == RouteOutcome::Delivered(h as usize)
                        &&& final(self).conns@ == old(self).conns@.update(h, final(self).conns@[h])
                        &&& final(self).is_open(h)
                        &&& b.prio == a.prio && b.local_port == a.local_port && b.remote == a.remote && b.state == a.state
                        &&& b.last_active == now
                        &&& b.inbound@.drop_last() == a.inbound@
                        &&& b.inbound@.len() == a.inbound@.len() + 1
                        &&& old(self).fresh_packet_for(final(self), b.inbound@.last(), frame)
                        &&& final(self).listeners == old(self).listeners
                    } else {
                        r is Dropped
                    }
                }
                &&& (forall|h: int| 0 <= h < old(self).conns@.len() ==> !conn_matches(#[trigger] old(self).conns@[h], port, frame.src))
                    ==> {
                    let lp = old(self).listener_port(port);
                    &&& !old(self).is_bound(lp) ==> r is Dropped
                    &&& forall|i: int| 0 <= i < old(self).listeners@.len() && (#[trigger] old(self).listeners@[i]).port == lp ==> {
                        let l = old(self).listeners@[i];
                        if l.pending@.len() < l.backlog && old(self).queue_capacity > 0
                            && exists|h: int| first_free(old(self).conns@, h) {
                            forall|h: int| #[trigger] first_free(old(self).conns@, h) ==> {
                                let c = final(self).conn(h);
                                &&& r == RouteOutcome::Accepted(h as usize)
                                &&& final(self).conns@ == old(self).conns@.update(h, final(self).conns@[h])
                                &&& final(self).is_open(h)
                                &&& c.prio == frame.prio && c.local_port == port && c.remote == frame.src
                                &&& c.state == ConnState::Established
                                &&& c.last_active == now
                                &&& c.inbound@.len() == 1
                                &&& old(self).fresh_packet_for(final(self), c.inbound@[0], frame)
                                &&& final(self).listeners@ == old(self).listeners@.update(i, final(self).listeners@[i])
                                &&& final(self).listeners@[i].port == l.port
                                &&& final(self).listeners@[i].backlog == l.backlog
                                &&& final(self).listeners@[i].pending@ == l.pending@.push(h as usize)
                            }
                        } else {
                            r is Dropped
                        }
                    }
                }
            },
            final(self).routes == old(self).routes,
            final(self).node_id == old(self).node_id,
            final(self).default_iface == old(self).default_iface,
            final(self).queue_capacity == old(self).queue_capacity,
    {
        if frame.data.len() > PACKET_CAPACITY {
            return self.drop_frame();
        }
        let slot = match self.pool.acquire() {
            Some(s) => s,
            None => {
                return self.drop_frame();
            },
        };
        if frame.dst.node != self.node_id {
            self.pool.release(slot);
            assert(self.pool.owned() =~= old(self).pool.owned());
            return match self.select_iface(frame.dst.node) {
                Some(iface) => RouteOutcome::Forward(Transmit { iface, frame }),
                None => self.drop_frame(),
            };
        }
        let port = frame.dst.port;
        let src = frame.src;
        let packet = Packet { slot, src, dst: frame.dst, data: frame.data };
        if let Some(h) = self.find_conn(port, src) {
            let room = match &self.conns[h] {
                Some(c) => c.inbound.len() < self.queue_capacity,
                None => false,
            };
            if room {
                let c = self.take_conn(h);
                let mut c = c.unwrap();
                c.inbound.push(packet);
                c.last_active = now;
                proof {
                    let oc = old(self).conns@;
                    let c2 = oc.update(h as int, Some(c));
                    let n = oc[h as int]->Some_0.inbound@.len() as int;
                    assert forall|i: int| #[trigger] held(c2, h as int, i)
                        implies self.pool.owned().contains(slot_at(c2, h as int, i)) by {
                        if i < n {
                            assert(held(oc, h as int, i));
                        }
                    }
                    assert forall|k1: int, k2: int|
                        #[trigger] held(c2, h as int, k1) && #[trigger] held(c2, h as int, k2)
                            && slot_at(c2, h as int, k1) == slot_at(c2, h as int, k2) implies k1 == k2 by {
                        if k1 < n {
                            assert(held(oc, h as int, k1));
                        }
                        if k2 < n {
                            assert(held(oc, h as int, k2));
                        }
                    }
                    assert forall|j: int, k1: int, k2: int|
                        j != h && #[trigger] held(oc, j, k1) && #[trigger] held(c2, h as int, k2)
                            implies slot_at(oc, j, k1) != slot_at(c2, h as int, k2) by {
                        if k2 < n {
                            assert(held(oc, h as int, k2));
                        }
                    }
                    lemma_accounted_update(oc, old(self).pool.owned(), h as int, Some(c), self.pool.owned());
                    if !established(oc, h as int) {
                        lemma_not_pending(old(self).listeners@, oc, h as int);
                    }
                    lemma_pending_conns_update(old(self).listeners@, oc, h as int, Some(c));
                }
                self.conns.set(h, Some(c));
                assert(self.conns@ =~= old(self).conns@.update(h as int, self.conns@[h as int]));
                return RouteOutcome::Delivered(h);
            }
            self.pool.release(slot);
            assert(self.pool.owned() =~= old(self).pool.owned());
            return self.drop_frame();
        }
        let lp = if self.find_listener(port).is_some() { port } else { ANY_PORT };
        if let Some(i) = self.find_listener(lp) {
            if self.listeners[i].pending.len() < self.listeners[i].backlog && self.queue_capacity > 0 {
                if let Some(h) = self.free_slot() {
                    let mut inbound: Vec<Packet> = Vec::new();
                    inbound.push(packet);
                    let c = Connection {
                        prio: frame.prio,
                        local_port: port,
                        remote: src,
                        state: ConnState::Established,
                        inbound,
                        last_active: now,
                    };
                    proof {
                        let oc = old(self).conns@;
                        let c2 = oc.update(h as int, Some(c));
                        assert forall|j: int, k1: int, k2: int|
                            j != h && #[trigger] held(oc, j, k1) && #[trigger] held(c2, h as int, k2)
                                implies slot_at(oc, j, k1) != slot_at(c2, h as int, k2) by {
                            assert(old(self).pool.owned().contains(slot_at(oc, j, k1)));
                        }
                        lemma_accounted_update(oc, old(self).pool.owned(), h as int, Some(c), self.pool.owned());
                        lemma_not_pending(old(self).listeners@, oc, h as int);
                        lemma_pending_conns_update(old(self).listeners@, oc, h as int, Some(c));
                    }
                    self.conns.set(h, Some(c));
                    let mut l = self.listeners.remove(i);
                    l.pending.push(h);
                    proof {
                        lemma_pending_push(old(self).listeners@, self.conns@, i as int, l, h);
                    }
                    self.listeners.insert(i, l);
                    assert(self.listeners@ =~= old(self).listeners@.update(i as int, self.listeners@[i as int]));
                    assert(self.conns@ =~= old(self).conns@.update(h as int, self.conns@[h as int]));
                    assert(forall|x: int| #[trigger] first_free(old(self).conns@, x) ==> x == h);
                    return RouteOutcome::Accepted(h);
                }
            }
        }
        self.pool.release(slot);
        assert(self.pool.owned() =~= old(self).pool.owned());
        self.drop_frame()
    }
}

} // verus!
