use vstd::prelude::*;

use crate::transport::{
    backlog_removed, established, in_backlog, is_pending, lemma_not_pending, lemma_pending_conns_update,
    lemma_pending_drop_first, lemma_pending_new_listener, lemma_pending_remove, held, is_queued, lemma_accounted_grow, lemma_accounted_release, lemma_accounted_update,
    lemma_free_not_queued, port_in_use, route_spec, slot_at, slots_of, Address, ConnState,
    Connection, CspError, Frame, Listener, Packet, Transmit, Transport, ANY_PORT,
    FIRST_EPHEMERAL_PORT, PACKET_CAPACITY,
};

verus! {

impl Transport {
    /// The index of the listening socket on `port`.
    pub fn find_listener(&self, port: u8) -> (r: Option<usize>)
        ensures
            r is None <==> !self.is_bound(port),
            r matches Some(i) ==> i < self.listeners@.len() && self.listeners@[i as int].port == port,
    {
        let mut k: usize = 0;
        while k < self.listeners.len()
            invariant
                k <= self.listeners@.len(),
                forall|i: int| 0 <= i < k ==> (#[trigger] self.listeners@[i]).port != port,
            decreases self.listeners@.len() - k,
        {
            if self.listeners[k].port == port {
                return Some(k);
            }
            k = k + 1;
        }
        None
    }

    /// Registers a listening socket on `port`, with no room for pending
    /// connections until `listen` gives it some. `ANY_PORT` binds the socket
    /// that takes traffic no other socket is bound to.
    pub fn bind(&mut self, port: u8) -> (r: Result<(), CspError>)
        requires
            old(self).wf(),
        ensures
            final(self).wf(),
            r is Err <==> old(self).is_bound(port),
            r is Err ==> r == Err::<(), CspError>(CspError::AlreadyBound) && *final(self) == *old(self),
            r is Ok ==> {
                &&& final(self).listeners@.len() == old(self).listeners@.len() + 1
                &&& final(self).listeners@.drop_last() == old(self).listeners@
                &&& final(self).listeners@.last().port == port
                &&& final(self).listeners@.last().backlog == 0
                &&& final(self).listeners@.last().pending@.len() == 0
            },
            final(self).is_bound(port),
            final(self).conns == old(self).conns,
            final(self).pool == old(self).pool,
            final(self).node_id == old(self).node_id,
    {
        if self.find_listener(port).is_some() {
            return Err(CspError::AlreadyBound);
        }
        let l = Listener { port, backlog: 0, pending: Vec::new() };
        proof {
            lemma_pending_new_listener(self.listeners@, self.conns@, l);
        }
        self.listeners.push(l);
        assert(self.listeners@.drop_last() =~= old(self).listeners@);
        assert(self.listeners@[self.listeners@.len() - 1].port == port);
        Ok(())
    }

    /// Sets how many connections may wait for `accept` on `port`. Returns
    /// whether it did so: a socket is bound there and no more connections
    /// than `backlog` already wait on it; otherwise nothing changes.
    pub fn listen(&mut self, port: u8, backlog: usize) -> (r: bool)
        requires
            old(self).wf(),
        ensures
            final(self).wf(),
            r == exists|i: int| 0 <= i < old(self).listeners@.len() && (#[trigger] old(self).listeners@[i]).port == port
                && old(self).listeners@[i].pending@.len() <= backlog,
            !r ==> *final(self) == *old(self),
            final(self).listeners@.len() == old(self).listeners@.len(),
            forall|i: int| 0 <= i < old(self).listeners@.len() ==> {
                let (a, b) = (#[trigger] old(self).listeners@[i], final(self).listeners@[i]);
                &&& b.port == a.port
                &&& b.pending == a.pending
                &&& b.backlog == if r && a.port == port { backlog } else { a.backlog }
            },
            final(self).conns == old(self).conns,
            final(self).pool == old(self).pool,
            final(self).node_id == old(self).node_id,
    {
        match self.find_listener(port) {
            Some(i) => {
                if self.listeners[i].pending.len() > backlog {
                    return false;
                }
                let mut l = self.listeners.remove(i);
                l.backlog = backlog;
                proof {
                    lemma_pending_remove(old(self).listeners@, self.conns@, i as int, l, -1);
                }
                self.listeners.insert(i, l);
                assert(self.listeners@ =~= old(self).listeners@.update(i as int, l));
                true
            },
            None => false,
        }
    }

    /// One step of waiting in `accept` on `port` at time `now`: takes the
    /// oldest pending connection if there is one; else reports `Timeout`
    /// once `now` has reached `deadline`, and `Ok(None)` before that.
    pub fn accept(&mut self, port: u8, now: u64, deadline: u64) -> (r: Result<Option<usize>, CspError>)
        requires
            old(self).wf(),
        ensures
            final(self).wf(),
            r matches Ok(Some(_)) <==> old(self).has_pending(port),
            r matches Ok(Some(h)) ==> final(self).is_open(h as int)
                && final(self).conn(h as int).state == ConnState::Established,
            r is Err <==> !old(self).has_pending(port) && now >= deadline,
            r is Err ==> r == Err::<Option<usize>, CspError>(CspError::Timeout),
            !old(self).has_pending(port) ==> *final(self) == *old(self),
            final(self).listeners@.len() == old(self).listeners@.len(),
            forall|i: int| 0 <= i < old(self).listeners@.len() ==> {
                let (a, b) = (#[trigger] old(self).listeners@[i], final(self).listeners@[i]);
                &&& b.port == a.port
                &&& b.backlog == a.backlog
                &&& a.port != port ==> b == a
                &&& a.port == port && a.pending@.len() > 0 ==> {
                    &&& r == Ok::<Option<usize>, CspError>(Some(a.pending@[0]))
                    &&& b.pending@ == a.pending@.drop_first()
                }
            },
            final(self).conns == old(self).conns,
            final(self).pool == old(self).pool,
            final(self).node_id == old(self).node_id,
    {
        if let Some(i) = self.find_listener(port) {
            if self.listeners[i].pending.len() > 0 {
                let mut l = self.listeners.remove(i);
                let h = l.pending.remove(0);
                proof {
                    assert(in_backlog(old(self).listeners@, i as int, 0));
                    assert(l.pending@ =~= old(self).listeners@[i as int].pending@.drop_first());
                    lemma_pending_drop_first(old(self).listeners@, self.conns@, i as int, l);
                }
                self.listeners.insert(i, l);
                assert(self.listeners@ =~= old(self).listeners@.update(i as int, l));
                assert(self.listeners@[i as int].port == port);
                return Ok(Some(h));
            }
        }
        if now >= deadline {
            Err(CspError::Timeout)
        } else {
            Ok(None)
        }
    }

    /// Takes connection `h` off every listener's backlog.
    fn remove_pending(&mut self, h: usize)
        requires
            old(self).wf(),
        ensures
            final(self).wf(),
            backlog_removed(old(self).listeners@, final(self).listeners@, h),
            final(self).conns == old(self).conns,
            final(self).pool == old(self).pool,
            final(self).routes == old(self).routes,
            final(self).node_id == old(self).node_id,
            final(self).default_iface == old(self).default_iface,
            final(self).queue_capacity == old(self).queue_capacity,
            final(self).drops == old(self).drops,
    {
        let ghost ol = old(self).listeners@;
        let mut i: usize = 0;
        while i < self.listeners.len()
            invariant
                self.wf(),
                self.listeners@.len() == ol.len(),
                i <= ol.len(),
                self.conns == old(self).conns,
                self.pool == old(self).pool,
                self.routes == old(self).routes,
                self.node_id == old(self).node_id,
                self.default_iface == old(self).default_iface,
                self.queue_capacity == old(self).queue_capacity,
                self.drops == old(self).drops,
                !is_pending(ol, h as int) ==> self.listeners@ == ol,
                forall|j: int, k: int| 0 <= j < i && #[trigger] in_backlog(self.listeners@, j, k)
                    ==> self.listeners@[j].pending@[k] != h,
                forall|j: int| i <= j < ol.len() ==> #[trigger] self.listeners@[j] == ol[j],
                forall|j: int| 0 <= j < ol.len() ==> {
                    let (a, b) = (#[trigger] ol[j], self.listeners@[j]);
                    &&& b.port == a.port
                    &&& b.backlog == a.backlog
                    &&& b.pending@ == a.pending@ || exists|k: int| 0 <= k < a.pending@.len() && a.pending@[k] == h
                        && b.pending@ == a.pending@.remove(k)
                },
            decreases ol.len() - i,
        {
            let mut k: usize = 0;
            while k < self.listeners[i].pending.len() && self.listeners[i].pending[k] != h
                invariant
                    i < self.listeners@.len(),
                    k <= self.listeners@[i as int].pending@.len(),
                    forall|x: int| 0 <= x < k ==> #[trigger] self.listeners@[i as int].pending@[x] != h,
                decreases self.listeners@[i as int].pending@.len() - k,
            {
                k = k + 1;
            }
            let ghost before = self.listeners@;
            if k < self.listeners[i].pending.len() {
                let mut l = self.listeners.remove(i);
                l.pending.remove(k);
                proof {
                    assert(in_backlog(ol, i as int, k as int));
                    lemma_pending_remove(before, self.conns@, i as int, l, k as int);
                    let p = before[i as int].pending@;
                    assert forall|x: int| 0 <= x < l.pending@.len() implies #[trigger] l.pending@[x] != h by {
                        let y = if x >= k { x + 1 } else { x };
                        assert(l.pending@[x] == p[y]);
                        assert(in_backlog(before, i as int, y) && in_backlog(before, i as int, k as int));
                    }
                }
                self.listeners.insert(i, l);
                assert(self.listeners@ =~= before.update(i as int, l));
                assert forall|j: int, x: int| 0 <= j < i + 1 && #[trigger] in_backlog(self.listeners@, j, x)
                    implies self.listeners@[j].pending@[x] != h by {
                    if j < i {
                        assert(in_backlog(before, j, x));
                    }
                }
            } else {
                assert forall|x: int| #[trigger] in_backlog(self.listeners@, i as int, x)
                    implies self.listeners@[i as int].pending@[x] != h by {
                }
            }
            i = i + 1;
        }
        proof {
            if is_pending(self.listeners@, h as int) {
                let (j, k) = choose|j: int, k: int| #[trigger] in_backlog(self.listeners@, j, k)
                    && self.listeners@[j].pending@[k] as int == h;
            }
        }
    }

    /// Takes connection slot `h` out of the table, leaving it empty.
    pub(crate) fn take_conn(&mut self, h: usize) -> (c: Option<Connection>)
        requires
            h < old(self).conns@.len(),
        ensures
            c == old(self).conns@[h as int],
            final(self).conns@ == old(self).conns@.update(h as int, None),
            final(self).pool == old(self).pool,
            final(self).listeners == old(self).listeners,
            final(self).routes == old(self).routes,
            final(self).node_id == old(self).node_id,
            final(self).default_iface == old(self).default_iface,
            final(self).queue_capacity == old(self).queue_capacity,
            final(self).drops == old(self).drops,
    {
        self.conns.push(None);
        let c = self.conns.swap_remove(h);
        assert(self.conns@ =~= old(self).conns@.update(h as int, None));
        c
    }

    /// Whether no open connection has `port` as its local port.
    fn port_free(&self, port: u8) -> (r: bool)
        ensures
            r == !port_in_use(self.conns@, port),
    {
        let mut k: usize = 0;
        while k < self.conns.len()
            invariant
                k <= self.conns@.len(),
                forall|i: int| 0 <= i < k ==> !((#[trigger] self.conns@[i] is Some) && self.conns@[i]->Some_0.local_port == port),
            decreases self.conns@.len() - k,
        {
            match &self.conns[k] {
                Some(c) => {
                    if c.local_port == port {
                        return false;
                    }
                },
                None => {},
            }
            k = k + 1;
        }
        true
    }

    /// Opens an outbound connection to `remote`, in state `Established` at
    /// once, on the first free connection slot and the lowest ephemeral port
    /// that no open connection uses. Fails with `Exhausted` where there is no
    /// free slot or no such port. `now` is the time of opening.
    pub fn connect(&mut self, prio: u8, remote: Address, now: u64) -> (r: Result<usize, CspError>)
        requires
            old(self).wf(),
        ensures
            final(self).wf(),
            r is Err <==> (forall|h: int| 0 <= h < old(self).conns@.len() ==> old(self).is_open(h))
                || (forall|p: u8| FIRST_EPHEMERAL_PORT <= p < ANY_PORT ==> port_in_use(old(self).conns@, p)),
            r is Err ==> r == Err::<usize, CspError>(CspError::Exhausted) && *final(self) == *old(self),
            r matches Ok(h) ==> {
                &&& h < old(self).conns@.len()
                &&& !old(self).is_open(h as int)
                &&& final(self).is_open(h as int)
                &&& final(self).conns@ == old(self).conns@.update(h as int, final(self).conns@[h as int])
                &&& final(self).conn(h as int).prio == prio
                &&& final(self).conn(h as int).remote == remote
                &&& final(self).conn(h as int).state == ConnState::Established
                &&& final(self).conn(h as int).inbound@.len() == 0
                &&& final(self).conn(h as int).last_active == now
                &&& FIRST_EPHEMERAL_PORT <= final(self).conn(h as int).local_port < ANY_PORT
                &&& !port_in_use(old(self).conns@, final(self).conn(h as int).local_port)
            },
            final(self).listeners == old(self).listeners,
            final(self).pool == old(self).pool,
            final(self).routes == old(self).routes,
            final(self).node_id == old(self).node_id,
            final(self).default_iface == old(self).default_iface,
            final(self).queue_capacity == old(self).queue_capacity,
    {
        let mut h: usize = 0;
        while h < self.conns.len() && self.conns[h].is_some()
            invariant
                h <= self.conns@.len(),
                forall|i: int| 0 <= i < h ==> self.is_open(i),
            decreases self.conns@.len() - h,
        {
            h = h + 1;
        }
        if h == self.conns.len() {
            return Err(CspError::Exhausted);
        }
        let mut port: u8 = FIRST_EPHEMERAL_PORT;
        while port < ANY_PORT && !self.port_free(port)
            invariant
                FIRST_EPHEMERAL_PORT <= port <= ANY_PORT,
                forall|p: u8| FIRST_EPHEMERAL_PORT <= p < port ==> port_in_use(self.conns@, p),
            decreases ANY_PORT - port,
        {
            port = port + 1;
        }
        if port == ANY_PORT {
            return Err(CspError::Exhausted);
        }
        assert(!self.is_open(h as int));
        let c = Connection {
            prio,
            local_port: port,
            remote,
            state: ConnState::Established,
            inbound: Vec::new(),
            last_active: now,
        };
        proof {
            lemma_accounted_update(self.conns@, self.pool.owned(), h as int, Some(c), self.pool.owned());
        }
        self.conns.set(h, Some(c));
        Ok(h)
    }

    /// Closes connection `h`: empties its slot and returns the buffers still
    /// queued on it to the pool. Returns whether it was open.
    pub fn close(&mut self, h: usize) -> (r: bool)
        requires
            old(self).wf(),
        ensures
            final(self).wf(),
            r == old(self).is_open(h as int),
            r ==> final(self).conns@ == old(self).conns@.update(h as int, None),
            r ==> final(self).pool.owned() == old(self).pool.owned().difference(old(self).queued_slots(h as int)),
            !r ==> *final(self) == *old(self),
            final(self).pool.capacity_spec() == old(self).pool.capacity_spec(),
            r ==> backlog_removed(old(self).listeners@, final(self).listeners@, h),
            final(self).routes == old(self).routes,
            final(self).node_id == old(self).node_id,
            final(self).default_iface == old(self).default_iface,
            final(self).queue_capacity == old(self).queue_capacity,
    {
        if h >= self.conns.len() || self.conns[h].is_none() {
            return false;
        }
        self.remove_pending(h);
        let ghost ls1 = self.listeners;
        let c = self.take_conn(h);
        let c = c.unwrap();
        let ghost q = c.inbound@;
        let ghost owned0 = self.pool.owned();
        let mut k: usize = 0;
        assert(slots_of(q, 0) =~= Set::<int>::empty());
        while k < c.inbound.len()
            invariant
                q == c.inbound@,
                k <= q.len(),
                self.pool.capacity_spec() == old(self).pool.capacity_spec(),
                self.pool.owned() == owned0.difference(slots_of(q, k as int)),
                self.conns@ == old(self).conns@.update(h as int, None),
                self.listeners == ls1,
                self.routes == old(self).routes,
                self.node_id == old(self).node_id,
                self.default_iface == old(self).default_iface,
                self.queue_capacity == old(self).queue_capacity,
            decreases q.len() - k,
        {
            let s = c.inbound[k].slot;
            self.pool.release(s);
            assert(slots_of(q, k + 1) =~= slots_of(q, k as int).insert(s as int));
            assert(self.pool.owned() =~= owned0.difference(slots_of(q, k + 1)));
            k = k + 1;
        }
        proof {
            let oc = old(self).conns@;
            assert forall|j: int, i: int| j != h && #[trigger] held(oc, j, i)
                implies self.pool.owned().contains(slot_at(oc, j, i)) by {
                if slots_of(q, q.len() as int).contains(slot_at(oc, j, i)) {
                    let k2 = choose|k2: int| 0 <= k2 < q.len() && (#[trigger] q[k2]).slot == slot_at(oc, j, i);
                    assert(held(oc, h as int, k2));
                }
            }
            assert(q.len() == k);
            lemma_accounted_update(oc, owned0, h as int, None, self.pool.owned());
            lemma_pending_conns_update(ls1@, oc, h as int, None);
        }
        true
    }

    /// One step of waiting in `read` on connection `h` at time `now`: takes
    /// the oldest queued packet if there is one; else reports `Timeout` once
    /// `now` has reached `deadline`, and `Ok(None)` before that. Fails with
    /// `ConnectionClosed` where `h` is not open.
    pub fn read(&mut self, h: usize, now: u64, deadline: u64) -> (r: Result<Option<Packet>, CspError>)
        requires
            old(self).wf(),
        ensures
            final(self).wf(),
            !old(self).is_open(h as int) ==> r == Err::<Option<Packet>, CspError>(CspError::ConnectionClosed),
            old(self).is_open(h as int) && old(self).conn(h as int).inbound@.len() > 0 ==> {
                &&& r == Ok::<Option<Packet>, CspError>(Some(old(self).conn(h as int).inbound@[0]))
                &&& old(self).pool.owned().contains(old(self).conn(h as int).inbound@[0].slot as int)
                &&& !is_queued(final(self).conns@, old(self).conn(h as int).inbound@[0].slot as int)
                &&& final(self).is_open(h as int)
                &&& final(self).conn(h as int).inbound@ == old(self).conn(h as int).inbound@.drop_first()
                &&& final(self).conn(h as int).local_port == old(self).conn(h as int).local_port
                &&& final(self).conn(h as int).remote == old(self).conn(h as int).remote
                &&& final(self).conn(h as int).prio == old(self).conn(h as int).prio
                &&& final(self).conn(h as int).state == old(self).conn(h as int).state
                &&& final(self).conn(h as int).last_active == old(self).conn(h as int).last_active
                &&& final(self).conns@ == old(self).conns@.update(h as int, final(self).conns@[h as int])
            },
            old(self).is_open(h as int) && old(self).conn(h as int).inbound@.len() == 0 ==> {
                &&& now >= deadline ==> r == Err::<Option<Packet>, CspError>(CspError::Timeout)
                &&& now < deadline ==> r == Ok::<Option<Packet>, CspError>(None)
            },
            !(old(self).is_open(h as int) && old(self).conn(h as int).inbound@.len() > 0) ==> *final(self) == *old(self),
            final(self).listeners == old(self).listeners,
            final(self).pool == old(self).pool,
            final(self).routes == old(self).routes,
            final(self).node_id == old(self).node_id,
            final(self).default_iface == old(self).default_iface,
            final(self).queue_capacity == old(self).queue_capacity,
    {
        if h >= self.conns.len() || self.conns[h].is_none() {
            return Err(CspError::ConnectionClosed);
        }
        let has = match &self.conns[h] {
            Some(c) => c.inbound.len() > 0,
            None => false,
        };
        if has {
            let c = self.take_conn(h);
            let mut c = c.unwrap();
            let p = c.inbound.remove(0);
            proof {
                let oc = old(self).conns@;
                let c2 = oc.update(h as int, Some(c));
                assert forall|i: int| #[trigger] held(c2, h as int, i)
                    implies self.pool.owned().contains(slot_at(c2, h as int, i)) by {
                    assert(held(oc, h as int, i + 1));
                }
                assert forall|k1: int, k2: int|
                    #[trigger] held(c2, h as int, k1) && #[trigger] held(c2, h as int, k2)
                        && slot_at(c2, h as int, k1) == slot_at(c2, h as int, k2) implies k1 == k2 by {
                    assert(held(oc, h as int, k1 + 1) && held(oc, h as int, k2 + 1));
                }
                assert forall|j: int, k1: int, k2: int|
                    j != h && #[trigger] held(oc, j, k1) && #[trigger] held(c2, h as int, k2)
                        implies slot_at(oc, j, k1) != slot_at(c2, h as int, k2) by {
                    assert(held(oc, h as int, k2 + 1));
                }
                lemma_accounted_update(oc, self.pool.owned(), h as int, Some(c), self.pool.owned());
                assert(held(oc, h as int, 0));
                if is_queued(c2, p.slot as int) {
                    let (j, i) = choose|j: int, i: int| #[trigger] held(c2, j, i) && slot_at(c2, j, i) == p.slot as int;
                    if j == h {
                        assert(held(oc, h as int, i + 1));
                    } else {
                        assert(held(oc, j, i));
                    }
                }
            }
            let ghost updated = old(self).conns@.update(h as int, Some(c));
            self.conns.set(h, Some(c));
            assert(self.conns@ =~= updated);
            Ok(Some(p))
        } else if now >= deadline {
            Err(CspError::Timeout)
        } else {
            Ok(None)
        }
    }

    /// A buffer from the pool, empty and addressed from `src` to `dst`.
    pub fn get_packet(&mut self, src: Address, dst: Address) -> (r: Result<Packet, CspError>)
        requires
            old(self).wf(),
        ensures
            final(self).wf(),
            r matches Ok(p) ==> !is_queued(final(self).conns@, p.slot as int),
            r is Err <==> old(self).pool.exhausted(),
            r is Err ==> r == Err::<Packet, CspError>(CspError::Exhausted) && *final(self) == *old(self),
            r matches Ok(p) ==> {
                &&& !old(self).pool.owned().contains(p.slot as int)
                &&& final(self).pool.owned() == old(self).pool.owned().insert(p.slot as int)
                &&& p.src == src && p.dst == dst && p.data@.len() == 0
            },
            final(self).pool.capacity_spec() == old(self).pool.capacity_spec(),
            final(self).conns == old(self).conns,
            final(self).listeners == old(self).listeners,
            final(self).routes == old(self).routes,
            final(self).node_id == old(self).node_id,
            final(self).default_iface == old(self).default_iface,
            final(self).queue_capacity == old(self).queue_capacity,
    {
        match self.pool.acquire() {
            Some(slot) => {
                proof {
                    lemma_free_not_queued(self.conns@, old(self).pool.owned(), slot as int);
                    lemma_accounted_grow(self.conns@, old(self).pool.owned(), self.pool.owned());
                }
                Ok(Packet { slot, src, dst, data: Vec::new() })
            },
            None => Err(CspError::Exhausted),
        }
    }

    /// Returns packet `p`'s buffer to the pool. Returns whether it was owned.
    pub fn free_packet(&mut self, p: Packet) -> (r: bool)
        requires
            old(self).wf(),
            !is_queued(old(self).conns@, p.slot as int),
        ensures
            final(self).wf(),
            r == old(self).pool.owned().contains(p.slot as int),
            final(self).pool.owned() == old(self).pool.owned().remove(p.slot as int),
            final(self).pool.capacity_spec() == old(self).pool.capacity_spec(),
            final(self).conns == old(self).conns,
            final(self).listeners == old(self).listeners,
            final(self).routes == old(self).routes,
            final(self).node_id == old(self).node_id,
            final(self).default_iface == old(self).default_iface,
            final(self).queue_capacity == old(self).queue_capacity,
    {
        proof {
            lemma_accounted_release(self.conns@, self.pool.owned(), p.slot as int);
        }
        self.pool.release(p.slot)
    }

    /// Sends `p` on connection `h`: it leaves from this node and the
    /// connection's local port for the connection's remote address, through
    /// the interface that the routes choose for that node. The buffer goes
    /// back to the pool whether or not the send succeeds.
    pub fn send(&mut self, h: usize, p: Packet) -> (r: Result<Transmit, CspError>)
        requires
            old(self).wf(),
            !is_queued(old(self).conns@, p.slot as int),
        ensures
            final(self).wf(),
            final(self).pool.owned() == old(self).pool.owned().remove(p.slot as int),
            final(self).pool.capacity_spec() == old(self).pool.capacity_spec(),
            !old(self).is_open(h as int) ==> r == Err::<Transmit, CspError>(CspError::ConnectionClosed),
            old(self).is_open(h as int) && p.data@.len() > PACKET_CAPACITY
                ==> r == Err::<Transmit, CspError>(CspError::PayloadTooLarge),
            old(self).is_open(h as int) && p.data@.len() <= PACKET_CAPACITY ==> {
                let c = old(self).conn(h as int);
                match route_spec(old(self).routes@, old(self).default_iface, c.remote.node) {
                    None => r == Err::<Transmit, CspError>(CspError::TransmitError),
                    Some(iface) => r matches Ok(t) && t.iface == iface && t.frame.prio == c.prio
                        && t.frame.src == (Address { node: old(self).node_id, port: c.local_port })
                        && t.frame.dst == c.remote && t.frame.data@ == p.data@,
                }
            },
            final(self).conns == old(self).conns,
            final(self).listeners == old(self).listeners,
            final(self).routes == old(self).routes,
            final(self).node_id == old(self).node_id,
            final(self).default_iface == old(self).default_iface,
            final(self).queue_capacity == old(self).queue_capacity,
    {
        let slot = p.slot;
        proof {
            lemma_accounted_release(self.conns@, self.pool.owned(), slot as int);
        }
        self.pool.release(slot);
        if h >= self.conns.len() || self.conns[h].is_none() {
            return Err(CspError::ConnectionClosed);
        }
        if p.data.len() > PACKET_CAPACITY {
            return Err(CspError::PayloadTooLarge);
        }
        let (prio, local_port, remote) = match &self.conns[h] {
            Some(c) => (c.prio, c.local_port, c.remote),
            None => (0, 0, Address { node: 0, port: 0 }),
        };
        match self.select_iface(remote.node) {
            None => Err(CspError::TransmitError),
            Some(iface) => {
                let src = Address { node: self.node_id, port: local_port };
                Ok(Transmit { iface, frame: Frame { prio, src, dst: remote, data: p.data } })
            },
        }
    }
}

} // verus!

verus! {

/// A connection's queue is first in, first out: a packet that the routing
/// engine appends does not change which packet `read` takes next, and leaves
/// behind all that were queued before it, in their order; on an empty queue
/// it is the next one taken.
pub proof fn lemma_queue_fifo(q: Seq<Packet>, p: Packet)
    ensures
        q.len() > 0 ==> q.push(p)[0] == q[0] && q.push(p).drop_first() == q.drop_first().push(p),
        q.len() == 0 ==> q.push(p)[0] == p && q.push(p).drop_first() == q,
{
    if q.len() > 0 {
        assert(q.push(p).drop_first() =~= q.drop_first().push(p));
    } else {
        assert(q.push(p).drop_first() =~= q);
    }
}

/// What `n` successive reads take from a connection whose queue is `q`, given
/// that each read takes the front of the queue and leaves the rest.
pub open spec fn reads(q: Seq<Packet>, n: nat) -> Seq<Packet>
    decreases n,
{
    if n == 0 || q.len() == 0 {
        Seq::empty()
    } else {
        seq![q[0]] + reads(q.drop_first(), (n - 1) as nat)
    }
}

/// Reads return packets in the order they were queued: `n` reads of a queue
/// return its first `n` packets, in order.
pub proof fn lemma_reads_in_order(q: Seq<Packet>, n: nat)
    requires
        n <= q.len(),
    ensures
        reads(q, n) == q.subrange(0, n as int),
    decreases n,
{
    if n > 0 {
        lemma_reads_in_order(q.drop_first(), (n - 1) as nat);
        assert(reads(q, n) =~= q.subrange(0, n as int));
    } else {
        assert(reads(q, n) =~= q.subrange(0, n as int));
    }
}

/// A buffer taken for a send and the buffers that arrive on the connection
/// before it closes all go back: with the pool's owned slots `owned` before,
/// the send's slot `slot` and the arrived slots `queued`, what `get_packet`,
/// `route_frame`, `send` and `close` leave owned is `owned` again.
pub proof fn lemma_send_close_no_leak(owned: Set<int>, slot: int, queued: Set<int>)
    requires
        !owned.contains(slot),
        queued.disjoint(owned),
    ensures
        owned.insert(slot).union(queued).remove(slot).difference(queued) == owned,
{
    assert(owned.insert(slot).union(queued).remove(slot).difference(queued) =~= owned);
}

} // verus!

verus! {

/// In every state the operations reach, the pool owns no more buffers than it
/// has, each is either free or owned, and each buffer held by a queued packet
/// is owned and held by that one packet alone.
pub proof fn lemma_buffers_owned_once(t: Transport)
    requires
        t.wf(),
    ensures
        t.pool.owned().len() <= t.pool.capacity_spec(),
        forall|s: int| 0 <= s < t.pool.capacity_spec() ==> t.pool.owned().contains(s) == t.pool.in_use@[s],
        forall|h: int, k: int| #[trigger] held(t.conns@, h, k) ==> t.pool.owned().contains(slot_at(t.conns@, h, k)),
        forall|h1: int, k1: int, h2: int, k2: int|
            #[trigger] held(t.conns@, h1, k1) && #[trigger] held(t.conns@, h2, k2)
                && slot_at(t.conns@, h1, k1) == slot_at(t.conns@, h2, k2) ==> h1 == h2 && k1 == k2,
{
    crate::pool::lemma_owned_within_capacity(t.pool);
}

} // verus!

verus! {

impl Transport {
    /// Closes connection `h` where it has been idle for `idle_limit` or more
    /// at time `now`: it was opened or last received a packet at least that
    /// long ago. Returns whether it closed it.
    pub fn close_idle(&mut self, h: usize, now: u64, idle_limit: u64) -> (r: bool)
        requires
            old(self).wf(),
        ensures
            final(self).wf(),
            r == (old(self).is_open(h as int)
                && now as int - old(self).conn(h as int).last_active as int >= idle_limit as int),
            r ==> final(self).conns@ == old(self).conns@.update(h as int, None),
            r ==> final(self).pool.owned() == old(self).pool.owned().difference(old(self).queued_slots(h as int)),
            !r ==> *final(self) == *old(self),
            final(self).pool.capacity_spec() == old(self).pool.capacity_spec(),
            r ==> backlog_removed(old(self).listeners@, final(self).listeners@, h),
            final(self).routes == old(self).routes,
            final(self).node_id == old(self).node_id,
            final(self).default_iface == old(self).default_iface,
            final(self).queue_capacity == old(self).queue_capacity,
    {
        let idle = match &self.conns.get(h) {
            Some(Some(c)) => now >= c.last_active && now - c.last_active >= idle_limit,
            _ => false,
        };
        if idle {
            self.close(h)
        } else {
            false
        }
    }
}

} // verus!
