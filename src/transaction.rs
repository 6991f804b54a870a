use vstd::prelude::*;

use crate::transport::{
    backlog_removed, lemma_not_pending, route_spec, slots_of, Address, ConnState, CspError, Packet, Transmit, Transport, PACKET_CAPACITY,
};

verus! {

/// The slots of a queue are those of its first packet and of the rest.
pub proof fn lemma_slots_of_drop_first(q: Seq<Packet>)
    requires
        q.len() > 0,
    ensures
        slots_of(q, q.len() as int) == slots_of(q.drop_first(), q.len() - 1).insert(q[0].slot as int),
{
    let a = slots_of(q, q.len() as int);
    let b = slots_of(q.drop_first(), q.len() - 1).insert(q[0].slot as int);
    assert forall|s: int| a.contains(s) implies b.contains(s) by {
        let k = choose|k: int| 0 <= k < q.len() && (#[trigger] q[k]).slot == s;
        if k > 0 {
            assert(q.drop_first()[k - 1] == q[k]);
        }
    }
    assert forall|s: int| b.contains(s) implies a.contains(s) by {
        if s != q[0].slot as int {
            let k = choose|k: int| 0 <= k < q.len() - 1 && (#[trigger] q.drop_first()[k]).slot == s;
            assert(q[k + 1] == q.drop_first()[k]);
        } else {
            assert(q[0].slot == s);
        }
    }
    assert(a =~= b);
}

impl Transport {
    /// Starts a request/response exchange with port `port` of node `dest`:
    /// opens a connection and sends `request` on it. Fails with
    /// `TransmitError` where no connection can be opened, no buffer is free or
    /// no interface leads to `dest`, and with `PayloadTooLarge` where
    /// `request` does not fit in a buffer; no connection stays open and no
    /// buffer stays held after a failure. `now` is the time of the start.
    pub fn transaction_start(&mut self, prio: u8, dest: u16, port: u8, request: Vec<u8>, now: u64) -> (r: Result<(usize, Transmit), CspError>)
        requires
            old(self).wf(),
        ensures
            final(self).wf(),
            final(self).pool.owned() == old(self).pool.owned(),
            final(self).pool.capacity_spec() == old(self).pool.capacity_spec(),
            final(self).listeners@ == old(self).listeners@,
            r is Err ==> final(self).conns@ == old(self).conns@,
            !old(self).can_connect() ==> r == Err::<(usize, Transmit), CspError>(CspError::TransmitError),
            old(self).can_connect() && request@.len() > PACKET_CAPACITY
                ==> r == Err::<(usize, Transmit), CspError>(CspError::PayloadTooLarge),
            old(self).can_connect() && request@.len() <= PACKET_CAPACITY && old(self).pool.exhausted()
                ==> r == Err::<(usize, Transmit), CspError>(CspError::TransmitError),
            old(self).can_connect() && request@.len() <= PACKET_CAPACITY && !old(self).pool.exhausted() ==> {
                match route_spec(old(self).routes@, old(self).default_iface, dest) {
                    None => r == Err::<(usize, Transmit), CspError>(CspError::TransmitError),
                    Some(iface) => r matches Ok((h, t)) && {
                        let c = final(self).conn(h as int);
                        &&& h < old(self).conns@.len()
                        &&& !old(self).is_open(h as int)
                        &&& final(self).is_open(h as int)
                        &&& c.state == ConnState::Established
                        &&& c.prio == prio
                        &&& final(self).conns@ == old(self).conns@.update(h as int, final(self).conns@[h as int])
                        &&& c.remote == (Address { node: dest, port })
                        &&& c.inbound@.len() == 0
                        &&& t.iface == iface
                        &&& t.frame.prio == prio
                        &&& t.frame.src == (Address { node: old(self).node_id, port: c.local_port })
                        &&& t.frame.dst == (Address { node: dest, port })
                        &&& t.frame.data@ == request@
                    },
                }
            },
            final(self).routes == old(self).routes,
            final(self).node_id == old(self).node_id,
            final(self).default_iface == old(self).default_iface,
            final(self).queue_capacity == old(self).queue_capacity,
    {
        let remote = Address { node: dest, port };
        let h = match self.connect(prio, remote, now) {
            Ok(h) => h,
            Err(_) => {
                return Err(CspError::TransmitError);
            },
        };
        let ghost opened = *self;
        proof {
            lemma_not_pending(old(self).listeners@, old(self).conns@, h as int);
        }
        assert(opened.queued_slots(h as int) =~= Set::<int>::empty());
        assert(old(self).conns@[h as int] == None::<crate::transport::Connection>);
        assert(opened.conns@.update(h as int, None) =~= old(self).conns@);
        if request.len() > PACKET_CAPACITY {
            self.close(h);
            return Err(CspError::PayloadTooLarge);
        }
        let local = Address { node: self.node_id, port: 0 };
        let mut p = match self.get_packet(local, remote) {
            Ok(p) => p,
            Err(_) => {
                self.close(h);
                return Err(CspError::TransmitError);
            },
        };
        p.data = request;
        let ghost sent = *self;
        match self.send(h, p) {
            Ok(t) => Ok((h, t)),
            Err(_) => {
                assert(sent.queued_slots(h as int) =~= Set::<int>::empty());
                self.close(h);
                assert(self.conns@ =~= old(self).conns@);
                Err(CspError::TransmitError)
            },
        }
    }

    /// One step of waiting for the reply on the exchange that
    /// `transaction_start` opened as connection `h`, at time `now`. Where a
    /// reply is queued, returns its payload and closes the connection. Where
    /// none is, closes it and fails with `TransmitError` once `now` has
    /// reached `deadline`, and returns `Ok(None)` before that. Fails with
    /// `TransmitError` where `h` is not open.
    pub fn transaction_poll(&mut self, h: usize, now: u64, deadline: u64) -> (r: Result<Option<Vec<u8>>, CspError>)
        requires
            old(self).wf(),
        ensures
            final(self).wf(),
            !old(self).is_open(h as int) ==> r == Err::<Option<Vec<u8>>, CspError>(CspError::TransmitError)
                && *final(self) == *old(self),
            old(self).is_open(h as int) && old(self).conn(h as int).inbound@.len() > 0 ==> {
                &&& r matches Ok(Some(v)) && v@ == old(self).conn(h as int).inbound@[0].data@
                &&& final(self).conns@ == old(self).conns@.update(h as int, None)
                &&& final(self).pool.owned() == old(self).pool.owned().difference(old(self).queued_slots(h as int))
                &&& backlog_removed(old(self).listeners@, final(self).listeners@, h)
            },
            old(self).is_open(h as int) && old(self).conn(h as int).inbound@.len() == 0 && now >= deadline ==> {
                &&& r == Err::<Option<Vec<u8>>, CspError>(CspError::TransmitError)
                &&& final(self).conns@ == old(self).conns@.update(h as int, None)
                &&& final(self).pool.owned() == old(self).pool.owned()
                &&& backlog_removed(old(self).listeners@, final(self).listeners@, h)
            },
            old(self).is_open(h as int) && old(self).conn(h as int).inbound@.len() == 0 && now < deadline
                ==> r == Ok::<Option<Vec<u8>>, CspError>(None) && *final(self) == *old(self),
            final(self).pool.capacity_spec() == old(self).pool.capacity_spec(),
            final(self).routes == old(self).routes,
            final(self).node_id == old(self).node_id,
            final(self).default_iface == old(self).default_iface,
            final(self).queue_capacity == old(self).queue_capacity,
    {
        if h >= self.conns.len() || self.conns[h].is_none() {
            return Err(CspError::TransmitError);
        }
        match self.read(h, now, deadline) {
            Ok(Some(p)) => {
                proof {
                    lemma_slots_of_drop_first(old(self).conn(h as int).inbound@);
                }
                let Packet { slot, data, .. } = p;
                self.pool.release(slot);
                self.close(h);
                assert(self.conns@ =~= old(self).conns@.update(h as int, None));
                assert(self.pool.owned() =~= old(self).pool.owned().difference(old(self).queued_slots(h as int)));
                Ok(Some(data))
            },
            Ok(None) => Ok(None),
            Err(_) => {
                assert(old(self).queued_slots(h as int) =~= Set::<int>::empty());
                self.close(h);
                assert(self.pool.owned() =~= old(self).pool.owned());
                Err(CspError::TransmitError)
            },
        }
    }
}

} // verus!
