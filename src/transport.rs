use vstd::prelude::*;

use crate::pool::BufferPool;

verus! {

/// The largest payload a packet buffer holds.
pub const PACKET_CAPACITY: usize = 256;

/// The port that binds a catch-all listening socket.
pub const ANY_PORT: u8 = 255;

/// A node and a port on it.
#[derive(Clone, Copy, PartialEq, Eq, Structural, Debug)]
pub struct Address {
    pub node: u16,
    pub port: u8,
}

/// A buffer taken from the pool: the slot it occupies, its header and payload.
pub struct Packet {
    pub slot: usize,
    pub src: Address,
    pub dst: Address,
    pub data: Vec<u8>,
}

/// A frame as a link driver carries it.
pub struct Frame {
    pub prio: u8,
    pub src: Address,
    pub dst: Address,
    pub data: Vec<u8>,
}

/// A frame to hand to the send capability of interface `iface`.
pub struct Transmit {
    pub iface: u8,
    pub frame: Frame,
}

#[derive(Clone, Copy, PartialEq, Eq, Structural, Debug)]
pub enum ConnState {
    Closed,
    Connecting,
    Established,
}

pub struct Connection {
    pub prio: u8,
    pub local_port: u8,
    pub remote: Address,
    pub state: ConnState,
    pub inbound: Vec<Packet>,
    /// When the connection was opened or last received a packet.
    pub last_active: u64,
}

pub struct Listener {
    pub port: u8,
    pub backlog: usize,
    /// Handles of connections that wait for `accept`, oldest first.
    pub pending: Vec<usize>,
}

/// Frames for nodes `n` with `n & mask == node & mask` leave through `iface`.
#[derive(Clone, Copy, PartialEq, Eq, Structural, Debug)]
pub struct Route {
    pub node: u16,
    pub mask: u16,
    pub iface: u8,
}

#[derive(Clone, Copy, PartialEq, Eq, Structural, Debug)]
pub enum CspError {
    Exhausted,
    Timeout,
    AlreadyBound,
    PayloadTooLarge,
    TransmitError,
    ConnectionClosed,
}

/// What the routing engine did with one incoming frame.
pub enum RouteOutcome {
    /// Queued on the open connection with this handle.
    Delivered(usize),
    /// Opened a connection with this handle for a listening socket, queued it
    /// on that socket's backlog, and queued the packet on it.
    Accepted(usize),
    /// Not for this node: to be sent on.
    Forward(Transmit),
    /// Dropped; no buffer stays held for it.
    Dropped,
}

/// The first route that matches `node`, else the default interface.
pub open spec fn route_spec(routes: Seq<Route>, default_iface: Option<u8>, node: u16) -> Option<u8>
    decreases routes.len(),
{
    if routes.len() == 0 {
        default_iface
    } else if node & routes[0].mask == routes[0].node & routes[0].mask {
        Some(routes[0].iface)
    } else {
        route_spec(routes.drop_first(), default_iface, node)
    }
}

/// The slots of the first `n` packets of `q`.
pub open spec fn slots_of(q: Seq<Packet>, n: int) -> Set<int> {
    Set::new(|s: int| exists|k: int| 0 <= k < n && (#[trigger] q[k]).slot == s)
}

/// Connection slot `h` is open and established.
pub open spec fn established(conns: Seq<Option<Connection>>, h: int) -> bool {
    0 <= h < conns.len() && conns[h] is Some && conns[h]->Some_0.state == ConnState::Established
}

/// Pending entry `k` of listener `i` exists.
pub open spec fn in_backlog(ls: Seq<Listener>, i: int, k: int) -> bool {
    0 <= i < ls.len() && 0 <= k < ls[i].pending@.len()
}

/// Some listener has connection `h` pending.
pub open spec fn is_pending(ls: Seq<Listener>, h: int) -> bool {
    exists|i: int, k: int| #[trigger] in_backlog(ls, i, k) && ls[i].pending@[k] as int == h
}

/// Every pending connection is open and established, and pending once.
pub open spec fn pending_valid(ls: Seq<Listener>, conns: Seq<Option<Connection>>) -> bool {
    &&& forall|i: int, k: int| #[trigger] in_backlog(ls, i, k) ==> established(conns, ls[i].pending@[k] as int)
    &&& forall|i1: int, k1: int, i2: int, k2: int|
        #[trigger] in_backlog(ls, i1, k1) && #[trigger] in_backlog(ls, i2, k2)
            && ls[i1].pending@[k1] == ls[i2].pending@[k2] ==> i1 == i2 && k1 == k2
}

/// A connection slot that is not established is pending nowhere.
pub proof fn lemma_not_pending(ls: Seq<Listener>, conns: Seq<Option<Connection>>, h: int)
    requires
        pending_valid(ls, conns),
        !established(conns, h),
    ensures
        !is_pending(ls, h),
{
    if is_pending(ls, h) {
        let (i, k) = choose|i: int, k: int| #[trigger] in_backlog(ls, i, k) && ls[i].pending@[k] as int == h;
        assert(established(conns, ls[i].pending@[k] as int));
    }
}

/// Replacing connection slot `h` keeps the backlogs valid where the slot
/// stays established or is pending nowhere.
pub proof fn lemma_pending_conns_update(
    ls: Seq<Listener>,
    conns: Seq<Option<Connection>>,
    h: int,
    v: Option<Connection>,
)
    requires
        pending_valid(ls, conns),
        0 <= h < conns.len(),
        (v is Some && v->Some_0.state == ConnState::Established) || !is_pending(ls, h),
    ensures
        pending_valid(ls, conns.update(h, v)),
{
    let c2 = conns.update(h, v);
    assert forall|i: int, k: int| #[trigger] in_backlog(ls, i, k) implies established(c2, ls[i].pending@[k] as int) by {
        assert(established(conns, ls[i].pending@[k] as int));
    }
}

/// Replacing listener `i` keeps the backlogs valid where its new pending
/// connections are established, distinct, and pending at no other listener.
pub proof fn lemma_pending_listener_update(
    ls: Seq<Listener>,
    conns: Seq<Option<Connection>>,
    i: int,
    l: Listener,
)
    requires
        pending_valid(ls, conns),
        0 <= i < ls.len(),
        forall|k: int| 0 <= k < l.pending@.len() ==> established(conns, #[trigger] l.pending@[k] as int),
        forall|k1: int, k2: int| 0 <= k1 < l.pending@.len() && 0 <= k2 < l.pending@.len()
            && #[trigger] l.pending@[k1] == #[trigger] l.pending@[k2] ==> k1 == k2,
        forall|j: int, k1: int, k2: int| j != i && #[trigger] in_backlog(ls, j, k1) && 0 <= k2 < l.pending@.len()
            ==> ls[j].pending@[k1] != #[trigger] l.pending@[k2],
    ensures
        pending_valid(ls.update(i, l), conns),
{
    let l2 = ls.update(i, l);
    assert forall|j: int, k: int| #[trigger] in_backlog(l2, j, k) implies established(conns, l2[j].pending@[k] as int) by {
        if j != i {
            assert(in_backlog(ls, j, k));
        } else {
            assert(established(conns, l.pending@[k] as int));
        }
    }
    assert forall|i1: int, k1: int, i2: int, k2: int|
        #[trigger] in_backlog(l2, i1, k1) && #[trigger] in_backlog(l2, i2, k2)
            && l2[i1].pending@[k1] == l2[i2].pending@[k2] implies i1 == i2 && k1 == k2 by {
        if i1 != i && i2 != i {
            assert(in_backlog(ls, i1, k1) && in_backlog(ls, i2, k2));
        } else if i1 != i {
            assert(in_backlog(ls, i1, k1));
            assert(l.pending@[k2] == l2[i2].pending@[k2]);
        } else if i2 != i {
            assert(in_backlog(ls, i2, k2));
            assert(l.pending@[k1] == l2[i1].pending@[k1]);
        } else {
            assert(l.pending@[k1] == l.pending@[k2]);
        }
    }
}

/// No listening socket holds more pending connections than its backlog.
pub open spec fn backlogs_bounded(ls: Seq<Listener>) -> bool {
    forall|i: int| 0 <= i < ls.len() ==> (#[trigger] ls[i]).pending@.len() <= ls[i].backlog
}

/// No connection queue holds more packets than `cap`.
pub open spec fn queues_bounded(conns: Seq<Option<Connection>>, cap: usize) -> bool {
    forall|h: int| 0 <= h < conns.len() && (#[trigger] conns[h]) is Some ==> conns[h]->Some_0.inbound@.len() <= cap
}

/// Packet `k` of the queue of connection slot `h` exists.
pub open spec fn held(conns: Seq<Option<Connection>>, h: int, k: int) -> bool {
    0 <= h < conns.len() && conns[h] is Some && 0 <= k < conns[h]->Some_0.inbound@.len()
}

/// The buffer slot of packet `k` of the queue of connection slot `h`.
pub open spec fn slot_at(conns: Seq<Option<Connection>>, h: int, k: int) -> int {
    conns[h]->Some_0.inbound@[k].slot as int
}

/// Some queued packet holds buffer slot `slot`.
pub open spec fn is_queued(conns: Seq<Option<Connection>>, slot: int) -> bool {
    exists|h: int, k: int| #[trigger] held(conns, h, k) && slot_at(conns, h, k) == slot
}

/// Each queued packet's buffer is owned, and held by that packet alone.
pub open spec fn accounted(conns: Seq<Option<Connection>>, owned: Set<int>) -> bool {
    &&& forall|h: int, k: int| #[trigger] held(conns, h, k) ==> owned.contains(slot_at(conns, h, k))
    &&& forall|h1: int, k1: int, h2: int, k2: int|
        #[trigger] held(conns, h1, k1) && #[trigger] held(conns, h2, k2)
            && slot_at(conns, h1, k1) == slot_at(conns, h2, k2) ==> h1 == h2 && k1 == k2
}

/// Replacing connection slot `h` keeps the buffers accounted for where the
/// new queue's buffers are owned, distinct, and held by no other queue, and
/// the other queues' buffers stay owned.
pub proof fn lemma_accounted_update(
    c: Seq<Option<Connection>>,
    owned: Set<int>,
    h: int,
    slot_value: Option<Connection>,
    owned2: Set<int>,
)
    requires
        accounted(c, owned),
        0 <= h < c.len(),
        forall|j: int, k: int| j != h && #[trigger] held(c, j, k) ==> owned2.contains(slot_at(c, j, k)),
        ({
            let c2 = c.update(h, slot_value);
            &&& forall|k: int| #[trigger] held(c2, h, k) ==> owned2.contains(slot_at(c2, h, k))
            &&& forall|k1: int, k2: int|
                #[trigger] held(c2, h, k1) && #[trigger] held(c2, h, k2) && slot_at(c2, h, k1) == slot_at(c2, h, k2)
                    ==> k1 == k2
            &&& forall|j: int, k1: int, k2: int|
                j != h && #[trigger] held(c, j, k1) && #[trigger] held(c2, h, k2)
                    ==> slot_at(c, j, k1) != slot_at(c2, h, k2)
        }),
    ensures
        accounted(c.update(h, slot_value), owned2),
{
    let c2 = c.update(h, slot_value);
    assert forall|j: int, k: int| #[trigger] held(c2, j, k) implies owned2.contains(slot_at(c2, j, k)) by {
        if j != h {
            assert(held(c, j, k));
        }
    }
    assert forall|h1: int, k1: int, h2: int, k2: int|
        #[trigger] held(c2, h1, k1) && #[trigger] held(c2, h2, k2) && slot_at(c2, h1, k1) == slot_at(c2, h2, k2)
        implies h1 == h2 && k1 == k2 by {
        if h1 != h && h2 != h {
            assert(held(c, h1, k1) && held(c, h2, k2));
        } else if h1 != h {
            assert(held(c, h1, k1));
        } else if h2 != h {
            assert(held(c, h2, k2));
        }
    }
}

pub open spec fn conn_matches(c: Option<Connection>, port: u8, remote: Address) -> bool {
    c is Some && c->Some_0.local_port == port && c->Some_0.remote == remote
}

pub open spec fn port_in_use(conns: Seq<Option<Connection>>, port: u8) -> bool {
    exists|i: int| 0 <= i < conns.len() && (#[trigger] conns[i] is Some) && conns[i]->Some_0.local_port == port
}

/// The lowest port from which active connections take their local port.
pub const FIRST_EPHEMERAL_PORT: u8 = 32;

/// The transport of one node: its configuration, its buffer pool, its table of
/// connections and its listening sockets.
pub struct Transport {
    pub node_id: u16,
    pub default_iface: Option<u8>,
    pub routes: Vec<Route>,
    pub pool: BufferPool,
    /// Connection slots; a handle is an index here.
    pub conns: Vec<Option<Connection>>,
    pub queue_capacity: usize,
    pub listeners: Vec<Listener>,
    /// Frames the routing engine dropped.
    pub drops: u64,
}

impl Transport {
    /// A bound port has one listening socket, and every queued packet holds
    /// an owned buffer that no other queued packet holds.
    pub open spec fn wf(&self) -> bool {
        &&& forall|i: int, j: int|
            0 <= i < self.listeners@.len() && 0 <= j < self.listeners@.len()
                && (#[trigger] self.listeners@[i]).port == (#[trigger] self.listeners@[j]).port
                ==> i == j
        &&& accounted(self.conns@, self.pool.owned())
        &&& backlogs_bounded(self.listeners@)
        &&& queues_bounded(self.conns@, self.queue_capacity)
        &&& pending_valid(self.listeners@, self.conns@)
    }

    pub open spec fn is_open(&self, h: int) -> bool {
        0 <= h < self.conns@.len() && self.conns@[h] is Some
    }

    pub open spec fn conn(&self, h: int) -> Connection {
        self.conns@[h]->Some_0
    }

    pub open spec fn is_bound(&self, port: u8) -> bool {
        exists|i: int| 0 <= i < self.listeners@.len() && (#[trigger] self.listeners@[i]).port == port
    }

    /// The slots held by packets queued on connection slot `h`.
    pub open spec fn queued_slots(&self, h: int) -> Set<int> {
        slots_of(self.conn(h).inbound@, self.conn(h).inbound@.len() as int)
    }

    /// `connect` has a free slot and a free ephemeral port to use.
    pub open spec fn can_connect(&self) -> bool {
        &&& exists|h: int| 0 <= h < self.conns@.len() && !self.is_open(h)
        &&& exists|p: u8| FIRST_EPHEMERAL_PORT <= p < ANY_PORT && !port_in_use(self.conns@, p)
    }

    /// The listener on `port` has a connection waiting.
    pub open spec fn has_pending(&self, port: u8) -> bool {
        exists|i: int| 0 <= i < self.listeners@.len() && (#[trigger] self.listeners@[i]).port == port
            && self.listeners@[i].pending@.len() > 0
    }

    /// A transport for node `node_id` with `pool_size` buffers, room for
    /// `max_conns` connections and `queue_capacity` packets per connection.
    pub fn new(node_id: u16, pool_size: usize, max_conns: usize, queue_capacity: usize) -> (r: Transport)
        ensures
            r.node_id == node_id,
            r.default_iface is None,
            r.routes@.len() == 0,
            r.pool.capacity_spec() == pool_size,
            r.pool.owned() == Set::<int>::empty(),
            r.conns@.len() == max_conns,
            forall|h: int| 0 <= h < max_conns ==> !r.is_open(h),
            r.queue_capacity == queue_capacity,
            r.listeners@.len() == 0,
            r.drops == 0,
            r.wf(),
    {
        let mut conns: Vec<Option<Connection>> = Vec::new();
        let mut k: usize = 0;
        while k < max_conns
            invariant
                k <= max_conns,
                conns@.len() == k,
                forall|i: int| 0 <= i < k ==> (#[trigger] conns@[i]) is None,
            decreases max_conns - k,
        {
            conns.push(None);
            k = k + 1;
        }
        Transport {
            node_id,
            default_iface: None,
            routes: Vec::new(),
            pool: BufferPool::new(pool_size),
            conns,
            queue_capacity,
            listeners: Vec::new(),
            drops: 0,
        }
    }

    /// Marks `iface` as the default interface, in place of any earlier one.
    pub fn set_default_iface(&mut self, iface: u8)
        ensures
            *final(self) == (Transport { default_iface: Some(iface), ..*old(self) }),
    {
        self.default_iface = Some(iface);
    }

    /// Adds a route, tried after those added before it.
    pub fn add_route(&mut self, route: Route)
        ensures
            final(self).routes@ == old(self).routes@.push(route),
            final(self).node_id == old(self).node_id,
            final(self).default_iface == old(self).default_iface,
            final(self).pool == old(self).pool,
            final(self).conns == old(self).conns,
            final(self).listeners == old(self).listeners,
    {
        self.routes.push(route);
    }

    /// The interface through which frames for `node` leave.
    pub fn select_iface(&self, node: u16) -> (r: Option<u8>)
        ensures
            r == route_spec(self.routes@, self.default_iface, node),
    {
        let mut k: usize = 0;
        assert(self.routes@.subrange(0, self.routes@.len() as int) =~= self.routes@);
        while k < self.routes.len()
            invariant
                k <= self.routes@.len(),
                route_spec(self.routes@, self.default_iface, node)
                    == route_spec(self.routes@.subrange(k as int, self.routes@.len() as int), self.default_iface, node),
            decreases self.routes@.len() - k,
        {
            let r = self.routes[k];
            let ghost rest = self.routes@.subrange(k as int, self.routes@.len() as int);
            assert(rest.drop_first() =~= self.routes@.subrange(k + 1, self.routes@.len() as int));
            if node & r.mask == r.node & r.mask {
                return Some(r.iface);
            }
            k = k + 1;
        }
        assert(self.routes@.subrange(k as int, self.routes@.len() as int) =~= Seq::<Route>::empty());
        self.default_iface
    }
}

} // verus!

verus! {

/// Buffers accounted for stay so when more are owned.
pub proof fn lemma_accounted_grow(c: Seq<Option<Connection>>, owned: Set<int>, owned2: Set<int>)
    requires
        accounted(c, owned),
        owned.subset_of(owned2),
    ensures
        accounted(c, owned2),
{
}

/// Releasing a buffer that no queued packet holds keeps the rest accounted for.
pub proof fn lemma_accounted_release(c: Seq<Option<Connection>>, owned: Set<int>, slot: int)
    requires
        accounted(c, owned),
        !is_queued(c, slot),
    ensures
        accounted(c, owned.remove(slot)),
{
    assert forall|h: int, k: int| #[trigger] held(c, h, k) implies owned.remove(slot).contains(slot_at(c, h, k)) by {
        if slot_at(c, h, k) == slot {
            assert(is_queued(c, slot));
        }
    }
}

/// A buffer that the pool does not own is held by no queued packet.
pub proof fn lemma_free_not_queued(c: Seq<Option<Connection>>, owned: Set<int>, slot: int)
    requires
        accounted(c, owned),
        !owned.contains(slot),
    ensures
        !is_queued(c, slot),
{
    if is_queued(c, slot) {
        let (h, k) = choose|h: int, k: int| #[trigger] held(c, h, k) && slot_at(c, h, k) == slot;
        assert(owned.contains(slot_at(c, h, k)));
    }
}

} // verus!

verus! {

/// A listener whose pending connections are those of listener `i` with
/// entry `k` left out keeps the backlogs valid; so does one whose pending
/// connections are unchanged (`k` out of range).
pub proof fn lemma_pending_remove(ls: Seq<Listener>, conns: Seq<Option<Connection>>, i: int, l: Listener, k: int)
    requires
        pending_valid(ls, conns),
        0 <= i < ls.len(),
        0 <= k < ls[i].pending@.len() ==> l.pending@ == ls[i].pending@.remove(k),
        !(0 <= k < ls[i].pending@.len()) ==> l.pending@ == ls[i].pending@,
    ensures
        pending_valid(ls.update(i, l), conns),
{
    let p = ls[i].pending@;
    let n = p.len() as int;
    let inside = 0 <= k < n;
    let ghost idx = |x: int| if inside && x >= k { x + 1 } else { x };
    assert forall|x: int| 0 <= x < l.pending@.len() implies established(conns, #[trigger] l.pending@[x] as int) by {
        assert(l.pending@[x] == p[idx(x)]);
        assert(in_backlog(ls, i, idx(x)));
    }
    assert forall|k1: int, k2: int| 0 <= k1 < l.pending@.len() && 0 <= k2 < l.pending@.len()
        && #[trigger] l.pending@[k1] == #[trigger] l.pending@[k2] implies k1 == k2 by {
        assert(l.pending@[k1] == p[idx(k1)] && l.pending@[k2] == p[idx(k2)]);
        assert(in_backlog(ls, i, idx(k1)) && in_backlog(ls, i, idx(k2)));
    }
    assert forall|j: int, k1: int, k2: int| j != i && #[trigger] in_backlog(ls, j, k1) && 0 <= k2 < l.pending@.len()
        implies ls[j].pending@[k1] != #[trigger] l.pending@[k2] by {
        assert(l.pending@[k2] == p[idx(k2)]);
        assert(in_backlog(ls, i, idx(k2)));
    }
    lemma_pending_listener_update(ls, conns, i, l);
}

/// A listener whose pending connections are those of listener `i` with
/// its first left out keeps the backlogs valid.
pub proof fn lemma_pending_drop_first(ls: Seq<Listener>, conns: Seq<Option<Connection>>, i: int, l: Listener)
    requires
        pending_valid(ls, conns),
        0 <= i < ls.len(),
        ls[i].pending@.len() > 0,
        l.pending@ == ls[i].pending@.drop_first(),
    ensures
        pending_valid(ls.update(i, l), conns),
{
    assert(ls[i].pending@.drop_first() =~= ls[i].pending@.remove(0));
    lemma_pending_remove(ls, conns, i, l, 0);
}

/// A listener whose pending connections are those of listener `i` and then
/// `h`, established and pending nowhere yet, keeps the backlogs valid.
pub proof fn lemma_pending_push(ls: Seq<Listener>, conns: Seq<Option<Connection>>, i: int, l: Listener, h: usize)
    requires
        pending_valid(ls, conns),
        0 <= i < ls.len(),
        l.pending@ == ls[i].pending@.push(h),
        established(conns, h as int),
        !is_pending(ls, h as int),
    ensures
        pending_valid(ls.update(i, l), conns),
{
    let p = ls[i].pending@;
    assert forall|x: int| 0 <= x < l.pending@.len() implies established(conns, #[trigger] l.pending@[x] as int) by {
        if x < p.len() {
            assert(in_backlog(ls, i, x));
        }
    }
    assert forall|k1: int, k2: int| 0 <= k1 < l.pending@.len() && 0 <= k2 < l.pending@.len()
        && #[trigger] l.pending@[k1] == #[trigger] l.pending@[k2] implies k1 == k2 by {
        if k1 < p.len() {
            assert(in_backlog(ls, i, k1));
        }
        if k2 < p.len() {
            assert(in_backlog(ls, i, k2));
        }
    }
    assert forall|j: int, k1: int, k2: int| j != i && #[trigger] in_backlog(ls, j, k1) && 0 <= k2 < l.pending@.len()
        implies ls[j].pending@[k1] != #[trigger] l.pending@[k2] by {
        if k2 < p.len() {
            assert(in_backlog(ls, i, k2));
        }
    }
    lemma_pending_listener_update(ls, conns, i, l);
}

/// A new listener with nothing pending keeps the backlogs valid.
pub proof fn lemma_pending_new_listener(ls: Seq<Listener>, conns: Seq<Option<Connection>>, l: Listener)
    requires
        pending_valid(ls, conns),
        l.pending@.len() == 0,
    ensures
        pending_valid(ls.push(l), conns),
{
    let l2 = ls.push(l);
    assert forall|i: int, k: int| #[trigger] in_backlog(l2, i, k) implies established(conns, l2[i].pending@[k] as int) by {
        assert(in_backlog(ls, i, k));
    }
    assert forall|i1: int, k1: int, i2: int, k2: int|
        #[trigger] in_backlog(l2, i1, k1) && #[trigger] in_backlog(l2, i2, k2)
            && l2[i1].pending@[k1] == l2[i2].pending@[k2] implies i1 == i2 && k1 == k2 by {
        assert(in_backlog(ls, i1, k1) && in_backlog(ls, i2, k2));
    }
}

} // verus!

verus! {

/// `after` is `before` with connection `h` taken off every backlog, the
/// order of the rest kept.
pub open spec fn backlog_removed(before: Seq<Listener>, after: Seq<Listener>, h: usize) -> bool {
    &&& after.len() == before.len()
    &&& !is_pending(after, h as int)
    &&& !is_pending(before, h as int) ==> after == before
    &&& forall|i: int| 0 <= i < before.len() ==> {
        let (a, b) = (#[trigger] before[i], after[i]);
        &&& b.port == a.port
        &&& b.backlog == a.backlog
        &&& b.pending@ == a.pending@ || exists|k: int| 0 <= k < a.pending@.len() && a.pending@[k] == h
            && b.pending@ == a.pending@.remove(k)
    }
}

} // verus!
