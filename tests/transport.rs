use csp_transport::pool::BufferPool;
use csp_transport::transport::{
    Address, ConnState, CspError, Frame, Route, RouteOutcome, Transport, ANY_PORT,
    PACKET_CAPACITY,
};

fn addr(node: u16, port: u8) -> Address {
    Address { node, port }
}

fn frame(src: Address, dst: Address, data: Vec<u8>) -> Frame {
    Frame { prio: 2, src, dst, data }
}

#[test]
fn pool_never_hands_out_more_than_capacity() {
    let mut pool = BufferPool::new(3);
    let a = pool.acquire().unwrap();
    let b = pool.acquire().unwrap();
    let c = pool.acquire().unwrap();
    assert_eq!((a, b, c), (0, 1, 2));
    assert_eq!(pool.owned_count(), 3);
    assert_eq!(pool.acquire(), None);
    assert!(pool.release(b));
    assert_eq!(pool.owned_count(), 2);
    assert_eq!(pool.acquire(), Some(1));
    assert_eq!(pool.owned_count(), 3);
}

#[test]
fn pool_refuses_double_release() {
    let mut pool = BufferPool::new(2);
    let a = pool.acquire().unwrap();
    assert!(pool.is_owned(a));
    assert!(pool.release(a));
    assert!(!pool.is_owned(a));
    assert!(!pool.release(a));
    assert_eq!(pool.owned_count(), 0);
    assert!(!pool.release(7));
}

#[test]
fn read_returns_packets_in_arrival_order() {
    let mut t = Transport::new(10, 8, 4, 8);
    let h = t.connect(2, addr(3, 7), 0).unwrap();
    let local = match &t.conns[h] {
        Some(c) => c.local_port,
        None => panic!("connection not open"),
    };
    for i in 0..3u8 {
        let out = t.route_frame(frame(addr(3, 7), addr(10, local), vec![i, i + 10]), 0);
        assert!(matches!(out, RouteOutcome::Delivered(x) if x == h));
    }
    for i in 0..3u8 {
        let p = t.read(h, 0, 100).unwrap().unwrap();
        assert_eq!(p.data, vec![i, i + 10]);
        assert_eq!(p.src, addr(3, 7));
        assert!(t.free_packet(p));
    }
    assert!(matches!(t.read(h, 0, 100), Ok(None)));
    assert_eq!(t.pool.owned_count(), 0);
}

#[test]
fn send_then_close_releases_every_buffer() {
    let mut t = Transport::new(10, 4, 4, 8);
    t.set_default_iface(0);
    let h = t.connect(2, addr(5, 20), 0).unwrap();
    let local = match &t.conns[h] {
        Some(c) => c.local_port,
        None => panic!("connection not open"),
    };
    t.route_frame(frame(addr(5, 20), addr(10, local), vec![9]), 0);
    let mut p = t.get_packet(addr(10, local), addr(5, 20)).unwrap();
    p.data = vec![1, 2];
    assert_eq!(t.pool.owned_count(), 2);
    let tx = t.send(h, p).unwrap();
    assert_eq!(tx.iface, 0);
    assert_eq!(tx.frame.dst, addr(5, 20));
    assert_eq!(tx.frame.src, addr(10, local));
    assert_eq!(tx.frame.data, vec![1, 2]);
    assert!(t.close(h));
    assert_eq!(t.pool.owned_count(), 0);
    assert!(!t.close(h));
}

#[test]
fn accept_times_out_without_connection() {
    let mut t = Transport::new(10, 4, 4, 4);
    t.bind(29).unwrap();
    assert!(t.listen(29, 10));
    assert_eq!(t.accept(29, 0, 1000), Ok(None));
    assert_eq!(t.accept(29, 999, 1000), Ok(None));
    assert_eq!(t.accept(29, 1000, 1000), Err(CspError::Timeout));
}

#[test]
fn accept_returns_arrived_connection_before_deadline() {
    let mut t = Transport::new(10, 4, 4, 4);
    t.bind(29).unwrap();
    t.listen(29, 10);
    let out = t.route_frame(frame(addr(2, 40), addr(10, 29), vec![1]), 0);
    let h = match out {
        RouteOutcome::Accepted(h) => h,
        _ => panic!("connection not accepted"),
    };
    assert_eq!(t.accept(29, 5, 1000), Ok(Some(h)));
    match &t.conns[h] {
        Some(c) => {
            assert_eq!(c.state, ConnState::Established);
            assert_eq!(c.remote, addr(2, 40));
            assert_eq!(c.local_port, 29);
        }
        None => panic!("connection not open"),
    }
    let p = t.read(h, 5, 1000).unwrap().unwrap();
    assert_eq!(p.data, vec![1]);
    assert_eq!(t.accept(29, 1000, 1000), Err(CspError::Timeout));
}

#[test]
fn transaction_round_trip_with_echoing_peer() {
    let mut t = Transport::new(10, 4, 4, 4);
    t.set_default_iface(0);
    let (h, tx) = t.transaction_start(2, 2, 29, vec![0x01, 0x02, 0x03, 0x04], 0).unwrap();
    assert_eq!(tx.frame.dst, addr(2, 29));
    assert_eq!(t.pool.owned_count(), 0);
    assert_eq!(t.transaction_poll(h, 0, 1000), Ok(None));
    let echo = Frame { prio: tx.frame.prio, src: tx.frame.dst, dst: tx.frame.src, data: tx.frame.data };
    assert!(matches!(t.route_frame(echo, 0), RouteOutcome::Delivered(x) if x == h));
    assert_eq!(t.transaction_poll(h, 10, 1000), Ok(Some(vec![0x01, 0x02, 0x03, 0x04])));
    assert_eq!(t.pool.owned_count(), 0);
    assert!(t.conns[h].is_none());
}

#[test]
fn transaction_fails_after_deadline() {
    let mut t = Transport::new(10, 4, 4, 4);
    t.set_default_iface(0);
    let (h, _) = t.transaction_start(2, 2, 29, vec![7], 0).unwrap();
    assert_eq!(t.transaction_poll(h, 1000, 1000), Err(CspError::TransmitError));
    assert!(t.conns[h].is_none());
    assert_eq!(t.transaction_poll(h, 0, 1000), Err(CspError::TransmitError));
}

#[test]
fn transaction_without_route_fails() {
    let mut t = Transport::new(10, 4, 4, 4);
    let r = t.transaction_start(2, 2, 29, vec![7], 0);
    assert!(matches!(r, Err(CspError::TransmitError)));
    assert!(t.conns.iter().all(|c| c.is_none()));
    assert_eq!(t.pool.owned_count(), 0);
}

#[test]
fn transaction_without_connection_slot_fails() {
    let mut t = Transport::new(10, 4, 0, 4);
    t.set_default_iface(0);
    assert!(matches!(t.transaction_start(2, 2, 29, vec![7], 0), Err(CspError::TransmitError)));
}

#[test]
fn second_bind_of_port_is_refused() {
    let mut t = Transport::new(10, 4, 4, 4);
    assert_eq!(t.bind(29), Ok(()));
    assert_eq!(t.bind(29), Err(CspError::AlreadyBound));
    assert_eq!(t.bind(30), Ok(()));
    assert_eq!(t.bind(ANY_PORT), Ok(()));
    assert_eq!(t.bind(ANY_PORT), Err(CspError::AlreadyBound));
    assert_eq!(t.listeners.len(), 3);
}

#[test]
fn full_backlog_drops_new_connection() {
    let mut t = Transport::new(10, 8, 8, 4);
    t.bind(29).unwrap();
    t.listen(29, 2);
    assert!(matches!(t.route_frame(frame(addr(2, 40), addr(10, 29), vec![1]), 0), RouteOutcome::Accepted(_)));
    assert!(matches!(t.route_frame(frame(addr(3, 40), addr(10, 29), vec![1]), 0), RouteOutcome::Accepted(_)));
    assert_eq!(t.listeners[0].pending.len(), 2);
    let out = t.route_frame(frame(addr(4, 40), addr(10, 29), vec![1]), 0);
    assert!(matches!(out, RouteOutcome::Dropped));
    assert_eq!(t.listeners[0].pending.len(), 2);
    assert_eq!(t.drops, 1);
    assert_eq!(t.pool.owned_count(), 2);
}

#[test]
fn oversized_payload_fails_without_buffer() {
    let mut t = Transport::new(10, 4, 4, 4);
    t.set_default_iface(0);
    let r = t.transaction_start(2, 2, 29, vec![0u8; PACKET_CAPACITY + 1], 0);
    assert!(matches!(r, Err(CspError::PayloadTooLarge)));
    assert_eq!(t.pool.owned_count(), 0);
    assert!(t.conns.iter().all(|c| c.is_none()));
}

#[test]
fn payload_of_full_capacity_is_sent() {
    let mut t = Transport::new(10, 4, 4, 4);
    t.set_default_iface(0);
    let (_, tx) = t.transaction_start(2, 2, 29, vec![5u8; PACKET_CAPACITY], 0).unwrap();
    assert_eq!(tx.frame.data.len(), PACKET_CAPACITY);
}

#[test]
fn routes_choose_interface_before_default() {
    let mut t = Transport::new(10, 4, 4, 4);
    t.add_route(Route { node: 0x20, mask: 0xF0, iface: 3 });
    t.set_default_iface(1);
    assert_eq!(t.select_iface(0x25), Some(3));
    assert_eq!(t.select_iface(0x35), Some(1));
    let out = t.route_frame(frame(addr(1, 1), addr(0x21, 5), vec![4, 5]), 0);
    match out {
        RouteOutcome::Forward(tx) => {
            assert_eq!(tx.iface, 3);
            assert_eq!(tx.frame.data, vec![4, 5]);
        }
        _ => panic!("frame not forwarded"),
    }
    assert_eq!(t.pool.owned_count(), 0);
}

#[test]
fn frame_for_other_node_without_route_is_dropped() {
    let mut t = Transport::new(10, 4, 4, 4);
    assert_eq!(t.select_iface(3), None);
    assert!(matches!(t.route_frame(frame(addr(1, 1), addr(3, 5), vec![1]), 0), RouteOutcome::Dropped));
    assert_eq!(t.drops, 1);
    assert_eq!(t.pool.owned_count(), 0);
}

#[test]
fn frame_without_consumer_is_dropped() {
    let mut t = Transport::new(10, 4, 4, 4);
    assert!(matches!(t.route_frame(frame(addr(1, 1), addr(10, 5), vec![1]), 0), RouteOutcome::Dropped));
    assert_eq!(t.pool.owned_count(), 0);
}

#[test]
fn catch_all_socket_takes_unbound_ports() {
    let mut t = Transport::new(10, 4, 4, 4);
    t.bind(ANY_PORT).unwrap();
    t.listen(ANY_PORT, 10);
    t.bind(29).unwrap();
    t.listen(29, 10);
    assert!(matches!(t.route_frame(frame(addr(1, 1), addr(10, 5), vec![1]), 0), RouteOutcome::Accepted(_)));
    assert_eq!(t.listeners[0].pending.len(), 1);
    assert!(matches!(t.route_frame(frame(addr(1, 2), addr(10, 29), vec![1]), 0), RouteOutcome::Accepted(_)));
    assert_eq!(t.listeners[1].pending.len(), 1);
}

#[test]
fn exhausted_pool_drops_frames() {
    let mut t = Transport::new(10, 1, 4, 4);
    t.bind(29).unwrap();
    t.listen(29, 10);
    let _held = t.get_packet(addr(10, 1), addr(2, 2)).unwrap();
    assert!(matches!(t.get_packet(addr(10, 1), addr(2, 2)), Err(CspError::Exhausted)));
    assert!(matches!(t.route_frame(frame(addr(1, 1), addr(10, 29), vec![1]), 0), RouteOutcome::Dropped));
    assert_eq!(t.listeners[0].pending.len(), 0);
}

#[test]
fn oversized_frame_is_dropped() {
    let mut t = Transport::new(10, 4, 4, 4);
    t.bind(29).unwrap();
    t.listen(29, 10);
    let out = t.route_frame(frame(addr(1, 1), addr(10, 29), vec![0u8; PACKET_CAPACITY + 1]), 0);
    assert!(matches!(out, RouteOutcome::Dropped));
    assert_eq!(t.pool.owned_count(), 0);
}

#[test]
fn full_connection_queue_drops_newest() {
    let mut t = Transport::new(10, 8, 4, 2);
    let h = t.connect(2, addr(3, 7), 0).unwrap();
    let local = match &t.conns[h] {
        Some(c) => c.local_port,
        None => panic!("connection not open"),
    };
    for i in 0..3u8 {
        t.route_frame(frame(addr(3, 7), addr(10, local), vec![i]), 0);
    }
    assert_eq!(t.drops, 1);
    assert_eq!(t.read(h, 0, 1).unwrap().unwrap().data, vec![0]);
    assert_eq!(t.read(h, 0, 1).unwrap().unwrap().data, vec![1]);
    assert!(matches!(t.read(h, 1, 1), Err(CspError::Timeout)));
}

#[test]
fn connect_uses_distinct_ports_and_fails_when_table_full() {
    let mut t = Transport::new(10, 4, 2, 4);
    let a = t.connect(2, addr(3, 7), 0).unwrap();
    let b = t.connect(2, addr(3, 7), 0).unwrap();
    assert_ne!(a, b);
    let pa = t.conns[a].as_ref().unwrap().local_port;
    let pb = t.conns[b].as_ref().unwrap().local_port;
    assert_eq!((pa, pb), (32, 33));
    assert_eq!(t.connect(2, addr(3, 7), 0), Err(CspError::Exhausted));
    t.close(a);
    assert_eq!(t.connect(2, addr(3, 8), 0), Ok(a));
}

#[test]
fn read_on_closed_connection_fails() {
    let mut t = Transport::new(10, 4, 2, 4);
    assert!(matches!(t.read(0, 0, 10), Err(CspError::ConnectionClosed)));
    assert!(matches!(t.read(5, 0, 10), Err(CspError::ConnectionClosed)));
    let p = t.get_packet(addr(10, 1), addr(2, 2)).unwrap();
    assert!(matches!(t.send(1, p), Err(CspError::ConnectionClosed)));
    assert_eq!(t.pool.owned_count(), 0);
}

#[test]
fn idle_connection_is_closed_after_limit() {
    let mut t = Transport::new(10, 4, 4, 4);
    let h = t.connect(2, addr(3, 7), 100).unwrap();
    let local = t.conns[h].as_ref().unwrap().local_port;
    assert!(!t.close_idle(h, 150, 100));
    t.route_frame(frame(addr(3, 7), addr(10, local), vec![1]), 180);
    assert_eq!(t.conns[h].as_ref().unwrap().last_active, 180);
    assert!(!t.close_idle(h, 279, 100));
    assert_eq!(t.pool.owned_count(), 1);
    assert!(t.close_idle(h, 280, 100));
    assert!(t.conns[h].is_none());
    assert_eq!(t.pool.owned_count(), 0);
    assert!(!t.close_idle(h, 1000, 100));
}

#[test]
fn time_before_last_activity_is_not_idle() {
    let mut t = Transport::new(10, 4, 4, 4);
    let h = t.connect(2, addr(3, 7), 500).unwrap();
    assert!(!t.close_idle(h, 400, 0));
    assert!(t.close_idle(h, 500, 0));
}

#[test]
fn closed_connection_leaves_backlog() {
    let mut t = Transport::new(10, 4, 4, 4);
    t.bind(29).unwrap();
    t.listen(29, 10);
    let h = match t.route_frame(frame(addr(2, 40), addr(10, 29), vec![1]), 0) {
        RouteOutcome::Accepted(h) => h,
        _ => panic!("connection not accepted"),
    };
    assert!(t.close(h));
    assert_eq!(t.listeners[0].pending.len(), 0);
    let reused = t.connect(2, addr(5, 5), 0).unwrap();
    assert_eq!(reused, h);
    assert_eq!(t.accept(29, 0, 10), Ok(None));
    assert_eq!(t.pool.owned_count(), 0);
}

#[test]
fn zero_queue_capacity_drops_new_connection() {
    let mut t = Transport::new(10, 4, 4, 0);
    t.bind(29).unwrap();
    t.listen(29, 10);
    let out = t.route_frame(frame(addr(2, 40), addr(10, 29), vec![1]), 0);
    assert!(matches!(out, RouteOutcome::Dropped));
    assert_eq!(t.listeners[0].pending.len(), 0);
    assert!(t.conns.iter().all(|c| c.is_none()));
    assert_eq!(t.pool.owned_count(), 0);
}

#[test]
fn listen_below_pending_count_is_refused() {
    let mut t = Transport::new(10, 4, 4, 4);
    t.bind(29).unwrap();
    assert!(t.listen(29, 2));
    t.route_frame(frame(addr(2, 40), addr(10, 29), vec![1]), 0);
    t.route_frame(frame(addr(3, 40), addr(10, 29), vec![1]), 0);
    assert!(!t.listen(29, 1));
    assert_eq!(t.listeners[0].backlog, 2);
    assert!(t.listen(29, 3));
    assert!(!t.listen(30, 3));
}
