use std::collections::VecDeque;

use sailwind_online::net::host::{
    Datagram, DisconnectReason, Endpoint, Event, PeerTable, PollWork, SendError,
    DEFAULT_MAX_PEERS, DEFAULT_MAX_PEERS_PER_IP, DEFAULT_TIMEOUT_NS, MAX_POLL_BYTES,
    MAX_POLL_EVENTS, MAX_POLL_KEEPALIVE_SENDS, MAX_POLL_MAINTENANCE_SCANS, MAX_POLL_PACKETS,
    MAX_POLL_SOCKET_EVENTS, MAX_POLL_TIMEOUT_EVENTS, PING_INTERVAL_NS,
};
use sailwind_online::net::ids::PeerId;
use sailwind_online::net::protocol::{
    self, build_connect_request, build_disconnect_for, build_ping_for, build_pong_for,
    build_unreliable_for, property, write_litenet_string, Header,
};

const MS: u64 = 1_000_000;
const SEC: u64 = 1_000_000_000;
const T0: u64 = 1_000 * SEC;
const DEFAULT_TIMEOUT: u64 = DEFAULT_TIMEOUT_NS;
const PING_INTERVAL: u64 = PING_INTERVAL_NS;
const TICKS: i64 = 638_000_000_000_000_000;

/// A transport without sockets: datagrams queue in arrival order and the
/// host's replies are collected per destination.
struct Server {
    table: PeerTable,
    inbox: VecDeque<(Endpoint, Vec<u8>)>,
    outbox: Vec<Datagram>,
    next_port: u16,
}

impl Server {
    fn bind(key: &str) -> Server {
        Server::bind_with_limits(key, DEFAULT_MAX_PEERS, DEFAULT_MAX_PEERS_PER_IP)
    }

    fn bind_with_limits(key: &str, max_peers: usize, max_peers_per_ip: usize) -> Server {
        Server {
            table: PeerTable::new(key, max_peers, max_peers_per_ip).unwrap(),
            inbox: VecDeque::new(),
            outbox: Vec::new(),
            next_port: 40_000,
        }
    }

    fn client_from(&mut self, source_ip: u32) -> Endpoint {
        self.next_port += 1;
        Endpoint {
            family: 4,
            ip: source_ip as u128,
            port: self.next_port,
        }
    }

    fn send(&mut self, from: Endpoint, bytes: &[u8]) {
        self.inbox.push_back((from, bytes.to_vec()));
    }

    fn poll(&mut self, now: u64) -> Vec<Event> {
        self.poll_with_work(now).0
    }

    fn poll_with_work(&mut self, now: u64) -> (Vec<Event>, PollWork) {
        self.table.begin_poll();
        let mut events = Vec::new();
        let mut work = PollWork::new();
        while work.can_receive() {
            let Some((_, front)) = self.inbox.front() else {
                break;
            };
            if front.len() > work.remaining_bytes() {
                break;
            }
            let (from, datagram) = self.inbox.pop_front().unwrap();
            if !work.record_datagram(datagram.len()) {
                continue;
            }
            let before = events.len();
            self.table
                .handle_datagram(&datagram, from, now, TICKS, &mut events, &mut self.outbox);
            assert!(events.len() - before <= 2);
        }
        work.socket_events = events.len();
        self.table
            .process_peer_maintenance(now, &mut events, &mut self.outbox, &mut work);
        (events, work)
    }

    fn drain_packets(&mut self, client: Endpoint) -> Vec<Vec<u8>> {
        let mut mine = Vec::new();
        let mut rest = Vec::new();
        for d in self.outbox.drain(..) {
            if d.to == client {
                mine.push(d.bytes);
            } else {
                rest.push(d);
            }
        }
        self.outbox = rest;
        mine
    }

    fn send_unreliable(&mut self, peer: PeerId, bytes: &[u8]) -> Result<(), SendError> {
        if let Some(d) = self.table.send_unreliable(peer, bytes)? {
            self.outbox.push(d);
        }
        Ok(())
    }

    fn disconnect(&mut self, peer: PeerId) -> bool {
        match self.table.disconnect(peer) {
            Some(d) => {
                self.outbox.push(d);
                true
            }
            None => false,
        }
    }

    fn shutdown(&mut self) -> Vec<Event> {
        let (events, sends) = self.table.shutdown();
        self.outbox.extend(sends);
        events
    }

    fn peer_count(&self) -> usize {
        self.table.peer_count()
    }

    fn peer_count_for_ip(&self, ip: u32) -> usize {
        self.table.peer_count_for_ip((4, ip as u128))
    }

    fn peer_addr(&self, peer: PeerId) -> Option<Endpoint> {
        self.table.peer_addr(peer)
    }

    fn rtt(&self, peer: PeerId) -> Option<u64> {
        self.table.rtt(peer)
    }
}

const LOCALHOST: u32 = 0x7f00_0001;
const LOCALHOST_2: u32 = 0x7f00_0002;

fn connect_datagram(connection_number: u8, connect_time: i64, key: &str) -> Vec<u8> {
    let data = write_litenet_string(key);
    build_connect_request(connection_number, connect_time, 7, 16, &data)
}

fn assert_bounded_poll(work: PollWork, events: &[Event]) {
    assert!(work.packets <= MAX_POLL_PACKETS);
    assert!(work.bytes <= MAX_POLL_BYTES);
    assert!(work.socket_events <= MAX_POLL_SOCKET_EVENTS);
    assert!(work.timeout_events <= MAX_POLL_TIMEOUT_EVENTS);
    assert!(work.maintenance_scans <= MAX_POLL_MAINTENANCE_SCANS);
    assert!(work.keepalive_sends <= MAX_POLL_KEEPALIVE_SENDS);
    assert!(events.len() <= MAX_POLL_EVENTS);
}

fn connect_many(server: &mut Server, count: usize, now: u64) -> Vec<Endpoint> {
    let mut clients = Vec::with_capacity(count);
    for connect_time in 1..=count {
        let client = server.client_from(LOCALHOST);
        server.send(
            client,
            &connect_datagram(0, connect_time as i64, "sailwind-online"),
        );
        clients.push(client);
        if connect_time % MAX_POLL_PACKETS == 0 {
            let (events, work) = server.poll_with_work(now);
            assert_bounded_poll(work, &events);
        }
    }
    while server.peer_count() < count {
        let (events, work) = server.poll_with_work(now);
        assert_bounded_poll(work, &events);
    }
    clients
}

fn assert_peer_indices_consistent(server: &Server) {
    let t = &server.table;
    let slots = t.slot_count();
    let free_list = t.free_slots();
    assert_eq!(slots, free_list.len() + t.peer_count());
    assert!(t.reusable_slots() <= free_list.len());
    assert!(t.maintenance_cursor() <= slots);

    let mut free = vec![false; slots];
    for &slot in &free_list {
        assert!(slot < slots);
        assert!(!free[slot], "free-list slot {slot} must appear once");
        free[slot] = true;
        assert!(t.slot_holder(slot).is_none());
    }
    for slot in 0..slots {
        match t.slot_holder(slot) {
            Some(addr) => {
                let peer = t.peer_at(addr).unwrap();
                assert_eq!(peer.slot, slot);
                assert_eq!(peer.id, PeerId::try_from(slot + 1).unwrap());
                assert!(!free[slot]);
            }
            None => assert!(free[slot]),
        }
    }
}

#[test]
fn nonzero_connection_numbers_isolate_connected_udp_sessions() {
    for connection_number in 1..protocol::MAX_CONNECTION_NUMBER {
        let mut server = Server::bind("sailwind-online");
        let client = server.client_from(LOCALHOST);
        let t0 = T0;
        let connect_time = i64::from(connection_number) + 100;

        server.send(
            client,
            &connect_datagram(connection_number, connect_time, "sailwind-online"),
        );
        assert_eq!(server.poll(t0), vec![Event::Connected(1)]);

        let accept = server.drain_packets(client);
        assert_eq!(accept.len(), 1);
        assert_eq!(
            Header::from_byte(accept[0][0]).property,
            property::CONNECT_ACCEPT
        );
        assert_eq!(accept[0][9], connection_number);

        let current_data = build_unreliable_for(connection_number, b"current-session");
        server.send(client, &current_data);
        assert_eq!(
            server.poll(t0),
            vec![Event::Data(1, b"current-session".to_vec())]
        );

        server.send_unreliable(1, b"server-current").unwrap();
        let outbound = server.drain_packets(client);
        assert_eq!(outbound.len(), 1);
        assert_eq!(
            Header::from_byte(outbound[0][0]),
            Header {
                property: property::UNRELIABLE,
                connection_number,
                fragmented: false,
            }
        );

        let stale_number = (connection_number + protocol::MAX_CONNECTION_NUMBER - 1)
            % protocol::MAX_CONNECTION_NUMBER;
        let stale_data = build_unreliable_for(stale_number, b"stale-session");
        server.send(client, &stale_data);
        assert!(
            server.poll(t0).is_empty(),
            "stale-number data must not emit an application event"
        );

        let stale_ping = build_ping_for(stale_number, 0x1234);
        server.send(client, &stale_ping);
        assert!(server.poll(t0).is_empty());
        assert!(
            server.drain_packets(client).is_empty(),
            "stale-number ping must not amplify into a pong"
        );

        let keepalive_at = t0 + PING_INTERVAL;
        assert!(server.poll(keepalive_at).is_empty());
        let keepalive = server.drain_packets(client);
        assert_eq!(keepalive.len(), 1);
        let keepalive_header = Header::from_byte(keepalive[0][0]);
        assert_eq!(keepalive_header.property, property::PING);
        assert_eq!(keepalive_header.connection_number, connection_number);
        let sequence = protocol::read_sequence(&keepalive[0]).unwrap();

        let stale_pong = build_pong_for(stale_number, sequence, 0);
        server.send(client, &stale_pong);
        assert!(server.poll(keepalive_at).is_empty());
        assert_eq!(
            server.rtt(1),
            None,
            "stale-number pong must not mutate RTT state"
        );

        let stale_disconnect = build_disconnect_for(stale_number, connect_time);
        server.send(client, &stale_disconnect);
        assert!(server.poll(keepalive_at).is_empty());
        assert_eq!(server.peer_count(), 1);
        assert!(
            server.drain_packets(client).is_empty(),
            "stale-number disconnect must not receive ShutdownOk"
        );

        let current_disconnect = build_disconnect_for(connection_number, connect_time);
        server.send(client, &current_disconnect);
        assert_eq!(
            server.poll(keepalive_at),
            vec![Event::Disconnected(1, DisconnectReason::Remote)]
        );
        assert_eq!(server.peer_count(), 0);
    }
}

#[test]
fn stale_connection_number_cannot_refresh_idle_timeout() {
    let stale_packets = [
        build_unreliable_for(1, b"stale-data"),
        build_ping_for(1, 7).to_vec(),
        build_pong_for(1, 7, 0).to_vec(),
        build_disconnect_for(1, 20).to_vec(),
    ];

    for stale in stale_packets {
        let mut server = Server::bind("sailwind-online");
        let client = server.client_from(LOCALHOST);
        let t0 = T0;

        server.send(client, &connect_datagram(2, 20, "sailwind-online"));
        assert_eq!(server.poll(t0), vec![Event::Connected(1)]);
        assert_eq!(server.drain_packets(client).len(), 1);

        server.send(client, &stale);
        let expired_at = t0 + DEFAULT_TIMEOUT + MS;
        assert_eq!(
            server.poll(expired_at),
            vec![Event::Disconnected(1, DisconnectReason::Timeout)]
        );
        assert_eq!(server.peer_count(), 0);
        assert!(
            server.drain_packets(client).is_empty(),
            "stale connected traffic must not receive any reply"
        );
    }
}

#[test]
fn replaced_endpoint_rejects_packets_from_the_retired_connection_number() {
    let mut server = Server::bind("sailwind-online");
    let client = server.client_from(LOCALHOST);
    let now = T0;

    server.send(client, &connect_datagram(1, 10, "sailwind-online"));
    assert_eq!(server.poll(now), vec![Event::Connected(1)]);
    assert_eq!(server.drain_packets(client).len(), 1);

    server.send(client, &connect_datagram(2, 20, "sailwind-online"));
    assert_eq!(
        server.poll(now),
        vec![
            Event::Disconnected(1, DisconnectReason::Remote),
            Event::Connected(2),
        ]
    );
    assert_eq!(server.drain_packets(client).len(), 1);

    let retired = build_unreliable_for(1, b"retired-hello");
    server.send(client, &retired);
    assert!(
        server.poll(now).is_empty(),
        "a packet from the replaced connection must not execute in the new session"
    );

    let current = build_unreliable_for(2, b"current-hello");
    server.send(client, &current);
    assert_eq!(
        server.poll(now),
        vec![Event::Data(2, b"current-hello".to_vec())]
    );
}

#[test]
fn same_endpoint_connect_requests_only_replace_with_a_strictly_newer_time() {
    let mut server = Server::bind_with_limits("sailwind-online", 3, 3);
    let client = server.client_from(LOCALHOST);
    let addr = client;
    let t0 = T0;

    server.send(client, &connect_datagram(1, 30, "sailwind-online"));
    assert_eq!(server.poll(t0), vec![Event::Connected(1)]);
    assert_eq!(server.drain_packets(client).len(), 1);

    server.send(client, &connect_datagram(2, 40, "sailwind-online"));
    assert_eq!(
        server.poll(t0 + MS),
        vec![
            Event::Disconnected(1, DisconnectReason::Remote),
            Event::Connected(2),
        ]
    );
    let time_40_accept = server.drain_packets(client);
    assert_eq!(time_40_accept.len(), 1);
    assert_eq!(
        i64::from_le_bytes(time_40_accept[0][1..9].try_into().unwrap()),
        40
    );
    assert_eq!(time_40_accept[0][9], 2);

    let state_after_time_40 = server.table.peer_at(addr).unwrap();
    server.send(client, &connect_datagram(1, 30, "sailwind-online"));
    assert!(server.poll(t0 + 2 * MS).is_empty());
    assert!(server.drain_packets(client).is_empty());
    assert_eq!(
        server.table.peer_at(addr).unwrap(),
        state_after_time_40,
        "an older request must not mutate live-session or liveness state"
    );
    assert_eq!(server.peer_count(), 1);
    assert_eq!(server.peer_addr(2), Some(addr));
    assert_peer_indices_consistent(&server);

    server.send(client, &build_unreliable_for(1, b"retired-session"));
    server.send(client, &build_unreliable_for(2, b"current-session"));
    assert_eq!(
        server.poll(t0 + 3 * MS),
        vec![Event::Data(2, b"current-session".to_vec())]
    );

    let state_before_duplicate = server.table.peer_at(addr).unwrap();
    server.send(client, &connect_datagram(2, 40, "sailwind-online"));
    assert!(server.poll(t0 + 4 * MS).is_empty());
    assert_eq!(server.drain_packets(client), time_40_accept);
    assert_eq!(
        server.table.peer_at(addr).unwrap(),
        state_before_duplicate,
        "an exact retry must only resend the original accept"
    );

    server.send(client, &connect_datagram(3, 50, "sailwind-online"));
    assert_eq!(
        server.poll(t0 + 5 * MS),
        vec![
            Event::Disconnected(2, DisconnectReason::Remote),
            Event::Connected(3),
        ]
    );
    let time_50_accept = server.drain_packets(client);
    assert_eq!(time_50_accept.len(), 1);
    assert_eq!(
        i64::from_le_bytes(time_50_accept[0][1..9].try_into().unwrap()),
        50
    );
    assert_eq!(time_50_accept[0][9], 3);
    assert_eq!(server.peer_count(), 1);
    assert_eq!(server.peer_addr(3), Some(addr));
    assert_peer_indices_consistent(&server);
}

#[test]
fn delayed_older_request_cannot_black_hole_a_full_capacity_peer() {
    let mut server = Server::bind_with_limits("sailwind-online", 1, 1);
    let client = server.client_from(LOCALHOST);
    let addr = client;
    let t0 = T0;

    server.send(client, &connect_datagram(1, 30, "sailwind-online"));
    assert_eq!(server.poll(t0), vec![Event::Connected(1)]);
    assert_eq!(server.drain_packets(client).len(), 1);

    server.send(client, &connect_datagram(2, 40, "sailwind-online"));
    assert_eq!(
        server.poll(t0 + MS),
        vec![Event::Disconnected(1, DisconnectReason::Remote)]
    );
    assert_eq!(server.peer_count(), 0);
    assert_eq!(server.table.free_slots(), vec![0]);

    server.send(client, &connect_datagram(2, 40, "sailwind-online"));
    assert_eq!(server.poll(t0 + 2 * MS), vec![Event::Connected(1)]);
    assert_eq!(server.drain_packets(client).len(), 1);
    assert!(server.table.free_slots().is_empty());

    server.send(client, &connect_datagram(1, 30, "sailwind-online"));
    server.send(client, &build_unreliable_for(1, b"retired-session"));
    server.send(client, &build_unreliable_for(2, b"current-session"));
    assert_eq!(
        server.poll(t0 + 3 * MS),
        vec![Event::Data(1, b"current-session".to_vec())],
        "the delayed request must not retire the only slot or drop current-session traffic"
    );
    assert!(server.drain_packets(client).is_empty());
    assert_eq!(server.peer_count(), 1);
    assert_eq!(server.peer_addr(1), Some(addr));
    let peer = server.table.peer_at(addr).unwrap();
    assert_eq!(peer.connect_time, 40);
    assert_eq!(peer.connection_number, 2);
    assert_eq!(peer.last_recv, t0 + 3 * MS);
    assert!(server.table.free_slots().is_empty());
    assert_peer_indices_consistent(&server);
}

#[test]
fn preauth_data_flood_is_bounded_and_a_queued_payload_progresses() {
    let mut server = Server::bind("sailwind-online");
    let client = server.client_from(LOCALHOST);

    server.send(client, &connect_datagram(0, 1, "sailwind-online"));
    let (events, work) = server.poll_with_work(T0);
    assert_bounded_poll(work, &events);
    assert_eq!(events, vec![Event::Connected(1)]);

    let accept = server.drain_packets(client);
    assert_eq!(accept[0].len(), protocol::CONNECT_ACCEPT_SIZE);

    let flood = build_unreliable_for(0, b"flood");
    for _ in 0..MAX_POLL_PACKETS + 32 {
        server.send(client, &flood);
    }
    let marker = build_unreliable_for(0, b"legitimate-marker");
    server.send(client, &marker);

    let mut saw_marker = false;
    for _ in 0..8 {
        for _ in 0..MAX_POLL_PACKETS / 4 {
            server.send(client, &flood);
        }
        let (events, work) = server.poll_with_work(T0);
        assert_bounded_poll(work, &events);
        saw_marker |= events.iter().any(
            |event| matches!(event, Event::Data(_, bytes) if bytes == b"legitimate-marker"),
        );
        if saw_marker {
            break;
        }
    }
    assert!(
        saw_marker,
        "bounded polling must leave queued traffic for a later tick instead of starving it"
    );
}

#[test]
fn preauth_garbage_and_replacement_churn_are_bounded_across_ticks() {
    let mut server = Server::bind("sailwind-online");
    let client = server.client_from(LOCALHOST);

    for _ in 0..MAX_POLL_PACKETS + 32 {
        server.send(client, &[property::UNRELIABLE]);
    }
    server.send(client, &connect_datagram(0, 1, "sailwind-online"));

    let mut connected = false;
    for _ in 0..8 {
        for _ in 0..MAX_POLL_PACKETS / 4 {
            server.send(client, &[property::UNRELIABLE]);
        }
        let (events, work) = server.poll_with_work(T0);
        assert_bounded_poll(work, &events);
        connected |= events
            .iter()
            .any(|event| matches!(event, Event::Connected(_)));
        if connected {
            break;
        }
    }
    assert!(
        connected,
        "a valid request queued behind a pre-auth flood must progress"
    );

    let accept = server.drain_packets(client);
    assert_eq!(accept[0].len(), protocol::CONNECT_ACCEPT_SIZE);
    let mut next_connect_time = 2;
    for _ in 0..MAX_POLL_PACKETS + 32 {
        server.send(
            client,
            &connect_datagram(0, next_connect_time, "sailwind-online"),
        );
        next_connect_time += 1;
    }
    server.send(client, &build_unreliable_for(0, b"replacement-marker"));

    let mut saw_marker = false;
    for _ in 0..8 {
        for _ in 0..MAX_POLL_PACKETS / 4 {
            server.send(
                client,
                &connect_datagram(0, next_connect_time, "sailwind-online"),
            );
            next_connect_time += 1;
        }
        let (events, work) = server.poll_with_work(T0);
        assert_bounded_poll(work, &events);
        saw_marker |= events.iter().any(
            |event| matches!(event, Event::Data(_, bytes) if bytes == b"replacement-marker"),
        );
        if saw_marker {
            break;
        }
    }
    assert!(
        saw_marker,
        "replacement churn must not prevent later queued data from progressing"
    );
    assert_eq!(server.peer_count(), 1);
}

#[test]
fn inbound_datagrams_over_the_fixed_mtu_are_dropped_before_payload_events() {
    let mut server = Server::bind("sailwind-online");
    let client = server.client_from(LOCALHOST);

    server.send(client, &connect_datagram(0, 1, "sailwind-online"));
    assert_eq!(server.poll(T0), vec![Event::Connected(1)]);
    assert_eq!(server.drain_packets(client).len(), 1);

    let oversized = vec![property::UNRELIABLE; protocol::MTU + 1];
    server.send(client, &oversized);
    server.send(client, &build_unreliable_for(0, b"after-oversized"));

    let (events, work) = server.poll_with_work(T0);
    assert_bounded_poll(work, &events);
    assert_eq!(events, vec![Event::Data(1, b"after-oversized".to_vec())]);
}

#[test]
fn timeout_burst_uses_its_reserved_event_budget_and_finishes_on_later_ticks() {
    let mut server = Server::bind_with_limits("sailwind-online", 80, 80);
    let t0 = T0;
    let mut clients = Vec::new();

    for connect_time in 1..=70 {
        let client = server.client_from(LOCALHOST);
        server.send(client, &connect_datagram(0, connect_time, "sailwind-online"));
        clients.push(client);
    }
    let (events, work) = server.poll_with_work(t0);
    assert_bounded_poll(work, &events);
    assert_eq!(events.len(), 70);
    assert_eq!(server.peer_count(), 70);

    let expired_at = t0 + DEFAULT_TIMEOUT + SEC;
    let (events, work) = server.poll_with_work(expired_at);
    assert_bounded_poll(work, &events);
    assert_eq!(work.timeout_events, MAX_POLL_TIMEOUT_EVENTS);
    assert_eq!(events.len(), MAX_POLL_TIMEOUT_EVENTS);
    assert_eq!(server.peer_count(), 70 - MAX_POLL_TIMEOUT_EVENTS);

    let (events, work) = server.poll_with_work(expired_at);
    assert_bounded_poll(work, &events);
    assert_eq!(events.len(), 70 - MAX_POLL_TIMEOUT_EVENTS);
    assert_eq!(server.peer_count(), 0);
    assert_eq!(clients.len(), 70);
}

#[test]
fn production_peers_have_bounded_fair_keepalive_maintenance() {
    let peer_count = MAX_POLL_MAINTENANCE_SCANS + 1;
    let mut server = Server::bind_with_limits("sailwind-online", peer_count, peer_count);
    let t0 = T0;
    let clients = connect_many(&mut server, peer_count, t0);
    for client in &clients {
        let packets = server.drain_packets(*client);
        assert!(packets
            .iter()
            .any(|packet| { Header::from_byte(packet[0]).property == property::CONNECT_ACCEPT }));
    }

    let due_at = t0 + PING_INTERVAL;
    let mut pinged = vec![false; peer_count];
    let mut keepalive_sends = 0;
    for _ in 0..3 {
        let (events, work) = server.poll_with_work(due_at);
        assert!(events.is_empty());
        assert_bounded_poll(work, &events);
        keepalive_sends += work.keepalive_sends;
        for (index, client) in clients.iter().enumerate() {
            pinged[index] |= server
                .drain_packets(*client)
                .iter()
                .any(|packet| Header::from_byte(packet[0]).property == property::PING);
        }
        if pinged.iter().all(|ping| *ping) {
            break;
        }
    }
    assert!(
        pinged.iter().all(|ping| *ping),
        "round-robin maintenance must eventually send a keepalive to every live peer"
    );
    assert_eq!(
        keepalive_sends, peer_count,
        "each due peer must receive exactly one keepalive during a complete pass"
    );
    assert_peer_indices_consistent(&server);
}

#[test]
fn production_peer_timeouts_are_scan_bounded_and_eventually_complete() {
    let peer_count = MAX_POLL_MAINTENANCE_SCANS + 1;
    let mut server = Server::bind_with_limits("sailwind-online", peer_count, peer_count);
    let t0 = T0;
    let clients = connect_many(&mut server, peer_count, t0);
    let expired_at = t0 + DEFAULT_TIMEOUT + SEC;
    let mut timeout_events = 0;
    for poll_index in 0..peer_count.div_ceil(MAX_POLL_TIMEOUT_EVENTS) + 3 {
        let (events, work) = server.poll_with_work(expired_at);
        assert_bounded_poll(work, &events);
        if poll_index == 0 {
            assert_eq!(work.maintenance_scans, MAX_POLL_MAINTENANCE_SCANS);
            assert_eq!(work.timeout_events, MAX_POLL_TIMEOUT_EVENTS);
        }
        timeout_events += events
            .iter()
            .filter(|event| matches!(event, Event::Disconnected(_, DisconnectReason::Timeout)))
            .count();
        assert_peer_indices_consistent(&server);
        if server.peer_count() == 0 {
            break;
        }
    }
    assert_eq!(timeout_events, peer_count);
    assert_eq!(server.peer_count(), 0);
    assert_peer_indices_consistent(&server);
    assert_eq!(clients.len(), peer_count);
}

#[test]
fn bounded_slot_ids_cannot_wrap_or_collide_under_transport_churn() {
    let mut server = Server::bind_with_limits("sailwind-online", 2, 2);
    let client = server.client_from(LOCALHOST);
    let now = T0;

    for connect_time in 1..=10_000i64 {
        server.send(client, &connect_datagram(0, connect_time, "sailwind-online"));
        let events = server.poll(now);
        let connected = events
            .iter()
            .find_map(|event| match event {
                Event::Connected(peer) => Some(*peer),
                _ => None,
            })
            .expect("every replacement must connect");
        assert!(
            connected <= 2,
            "PeerId must be derived from a bounded live slot"
        );

        let accept = server.drain_packets(client);
        assert_eq!(accept.len(), 1);
        assert_eq!(accept[0].len(), protocol::CONNECT_ACCEPT_SIZE);
        let local_peer_id = i32::from_le_bytes(accept[0][11..15].try_into().unwrap());
        assert!((0..2).contains(&local_peer_id));
        assert_peer_indices_consistent(&server);
    }
}

#[test]
fn removed_peer_id_cannot_alias_a_cross_address_connect_in_the_same_poll() {
    let mut server = Server::bind_with_limits("sailwind-online", 1, 1);
    let old_client = server.client_from(LOCALHOST);
    let new_client = server.client_from(LOCALHOST_2);
    let now = T0;

    server.send(old_client, &connect_datagram(0, 1, "sailwind-online"));
    assert_eq!(server.poll(now), vec![Event::Connected(1)]);
    assert_eq!(server.drain_packets(old_client).len(), 1);

    server.send(old_client, &build_unreliable_for(0, b"old-before-disconnect"));
    server.send(old_client, &build_disconnect_for(0, 1));
    server.send(new_client, &connect_datagram(0, 2, "sailwind-online"));

    let events = server.poll(now);
    assert_eq!(
        events,
        vec![
            Event::Data(1, b"old-before-disconnect".to_vec()),
            Event::Disconnected(1, DisconnectReason::Remote),
        ]
    );
    assert_eq!(
        server.peer_addr(1),
        None,
        "an id in an earlier event must not resolve to a later peer from the same batch"
    );
    server
        .send_unreliable(1, b"must-not-reach-the-new-peer")
        .unwrap();
    assert!(
        !server.disconnect(1),
        "acting on the old event id must not disconnect the new peer"
    );
    assert!(
        server.drain_packets(new_client).is_empty(),
        "the new endpoint must receive neither data nor disconnect for the old id"
    );

    server.send(new_client, &connect_datagram(0, 2, "sailwind-online"));
    assert_eq!(server.poll(now), vec![Event::Connected(1)]);
    assert_eq!(server.peer_addr(1), Some(new_client));
    let packets = server.drain_packets(new_client);
    assert_eq!(packets.len(), 1);
    assert_eq!(
        Header::from_byte(packets[0][0]).property,
        property::CONNECT_ACCEPT
    );
    assert_peer_indices_consistent(&server);
}

#[test]
fn full_capacity_same_address_replacement_connects_on_the_next_poll_retry() {
    let mut server = Server::bind_with_limits("sailwind-online", 1, 1);
    let client = server.client_from(LOCALHOST);
    let now = T0;

    server.send(client, &connect_datagram(0, 1, "sailwind-online"));
    assert_eq!(server.poll(now), vec![Event::Connected(1)]);
    assert_eq!(server.drain_packets(client).len(), 1);

    server.send(client, &connect_datagram(0, 2, "sailwind-online"));
    assert_eq!(
        server.poll(now),
        vec![Event::Disconnected(1, DisconnectReason::Remote)],
        "a full-capacity replacement must retire the old id for the complete event batch"
    );
    assert_eq!(server.peer_addr(1), None);
    assert!(server.drain_packets(client).is_empty());

    server.send(client, &connect_datagram(0, 2, "sailwind-online"));
    assert_eq!(server.poll(now), vec![Event::Connected(1)]);
    assert_eq!(server.peer_addr(1), Some(client));
    let packets = server.drain_packets(client);
    assert_eq!(packets.len(), 1);
    let local_peer_id = i32::from_le_bytes(packets[0][11..15].try_into().unwrap());
    assert_eq!(local_peer_id, 0);
    assert_peer_indices_consistent(&server);
}

#[test]
fn local_disconnect_during_batch_processing_keeps_remaining_events_unresolvable() {
    let mut server = Server::bind_with_limits("sailwind-online", 1, 1);
    let old_client = server.client_from(LOCALHOST);
    let retry_client = server.client_from(LOCALHOST_2);
    let now = T0;

    server.send(old_client, &connect_datagram(0, 1, "sailwind-online"));
    assert_eq!(server.poll(now), vec![Event::Connected(1)]);
    assert_eq!(server.drain_packets(old_client).len(), 1);

    server.send(old_client, &build_unreliable_for(0, b"first"));
    server.send(old_client, &build_unreliable_for(0, b"second"));
    let events = server.poll(now);
    assert_eq!(
        events,
        vec![
            Event::Data(1, b"first".to_vec()),
            Event::Data(1, b"second".to_vec()),
        ]
    );

    assert!(server.disconnect(1));
    for event in events.iter().skip(1) {
        let Event::Data(peer, _) = event else {
            panic!("expected the remaining data event");
        };
        assert_eq!(server.peer_addr(*peer), None);
        server.send_unreliable(*peer, b"stale-reply").unwrap();
        assert!(!server.disconnect(*peer));
    }

    server.send(retry_client, &connect_datagram(0, 2, "sailwind-online"));
    assert_eq!(server.poll(now), vec![Event::Connected(1)]);
    assert_eq!(server.peer_addr(1), Some(retry_client));
    assert_eq!(server.drain_packets(retry_client).len(), 1);
    assert_peer_indices_consistent(&server);
}

#[test]
fn peer_limits_bound_global_and_per_source_transport_state() {
    let mut server = Server::bind_with_limits("sailwind-online", 3, 2);
    let first = server.client_from(LOCALHOST);
    let second = server.client_from(LOCALHOST);

    server.send(first, &connect_datagram(0, 1, "sailwind-online"));
    assert_eq!(server.poll(T0), vec![Event::Connected(1)]);
    server.send(second, &connect_datagram(0, 2, "sailwind-online"));
    assert_eq!(server.poll(T0), vec![Event::Connected(2)]);
    assert_eq!(server.peer_count(), 2);
    assert_eq!(server.peer_count_for_ip(LOCALHOST), 2);

    let same_source_excess = server.client_from(LOCALHOST);
    server.send(same_source_excess, &connect_datagram(0, 3, "sailwind-online"));
    assert!(server.poll(T0).is_empty());
    assert_eq!(server.peer_count(), 2);

    let other_source = server.client_from(LOCALHOST_2);
    server.send(other_source, &connect_datagram(0, 4, "sailwind-online"));
    assert_eq!(server.poll(T0), vec![Event::Connected(3)]);
    assert_eq!(server.peer_count(), 3);
    assert_eq!(server.peer_count_for_ip(LOCALHOST_2), 1);

    let global_excess = server.client_from(LOCALHOST_2);
    server.send(global_excess, &connect_datagram(0, 5, "sailwind-online"));
    assert!(server.poll(T0).is_empty());
    assert_eq!(server.peer_count(), 3);

    let first_accept = server.drain_packets(first);
    assert_eq!(first_accept.len(), 1);
    server.send(first, &connect_datagram(0, 1, "sailwind-online"));
    assert!(server.poll(T0).is_empty());
    let resent = server.drain_packets(first);
    assert_eq!(resent.len(), 1);
    assert_eq!(resent[0].len(), protocol::CONNECT_ACCEPT_SIZE);
    assert_eq!(server.peer_count(), 3);

    server.send(first, &connect_datagram(0, 6, "sailwind-online"));
    assert_eq!(
        server.poll(T0),
        vec![Event::Disconnected(1, DisconnectReason::Remote)]
    );
    assert_eq!(server.peer_count(), 2);
    assert_eq!(server.peer_count_for_ip(LOCALHOST), 1);
    assert_eq!(server.peer_addr(1), None);
    assert_peer_indices_consistent(&server);

    server.send(first, &connect_datagram(0, 6, "sailwind-online"));
    assert_eq!(server.poll(T0), vec![Event::Connected(1)]);
    assert_eq!(server.peer_count(), 3);
    assert_eq!(server.peer_count_for_ip(LOCALHOST), 2);
    assert_peer_indices_consistent(&server);

    assert!(server.disconnect(1));
    assert_eq!(server.peer_count(), 2);
    assert_eq!(server.peer_count_for_ip(LOCALHOST), 1);
    assert_peer_indices_consistent(&server);
    server.shutdown();
    assert_eq!(server.peer_count_for_ip(LOCALHOST), 0);
    assert_eq!(server.peer_count_for_ip(LOCALHOST_2), 0);
    assert_peer_indices_consistent(&server);
}

#[test]
fn handshake_then_data_then_disconnect() {
    let mut server = Server::bind("sailwind-online");
    let client = server.client_from(LOCALHOST);

    // 1) Connect.
    server.send(client, &connect_datagram(0, 0x1234, "sailwind-online"));
    let events = server.poll(T0);
    assert_eq!(events, vec![Event::Connected(1)]);
    assert_eq!(server.peer_count(), 1);

    // The client receives a ConnectAccept.
    let accept = server.drain_packets(client);
    assert_eq!(accept[0].len(), protocol::CONNECT_ACCEPT_SIZE);
    assert_eq!(
        Header::from_byte(accept[0][0]).property,
        property::CONNECT_ACCEPT
    );

    // 2) Application data over the Unreliable channel.
    let payload = build_unreliable_for(0, b"hello-server");
    server.send(client, &payload);
    let events = server.poll(T0);
    assert_eq!(events, vec![Event::Data(1, b"hello-server".to_vec())]);

    // 3) Server -> client unreliable send.
    server.send_unreliable(1, b"hello-client").unwrap();
    let out = server.drain_packets(client);
    assert_eq!(&out[0][..], &build_unreliable_for(0, b"hello-client")[..]);

    // 4) Disconnect.
    server.send(client, &build_disconnect_for(0, 0x1234));
    let events = server.poll(T0);
    assert_eq!(
        events,
        vec![Event::Disconnected(1, DisconnectReason::Remote)]
    );
    assert_eq!(server.peer_count(), 0);
    assert_eq!(server.peer_count_for_ip(LOCALHOST), 0);
}

#[test]
fn wrong_connect_key_is_rejected() {
    let mut server = Server::bind("sailwind-online");
    let client = server.client_from(LOCALHOST);

    server.send(client, &connect_datagram(0, 1, "wrong-key"));
    let events = server.poll(T0);
    assert!(events.is_empty());
    assert_eq!(server.peer_count(), 0);
}

#[test]
fn bad_protocol_id_gets_invalid_protocol_reply() {
    let mut server = Server::bind("sailwind-online");
    let client = server.client_from(LOCALHOST);

    // Hand-build a connect request with a wrong protocol id.
    let data = write_litenet_string("sailwind-online");
    let mut dg = build_connect_request(0, 1, 1, 16, &data);
    dg[1..5].copy_from_slice(&999i32.to_le_bytes());
    server.send(client, &dg);

    let events = server.poll(T0);
    assert!(events.is_empty());
    let reply = server.drain_packets(client);
    assert_eq!(
        Header::from_byte(reply[0][0]).property,
        property::INVALID_PROTOCOL
    );
    assert_eq!(reply[0].len(), protocol::HEADER_SIZE);
}

#[test]
fn ping_is_answered_with_pong() {
    let mut server = Server::bind("sailwind-online");
    let client = server.client_from(LOCALHOST);

    server.send(client, &connect_datagram(0, 1, "sailwind-online"));
    server.poll(T0);
    let _ = server.drain_packets(client); // drain accept

    server.send(client, &build_ping_for(0, 0x00AB));
    server.poll(T0);
    let pong = server.drain_packets(client);
    assert_eq!(pong[0].len(), protocol::PONG_SIZE);
    assert_eq!(Header::from_byte(pong[0][0]).property, property::PONG);
    assert_eq!(protocol::read_sequence(&pong[0]), Some(0x00AB));
}

#[test]
fn idle_peer_times_out() {
    let mut server = Server::bind("sailwind-online");
    let client = server.client_from(LOCALHOST);

    let t0 = T0;
    server.send(client, &connect_datagram(0, 1, "sailwind-online"));
    assert_eq!(server.poll(t0), vec![Event::Connected(1)]);

    // Advance the logical clock well past the timeout without any traffic.
    let later = t0 + DEFAULT_TIMEOUT + SEC;
    let events = server.poll(later);
    assert_eq!(
        events,
        vec![Event::Disconnected(1, DisconnectReason::Timeout)]
    );
    assert_eq!(server.peer_count(), 0);
    assert_eq!(server.peer_count_for_ip(LOCALHOST), 0);
}

#[test]
fn oversized_send_is_rejected() {
    let mut server = Server::bind("sailwind-online");
    let big = vec![0u8; protocol::MTU];
    // Peer id 1 does not exist yet, but the size check fires first.
    let err = server.send_unreliable(1, &big).unwrap_err();
    assert_eq!(err, SendError::PayloadTooLarge);
}

#[test]
fn garbage_datagrams_do_not_panic_or_connect() {
    let mut server = Server::bind("sailwind-online");
    let client = server.client_from(LOCALHOST);
    for b in 0u16..=255 {
        server.send(client, &[b as u8; 20]);
    }
    let events = server.poll(T0);
    assert!(events.iter().all(|e| !matches!(e, Event::Connected(_))));
    assert_eq!(server.peer_count(), 0);
}

// ----- further cases -------------------------------------------------------

#[test]
fn table_limits_are_validated() {
    assert!(PeerTable::new("k", 0, 1).is_err());
    assert!(PeerTable::new("k", 65_536, 1).is_err());
    assert!(PeerTable::new("k", 4, 0).is_err());
    assert!(PeerTable::new("k", 4, 5).is_err());
    assert!(PeerTable::new("k", 65_535, 65_535).is_ok());
    assert!(PeerTable::new("k", 1, 1).is_ok());
}

#[test]
fn pong_answering_the_outstanding_ping_sets_the_rtt() {
    let mut server = Server::bind("sailwind-online");
    let client = server.client_from(LOCALHOST);
    server.send(client, &connect_datagram(0, 5, "sailwind-online"));
    assert_eq!(server.poll(T0), vec![Event::Connected(1)]);
    server.drain_packets(client);

    assert!(server.poll(T0 + PING_INTERVAL).is_empty());
    let ping = server.drain_packets(client);
    assert_eq!(ping.len(), 1);
    let sequence = protocol::read_sequence(&ping[0]).unwrap();
    assert_eq!(sequence, 1);
    assert_eq!(server.rtt(1), None);

    // A pong for another sequence refreshes liveness but is no RTT sample.
    server.send(client, &build_pong_for(0, sequence + 1, 0));
    server.poll(T0 + PING_INTERVAL + 5 * MS);
    assert_eq!(server.rtt(1), None);

    server.send(client, &build_pong_for(0, sequence, 0));
    server.poll(T0 + PING_INTERVAL + 30 * MS);
    assert_eq!(server.rtt(1), Some(30 * MS));
}

#[test]
fn shutdown_disconnects_every_peer_in_slot_order() {
    let mut server = Server::bind("sailwind-online");
    let a = server.client_from(LOCALHOST);
    let b = server.client_from(LOCALHOST_2);
    server.send(a, &connect_datagram(1, 11, "sailwind-online"));
    server.send(b, &connect_datagram(2, 22, "sailwind-online"));
    assert_eq!(
        server.poll(T0),
        vec![Event::Connected(1), Event::Connected(2)]
    );
    server.drain_packets(a);
    server.drain_packets(b);

    let events = server.shutdown();
    assert_eq!(
        events,
        vec![
            Event::Disconnected(1, DisconnectReason::Shutdown),
            Event::Disconnected(2, DisconnectReason::Shutdown),
        ]
    );
    assert_eq!(server.drain_packets(a), vec![build_disconnect_for(1, 11).to_vec()]);
    assert_eq!(server.drain_packets(b), vec![build_disconnect_for(2, 22).to_vec()]);
    assert_eq!(server.peer_count(), 0);
    assert_eq!(server.table.slot_count(), 0);
    assert_peer_indices_consistent(&server);
}

#[test]
fn fragmented_and_empty_datagrams_are_ignored() {
    let mut server = Server::bind("sailwind-online");
    let client = server.client_from(LOCALHOST);
    server.send(client, &connect_datagram(0, 1, "sailwind-online"));
    assert_eq!(server.poll(T0), vec![Event::Connected(1)]);
    server.drain_packets(client);

    let mut fragmented = build_unreliable_for(0, b"piece");
    fragmented[0] |= 0x80;
    server.send(client, &fragmented);
    server.send(client, &[]);
    assert!(server.poll(T0).is_empty());
    assert!(server.drain_packets(client).is_empty());
}

#[test]
fn disconnect_with_the_wrong_connect_time_is_ignored() {
    let mut server = Server::bind("sailwind-online");
    let client = server.client_from(LOCALHOST);
    server.send(client, &connect_datagram(0, 7, "sailwind-online"));
    assert_eq!(server.poll(T0), vec![Event::Connected(1)]);
    server.drain_packets(client);

    server.send(client, &build_disconnect_for(0, 8));
    assert!(server.poll(T0).is_empty());
    assert!(server.drain_packets(client).is_empty());
    assert_eq!(server.peer_count(), 1);

    server.send(client, &build_disconnect_for(0, 7));
    assert_eq!(
        server.poll(T0),
        vec![Event::Disconnected(1, DisconnectReason::Remote)]
    );
    assert_eq!(
        server.drain_packets(client),
        vec![vec![property::SHUTDOWN_OK]]
    );
}

#[test]
fn a_poll_stops_taking_datagrams_at_its_packet_budget() {
    let mut server = Server::bind("sailwind-online");
    let client = server.client_from(LOCALHOST);
    for _ in 0..MAX_POLL_PACKETS + 5 {
        server.send(client, &[0xff; 4]);
    }
    let (_, work) = server.poll_with_work(T0);
    assert_eq!(work.packets, MAX_POLL_PACKETS);
    assert_eq!(server.inbox.len(), 5);
}

#[test]
fn maintenance_cursor_moves_round_robin() {
    let mut server = Server::bind_with_limits("sailwind-online", 600, 600);
    let clients = connect_many(&mut server, 600, T0);
    assert_eq!(clients.len(), 600);
    for _ in 0..4 {
        let before = server.table.maintenance_cursor();
        let (_, work) = server.poll_with_work(T0);
        assert_eq!(work.maintenance_scans, MAX_POLL_MAINTENANCE_SCANS);
        let after = server.table.maintenance_cursor();
        assert_eq!(after, (before % 600 + MAX_POLL_MAINTENANCE_SCANS - 1) % 600 + 1);
    }
}
