use std::collections::VecDeque;

use swim_cluster::codec::{decode_message, Message, Request};
use swim_cluster::member::{Addr, Member, MemberEvent, MemberState, StateChange};
use swim_cluster::node::{ClusterConfig, Effect, InternalRequest, Reactor, TargetedRequest};

const SECOND: u64 = 1_000_000_000;

fn addr(i: usize) -> Addr {
    Addr::v4(0x7f00_0001, 7001 + i as u16)
}

fn index_of(a: &Addr) -> Option<usize> {
    if a.v6 || a.ip != 0x7f00_0001 || a.port < 7001 {
        None
    } else {
        Some((a.port - 7001) as usize)
    }
}

struct Net {
    nodes: Vec<Reactor>,
    events: Vec<Vec<MemberEvent>>,
    sent: Vec<Vec<Message>>,
    queue: VecDeque<(usize, InternalRequest)>,
    dead: Vec<bool>,
    cut: Vec<(usize, usize)>,
    now: u64,
}

impl Net {
    fn new(n: usize, config: fn() -> ClusterConfig) -> Net {
        Net {
            nodes: (0..n).map(|i| Reactor::new(i as u128 + 1, config())).collect(),
            events: (0..n).map(|_| Vec::new()).collect(),
            sent: (0..n).map(|_| Vec::new()).collect(),
            queue: VecDeque::new(),
            dead: vec![false; n],
            cut: Vec::new(),
            now: 0,
        }
    }

    fn blocked(&self, a: usize, b: usize) -> bool {
        self.dead[a] || self.dead[b] || self.cut.contains(&(a, b)) || self.cut.contains(&(b, a))
    }

    fn push(&mut self, node: usize, r: InternalRequest) {
        self.queue.push_back((node, r));
    }

    fn ping(&mut self, from: usize, to: usize) {
        self.push(from, InternalRequest::React(TargetedRequest { request: Request::Ping, target: addr(to) }));
    }

    fn tick(&mut self, node: usize) {
        let mut effects = Vec::new();
        self.nodes[node].tick(&mut effects);
        self.apply(node, effects);
    }

    fn apply(&mut self, node: usize, effects: Vec<Effect>) {
        for e in effects {
            match e {
                Effect::Send(target, bytes) => {
                    let config_mtu = self.nodes[node].config().network_mtu;
                    assert!(bytes.len() < config_mtu);
                    let msg = decode_message(&bytes).expect("own datagrams decode");
                    self.sent[node].push(msg);
                    if let Some(t) = index_of(&target) {
                        if t < self.nodes.len() && !self.blocked(node, t) {
                            let msg = decode_message(&bytes).unwrap();
                            self.push(t, InternalRequest::Respond(addr(node), msg));
                        }
                    }
                }
                Effect::Emit(_, ev) => self.events[node].push(ev),
                Effect::React(r) => self.push(node, InternalRequest::React(r)),
            }
        }
    }

    fn run(&mut self) {
        let mut steps = 0;
        while let Some((node, r)) = self.queue.pop_front() {
            steps += 1;
            assert!(steps < 10_000);
            if self.dead[node] {
                continue;
            }
            let mut effects = Vec::new();
            let now = self.now;
            self.nodes[node].process_internal_request(r, now, &mut effects);
            self.apply(node, effects);
        }
    }

    fn count(&self, node: usize, key: u128, kind: fn(&MemberEvent) -> bool) -> usize {
        self.events[node].iter().filter(|e| kind(e) && e.member().host_key == key).count()
    }

    fn available(&self, node: usize) -> Vec<u128> {
        let mut v: Vec<u128> = self.nodes[node].available_nodes().iter().map(|m| m.host_key).collect();
        v.sort();
        v
    }

    fn join_all(&mut self) {
        let n = self.nodes.len();
        for a in 0..n {
            for b in 0..n {
                if a != b {
                    self.ping(a, b);
                }
            }
        }
        self.run();
    }
}

fn joined(e: &MemberEvent) -> bool {
    matches!(e, MemberEvent::MemberJoined(_))
}
fn went_up(e: &MemberEvent) -> bool {
    matches!(e, MemberEvent::MemberWentUp(_))
}
fn suspected(e: &MemberEvent) -> bool {
    matches!(e, MemberEvent::MemberSuspectedDown(_))
}
fn went_down(e: &MemberEvent) -> bool {
    matches!(e, MemberEvent::MemberWentDown(_))
}
fn left(e: &MemberEvent) -> bool {
    matches!(e, MemberEvent::MemberLeft(_))
}

fn event_state_matches(e: &MemberEvent) -> bool {
    match e {
        MemberEvent::MemberJoined(_) => true,
        MemberEvent::MemberWentUp(m) => m.state == MemberState::Alive,
        MemberEvent::MemberSuspectedDown(m) => m.state == MemberState::Suspect,
        MemberEvent::MemberWentDown(m) => m.state == MemberState::Down,
        MemberEvent::MemberLeft(m) => m.state == MemberState::Left,
    }
}

#[test]
fn two_node_join() {
    let mut net = Net::new(2, ClusterConfig::default);
    net.push(0, InternalRequest::AddSeed(addr(1)));
    net.run();
    net.tick(0);
    net.run();
    assert_eq!(net.count(0, 2, joined), 1);
    assert_eq!(net.count(1, 1, joined), 1);
    assert_eq!(net.available(0), vec![1, 2]);
    assert_eq!(net.available(1), vec![1, 2]);
    // the seed answered, so the next round does not ping it again
    let before = net.sent[0].len();
    let mut effects = Vec::new();
    net.nodes[0].enqueue_seed_nodes(&mut effects);
    assert!(effects.is_empty());
    assert_eq!(net.sent[0].len(), before);
}

#[test]
fn silent_crash() {
    let mut net = Net::new(3, ClusterConfig::default);
    net.join_all();
    net.dead[2] = true;
    for a in 0..2 {
        net.ping(a, 2);
    }
    net.run();
    net.now = 4 * SECOND;
    for a in 0..2 {
        net.ping(a, 2);
    }
    net.run();
    for a in 0..2 {
        assert_eq!(net.count(a, 3, suspected), 1);
        assert_eq!(net.count(a, 3, went_down), 0);
    }
    net.now = 8 * SECOND;
    for a in 0..2 {
        net.ping(a, 1 - a);
    }
    net.run();
    for a in 0..2 {
        assert_eq!(net.count(a, 3, suspected), 1);
        assert_eq!(net.count(a, 3, went_down), 1);
        assert_eq!(net.count(a, 3, went_up), 0);
        assert_eq!(net.nodes[a].member(3).unwrap().state, MemberState::Down);
        assert!(!net.available(a).contains(&3));
    }
    for a in 0..3 {
        assert!(net.events[a].iter().all(event_state_matches));
    }
}

#[test]
fn indirect_rescue() {
    let mut net = Net::new(4, ClusterConfig::default);
    net.join_all();
    net.cut.push((0, 2));
    net.ping(0, 2);
    net.run();
    net.now = 4 * SECOND;
    net.ping(0, 1);
    net.run();
    let relayed = net.sent[0]
        .iter()
        .filter(|m| matches!(m.request, Request::PingRequest(t) if t == addr(2)))
        .count();
    assert!(relayed >= 1 && relayed <= 3);
    assert_eq!(net.count(0, 3, went_down), 0);
    assert_eq!(net.nodes[0].member(3).unwrap().state, MemberState::Alive);
    assert_eq!(net.count(0, 3, suspected), 1);
    assert_eq!(net.count(0, 3, went_up), 1);
}

#[test]
fn graceful_leave() {
    let mut net = Net::new(3, ClusterConfig::default);
    net.join_all();
    net.push(1, InternalRequest::LeaveCluster);
    net.ping(1, 0);
    net.ping(1, 2);
    net.run();
    for a in [0, 2] {
        assert_eq!(net.count(a, 2, left), 1);
        assert_eq!(net.count(a, 2, went_down), 0);
        assert!(!net.available(a).contains(&2));
    }
}

#[test]
fn refutation_of_suspect_self() {
    let mut net = Net::new(2, ClusterConfig::default);
    net.join_all();
    let before = net.nodes[0].member(1).unwrap().incarnation;
    let events_before = net.events[0].len();
    let claim = Member { host_key: 1, address: Some(addr(0)), incarnation: before, state: MemberState::Suspect };
    let msg = Message {
        sender: 2,
        cluster_key: b"default".to_vec(),
        request: Request::Ack,
        state_changes: vec![StateChange::new(claim)],
    };
    let mut effects = Vec::new();
    net.nodes[0].process_internal_request(InternalRequest::Respond(addr(1), msg), 0, &mut effects);
    assert_eq!(net.events[0].len(), events_before);
    assert!(!effects.iter().any(|e| matches!(e, Effect::Emit(_, _))));
    let me = net.nodes[0].member(1).unwrap();
    assert_eq!(me.incarnation, before + 1);
    assert_eq!(me.state, MemberState::Alive);
    net.ping(0, 1);
    net.run();
    let last = net.sent[0].last().unwrap();
    assert!(last.state_changes.iter().any(|c| {
        let m = c.member();
        m.host_key == 1 && m.incarnation == before + 1 && m.state == MemberState::Alive
    }));
}

fn small_mtu() -> ClusterConfig {
    ClusterConfig { network_mtu: 200, ..ClusterConfig::default() }
}

#[test]
fn mtu_clamp_on_the_wire() {
    let mut net = Net::new(2, small_mtu);
    let batch: Vec<StateChange> = (0..50u128)
        .map(|k| StateChange::new(Member::new(100 + k, Addr::v4(0x0a00_0000 + k as u32, 9000), 0, MemberState::Alive)))
        .collect();
    let msg = Message { sender: 2, cluster_key: b"default".to_vec(), request: Request::Ack, state_changes: batch };
    let mut effects = Vec::new();
    net.nodes[0].process_internal_request(InternalRequest::Respond(addr(1), msg), 0, &mut effects);
    let log = net.nodes[0].pending_changes();
    assert!(log.len() >= 50);
    net.ping(0, 1);
    net.run();
    assert!(!net.sent[0].is_empty());
    let first = &net.sent[0][0];
    assert_eq!(first.state_changes.len(), 3);
    for (i, c) in first.state_changes.iter().enumerate() {
        assert_eq!(c.member().host_key, log[i].member().host_key);
    }
}

#[test]
fn foreign_cluster_key_is_dropped() {
    let mut net = Net::new(2, ClusterConfig::default);
    let msg = Message {
        sender: 9,
        cluster_key: b"other".to_vec(),
        request: Request::Ping,
        state_changes: vec![StateChange::new(Member::myself(9))],
    };
    let mut effects = Vec::new();
    net.nodes[0].process_internal_request(InternalRequest::Respond(addr(1), msg), 0, &mut effects);
    assert!(effects.is_empty());
    assert!(net.nodes[0].member(9).is_none());
}

#[test]
fn ack_retires_piggybacked_changes() {
    let mut net = Net::new(2, ClusterConfig::default);
    net.join_all();
    net.ping(0, 1);
    net.run();
    let log: Vec<u128> = net.nodes[0].pending_changes().iter().map(|c| c.member().host_key).collect();
    assert!(log.is_empty());
    net.ping(0, 1);
    net.run();
    assert!(net.sent[0].last().unwrap().state_changes.is_empty());
}

#[test]
fn exit_stops() {
    let mut net = Net::new(1, ClusterConfig::default);
    let mut effects = Vec::new();
    assert!(net.nodes[0].process_internal_request(InternalRequest::Exit, 0, &mut effects));
    assert!(!net.nodes[0].process_internal_request(InternalRequest::AddSeed(addr(3)), 0, &mut effects));
    assert!(!net.nodes[0].handle(InternalRequest::LeaveCluster, &mut effects));
    assert_eq!(net.nodes[0].member(1).unwrap().state, MemberState::Left);
}

#[test]
fn timeout_reports_before_asking_relays() {
    let mut net = Net::new(3, ClusterConfig::default);
    net.join_all();
    net.dead[2] = true;
    net.ping(0, 2);
    net.run();
    let mut effects = Vec::new();
    let r = TargetedRequest { request: Request::Ping, target: addr(1) };
    net.nodes[0].process_internal_request(InternalRequest::React(r), 4 * SECOND, &mut effects);
    assert!(matches!(&effects[0], Effect::Emit(_, MemberEvent::MemberSuspectedDown(m)) if m.host_key == 3));
    assert!(matches!(&effects[1], Effect::React(t) if t.target == addr(1)
        && matches!(t.request, Request::PingRequest(a) if a == addr(2))));
    assert!(matches!(effects.last().unwrap(), Effect::Send(t, _) if *t == addr(1)));
    assert_eq!(effects.len(), 3);
}

#[test]
fn relays_get_indirect_ack_in_order() {
    let mut net = Net::new(2, ClusterConfig::default);
    net.join_all();
    let ask = |sender: u128| Message {
        sender,
        cluster_key: b"default".to_vec(),
        request: Request::PingRequest(addr(1)),
        state_changes: vec![],
    };
    let mut effects = Vec::new();
    net.nodes[0].process_internal_request(InternalRequest::Respond(addr(5), ask(6)), 0, &mut effects);
    net.nodes[0].process_internal_request(InternalRequest::Respond(addr(6), ask(7)), 0, &mut effects);
    let ack = Message { sender: 2, cluster_key: b"default".to_vec(), request: Request::Ack, state_changes: vec![] };
    let mut effects = Vec::new();
    net.nodes[0].process_internal_request(InternalRequest::Respond(addr(1), ack), 0, &mut effects);
    let targets: Vec<Addr> = effects
        .iter()
        .filter_map(|e| match e {
            Effect::React(t) if matches!(t.request, Request::AckHost(m) if m.host_key == 2) => Some(t.target),
            _ => None,
        })
        .collect();
    assert_eq!(targets, vec![addr(5), addr(6)]);
}

#[test]
fn known_sender_is_rebound_to_new_endpoint() {
    let mut net = Net::new(2, ClusterConfig::default);
    net.join_all();
    assert_eq!(net.nodes[0].member(2).unwrap().address, Some(addr(1)));
    let ping = Message { sender: 2, cluster_key: b"default".to_vec(), request: Request::Ping, state_changes: vec![] };
    let mut effects = Vec::new();
    net.nodes[0].process_internal_request(InternalRequest::Respond(addr(7), ping), 0, &mut effects);
    assert_eq!(net.nodes[0].member(2).unwrap().address, Some(addr(7)));
    let reacts: Vec<&Effect> = effects.iter().filter(|e| matches!(e, Effect::React(_))).collect();
    assert_eq!(reacts.len(), 1);
    assert!(matches!(reacts[0], Effect::React(t) if t.target == addr(7) && matches!(t.request, Request::Ack)));
}
