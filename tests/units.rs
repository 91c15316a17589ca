use swim_cluster::codec::{build_message, decode_message, encode_message, Message, Request};
use swim_cluster::log::{enqueue_state_change, retire_changes};
use swim_cluster::member::{determine_member_event, Addr, Member, MemberEvent, MemberState, StateChange};
use swim_cluster::memberlist::MemberList;
use swim_cluster::node::ClusterConfig;
use swim_cluster::waitlist::{add_to_wait_list, remove_potential_seed, take_waiters};

fn addr(port: u16) -> Addr {
    Addr::v4(0x7f00_0001, port)
}

fn peer(key: u128, port: u16, inc: u64, state: MemberState) -> Member {
    Member::new(key, addr(port), inc, state)
}

fn changes(ms: &[Member]) -> Vec<StateChange> {
    ms.iter().map(|m| StateChange::new(*m)).collect()
}

#[test]
fn event_kind_follows_state() {
    let m = peer(5, 7005, 0, MemberState::Alive);
    assert!(matches!(determine_member_event(m), MemberEvent::MemberWentUp(_)));
    let m = peer(5, 7005, 0, MemberState::Suspect);
    assert!(matches!(determine_member_event(m), MemberEvent::MemberSuspectedDown(_)));
    let m = peer(5, 7005, 0, MemberState::Down);
    assert!(matches!(determine_member_event(m), MemberEvent::MemberWentDown(_)));
    let m = peer(5, 7005, 0, MemberState::Left);
    let e = determine_member_event(m);
    assert!(matches!(e, MemberEvent::MemberLeft(_)));
    assert_eq!(e.member().host_key, 5);
}

#[test]
fn precedence_by_incarnation_then_rank() {
    let a = peer(1, 7001, 2, MemberState::Alive);
    let s = peer(1, 7001, 2, MemberState::Suspect);
    let old_down = peer(1, 7001, 1, MemberState::Down);
    assert!(s.supersedes(&a));
    assert!(!a.supersedes(&s));
    assert!(a.supersedes(&old_down));
    assert!(!a.supersedes(&a));
}

#[test]
fn enqueue_overwrites_in_place() {
    let mut log = changes(&[peer(1, 7001, 0, MemberState::Alive), peer(2, 7002, 0, MemberState::Alive)]);
    enqueue_state_change(&mut log, &[peer(1, 7001, 0, MemberState::Suspect), peer(3, 7003, 0, MemberState::Alive)]);
    assert_eq!(log.len(), 3);
    assert_eq!(log[0].member().host_key, 1);
    assert_eq!(log[0].member().state, MemberState::Suspect);
    assert_eq!(log[1].member().host_key, 2);
    assert_eq!(log[2].member().host_key, 3);
}

#[test]
fn enqueue_keeps_keys_distinct() {
    let mut log = Vec::new();
    enqueue_state_change(&mut log, &[peer(1, 7001, 0, MemberState::Alive), peer(1, 7001, 1, MemberState::Alive), peer(1, 7001, 2, MemberState::Down)]);
    assert_eq!(log.len(), 1);
    assert_eq!(log[0].member().incarnation, 2);
    assert_eq!(log[0].member().state, MemberState::Down);
}

#[test]
fn retire_drops_acked_keys() {
    let mut log = changes(&[peer(1, 7001, 0, MemberState::Alive), peer(2, 7002, 0, MemberState::Alive), peer(3, 7003, 0, MemberState::Alive)]);
    let acked = changes(&[peer(2, 7002, 0, MemberState::Alive), peer(9, 7009, 0, MemberState::Alive)]);
    retire_changes(&mut log, &acked);
    let keys: Vec<u128> = log.iter().map(|c| c.member().host_key).collect();
    assert_eq!(keys, vec![1, 3]);
}

fn message(request: Request, cs: Vec<StateChange>) -> Message {
    Message { sender: 0xabcd, cluster_key: b"default".to_vec(), request, state_changes: cs }
}

#[test]
fn encoded_sizes() {
    assert_eq!(encode_message(&message(Request::Ping, vec![])).len(), 32);
    assert_eq!(encode_message(&message(Request::Ack, vec![])).len(), 32);
    assert_eq!(encode_message(&message(Request::PingRequest(addr(7001)), vec![])).len(), 51);
    let m = peer(1, 7001, 0, MemberState::Alive);
    assert_eq!(encode_message(&message(Request::AckHost(m), changes(&[m, m]))).len(), 77 + 90);
}

#[test]
fn encoding_is_little_endian() {
    let bytes = encode_message(&message(Request::Ping, vec![]));
    assert_eq!(bytes[0], 0xcd);
    assert_eq!(bytes[1], 0xab);
    assert_eq!(bytes[2], 0);
    assert_eq!(&bytes[16..20], &[7, 0, 0, 0]);
    assert_eq!(&bytes[20..27], b"default");
    assert_eq!(bytes[27], 0);
}

#[test]
fn decode_round_trip() {
    let me = Member::myself(77);
    let other = Member::new(88, Addr { v6: true, ip: u128::MAX - 5, port: 65535 }, u64::MAX, MemberState::Left);
    let m = message(Request::AckHost(other), changes(&[me, other]));
    let bytes = encode_message(&m);
    let back = decode_message(&bytes).expect("decodes");
    assert_eq!(back.sender, 0xabcd);
    assert_eq!(back.cluster_key, b"default".to_vec());
    assert_eq!(back.state_changes.len(), 2);
    assert_eq!(back.state_changes[0].member().host_key, 77);
    assert_eq!(back.state_changes[0].member().address, None);
    let o = back.state_changes[1].member();
    assert_eq!(o.host_key, 88);
    assert_eq!(o.address, Some(Addr { v6: true, ip: u128::MAX - 5, port: 65535 }));
    assert_eq!(o.incarnation, u64::MAX);
    assert_eq!(o.state, MemberState::Left);
    match back.request {
        Request::AckHost(x) => assert_eq!(x.host_key, 88),
        _ => panic!("wrong request"),
    }
}

#[test]
fn decode_rejects_malformed() {
    assert!(decode_message(&vec![]).is_none());
    assert!(decode_message(&vec![1, 2, 3]).is_none());
    let mut bytes = encode_message(&message(Request::Ping, vec![]));
    bytes.push(0);
    assert!(decode_message(&bytes).is_none());
    let mut bytes = encode_message(&message(Request::Ping, vec![]));
    bytes[27] = 9;
    assert!(decode_message(&bytes).is_none());
    let bytes = encode_message(&message(Request::Ping, changes(&[peer(1, 7001, 0, MemberState::Alive)])));
    assert!(decode_message(&bytes[..bytes.len() - 1].to_vec()).is_none());
}

#[test]
fn mtu_clamp_takes_longest_prefix() {
    let log: Vec<StateChange> = (0..50u128).map(|k| StateChange::new(peer(k + 10, 7100 + k as u16, 0, MemberState::Alive))).collect();
    let key = b"default".to_vec();
    let m = build_message(1, &key, Request::Ping, &log, 200);
    assert_eq!(m.state_changes.len(), 3);
    assert!(encode_message(&m).len() < 200);
    for (i, c) in m.state_changes.iter().enumerate() {
        assert_eq!(c.member().host_key, log[i].member().host_key);
    }
    let m4 = Message { sender: 1, cluster_key: key.clone(), request: Request::Ping, state_changes: log[..4].to_vec() };
    assert!(encode_message(&m4).len() >= 200);
    let all = build_message(1, &key, Request::Ack, &log, 100_000);
    assert_eq!(all.state_changes.len(), 50);
    let none = build_message(1, &key, Request::Ack, &log, 10);
    assert_eq!(none.state_changes.len(), 0);
}

fn list() -> MemberList {
    MemberList::new(Member::myself(1))
}

#[test]
fn merge_adopts_newer_and_ignores_older() {
    let mut ml = list();
    let out = ml.apply_state_changes(&changes(&[peer(2, 7002, 3, MemberState::Alive)]), addr(7002));
    assert_eq!(out.new.len(), 1);
    let out = ml.apply_state_changes(&changes(&[peer(2, 7002, 2, MemberState::Down)]), addr(7003));
    assert!(out.new.is_empty() && out.changed.is_empty());
    let out = ml.apply_state_changes(&changes(&[peer(2, 7002, 3, MemberState::Suspect)]), addr(7003));
    assert_eq!(out.changed.len(), 1);
    assert_eq!(ml.get(2).unwrap().state, MemberState::Suspect);
    let out = ml.apply_state_changes(&changes(&[peer(2, 7002, 4, MemberState::Alive)]), addr(7003));
    assert_eq!(out.changed.len(), 1);
    assert_eq!(ml.get(2).unwrap().incarnation, 4);
    assert_eq!(ml.get(2).unwrap().state, MemberState::Alive);
}

#[test]
fn merge_binds_sender_address() {
    let mut ml = list();
    let own = Member::myself(2);
    ml.apply_state_changes(&changes(&[own]), addr(7002));
    assert_eq!(ml.get(2).unwrap().address, Some(addr(7002)));
    assert!(ml.has_member(&addr(7002)));
}

#[test]
fn refutation_bumps_incarnation_by_one() {
    let mut ml = list();
    let claim = Member { host_key: 1, address: None, incarnation: 0, state: MemberState::Suspect };
    let out = ml.apply_state_changes(&changes(&[claim]), addr(7002));
    assert!(out.refuted);
    assert!(out.new.is_empty() && out.changed.is_empty());
    assert_eq!(ml.myself().incarnation, 1);
    assert_eq!(ml.myself().state, MemberState::Alive);
    let alive_claim = Member { host_key: 1, address: None, incarnation: 9, state: MemberState::Alive };
    let out = ml.apply_state_changes(&changes(&[alive_claim]), addr(7002));
    assert!(!out.refuted);
    assert_eq!(ml.myself().incarnation, 1);
}

fn snapshot(ml: &MemberList, keys: &[u128]) -> Vec<Option<(u64, MemberState, Option<Addr>)>> {
    keys.iter().map(|k| ml.get(*k).map(|m| (m.incarnation, m.state, m.address))).collect()
}

#[test]
fn merge_twice_equals_once() {
    let batch = changes(&[
        peer(2, 7002, 1, MemberState::Alive),
        peer(3, 7003, 0, MemberState::Suspect),
        peer(2, 7002, 1, MemberState::Down),
        peer(2, 7002, 0, MemberState::Left),
    ]);
    let mut ml = list();
    ml.apply_state_changes(&batch, addr(7009));
    let once = snapshot(&ml, &[1, 2, 3]);
    let out = ml.apply_state_changes(&batch, addr(7009));
    assert!(out.new.is_empty() && out.changed.is_empty());
    assert_eq!(snapshot(&ml, &[1, 2, 3]), once);
}

#[test]
fn merge_order_does_not_matter() {
    let a = peer(2, 7002, 1, MemberState::Alive);
    let b = peer(2, 7002, 1, MemberState::Suspect);
    let c = peer(2, 7002, 0, MemberState::Left);
    let mut x = list();
    x.apply_state_changes(&changes(&[a, b, c]), addr(7009));
    let mut y = list();
    y.apply_state_changes(&changes(&[c, b, a]), addr(7009));
    let mut z = list();
    z.apply_state_changes(&changes(&[b]), addr(7009));
    z.apply_state_changes(&changes(&[c, a]), addr(7009));
    let sx = x.get(2).unwrap();
    for m in [y.get(2).unwrap(), z.get(2).unwrap()] {
        assert_eq!((m.incarnation, m.state), (sx.incarnation, sx.state));
    }
    assert_eq!((sx.incarnation, sx.state), (1, MemberState::Suspect));
}

#[test]
fn time_out_walks_alive_suspect_down() {
    let mut ml = list();
    ml.add_member(peer(2, 7002, 0, MemberState::Alive));
    ml.add_member(peer(3, 7003, 0, MemberState::Left));
    ml.add_member(peer(4, 7004, 0, MemberState::Alive));
    let (s, d) = ml.time_out_nodes(&vec![addr(7002), addr(7003)]);
    assert_eq!(s.len(), 1);
    assert_eq!(s[0].host_key, 2);
    assert!(d.is_empty());
    let (s, d) = ml.time_out_nodes(&vec![addr(7002), addr(7003)]);
    assert!(s.is_empty());
    assert_eq!(d.len(), 1);
    assert_eq!(d[0].state, MemberState::Down);
    assert_eq!(ml.get(3).unwrap().state, MemberState::Left);
    assert_eq!(ml.get(4).unwrap().state, MemberState::Alive);
    let (s, d) = ml.time_out_nodes(&vec![addr(7002)]);
    assert!(s.is_empty() && d.is_empty());
}

#[test]
fn mark_alive_only_on_change() {
    let mut ml = list();
    ml.add_member(peer(2, 7002, 0, MemberState::Suspect));
    ml.add_member(peer(3, 7003, 0, MemberState::Alive));
    let r = ml.mark_node_alive(&addr(7002)).unwrap();
    assert_eq!(r.host_key, 2);
    assert_eq!(r.state, MemberState::Alive);
    assert!(ml.mark_node_alive(&addr(7002)).is_none());
    assert!(ml.mark_node_alive(&addr(7003)).is_none());
    assert!(ml.mark_node_alive(&addr(7999)).is_none());
}

#[test]
fn relays_and_random_target() {
    let mut ml = list();
    assert!(ml.next_random_member().is_none());
    ml.add_member(peer(2, 7002, 0, MemberState::Alive));
    ml.add_member(peer(3, 7003, 0, MemberState::Alive));
    ml.add_member(peer(4, 7004, 0, MemberState::Down));
    ml.add_member(peer(5, 7005, 0, MemberState::Alive));
    let relays = ml.hosts_for_indirect_ping(3, &addr(7003));
    assert_eq!(relays, vec![addr(7002), addr(7005)]);
    let relays = ml.hosts_for_indirect_ping(1, &addr(7003));
    assert_eq!(relays.len(), 1);
    for _ in 0..20 {
        let m = ml.next_random_member().unwrap();
        assert!(m.host_key == 2 || m.host_key == 3 || m.host_key == 5);
    }
    let avail: Vec<u128> = ml.available_nodes().iter().map(|m| m.host_key).collect();
    assert_eq!(avail, vec![1, 2, 3, 5]);
}

#[test]
fn leave_marks_self_left() {
    let mut ml = list();
    let me = ml.leave();
    assert_eq!(me.state, MemberState::Left);
    assert_eq!(me.host_key, 1);
    assert!(ml.available_nodes().is_empty());
}

#[test]
fn wait_list_and_seeds() {
    let mut w = Vec::new();
    add_to_wait_list(&mut w, &addr(7003), &addr(7001));
    add_to_wait_list(&mut w, &addr(7004), &addr(7001));
    add_to_wait_list(&mut w, &addr(7003), &addr(7002));
    assert_eq!(take_waiters(&mut w, &addr(7003)), vec![addr(7001), addr(7002)]);
    assert!(take_waiters(&mut w, &addr(7003)).is_empty());
    assert_eq!(take_waiters(&mut w, &addr(7004)), vec![addr(7001)]);
    let mut seeds = vec![addr(7001), addr(7002), addr(7001)];
    remove_potential_seed(&mut seeds, addr(7001));
    assert_eq!(seeds, vec![addr(7002)]);
}

#[test]
fn default_config() {
    let c = ClusterConfig::default();
    assert_eq!(c.cluster_key, b"default".to_vec());
    assert_eq!(c.ping_interval, 1000);
    assert_eq!(c.network_mtu, 512);
    assert_eq!(c.ping_request_host_count, 3);
    assert_eq!(c.ping_timeout, 3000);
    assert_eq!(c.listen_addr, Addr::v4(0x7f00_0001, 2552));
    assert!(c.is_valid());
    let tiny = ClusterConfig { network_mtu: 60, ..ClusterConfig::default() };
    assert!(!tiny.is_valid());
}

#[test]
fn merge_keeps_endpoints_unique() {
    let mut ml = list();
    ml.add_member(peer(2, 7002, 0, MemberState::Alive));
    let out = ml.apply_state_changes(&changes(&[peer(3, 7002, 0, MemberState::Alive)]), addr(7009));
    assert_eq!(out.new.len(), 1);
    assert_eq!(ml.get(3).unwrap().address, None);
    assert_eq!(ml.get(2).unwrap().address, Some(addr(7002)));
    ml.add_member(peer(4, 7004, 0, MemberState::Alive));
    ml.apply_state_changes(&changes(&[peer(4, 7002, 1, MemberState::Alive)]), addr(7009));
    let four = ml.get(4).unwrap();
    assert_eq!((four.incarnation, four.address), (1, Some(addr(7004))));
}

#[test]
fn probe_round_visits_each_peer_once() {
    let mut ml = list();
    ml.add_member(peer(2, 7002, 0, MemberState::Alive));
    ml.add_member(peer(3, 7003, 0, MemberState::Alive));
    ml.add_member(peer(4, 7004, 0, MemberState::Suspect));
    ml.add_member(peer(5, 7005, 0, MemberState::Alive));
    for _ in 0..4 {
        let mut seen: Vec<u128> = (0..3).map(|_| ml.next_random_member().unwrap().host_key).collect();
        seen.sort();
        assert_eq!(seen, vec![2, 3, 5]);
    }
}
