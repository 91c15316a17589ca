use vstd::prelude::*;
use crate::codec::{
    build_message, encode_message, max_header_len, message_bytes, same_bytes, Message, Request,
};
use crate::log::{
    copy_changes, enqueue_state_change, has_key, lemma_enqueue_one_holds, lemma_retained_keys,
    log_wf, retire_changes, enqueue_all, enqueue_one, enqueue_one_change,
};
use crate::member::{
    determine_member_event, event_consistent, event_of, precedence, Addr, Member, MemberEvent, MemberState, StateChange,
};
use crate::memberlist::{round_step, revived, revives, MergeOutcome, keys_distinct, probe_candidate, refutes, timed_out, visible, MemberList};
use crate::waitlist::{without, add_to_wait_list, relays_of, remove_potential_seed, take_waiters, WaitList};

verus! {

/// Protocol parameters. Durations are in milliseconds.
pub struct ClusterConfig {
    pub cluster_key: Vec<u8>,
    pub ping_interval: u64,
    pub network_mtu: usize,
    pub ping_request_host_count: usize,
    pub ping_timeout: u64,
    pub listen_addr: Addr,
}

/// Every message, whatever its request, fits under the MTU when it carries
/// no snapshots.
pub open spec fn config_ok(c: ClusterConfig) -> bool {
    max_header_len(c.cluster_key@.len()) < c.network_mtu
}

impl ClusterConfig {
    pub fn is_valid(&self) -> (r: bool)
        ensures
            r == config_ok(*self),
    {
        self.cluster_key.len() < self.network_mtu && self.network_mtu - self.cluster_key.len() > 70
    }
}

impl Default for ClusterConfig {
    fn default() -> (r: ClusterConfig)
        ensures
            r.cluster_key@ == seq![100u8, 101u8, 102u8, 97u8, 117u8, 108u8, 116u8],
            r.ping_interval == 1000,
            r.network_mtu == 512,
            r.ping_request_host_count == 3,
            r.ping_timeout == 3000,
            r.listen_addr == (Addr { v6: false, ip: 0x7f00_0001, port: 2552 }),
    {
        ClusterConfig {
            cluster_key: vec![100u8, 101u8, 102u8, 97u8, 117u8, 108u8, 116u8],
            ping_interval: 1000,
            network_mtu: 512,
            ping_request_host_count: 3,
            ping_timeout: 3000,
            listen_addr: Addr { v6: false, ip: 0x7f00_0001, port: 2552 },
        }
    }
}

/// A request to be sent to `target`.
#[derive(Clone, Copy, Debug)]
pub struct TargetedRequest {
    pub request: Request,
    pub target: Addr,
}

/// A command handled by the reactor.
#[derive(Debug)]
pub enum InternalRequest {
    AddSeed(Addr),
    Respond(Addr, Message),
    React(TargetedRequest),
    LeaveCluster,
    Exit,
}

/// A direct ping awaiting its ack: deadline (clock nanoseconds), target and
/// the snapshots it carried.
#[derive(Debug)]
pub struct PendingProbe {
    pub deadline: u64,
    pub target: Addr,
    pub changes: Vec<StateChange>,
}

/// What the reactor asks its host to do.
#[derive(Debug)]
pub enum Effect {
    /// Send a datagram.
    Send(Addr, Vec<u8>),
    /// Report an event with the members visible at that moment.
    Emit(Vec<Member>, MemberEvent),
    /// Queue a request behind the commands already waiting.
    React(TargetedRequest),
}

pub open spec fn effect_ok(e: Effect, mtu: usize) -> bool {
    match e {
        Effect::Send(_, b) => b@.len() < mtu,
        Effect::Emit(_, ev) => event_consistent(ev),
        Effect::React(_) => true,
    }
}

/// `e` sends a datagram to `a`.
pub open spec fn sends_to(e: Effect, a: Addr) -> bool {
    match e {
        Effect::Send(x, _) => x == a,
        _ => false,
    }
}

/// `av` lists the members visible in `view`, each once.
pub open spec fn available_in(av: Seq<Member>, view: Map<u128, Member>) -> bool {
    &&& keys_distinct(av)
    &&& forall|j: int|
        0 <= j < av.len() ==> view.contains_key(#[trigger] av[j].host_key) && view[av[j].host_key]
            == av[j] && visible(av[j])
    &&& forall|k: u128|
        #[trigger] view.contains_key(k) && visible(view[k]) ==> exists|j: int|
            0 <= j < av.len() && av[j].host_key == k
}

/// `e` reports `ev` together with the members visible in `view`.
pub open spec fn emits(e: Effect, ev: MemberEvent, view: Map<u128, Member>) -> bool {
    match e {
        Effect::Emit(av, x) => x == ev && available_in(av@, view),
        _ => false,
    }
}

/// Every datagram fits under the MTU and every event carries a member in
/// the state its kind names.
pub open spec fn effects_ok(s: Seq<Effect>, mtu: usize) -> bool {
    forall|i: int| 0 <= i < s.len() ==> effect_ok(#[trigger] s[i], mtu)
}

fn push_effect(effects: &mut Vec<Effect>, e: Effect, mtu: usize)
    requires
        effects_ok(old(effects)@, mtu),
        effect_ok(e, mtu),
    ensures
        final(effects)@ == old(effects)@.push(e),
        effects_ok(final(effects)@, mtu),
{
    effects.push(e);
    assert forall|i: int| 0 <= i < effects@.len() implies effect_ok(#[trigger] effects@[i], mtu) by {
        if i < effects@.len() - 1 {
            assert(effects@[i] == old(effects)@[i]);
        }
    }
}

/// The targets of the probes whose deadline lies before `now`, in order.
pub open spec fn expired_targets(p: Seq<PendingProbe>, now: u64) -> Seq<Addr>
    decreases p.len(),
{
    if p.len() == 0 {
        Seq::empty()
    } else if p.last().deadline < now {
        expired_targets(p.drop_last(), now).push(p.last().target)
    } else {
        expired_targets(p.drop_last(), now)
    }
}

/// The record given to a sender first seen at `src`.
pub open spec fn newcomer(sender: u128, src: Addr) -> Member {
    Member { host_key: sender, address: Some(src), incarnation: 0, state: MemberState::Alive }
}

/// The sender is admitted: neither its host key nor its endpoint is known.
pub open spec fn admits(view: Map<u128, Member>, src: Addr, sender: u128) -> bool {
    !view.contains_key(sender) && !exists|k: u128| #[trigger]
        view.contains_key(k) && view[k].address == Some(src)
}

/// The view after the sender of a message is admitted: a sender first seen
/// joins; a known sender is bound to the endpoint it wrote from, unless
/// another member holds that endpoint.
pub open spec fn admitted(view: Map<u128, Member>, src: Addr, sender: u128) -> Map<u128, Member> {
    if admits(view, src, sender) {
        view.insert(sender, newcomer(sender, src))
    } else if view.contains_key(sender) && !crate::memberlist::addr_taken(view, sender, src) {
        view.insert(sender, Member { address: Some(src), ..view[sender] })
    } else {
        view
    }
}

/// The view after `a` answered: each member bound to it that was Suspect
/// or Down is Alive again.
pub open spec fn revive_all(view: Map<u128, Member>, a: Addr) -> Map<u128, Member> {
    Map::new(|k: u128| view.contains_key(k), |k: u128| revived(view[k], a))
}

/// `e` hands relay `relay` the indirect ack of the member bound to `a`.
pub open spec fn acks_host(e: Effect, relay: Addr, a: Addr, view: Map<u128, Member>) -> bool {
    match e {
        Effect::React(t) => t.target == relay && match t.request {
            Request::AckHost(x) => x.address == Some(a) && view.contains_key(x.host_key)
                && view[x.host_key] == x,
            _ => false,
        },
        _ => false,
    }
}

/// The log after a merge that found the members `nw` first seen and `ch`
/// changed, and refuted a claim against the local node where `rf`.
pub open spec fn merged_log(
    log: Seq<StateChange>,
    nw: Seq<Member>,
    ch: Seq<Member>,
    rf: bool,
    me_record: Member,
) -> Seq<StateChange> {
    if rf {
        enqueue_one(enqueue_all(enqueue_all(log, nw), ch), me_record)
    } else {
        enqueue_all(enqueue_all(log, nw), ch)
    }
}

/// The effects from `base` on start with one `MemberJoined` per member of
/// `nw`, then one event per member of `ch`, each reported with `view`.
pub open spec fn merge_events(
    e: Seq<Effect>,
    base: int,
    nw: Seq<Member>,
    ch: Seq<Member>,
    view: Map<u128, Member>,
) -> bool {
    &&& e.len() >= base + nw.len() + ch.len()
    &&& forall|j: int|
        0 <= j < nw.len() ==> emits(#[trigger] e[base + j], MemberEvent::MemberJoined(nw[j]), view)
    &&& forall|j: int|
        0 <= j < ch.len() ==> emits(#[trigger] e[base + nw.len() + j], event_of(ch[j]), view)
}

/// What an answer from `a` did, after the effects up to `base`: the indirect
/// acks to the relays that waited on `a` (in `w0`), then, where a member
/// bound to `a` was Suspect or Down in `v0`, its `MemberWentUp`; and the log
/// `l0` with the probes of `a` in `p0` retired, and that member's snapshot.
pub open spec fn answered_by(
    a: Addr,
    v0: Map<u128, Member>,
    l0: Seq<StateChange>,
    p0: Seq<PendingProbe>,
    w0: Seq<(Addr, Addr)>,
    s1: Reactor,
    e1: Seq<Effect>,
    base: int,
) -> bool {
    let rl = relays_of(w0, a);
    let lr = retired_by(l0, p0, a);
    &&& s1.member_view() == revive_all(v0, a)
    &&& forall|i: int| 0 <= i < s1.pending().len() ==> (#[trigger] s1.pending()[i]).target != a
    &&& relays_of(s1.waits(), a) == Seq::<Addr>::empty()
    &&& forall|j: int|
        0 <= j < rl.len() && base + j < e1.len() ==> acks_host(
            #[trigger] e1[base + j],
            rl[j],
            a,
            s1.member_view(),
        )
    &&& (exists|k: u128| #[trigger] v0.contains_key(k) && revives(v0[k], a)) ==> exists|m: Member|
        m.state == MemberState::Alive && s1.member_view().contains_key(m.host_key)
            && s1.member_view()[m.host_key] == m && #[trigger] enqueue_one(lr, m) == s1.log()
            && e1.len() == base + rl.len() + 1 && emits(
            e1.last(),
            MemberEvent::MemberWentUp(m),
            s1.member_view(),
        )
    &&& !(exists|k: u128| #[trigger] v0.contains_key(k) && revives(v0[k], a)) ==> s1.log() == lr
        && (e1.len() == base || e1.len() == base + rl.len())
}

/// What handling a message from `src` does, with the members `nw` first
/// seen and `ch` changed by its merge.
pub open spec fn answered(
    s0: Reactor,
    s1: Reactor,
    src: Addr,
    m: Message,
    e0: Seq<Effect>,
    e1: Seq<Effect>,
    nw: Seq<Member>,
    ch: Seq<Member>,
    rf: bool,
) -> bool {
    let vm = crate::memberlist::apply_all(s0.member_view(), s0.me(), m.state_changes@, src);
    let va = admitted(vm, src, m.sender);
    let joins = admits(vm, src, m.sender);
    let lm = merged_log(s0.log(), nw, ch, rf, vm[s0.me()]);
    let la = if joins {
        enqueue_one(lm, newcomer(m.sender, src))
    } else {
        lm
    };
    let nm: int = (e0.len() + nw.len() + ch.len()) as int;
    let na: int = if joins {
        nm + 1
    } else {
        nm
    };
    &&& s1.seeds() == without(s0.seeds(), src)
    &&& e1.len() >= na
    &&& e1.take(e0.len() as int) == e0
    &&& merge_events(e1, e0.len() as int, nw, ch, vm)
    &&& joins ==> emits(e1[nm], MemberEvent::MemberJoined(newcomer(m.sender, src)), va)
    &&& match m.request {
        Request::Ping => s1.member_view() == va && e1.len() == na + 1 && e1[na] == Effect::React(
            TargetedRequest { request: Request::Ack, target: src },
        ) && s1.log() == la && s1.pending() == s0.pending() && s1.waits() == s0.waits(),
        Request::PingRequest(d) => s1.member_view() == va && e1.len() == na + 1 && e1[na]
            == Effect::React(TargetedRequest { request: Request::Ping, target: d }) && s1.log() == la
            && relays_of(s1.waits(), d) == relays_of(s0.waits(), d).push(src) && s1.pending()
            == s0.pending(),
        Request::Ack => answered_by(src, va, la, s0.pending(), s0.waits(), s1, e1, na),
        Request::AckHost(x) => match x.address {
            Some(a) => answered_by(a, va, la, s0.pending(), s0.waits(), s1, e1, na),
            None => s1.member_view() == va && e1.len() == na && s1.log() == la && s1.pending()
                == s0.pending() && s1.waits() == s0.waits(),
        },
    }
}

/// What handling a message from `src` does, from state `s0` and effects
/// `e0` to state `s1` and effects `e1`.
pub open spec fn responded(
    s0: Reactor,
    s1: Reactor,
    src: Addr,
    m: Message,
    e0: Seq<Effect>,
    e1: Seq<Effect>,
) -> bool {
    if m.cluster_key@ != s0.cluster_key() {
        &&& s1.member_view() == s0.member_view()
        &&& s1.log() == s0.log()
        &&& e1 == e0
        &&& s1.seeds() == s0.seeds()
        &&& s1.pending() == s0.pending()
        &&& s1.waits() == s0.waits()
    } else {
        exists|nw: Seq<Member>, ch: Seq<Member>, rf: bool|
            #[trigger] answered(s0, s1, src, m, e0, e1, nw, ch, rf)
    }
}

/// What a pending probe records: deadline, target and the snapshots it carried.
pub open spec fn probe_view(p: PendingProbe) -> (u64, Addr, Seq<StateChange>) {
    (p.deadline, p.target, p.changes@)
}

/// The probes of `p` whose deadline is not before `now`, in order.
pub open spec fn kept_probes(p: Seq<PendingProbe>, now: u64) -> Seq<(u64, Addr, Seq<StateChange>)>
    decreases p.len(),
{
    if p.len() == 0 {
        Seq::empty()
    } else if p.last().deadline < now {
        kept_probes(p.drop_last(), now)
    } else {
        kept_probes(p.drop_last(), now).push(probe_view(p.last()))
    }
}

/// `e` asks a relay, an Alive peer other than the local node and the
/// target, to probe `a` on the local node's behalf.
pub open spec fn requests_relay(e: Effect, a: Addr, view: Map<u128, Member>, me: u128) -> bool {
    match e {
        Effect::React(t) => t.request == Request::PingRequest(a) && crate::memberlist::relay_ok(
            view,
            me,
            t.target,
            a,
        ),
        _ => false,
    }
}

/// `m` is what the local node `me` sends for `req`: the longest prefix of
/// `log` whose encoding stays under `mtu`.
pub open spec fn outgoing(
    m: Message,
    me: u128,
    key: Seq<u8>,
    req: Request,
    log: Seq<StateChange>,
    mtu: usize,
) -> bool {
    &&& m.sender == me
    &&& m.cluster_key@ == key
    &&& m.request == req
    &&& m.state_changes@.len() <= log.len()
    &&& m.state_changes@ == log.take(m.state_changes@.len() as int)
    &&& message_bytes(m).len() < mtu
    &&& (m.state_changes@.len() == log.len() || crate::codec::message_len(
        key.len(),
        req,
        m.state_changes@.len() + 1,
    ) >= mtu)
}

/// Deadline, in clock nanoseconds, of a probe sent at `now` with a timeout
/// of `timeout_ms` milliseconds; both saturate at the largest clock value.
pub open spec fn probe_deadline(now: u64, timeout_ms: u64) -> u64 {
    let span: int = if timeout_ms <= u64::MAX / 1_000_000 {
        timeout_ms * 1_000_000
    } else {
        u64::MAX as int
    };
    if now + span <= u64::MAX {
        (now + span) as u64
    } else {
        u64::MAX
    }
}

/// The probes of `p` not aimed at `src`, in order.
pub open spec fn probes_not_to(p: Seq<PendingProbe>, src: Addr) -> Seq<(u64, Addr, Seq<StateChange>)>
    decreases p.len(),
{
    if p.len() == 0 {
        Seq::empty()
    } else if p.last().target == src {
        probes_not_to(p.drop_last(), src)
    } else {
        probes_not_to(p.drop_last(), src).push(probe_view(p.last()))
    }
}

/// `log` after the snapshots of every probe of `p` aimed at `src` are
/// retired, probe by probe.
pub open spec fn retired_by(log: Seq<StateChange>, p: Seq<PendingProbe>, src: Addr) -> Seq<StateChange>
    decreases p.len(),
{
    if p.len() == 0 {
        log
    } else if p.last().target == src {
        crate::log::retained(retired_by(log, p.drop_last(), src), crate::log::keys_of(p.last().changes@))
    } else {
        retired_by(log, p.drop_last(), src)
    }
}

/// Where no probe of `p` is aimed at `src`, retiring changes nothing.
pub proof fn lemma_retired_by_untouched(log: Seq<StateChange>, p: Seq<PendingProbe>, src: Addr)
    requires
        forall|i: int| 0 <= i < p.len() ==> (#[trigger] p[i]).target != src,
    ensures
        retired_by(log, p, src) == log,
    decreases p.len(),
{
    if p.len() > 0 {
        assert forall|i: int| 0 <= i < p.drop_last().len() implies (#[trigger] p.drop_last()[i]).target
            != src by {
            assert(p.drop_last()[i] == p[i]);
        }
        lemma_retired_by_untouched(log, p.drop_last(), src);
        assert(p[p.len() - 1].target != src);
    }
}

/// The target of a queued request.
pub open spec fn react_target(e: Effect) -> Option<Addr> {
    match e {
        Effect::React(t) => Some(t.target),
        _ => None,
    }
}

/// The view after the probes of `expired` time out.
pub open spec fn time_out_all(view: Map<u128, Member>, expired: Seq<Addr>) -> Map<u128, Member> {
    Map::new(|k: u128| view.contains_key(k), |k: u128| timed_out(view[k], expired))
}

/// Every event among effects that the reactor's handlers keep well formed
/// carries a member in the state that its kind names.
pub proof fn lemma_events_consistent(s: Seq<Effect>, mtu: usize)
    requires
        effects_ok(s, mtu),
    ensures
        forall|i: int|
            0 <= i < s.len() ==> (#[trigger] s[i] matches Effect::Emit(_, ev) ==> event_consistent(ev)),
{
    assert forall|i: int| 0 <= i < s.len() implies (#[trigger] s[i] matches Effect::Emit(_, ev)
        ==> event_consistent(ev)) by {
        assert(effect_ok(s[i], mtu));
    }
}

/// `e` sends the wire form of `m`.
pub open spec fn carries(e: Effect, m: Message) -> bool {
    match e {
        Effect::Send(_, b) => message_bytes(m) == b@,
        _ => false,
    }
}

/// `sus` and `dwn` are the members that went from Alive to Suspect and from
/// Suspect to Down between views `v0` and `v1`, each once.
pub open spec fn timed_out_lists(
    v0: Map<u128, Member>,
    v1: Map<u128, Member>,
    sus: Seq<Member>,
    dwn: Seq<Member>,
) -> bool {
    &&& keys_distinct(sus)
    &&& keys_distinct(dwn)
    &&& forall|i: int|
        0 <= i < sus.len() ==> (#[trigger] sus[i]).state == MemberState::Suspect && v1.contains_key(
            sus[i].host_key,
        ) && v1[sus[i].host_key] == sus[i] && v0[sus[i].host_key].state == MemberState::Alive
    &&& forall|i: int|
        0 <= i < dwn.len() ==> (#[trigger] dwn[i]).state == MemberState::Down && v1.contains_key(
            dwn[i].host_key,
        ) && v1[dwn[i].host_key] == dwn[i] && v0[dwn[i].host_key].state == MemberState::Suspect
    &&& forall|k: u128|
        #[trigger] v0.contains_key(k) && v0[k].state == MemberState::Alive && v1[k].state
            == MemberState::Suspect ==> exists|i: int| 0 <= i < sus.len() && sus[i].host_key == k
    &&& forall|k: u128|
        #[trigger] v0.contains_key(k) && v0[k].state == MemberState::Suspect && v1[k].state
            == MemberState::Down ==> exists|i: int| 0 <= i < dwn.len() && dwn[i].host_key == k
}

/// What handling command `c` at clock reading `now` does.
pub open spec fn handled(
    s0: Reactor,
    s1: Reactor,
    c: InternalRequest,
    now: u64,
    e0: Seq<Effect>,
    e1: Seq<Effect>,
) -> bool {
    match c {
        InternalRequest::AddSeed(a) => s1.seeds() == s0.seeds().push(a) && s1.member_view()
            == s0.member_view() && s1.log() == s0.log() && s1.pending() == s0.pending()
            && s1.waits() == s0.waits() && e1 == e0,
        InternalRequest::Respond(src, m) => responded(s0, s1, src, m, e0, e1),
        InternalRequest::React(t) => s1.member_view() == time_out_all(
            s0.member_view(),
            expired_targets(s0.pending(), now),
        ) && e1.len() > e0.len() && sends_to(e1.last(), t.target) && s1.seeds() == s0.seeds()
            && s1.waits() == s0.waits() && (exists|sus: Seq<Member>, dwn: Seq<Member>|
            #[trigger] timed_out_lists(s0.member_view(), s1.member_view(), sus, dwn) && s1.log()
                == enqueue_all(enqueue_all(s0.log(), dwn), sus)) && exists|msg: Message|
            #[trigger] carries(e1.last(), msg) && outgoing(
                msg,
                s0.me(),
                s0.cluster_key(),
                t.request,
                s1.log(),
                s0.mtu(),
            ) && s1.pending().map_values(|p: PendingProbe| probe_view(p)) == kept_probes(
                s0.pending(),
                now,
            ) + (if t.request is Ping {
                seq![(probe_deadline(now, s0.timeout()), t.target, msg.state_changes@)]
            } else {
                Seq::empty()
            }),
        InternalRequest::LeaveCluster => s1.member_view() == s0.member_view().insert(
            s0.me(),
            Member { state: MemberState::Left, ..s0.member_view()[s0.me()] },
        ) && s1.log().contains(StateChange { member: s1.member_view()[s1.me()] }) && e1 == e0
            && s1.pending() == s0.pending() && s1.seeds() == s0.seeds(),
        InternalRequest::Exit => s1.member_view() == s0.member_view() && s1.log() == s0.log()
            && s1.pending() == s0.pending() && s1.waits() == s0.waits() && s1.seeds() == s0.seeds()
            && e1 == e0,
    }
}

/// Relies on time::precise_time_ns: a reading of a monotonic clock in nanoseconds.
#[verifier::external_body]
fn clock_ns() -> (r: u64) {
    time::precise_time_ns()
}

/// The membership state of one node and the rules that drive it.
pub struct Reactor {
    host_key: u128,
    config: ClusterConfig,
    members: MemberList,
    seed_queue: Vec<Addr>,
    pending_responses: Vec<PendingProbe>,
    state_changes: Vec<StateChange>,
    wait_list: WaitList,
}

impl Reactor {
    pub closed spec fn wf(&self) -> bool {
        &&& self.members.wf()
        &&& self.members.me() == self.host_key
        &&& log_wf(self.state_changes@)
        &&& config_ok(self.config)
    }

    pub closed spec fn mtu(&self) -> usize {
        self.config.network_mtu
    }

    pub closed spec fn cluster_key(&self) -> Seq<u8> {
        self.config.cluster_key@
    }

    /// The host keys still to be probed in the current round.
    pub closed spec fn probe_round(&self) -> Seq<u128> {
        self.members.round()
    }

    pub closed spec fn timeout(&self) -> u64 {
        self.config.ping_timeout
    }

    pub closed spec fn relay_count(&self) -> usize {
        self.config.ping_request_host_count
    }

    pub closed spec fn me(&self) -> u128 {
        self.host_key
    }

    pub closed spec fn member_view(&self) -> Map<u128, Member> {
        self.members@
    }

    pub closed spec fn log(&self) -> Seq<StateChange> {
        self.state_changes@
    }

    pub closed spec fn pending(&self) -> Seq<PendingProbe> {
        self.pending_responses@
    }

    pub closed spec fn waits(&self) -> Seq<(Addr, Addr)> {
        self.wait_list@
    }

    pub closed spec fn seeds(&self) -> Seq<Addr> {
        self.seed_queue@
    }

    pub fn new(host_key: u128, config: ClusterConfig) -> (r: Reactor)
        requires
            config_ok(config),
        ensures
            r.wf(),
            r.me() == host_key,
            r.mtu() == config.network_mtu,
            r.member_view() == Map::<u128, Member>::empty().insert(host_key, Member { host_key, address: None, incarnation: 0, state: MemberState::Alive }),
            r.log() == seq![StateChange { member: Member { host_key, address: None, incarnation: 0, state: MemberState::Alive } }],
            r.pending().len() == 0,
            r.seeds().len() == 0,
            r.waits().len() == 0,
    {
        let me = Member::myself(host_key);
        Reactor {
            host_key,
            config,
            members: MemberList::new(me),
            seed_queue: Vec::new(),
            pending_responses: Vec::new(),
            state_changes: vec![StateChange::new(me)],
            wait_list: Vec::new(),
        }
    }

    pub fn host_key(&self) -> (r: u128)
        ensures
            r == self.me(),
    {
        self.host_key
    }

    pub fn config(&self) -> (r: &ClusterConfig)
        ensures
            r.network_mtu == self.mtu(),
    {
        &self.config
    }

    /// The members visible to consumers.
    pub fn available_nodes(&self) -> (r: Vec<Member>)
        requires
            self.wf(),
        ensures
            keys_distinct(r@),
            forall|j: int|
                0 <= j < r@.len() ==> self.member_view().contains_key(#[trigger] r@[j].host_key)
                    && self.member_view()[r@[j].host_key] == r@[j] && crate::memberlist::visible(r@[j]),
            forall|k: u128|
                #[trigger] self.member_view().contains_key(k) && crate::memberlist::visible(
                    self.member_view()[k],
                ) ==> exists|j: int| 0 <= j < r@.len() && r@[j].host_key == k,
    {
        self.members.available_nodes()
    }

    /// The record of host key `k`.
    pub fn member(&self, k: u128) -> (r: Option<Member>)
        requires
            self.wf(),
        ensures
            r == (if self.member_view().contains_key(k) {
                Some(self.member_view()[k])
            } else {
                None
            }),
    {
        self.members.get(k)
    }

    /// The snapshots that the next message would carry, before the MTU cut.
    pub fn pending_changes(&self) -> (r: Vec<StateChange>)
        ensures
            r@ == self.log(),
    {
        copy_changes(&self.state_changes)
    }

    /// The local node is always a member of its own view.
    pub proof fn lemma_self_present(&self)
        requires
            self.wf(),
        ensures
            self.member_view().contains_key(self.me()),
            self.member_view()[self.me()].host_key == self.me(),
    {
        self.members.lemma_me_present();
    }

    /// The gossip log holds at most one entry per host key.
    pub proof fn lemma_log_wf(&self)
        requires
            self.wf(),
        ensures
            log_wf(self.log()),
    {
    }

    fn send_member_event(&self, event: MemberEvent, effects: &mut Vec<Effect>)
        requires
            self.wf(),
            event_consistent(event),
            effects_ok(old(effects)@, self.mtu()),
        ensures
            effects_ok(final(effects)@, self.mtu()),
            final(effects)@.len() == old(effects)@.len() + 1,
            final(effects)@.drop_last() == old(effects)@,
            emits(final(effects)@.last(), event, self.member_view()),
    {
        let available = self.members.available_nodes();
        push_effect(effects, Effect::Emit(available, event), self.config.network_mtu);
        assert(effects@.drop_last() =~= old(effects)@);
    }

    fn send_events(&self, ms: &Vec<Member>, joined: bool, effects: &mut Vec<Effect>)
        requires
            self.wf(),
            effects_ok(old(effects)@, self.mtu()),
        ensures
            effects_ok(final(effects)@, self.mtu()),
            final(effects)@.len() == old(effects)@.len() + ms@.len(),
            final(effects)@.take(old(effects)@.len() as int) == old(effects)@,
            forall|j: int|
                0 <= j < ms@.len() ==> emits(
                    #[trigger] final(effects)@[old(effects)@.len() + j],
                    if joined {
                        MemberEvent::MemberJoined(ms@[j])
                    } else {
                        event_of(ms@[j])
                    },
                    self.member_view(),
                ),
    {
        let ghost start = effects@;
        let mut i: usize = 0;
        while i < ms.len()
            invariant
                self.wf(),
                i <= ms@.len(),
                effects_ok(effects@, self.mtu()),
                effects@.len() == start.len() + i,
                effects@.take(start.len() as int) == start,
                forall|j: int|
                    0 <= j < i ==> emits(
                        #[trigger] effects@[start.len() + j],
                        if joined {
                            MemberEvent::MemberJoined(ms@[j])
                        } else {
                            event_of(ms@[j])
                        },
                        self.member_view(),
                    ),
            decreases ms@.len() - i,
        {
            let m = ms[i];
            let ev = if joined {
                MemberEvent::MemberJoined(m)
            } else {
                determine_member_event(m)
            };
            let ghost prev = effects@;
            self.send_member_event(ev, effects);
            proof {
                assert(effects@.take(start.len() as int) =~= prev.take(start.len() as int));
                assert forall|j: int| 0 <= j < i + 1 implies emits(
                    #[trigger] effects@[start.len() + j],
                    if joined {
                        MemberEvent::MemberJoined(ms@[j])
                    } else {
                        event_of(ms@[j])
                    },
                    self.member_view(),
                ) by {
                    if j < i {
                        assert(effects@[start.len() + j] == prev[start.len() + j]);
                    }
                }
            }
            i = i + 1;
        }
    }

    /// Build the message for `request` from the log, remember a ping as a
    /// pending probe, and send it.
    pub fn process_request(&mut self, request: TargetedRequest, now: u64, effects: &mut Vec<Effect>)
        requires
            old(self).wf(),
            effects_ok(old(effects)@, old(self).mtu()),
        ensures
            final(self).wf(),
            final(self).mtu() == old(self).mtu(),
            final(self).me() == old(self).me(),
            final(self).seeds() == old(self).seeds(),
            final(self).waits() == old(self).waits(),
            final(self).member_view() == old(self).member_view(),
            final(self).log() == old(self).log(),
            effects_ok(final(effects)@, final(self).mtu()),
            final(effects)@.len() == old(effects)@.len() + 1,
            final(effects)@.last() matches Effect::Send(t, b) && t == request.target && exists|
                m: Message,
            | message_bytes(m) == b@ && outgoing(
                m,
                old(self).me(),
                old(self).cluster_key(),
                request.request,
                old(self).log(),
                old(self).mtu(),
            ) && ((request.request is Ping) ==> final(self).pending().map_values(
                |p: PendingProbe| probe_view(p),
            ) == old(self).pending().map_values(|p: PendingProbe| probe_view(p)).push(
                (probe_deadline(now, old(self).timeout()), request.target, m.state_changes@),
            )),
            !(request.request is Ping) ==> final(self).pending() == old(self).pending(),
    {
        let span: u64 = if self.config.ping_timeout <= u64::MAX / 1_000_000 {
            self.config.ping_timeout * 1_000_000
        } else {
            u64::MAX
        };
        let timeout = now.saturating_add(span);
        let message = build_message(
            self.host_key,
            &self.config.cluster_key,
            request.request,
            &self.state_changes,
            self.config.network_mtu,
        );
        if let Request::Ping = request.request {
            let changes = copy_changes(&message.state_changes);
            self.pending_responses.push(
                PendingProbe { deadline: timeout, target: request.target, changes },
            );
        }
        let encoded = encode_message(&message);
        proof {
            if request.request is Ping {
                assert(self.pending().map_values(|p: PendingProbe| probe_view(p)) =~= old(self).pending().map_values(
                    |p: PendingProbe| probe_view(p),
                ).push((probe_deadline(now, old(self).timeout()), request.target, message.state_changes@)));
            }
        }
        assert(message_bytes(message) == encoded@ && outgoing(
            message,
            old(self).me(),
            old(self).cluster_key(),
            request.request,
            old(self).log(),
            old(self).mtu(),
        ));
        push_effect(effects, Effect::Send(request.target, encoded), self.config.network_mtu);
    }

    /// Queue a ping for every seed still waiting for an answer.
    pub fn enqueue_seed_nodes(&self, effects: &mut Vec<Effect>)
        requires
            self.wf(),
            effects_ok(old(effects)@, self.mtu()),
        ensures
            effects_ok(final(effects)@, self.mtu()),
            final(effects)@.len() == old(effects)@.len() + self.seeds().len(),
            forall|i: int|
                0 <= i < self.seeds().len() ==> #[trigger] final(effects)@[old(effects)@.len() + i]
                    == Effect::React(TargetedRequest { request: Request::Ping, target: self.seeds()[i] }),
    {
        let ghost start = effects@;
        let mut i: usize = 0;
        while i < self.seed_queue.len()
            invariant
                self.wf(),
                i <= self.seed_queue@.len(),
                effects_ok(effects@, self.mtu()),
                effects@.len() == start.len() + i,
                forall|j: int| 0 <= j < start.len() ==> effects@[j] == start[j],
                forall|j: int|
                    0 <= j < i ==> #[trigger] effects@[start.len() + j] == Effect::React(
                        TargetedRequest { request: Request::Ping, target: self.seed_queue@[j] },
                    ),
            decreases self.seed_queue@.len() - i,
        {
            push_effect(
                effects,
                Effect::React(TargetedRequest { request: Request::Ping, target: self.seed_queue[i] }),
                self.config.network_mtu,
            );
            i = i + 1;
        }
    }

    /// Queue a ping for a random Alive peer, if there is one.
    pub fn enqueue_random_ping(&mut self, effects: &mut Vec<Effect>)
        requires
            old(self).wf(),
            effects_ok(old(effects)@, old(self).mtu()),
        ensures
            final(self).wf(),
            final(self).mtu() == old(self).mtu(),
            final(self).me() == old(self).me(),
            final(self).member_view() == old(self).member_view(),
            final(self).log() == old(self).log(),
            final(self).pending() == old(self).pending(),
            final(self).seeds() == old(self).seeds(),
            final(self).waits() == old(self).waits(),
            effects_ok(final(effects)@, old(self).mtu()),
            !(exists|k: u128| #[trigger]
                old(self).member_view().contains_key(k) && probe_candidate(old(self).member_view()[k], old(self).me()))
                ==> final(effects)@ == old(effects)@,
            (exists|k: u128| #[trigger]
                old(self).member_view().contains_key(k) && probe_candidate(old(self).member_view()[k], old(self).me()))
                ==> exists|k: u128| #[trigger]
                old(self).member_view().contains_key(k) && probe_candidate(old(self).member_view()[k], old(self).me())
                    && round_step(
                    old(self).member_view(),
                    old(self).me(),
                    old(self).probe_round(),
                    final(self).probe_round(),
                    k,
                ) && final(effects)@ == old(effects)@.push(
                    Effect::React(
                        TargetedRequest {
                            request: Request::Ping,
                            target: old(self).member_view()[k].address->Some_0,
                        },
                    ),
                ),
    {
        if let Some(member) = self.members.next_random_member() {
            push_effect(
                effects,
                Effect::React(
                    TargetedRequest { request: Request::Ping, target: member.address.unwrap() },
                ),
                self.config.network_mtu,
            );
            assert(old(self).member_view().contains_key(member.host_key) && probe_candidate(
                old(self).member_view()[member.host_key],
                self.me(),
            ));
        }
    }

    /// Ask up to `ping_request_host_count` relays to probe `target`.
    fn send_ping_requests(&self, target: &Member, effects: &mut Vec<Effect>)
        requires
            self.wf(),
            effects_ok(old(effects)@, self.mtu()),
        ensures
            effects_ok(final(effects)@, self.mtu()),
            final(effects)@.len() <= old(effects)@.len() + self.relay_count(),
            final(effects)@.len() >= old(effects)@.len(),
            final(effects)@.take(old(effects)@.len() as int) == old(effects)@,
            target.address is None ==> final(effects)@ == old(effects)@,
            forall|a: int, b: int|
                old(effects)@.len() <= a < b < final(effects)@.len() ==> react_target(
                    #[trigger] final(effects)@[a],
                ) != react_target(#[trigger] final(effects)@[b]),
            forall|j: int|
                old(effects)@.len() <= j < final(effects)@.len() ==> requests_relay(
                    #[trigger] final(effects)@[j],
                    target.address->Some_0,
                    self.member_view(),
                    self.me(),
                ),
    {
        let ghost start = effects@;
        if let Some(target_host) = target.address {
            let relays = self.members.hosts_for_indirect_ping(
                self.config.ping_request_host_count,
                &target_host,
            );
            let mut i: usize = 0;
            while i < relays.len()
                invariant
                    self.wf(),
                    i <= relays@.len(),
                    relays@.len() <= self.relay_count(),
                    relays@.no_duplicates(),
                    forall|j: int|
                        start.len() <= j < effects@.len() ==> react_target(#[trigger] effects@[j])
                            == Some(relays@[j - start.len()]),
                    effects_ok(effects@, self.mtu()),
                    effects@.len() == start.len() + i,
                    effects@.take(start.len() as int) == start,
                    forall|j: int|
                        0 <= j < relays@.len() ==> #[trigger] crate::memberlist::relay_ok(
                            self.member_view(),
                            self.me(),
                            relays@[j],
                            target_host,
                        ),
                    forall|j: int|
                        start.len() <= j < effects@.len() ==> requests_relay(
                            #[trigger] effects@[j],
                            target_host,
                            self.member_view(),
                            self.me(),
                        ),
                decreases relays@.len() - i,
            {
                let ghost prev = effects@;
                push_effect(
                    effects,
                    Effect::React(
                        TargetedRequest {
                            request: Request::PingRequest(target_host),
                            target: relays[i],
                        },
                    ),
                    self.config.network_mtu,
                );
                proof {
                    assert(effects@.take(start.len() as int) =~= prev.take(start.len() as int));
                    assert(crate::memberlist::relay_ok(self.member_view(), self.me(), relays@[i as int], target_host));
                    assert forall|j: int| start.len() <= j < effects@.len() implies react_target(
                        #[trigger] effects@[j],
                    ) == Some(relays@[j - start.len()]) by {
                        if j < prev.len() {
                            assert(effects@[j] == prev[j]);
                        }
                    }
                    assert forall|j: int| start.len() <= j < effects@.len() implies requests_relay(
                        #[trigger] effects@[j],
                        target_host,
                        self.member_view(),
                        self.me(),
                    ) by {
                        if j < prev.len() {
                            assert(effects@[j] == prev[j]);
                        }
                    }
                }
                i = i + 1;
            }
            assert forall|a: int, b: int|
                start.len() <= a < b < effects@.len() implies react_target(#[trigger] effects@[a])
                != react_target(#[trigger] effects@[b]) by {
                assert(relays@[a - start.len()] != relays@[b - start.len()]);
            }
        } else {
            assert(effects@ =~= start);
        }
    }

    /// Retire the probes whose deadline has passed, time out their targets,
    /// record and report the members that became Suspect or Down, and start
    /// indirect probes of the newly suspect ones. Returns those that became
    /// Suspect and those that became Down.
    pub fn prune_timed_out_responses(&mut self, now: u64, effects: &mut Vec<Effect>) -> (r: (
        Vec<Member>,
        Vec<Member>,
    ))
        requires
            old(self).wf(),
            effects_ok(old(effects)@, old(self).mtu()),
        ensures
            final(self).wf(),
            final(self).mtu() == old(self).mtu(),
            final(self).cluster_key() == old(self).cluster_key(),
            final(self).timeout() == old(self).timeout(),
            final(self).me() == old(self).me(),
            final(self).seeds() == old(self).seeds(),
            final(self).waits() == old(self).waits(),
            effects_ok(final(effects)@, final(self).mtu()),
            final(self).pending().map_values(|p: PendingProbe| probe_view(p)) == kept_probes(
                old(self).pending(),
                now,
            ),
            final(self).member_view() == time_out_all(
                old(self).member_view(),
                expired_targets(old(self).pending(), now),
            ),
            forall|i: int|
                0 <= i < r.0@.len() ==> (#[trigger] r.0@[i]).state == MemberState::Suspect
                    && final(self).member_view().contains_key(r.0@[i].host_key) && final(self).member_view()[r.0@[i].host_key] == r.0@[i] && old(self).member_view()[r.0@[i].host_key].state
                    == MemberState::Alive,
            forall|i: int|
                0 <= i < r.1@.len() ==> (#[trigger] r.1@[i]).state == MemberState::Down
                    && final(self).member_view().contains_key(r.1@[i].host_key) && final(self).member_view()[r.1@[i].host_key] == r.1@[i] && old(self).member_view()[r.1@[i].host_key].state
                    == MemberState::Suspect,
            forall|k: u128|
                #[trigger] old(self).member_view().contains_key(k) && old(self).member_view()[k].state
                    == MemberState::Alive && final(self).member_view()[k].state == MemberState::Suspect
                    ==> exists|i: int| 0 <= i < r.0@.len() && r.0@[i].host_key == k,
            forall|k: u128|
                #[trigger] old(self).member_view().contains_key(k) && old(self).member_view()[k].state
                    == MemberState::Suspect && final(self).member_view()[k].state == MemberState::Down
                    ==> exists|i: int| 0 <= i < r.1@.len() && r.1@[i].host_key == k,
            final(self).log() == enqueue_all(enqueue_all(old(self).log(), r.1@), r.0@),
            final(effects)@.len() >= old(effects)@.len() + r.0@.len() + r.1@.len(),
            final(effects)@.take(old(effects)@.len() as int) == old(effects)@,
            forall|j: int|
                0 <= j < r.0@.len() ==> emits(
                    #[trigger] final(effects)@[old(effects)@.len() + j],
                    MemberEvent::MemberSuspectedDown(r.0@[j]),
                    final(self).member_view(),
                ),
            forall|j: int|
                0 <= j < r.1@.len() ==> emits(
                    #[trigger] final(effects)@[old(effects)@.len() + r.0@.len() + j],
                    MemberEvent::MemberWentDown(r.1@[j]),
                    final(self).member_view(),
                ),
            keys_distinct(r.0@),
            keys_distinct(r.1@),
            final(effects)@.len() <= old(effects)@.len() + r.0@.len() + r.1@.len() + r.0@.len()
                * old(self).relay_count(),
            forall|j: int|
                old(effects)@.len() + r.0@.len() + r.1@.len() <= j < final(effects)@.len()
                    ==> exists|s: int|
                    0 <= s < r.0@.len() && requests_relay(
                        #[trigger] final(effects)@[j],
                        r.0@[s].address->Some_0,
                        final(self).member_view(),
                        final(self).me(),
                    ),
    {
        let ghost start = self.pending_responses@;
        let mut remaining: Vec<PendingProbe> = Vec::new();
        let mut expired: Vec<Addr> = Vec::new();
        let mut i: usize = 0;
        while i < self.pending_responses.len()
            invariant
                i <= self.pending_responses@.len(),
                self.pending_responses@ == start,
                expired@ == expired_targets(start.take(i as int), now),
                remaining@.map_values(|p: PendingProbe| probe_view(p)) == kept_probes(
                    start.take(i as int),
                    now,
                ),
            decreases self.pending_responses@.len() - i,
        {
            assert(start.take(i + 1).drop_last() == start.take(i as int));
            let p = &self.pending_responses[i];
            if p.deadline < now {
                expired.push(p.target);
            } else {
                let ghost prev = remaining@;
                remaining.push(
                    PendingProbe {
                        deadline: p.deadline,
                        target: p.target,
                        changes: copy_changes(&p.changes),
                    },
                );
                assert(remaining@.map_values(|p: PendingProbe| probe_view(p)) =~= prev.map_values(
                    |p: PendingProbe| probe_view(p),
                ).push(probe_view(start[i as int])));
            }
            i = i + 1;
        }
        assert(start.take(i as int) == start);
        self.pending_responses = remaining;
        let (suspect, down) = self.members.time_out_nodes(&expired);
        proof {
            assert(self.member_view() =~= time_out_all(
                old(self).member_view(),
                expired_targets(old(self).pending(), now),
            ));
        }
        enqueue_state_change(&mut self.state_changes, down.as_slice());
        enqueue_state_change(&mut self.state_changes, suspect.as_slice());
        let ghost e0 = effects@;
        self.send_events(&suspect, false, effects);
        let ghost e1 = effects@;
        self.send_events(&down, false, effects);
        let ghost e2 = effects@;
        proof {
            assert(effects@.take(e0.len() as int) =~= e1.take(e0.len() as int));
            assert forall|j: int| 0 <= j < suspect@.len() implies emits(
                #[trigger] effects@[e0.len() + j],
                MemberEvent::MemberSuspectedDown(suspect@[j]),
                self.member_view(),
            ) by {
                assert(effects@[e0.len() + j] == e1.take(e1.len() as int)[e0.len() + j]);
                assert(event_of(suspect@[j]) == MemberEvent::MemberSuspectedDown(suspect@[j]));
            }
            assert forall|j: int| 0 <= j < down@.len() implies emits(
                #[trigger] effects@[e0.len() + suspect@.len() + j],
                MemberEvent::MemberWentDown(down@[j]),
                self.member_view(),
            ) by {
                assert(event_of(down@[j]) == MemberEvent::MemberWentDown(down@[j]));
            }
        }
        let mut i: usize = 0;
        while i < suspect.len()
            invariant
                self.wf(),
                self.mtu() == old(self).mtu(),
                effects_ok(effects@, self.mtu()),
                i <= suspect@.len(),
                effects@.len() >= e2.len(),
                effects@.len() <= e2.len() + i * self.relay_count(),
                effects@.take(e2.len() as int) == e2,
                forall|j: int|
                    e2.len() <= j < effects@.len() ==> exists|s: int|
                        0 <= s < i && requests_relay(
                            #[trigger] effects@[j],
                            suspect@[s].address->Some_0,
                            self.member_view(),
                            self.me(),
                        ),
            decreases suspect@.len() - i,
        {
            let m = suspect[i];
            let ghost prev = effects@;
            self.send_ping_requests(&m, effects);
            proof {
                assert(effects@.take(e2.len() as int) =~= prev.take(e2.len() as int));
                assert(effects@.len() <= e2.len() + (i + 1) * self.relay_count()) by (nonlinear_arith)
                    requires
                        effects@.len() <= prev.len() + self.relay_count(),
                        prev.len() <= e2.len() + i * self.relay_count(),
                ;
                assert forall|j: int| e2.len() <= j < effects@.len() implies exists|s: int|
                    0 <= s < i + 1 && requests_relay(
                        #[trigger] effects@[j],
                        suspect@[s].address->Some_0,
                        self.member_view(),
                        self.me(),
                    ) by {
                    if j < prev.len() {
                        assert(effects@[j] == prev.take(prev.len() as int)[j]);
                        let s = choose|s: int|
                            0 <= s < i && requests_relay(
                                #[trigger] prev[j],
                                suspect@[s].address->Some_0,
                                self.member_view(),
                                self.me(),
                            );
                    } else {
                        assert(m == suspect@[i as int]);
                    }
                }
            }
            i = i + 1;
        }
        proof {
            assert forall|j: int| 0 <= j < e2.len() implies effects@[j] == e2[j] by {
                assert(effects@[j] == effects@.take(e2.len() as int)[j]);
            }
            assert(effects@.take(e0.len() as int) =~= e2.take(e0.len() as int));
            assert forall|j: int| 0 <= j < suspect@.len() implies emits(
                #[trigger] effects@[e0.len() + j],
                MemberEvent::MemberSuspectedDown(suspect@[j]),
                self.member_view(),
            ) by {
                assert(effects@[e0.len() + j] == e2[e0.len() + j]);
            }
            assert forall|j: int| 0 <= j < down@.len() implies emits(
                #[trigger] effects@[e0.len() + suspect@.len() + j],
                MemberEvent::MemberWentDown(down@[j]),
                self.member_view(),
            ) by {
                assert(effects@[e0.len() + suspect@.len() + j] == e2[e0.len() + suspect@.len() + j]);
            }
        }
        (suspect, down)
    }

    /// Retire every pending probe of `src` and, from the log, every snapshot
    /// those probes carried.
    pub fn ack_response(&mut self, src: Addr)
        requires
            old(self).wf(),
        ensures
            final(self).wf(),
            final(self).mtu() == old(self).mtu(),
            final(self).me() == old(self).me(),
            final(self).member_view() == old(self).member_view(),
            final(self).waits() == old(self).waits(),
            final(self).seeds() == old(self).seeds(),
            final(self).pending().map_values(|p: PendingProbe| probe_view(p)) == probes_not_to(
                old(self).pending(),
                src,
            ),
            final(self).log() == retired_by(old(self).log(), old(self).pending(), src),
            (forall|i: int| 0 <= i < old(self).pending().len() ==> (#[trigger] old(self).pending()[i]).target
                != src) ==> final(self).log() == old(self).log(),
            forall|i: int|
                0 <= i < final(self).pending().len() ==> (#[trigger] final(self).pending()[i]).target
                    != src,
            forall|p: int, x: int|
                0 <= p < old(self).pending().len() && old(self).pending()[p].target == src && 0 <= x
                    < final(self).log().len() ==> !has_key(
                    #[trigger] old(self).pending()[p].changes@,
                    #[trigger] final(self).log()[x].member.host_key,
                ),
    {
        let ghost start = self.pending_responses@;
        let mut remaining: Vec<PendingProbe> = Vec::new();
        let mut i: usize = 0;
        while i < self.pending_responses.len()
            invariant
                self.wf(),
                self.mtu() == old(self).mtu(),
                self.me() == old(self).me(),
                self.members@ == old(self).members@,
                self.wait_list@ == old(self).wait_list@,
                self.seed_queue@ == old(self).seed_queue@,
                self.pending_responses@ == start,
                remaining@.map_values(|p: PendingProbe| probe_view(p)) == probes_not_to(
                    start.take(i as int),
                    src,
                ),
                self.state_changes@ == retired_by(old(self).log(), start.take(i as int), src),
                start == old(self).pending(),
                i <= start.len(),
                forall|j: int| 0 <= j < remaining@.len() ==> (#[trigger] remaining@[j]).target != src,
                forall|p: int, x: int|
                    0 <= p < i && start[p].target == src && 0 <= x < self.state_changes@.len()
                        ==> !has_key(
                        #[trigger] start[p].changes@,
                        #[trigger] self.state_changes@[x].member.host_key,
                    ),
            decreases start.len() - i,
        {
            assert(start.take(i + 1).drop_last() == start.take(i as int));
            assert(start.take(i + 1).last() == start[i as int]);
            let ghost prev_remaining = remaining@;
            if self.pending_responses[i].target.same(&src) {
                let ghost before = self.state_changes@;
                retire_changes(&mut self.state_changes, &self.pending_responses[i].changes);
                proof {
                    lemma_retained_keys(
                        before,
                        crate::log::keys_of(start[i as int].changes@),
                    );
                    assert forall|p: int, x: int|
                        0 <= p < i + 1 && start[p].target == src && 0 <= x
                            < self.state_changes@.len() implies !has_key(
                        #[trigger] start[p].changes@,
                        #[trigger] self.state_changes@[x].member.host_key,
                    ) by {
                        if p < i {
                            let k = self.state_changes@[x].member.host_key;
                            let y = choose|y: int| 0 <= y < before.len() && before[y].member.host_key == k;
                            assert(!has_key(start[p].changes@, before[y].member.host_key));
                        }
                    }
                }
            } else {
                let p = &self.pending_responses[i];
                remaining.push(
                    PendingProbe {
                        deadline: p.deadline,
                        target: p.target,
                        changes: copy_changes(&p.changes),
                    },
                );
                assert(remaining@.map_values(|p: PendingProbe| probe_view(p)) =~= prev_remaining.map_values(
                    |p: PendingProbe| probe_view(p),
                ).push(probe_view(start[i as int])));
            }
            i = i + 1;
        }
        proof {
            if forall|i: int| 0 <= i < start.len() ==> (#[trigger] start[i]).target != src {
                lemma_retired_by_untouched(old(self).log(), start, src);
            }
        }
        assert(start.take(i as int) == start);
        self.pending_responses = remaining;
    }

    /// Admit the sender of a message: one first seen joins, unless another
    /// member holds its endpoint; one already known is bound to the endpoint
    /// it wrote from, where no other member holds it.
    pub fn ensure_node_is_member(&mut self, src: Addr, sender: u128, effects: &mut Vec<Effect>)
        requires
            old(self).wf(),
            effects_ok(old(effects)@, old(self).mtu()),
        ensures
            final(self).pending() == old(self).pending(),
            final(self).waits() == old(self).waits(),
            final(self).seeds() == old(self).seeds(),
            final(self).wf(),
            final(self).mtu() == old(self).mtu(),
            final(self).me() == old(self).me(),
            effects_ok(final(effects)@, final(self).mtu()),
            final(self).member_view() == admitted(old(self).member_view(), src, sender),
            admits(old(self).member_view(), src, sender) ==> final(self).log() == enqueue_one(
                old(self).log(),
                newcomer(sender, src),
            ) && final(effects)@.len() == old(effects)@.len() + 1 && final(effects)@.drop_last()
                == old(effects)@ && emits(
                final(effects)@.last(),
                MemberEvent::MemberJoined(newcomer(sender, src)),
                final(self).member_view(),
            ),
            !admits(old(self).member_view(), src, sender) ==> final(self).log() == old(self).log()
                && final(effects)@ == old(effects)@,
    {
        if self.members.has_key(sender) {
            if !self.members.address_taken(sender, &src) {
                self.members.rebind(sender, src);
            }
            return;
        }
        if self.members.has_member(&src) {
            return;
        }
        let new_member = Member::new(sender, src, 0, MemberState::Alive);
        self.members.add_member(new_member);
        enqueue_one_change(&mut self.state_changes, new_member);
        self.send_member_event(MemberEvent::MemberJoined(new_member), effects);
    }

    /// Merge the snapshots that a message carried, record what changed in the
    /// log, and report it: one `MemberJoined` per member first seen, then one
    /// event per changed member. A claim against the local node is refuted:
    /// the refutation enters the log and is not reported.
    pub fn apply_state_changes(&mut self, changes: &Vec<StateChange>, from: Addr, effects: &mut Vec<Effect>) -> (r: MergeOutcome)
        requires
            old(self).wf(),
            effects_ok(old(effects)@, old(self).mtu()),
        ensures
            final(self).pending() == old(self).pending(),
            final(self).waits() == old(self).waits(),
            final(self).seeds() == old(self).seeds(),
            final(self).wf(),
            final(self).mtu() == old(self).mtu(),
            final(self).me() == old(self).me(),
            effects_ok(final(effects)@, final(self).mtu()),
            final(self).member_view() == crate::memberlist::apply_all(
                old(self).member_view(),
                old(self).me(),
                changes@,
                from,
            ),
            forall|i: int|
                0 <= i < r.new@.len() ==> !old(self).member_view().contains_key(#[trigger] r.new@[i].host_key)
                    && final(self).member_view().contains_key(r.new@[i].host_key),
            forall|k: u128|
                #[trigger] final(self).member_view().contains_key(k) && !old(self).member_view().contains_key(k) ==> exists|
                    i: int,
                | 0 <= i < r.new@.len() && r.new@[i].host_key == k,
            forall|i: int|
                0 <= i < r.changed@.len() ==> (#[trigger] r.changed@[i]).host_key != old(self).me()
                    && (old(self).member_view().contains_key(r.changed@[i].host_key) ==> precedence(
                    old(self).member_view()[r.changed@[i].host_key],
                ) < precedence(r.changed@[i])) && exists|x: int|
                    0 <= x < changes@.len() && changes@[x].member.host_key == r.changed@[i].host_key
                        && precedence(changes@[x].member) == precedence(r.changed@[i]),
            r.refuted <==> exists|i: int|
                0 <= i < changes@.len() && refutes(#[trigger] changes@[i].member, old(self).me()),
            final(self).log() == (if r.refuted {
                enqueue_one(
                    enqueue_all(enqueue_all(old(self).log(), r.new@), r.changed@),
                    final(self).member_view()[final(self).me()],
                )
            } else {
                enqueue_all(enqueue_all(old(self).log(), r.new@), r.changed@)
            }),
            final(effects)@.len() == old(effects)@.len() + r.new@.len() + r.changed@.len(),
            final(effects)@.take(old(effects)@.len() as int) == old(effects)@,
            forall|j: int|
                0 <= j < r.new@.len() ==> emits(
                    #[trigger] final(effects)@[old(effects)@.len() + j],
                    MemberEvent::MemberJoined(r.new@[j]),
                    final(self).member_view(),
                ),
            forall|j: int|
                0 <= j < r.changed@.len() ==> emits(
                    #[trigger] final(effects)@[old(effects)@.len() + r.new@.len() + j],
                    event_of(r.changed@[j]),
                    final(self).member_view(),
                ),
            keys_distinct(r.new@),
            forall|k: u128|
                #[trigger] final(self).member_view().contains_key(k) && k != old(self).me() && !(old(self).member_view().contains_key(k)
                    && final(self).member_view()[k] == old(self).member_view()[k]) ==> (exists|i: int|
                    0 <= i < r.changed@.len() && r.changed@[i] == final(self).member_view()[k]) || (exists|i: int|
                    0 <= i < r.new@.len() && r.new@[i] == final(self).member_view()[k]),
            forall|x: int, y: int|
                0 <= x < y < r.changed@.len() && r.changed@[x].host_key == r.changed@[y].host_key
                    ==> precedence(#[trigger] r.changed@[x]) < precedence(#[trigger] r.changed@[y]),
            forall|x: int|
                0 <= x < r.changed@.len() ==> final(self).member_view().contains_key((#[trigger] r.changed@[x]).host_key)
                    && precedence(r.changed@[x]) <= precedence(final(self).member_view()[r.changed@[x].host_key]),
    {
        let out = self.members.apply_state_changes(changes, from);
        enqueue_state_change(&mut self.state_changes, out.new.as_slice());
        enqueue_state_change(&mut self.state_changes, out.changed.as_slice());
        if out.refuted {
            let me = self.members.myself();
            enqueue_one_change(&mut self.state_changes, me);
        }
        let ghost start = effects@;
        self.send_events(&out.new, true, effects);
        let ghost mid = effects@;
        self.send_events(&out.changed, false, effects);
        proof {
            assert(effects@.take(start.len() as int) =~= mid.take(start.len() as int));
            assert forall|j: int| 0 <= j < out.new@.len() implies emits(
                #[trigger] effects@[start.len() + j],
                MemberEvent::MemberJoined(out.new@[j]),
                self.member_view(),
            ) by {
                assert(effects@[start.len() + j] == mid.take(mid.len() as int)[start.len() + j]);
                assert(emits(mid[start.len() + j], MemberEvent::MemberJoined(out.new@[j]), self.member_view()));
            }
        }
        out
    }

    /// `addr` answered: revive its member, hand the indirect acks to the
    /// relays waiting on it, in order, and report a member that came back.
    /// Returns the revived member, if one was Suspect or Down.
    pub fn mark_node_alive(&mut self, addr: Addr, effects: &mut Vec<Effect>) -> (r: Option<Member>)
        requires
            old(self).wf(),
            effects_ok(old(effects)@, old(self).mtu()),
        ensures
            final(self).pending() == old(self).pending(),
            final(self).seeds() == old(self).seeds(),
            relays_of(final(self).waits(), addr) == Seq::<Addr>::empty(),
            forall|b: Addr|
                b != addr ==> #[trigger] relays_of(final(self).waits(), b) == relays_of(
                    old(self).waits(),
                    b,
                ),
            final(self).wf(),
            final(self).mtu() == old(self).mtu(),
            final(self).me() == old(self).me(),
            effects_ok(final(effects)@, final(self).mtu()),
            final(self).member_view() == revive_all(old(self).member_view(), addr),
            r is None <==> !exists|k: u128| #[trigger]
                old(self).member_view().contains_key(k) && revives(old(self).member_view()[k], addr),
            final(effects)@.take(old(effects)@.len() as int) == old(effects)@,
            forall|j: int|
                0 <= j < relays_of(old(self).waits(), addr).len() && old(effects)@.len() + j
                    < final(effects)@.len() ==> acks_host(
                    #[trigger] final(effects)@[old(effects)@.len() + j],
                    relays_of(old(self).waits(), addr)[j],
                    addr,
                    final(self).member_view(),
                ),
            r matches Some(m) ==> forall|j: int|
                0 <= j < relays_of(old(self).waits(), addr).len() ==> #[trigger] final(effects)@[old(effects)@.len() + j]
                    == Effect::React(
                    TargetedRequest {
                        request: Request::AckHost(m),
                        target: relays_of(old(self).waits(), addr)[j],
                    },
                ),
            r matches Some(m) ==> old(self).member_view().contains_key(m.host_key),
            r matches Some(m) ==> m.state == MemberState::Alive && revives(
                old(self).member_view()[m.host_key],
                addr,
            ) && final(self).member_view()[m.host_key] == m && final(self).log() == enqueue_one(
                old(self).log(),
                m,
            ) && final(effects)@.len() == old(effects)@.len() + relays_of(old(self).waits(), addr).len()
                + 1 && emits(
                final(effects)@.last(),
                MemberEvent::MemberWentUp(m),
                final(self).member_view(),
            ),
            r is None ==> final(self).log() == old(self).log() && (final(effects)@.len()
                == old(effects)@.len() || final(effects)@.len() == old(effects)@.len() + relays_of(
                old(self).waits(),
                addr,
            ).len()),
            r is None && (exists|k: u128| #[trigger]
                old(self).member_view().contains_key(k) && old(self).member_view()[k].address == Some(addr))
                ==> final(effects)@.len() == old(effects)@.len() + relays_of(old(self).waits(), addr).len(),
    {
        let ghost start = effects@;
        let changed = self.members.mark_node_alive(&addr);
        proof {
            assert(self.member_view() =~= revive_all(old(self).member_view(), addr));
        }
        let relays = take_waiters(&mut self.wait_list, &addr);
        let current = match changed {
            Some(m) => Some(m),
            None => self.members.find_by_address(&addr),
        };
        if let Some(m) = current {
            let mut i: usize = 0;
            while i < relays.len()
                invariant
                    self.wf(),
                    self.mtu() == old(self).mtu(),
                    effects_ok(effects@, self.mtu()),
                    i <= relays@.len(),
                    effects@.len() == start.len() + i,
                    effects@.take(start.len() as int) == start,
                    self.member_view().contains_key(m.host_key) && self.member_view()[m.host_key] == m
                        && m.address == Some(addr),
                    forall|j: int|
                        0 <= j < i ==> #[trigger] effects@[start.len() + j] == Effect::React(
                            TargetedRequest { request: Request::AckHost(m), target: relays@[j] },
                        ),
                decreases relays@.len() - i,
            {
                let ghost prev = effects@;
                push_effect(
                    effects,
                    Effect::React(TargetedRequest { request: Request::AckHost(m), target: relays[i] }),
                    self.config.network_mtu,
                );
                proof {
                    assert(effects@.take(start.len() as int) =~= prev.take(start.len() as int));
                    assert forall|j: int| 0 <= j < i + 1 implies #[trigger] effects@[start.len() + j]
                        == Effect::React(
                        TargetedRequest { request: Request::AckHost(m), target: relays@[j] },
                    ) by {
                        if j < i {
                            assert(effects@[start.len() + j] == prev[start.len() + j]);
                        }
                    }
                }
                i = i + 1;
            }
            assert forall|j: int|
                0 <= j < relays@.len() && start.len() + j < effects@.len() implies acks_host(
                #[trigger] effects@[start.len() + j],
                relays@[j],
                addr,
                self.member_view(),
            ) by {
                assert(effects@[start.len() + j] == Effect::React(
                    TargetedRequest { request: Request::AckHost(m), target: relays@[j] },
                ));
            }
        } else {
            assert(effects@ =~= start);
        }
        let ghost after_acks = effects@;
        proof {
            if let Some(m) = changed {
                assert(current == Some(m));
                assert forall|j: int| 0 <= j < relays@.len() implies #[trigger] after_acks[start.len() + j]
                    == Effect::React(TargetedRequest { request: Request::AckHost(m), target: relays@[j] }) by {
                }
            }
        }
        if let Some(m) = changed {
            enqueue_one_change(&mut self.state_changes, m);
            self.send_member_event(MemberEvent::MemberWentUp(m), effects);
            proof {
                assert(effects@.take(start.len() as int) =~= after_acks.take(start.len() as int));
                assert forall|j: int| 0 <= j < relays@.len() implies #[trigger] effects@[start.len() + j]
                    == Effect::React(TargetedRequest { request: Request::AckHost(m), target: relays@[j] }) by {
                    assert(effects@[start.len() + j] == after_acks[start.len() + j]);
                }
                assert forall|j: int|
                    0 <= j < relays@.len() && start.len() + j < effects@.len() implies acks_host(
                    #[trigger] effects@[start.len() + j],
                    relays@[j],
                    addr,
                    self.member_view(),
                ) by {
                    assert(effects@[start.len() + j] == after_acks[start.len() + j]);
                }
            }
        }
        changed
    }

    /// Handle a message from `src`: drop it on a foreign cluster key, else
    /// merge its snapshots, admit its sender and answer its request.
    pub fn respond_to_message(&mut self, src: Addr, message: Message, effects: &mut Vec<Effect>)
        requires
            old(self).wf(),
            effects_ok(old(effects)@, old(self).mtu()),
        ensures
            final(self).wf(),
            final(self).mtu() == old(self).mtu(),
            final(self).me() == old(self).me(),
            effects_ok(final(effects)@, final(self).mtu()),
            responded(*old(self), *final(self), src, message, old(effects)@, final(effects)@),
    {
        if !same_bytes(&message.cluster_key, &self.config.cluster_key) {
            return;
        }
        let ghost e0 = effects@;
        let out = self.apply_state_changes(&message.state_changes, src, effects);
        let ghost vm = self.member_view();
        let ghost em = effects@;
        remove_potential_seed(&mut self.seed_queue, src);
        self.ensure_node_is_member(src, message.sender, effects);
        let ghost ea = effects@;
        let ghost la = self.log();
        let ghost va = self.member_view();
        proof {
            assert(ea.take(em.len() as int) == em) by {
                if admits(vm, src, message.sender) {
                    assert(ea.take(em.len() as int) =~= ea.drop_last());
                }
            }
        }
        match message.request {
            Request::Ping => {
                push_effect(
                    effects,
                    Effect::React(TargetedRequest { request: Request::Ack, target: src }),
                    self.config.network_mtu,
                );
            },
            Request::Ack => {
                self.ack_response(src);
                let r = self.mark_node_alive(src, effects);
                proof {
                    if let Some(m) = r {
                        assert(enqueue_one(retired_by(la, old(self).pending(), src), m) == self.log());
                    }
                    assert(answered_by(src, va, la, old(self).pending(), old(self).waits(), *self, effects@, ea.len() as int));
                }
            },
            Request::PingRequest(dest) => {
                add_to_wait_list(&mut self.wait_list, &dest, &src);
                push_effect(
                    effects,
                    Effect::React(TargetedRequest { request: Request::Ping, target: dest }),
                    self.config.network_mtu,
                );
            },
            Request::AckHost(member) => {
                if let Some(host) = member.address {
                    self.ack_response(host);
                    let r = self.mark_node_alive(host, effects);
                    proof {
                        if let Some(m) = r {
                            assert(enqueue_one(retired_by(la, old(self).pending(), host), m) == self.log());
                        }
                        assert(answered_by(host, va, la, old(self).pending(), old(self).waits(), *self, effects@, ea.len() as int));
                    }
                }
            },
        }
        proof {
            let e1 = effects@;
            assert(e1.take(ea.len() as int) == ea) by {
                assert(e1.take(ea.len() as int) =~= e1.take(ea.len() as int));
            }
            assert(e1.take(e0.len() as int) =~= e0) by {
                assert forall|j: int| 0 <= j < e0.len() implies e1[j] == e0[j] by {
                    assert(e1[j] == e1.take(ea.len() as int)[j]);
                    assert(ea[j] == ea.take(em.len() as int)[j]);
                    assert(em[j] == em.take(e0.len() as int)[j]);
                }
            }
            assert forall|j: int| 0 <= j < em.len() implies e1[j] == em[j] by {
                assert(e1[j] == e1.take(ea.len() as int)[j]);
                assert(ea[j] == ea.take(em.len() as int)[j]);
            }
            assert forall|j: int| 0 <= j < out.new@.len() implies emits(
                #[trigger] e1[e0.len() + j],
                MemberEvent::MemberJoined(out.new@[j]),
                vm,
            ) by {
                assert(e1[e0.len() + j] == em[e0.len() + j]);
            }
            assert forall|j: int| 0 <= j < out.changed@.len() implies emits(
                #[trigger] e1[e0.len() + out.new@.len() + j],
                event_of(out.changed@[j]),
                vm,
            ) by {
                assert(e1[e0.len() + out.new@.len() + j] == em[e0.len() + out.new@.len() + j]);
            }
            if admits(vm, src, message.sender) {
                assert(e1[em.len() as int] == ea[em.len() as int]) by {
                    assert(e1[em.len() as int] == e1.take(ea.len() as int)[em.len() as int]);
                }
            }
            let lm = merged_log(old(self).log(), out.new@, out.changed@, out.refuted, vm[old(self).me()]);
            assert(em.len() == e0.len() + out.new@.len() + out.changed@.len());
            assert(self.seeds() == without(old(self).seeds(), src));
            assert(merge_events(e1, e0.len() as int, out.new@, out.changed@, vm));
            if admits(vm, src, message.sender) {
                assert(ea.last() == ea[em.len() as int]);
                assert(la == enqueue_one(lm, newcomer(message.sender, src)));
                assert(emits(e1[em.len() as int], MemberEvent::MemberJoined(newcomer(message.sender, src)), va));
            } else {
                assert(la == lm);
                assert(ea == em);
            }
            assert(va == admitted(vm, src, message.sender));
            assert(old(self).pending() == self.pending() || message.request is Ack || message.request is AckHost);
            match message.request {
                Request::Ping => {
                    assert(e1 == ea.push(Effect::React(TargetedRequest { request: Request::Ack, target: src })));
                    assert(e1[ea.len() as int] == Effect::React(TargetedRequest { request: Request::Ack, target: src }));
                    assert(self.log() == la);
                    assert(self.member_view() == va);
                },
                Request::PingRequest(d) => {
                    assert(e1[ea.len() as int] == Effect::React(TargetedRequest { request: Request::Ping, target: d }));
                    assert(self.log() == la);
                },
                Request::Ack => {
                    assert(answered_by(src, va, la, old(self).pending(), old(self).waits(), *self, e1, ea.len() as int));
                },
                Request::AckHost(x) => {
                    if let Some(a) = x.address {
                        assert(answered_by(a, va, la, old(self).pending(), old(self).waits(), *self, e1, ea.len() as int));
                    } else {
                        assert(e1 == ea);
                    }
                },
            }
            assert(answered(*old(self), *self, src, message, e0, e1, out.new@, out.changed@, out.refuted));
        }
    }

    /// The local node leaves: its record becomes Left and enters the log.
    pub fn leave_cluster(&mut self)
        requires
            old(self).wf(),
        ensures
            final(self).wf(),
            final(self).mtu() == old(self).mtu(),
            final(self).me() == old(self).me(),
            final(self).member_view()[final(self).me()].state == MemberState::Left,
            final(self).member_view() == old(self).member_view().insert(
                old(self).me(),
                Member { state: MemberState::Left, ..old(self).member_view()[old(self).me()] },
            ),
            final(self).pending() == old(self).pending(),
            final(self).seeds() == old(self).seeds(),
            final(self).waits() == old(self).waits(),
            final(self).log().contains(
                StateChange { member: final(self).member_view()[final(self).me()] },
            ),
    {
        let myself = self.members.leave();
        let ghost before = self.state_changes@;
        let one = vec![myself];
        enqueue_state_change(&mut self.state_changes, one.as_slice());
        proof {
            assert(one@.drop_last() =~= Seq::<Member>::empty());
            assert(enqueue_all(before, one@.drop_last()) == before);
            lemma_enqueue_one_holds(before, myself);
        }
    }

    /// Handle one command at clock reading `now`. Returns true on `Exit`.
    pub fn process_internal_request(&mut self, message: InternalRequest, now: u64, effects: &mut Vec<Effect>) -> (r: bool)
        requires
            old(self).wf(),
            effects_ok(old(effects)@, old(self).mtu()),
        ensures
            final(self).wf(),
            final(self).mtu() == old(self).mtu(),
            final(self).me() == old(self).me(),
            effects_ok(final(effects)@, final(self).mtu()),
            r <==> message is Exit,
            handled(*old(self), *final(self), message, now, old(effects)@, final(effects)@),
    {
        match message {
            InternalRequest::AddSeed(addr) => {
                self.seed_queue.push(addr);
            },
            InternalRequest::Respond(src, m) => {
                self.respond_to_message(src, m, effects);
            },
            InternalRequest::React(request) => {
                let pr = self.prune_timed_out_responses(now, effects);
                let ghost mid = *self;
                proof {
                    assert(timed_out_lists(old(self).member_view(), self.member_view(), pr.0@, pr.1@));
                }
                self.process_request(request, now, effects);
                proof {
                    if let Effect::Send(x, b) = effects@.last() {
                        let msg = choose|m: Message|
                            message_bytes(m) == b@ && outgoing(
                                m,
                                mid.me(),
                                mid.cluster_key(),
                                request.request,
                                mid.log(),
                                mid.mtu(),
                            ) && ((request.request is Ping) ==> self.pending().map_values(
                                |p: PendingProbe| probe_view(p),
                            ) == mid.pending().map_values(|p: PendingProbe| probe_view(p)).push(
                                (probe_deadline(now, mid.timeout()), request.target, m.state_changes@),
                            ));
                        assert(carries(effects@.last(), msg));
                        assert(carries(effects@.last(), msg) && outgoing(
                            msg,
                            old(self).me(),
                            old(self).cluster_key(),
                            request.request,
                            self.log(),
                            old(self).mtu(),
                        ));
                        assert(timed_out_lists(old(self).member_view(), self.member_view(), pr.0@, pr.1@)
                            && self.log() == enqueue_all(enqueue_all(old(self).log(), pr.1@), pr.0@));
                        if !(request.request is Ping) {
                            assert(kept_probes(old(self).pending(), now) + Seq::<(u64, Addr, Seq<StateChange>)>::empty()
                                =~= kept_probes(old(self).pending(), now));
                        } else {
                            assert(kept_probes(old(self).pending(), now) + seq![(probe_deadline(now, mid.timeout()), request.target, msg.state_changes@)]
                                =~= kept_probes(old(self).pending(), now).push((probe_deadline(now, mid.timeout()), request.target, msg.state_changes@)));
                        }
                    }
                }
            },
            InternalRequest::LeaveCluster => {
                self.leave_cluster();
            },
            InternalRequest::Exit => {
                return true;
            },
        }
        false
    }

    /// Handle one command now. Returns true on `Exit`.
    pub fn handle(&mut self, message: InternalRequest, effects: &mut Vec<Effect>) -> (r: bool)
        requires
            old(self).wf(),
            effects_ok(old(effects)@, old(self).mtu()),
        ensures
            final(self).wf(),
            final(self).mtu() == old(self).mtu(),
            effects_ok(final(effects)@, final(self).mtu()),
            final(self).me() == old(self).me(),
            r <==> message is Exit,
            exists|now: u64|
                handled(*old(self), *final(self), message, now, old(effects)@, final(effects)@),
    {
        let now = clock_ns();
        self.process_internal_request(message, now, effects)
    }

    /// A probe round: ping every waiting seed and one random Alive peer.
    pub fn tick(&mut self, effects: &mut Vec<Effect>)
        requires
            old(self).wf(),
            effects_ok(old(effects)@, old(self).mtu()),
        ensures
            final(self).wf(),
            final(self).mtu() == old(self).mtu(),
            final(self).me() == old(self).me(),
            final(self).member_view() == old(self).member_view(),
            final(self).log() == old(self).log(),
            final(self).seeds() == old(self).seeds(),
            effects_ok(final(effects)@, final(self).mtu()),
            old(effects)@.len() + old(self).seeds().len() <= final(effects)@.len() <= old(effects)@.len()
                + old(self).seeds().len() + 1,
            forall|i: int|
                0 <= i < old(self).seeds().len() ==> #[trigger] final(effects)@[old(effects)@.len() + i]
                    == Effect::React(TargetedRequest { request: Request::Ping, target: old(self).seeds()[i] }),
            (exists|k: u128| #[trigger]
                old(self).member_view().contains_key(k) && probe_candidate(old(self).member_view()[k], old(self).me()))
                ==> final(effects)@.len() == old(effects)@.len() + old(self).seeds().len() + 1 && exists|k: u128| #[trigger]
                old(self).member_view().contains_key(k) && probe_candidate(old(self).member_view()[k], old(self).me())
                    && round_step(
                    old(self).member_view(),
                    old(self).me(),
                    old(self).probe_round(),
                    final(self).probe_round(),
                    k,
                ) && final(effects)@.last() == Effect::React(
                    TargetedRequest {
                        request: Request::Ping,
                        target: old(self).member_view()[k].address->Some_0,
                    },
                ),
            !(exists|k: u128| #[trigger]
                old(self).member_view().contains_key(k) && probe_candidate(old(self).member_view()[k], old(self).me()))
                ==> final(effects)@.len() == old(effects)@.len() + old(self).seeds().len(),
    {
        self.enqueue_seed_nodes(effects);
        let ghost mid = effects@;
        self.enqueue_random_ping(effects);
        assert forall|i: int| 0 <= i < old(self).seeds().len() implies #[trigger] effects@[old(
            effects,
        )@.len() + i] == Effect::React(
            TargetedRequest { request: Request::Ping, target: old(self).seeds()[i] },
        ) by {
            assert(effects@[old(effects)@.len() + i] == mid[old(effects)@.len() + i]);
        }
    }
}

} // verus!
