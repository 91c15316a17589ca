use vstd::prelude::*;

verus! {

/// A UDP endpoint. An IPv4 address is held in the low 32 bits of `ip`
/// with `v6` false; an IPv6 address uses all 128 bits with `v6` true.
#[derive(Clone, Copy, Debug, PartialEq, Eq, Structural)]
pub struct Addr {
    pub v6: bool,
    pub ip: u128,
    pub port: u16,
}

impl Addr {
    pub fn v4(ip: u32, port: u16) -> (r: Addr)
        ensures
            r == (Addr { v6: false, ip: ip as u128, port }),
    {
        Addr { v6: false, ip: ip as u128, port }
    }

    pub fn same(&self, o: &Addr) -> (r: bool)
        ensures
            r == (*self == *o),
    {
        self.v6 == o.v6 && self.ip == o.ip && self.port == o.port
    }
}

/// Liveness of a member, ordered by precedence at equal incarnation.
#[derive(Clone, Copy, Debug, PartialEq, Eq, Structural)]
pub enum MemberState {
    Alive,
    Suspect,
    Down,
    Left,
}

pub open spec fn state_rank(s: MemberState) -> nat {
    match s {
        MemberState::Alive => 0,
        MemberState::Suspect => 1,
        MemberState::Down => 2,
        MemberState::Left => 3,
    }
}

pub fn rank_of(s: MemberState) -> (r: u8)
    ensures
        r as nat == state_rank(s),
{
    match s {
        MemberState::Alive => 0,
        MemberState::Suspect => 1,
        MemberState::Down => 2,
        MemberState::Left => 3,
    }
}

/// One peer as seen by the local node: identity, endpoint, the incarnation
/// counter it authors, and its liveness.
#[derive(Clone, Copy, Debug)]
pub struct Member {
    pub host_key: u128,
    pub address: Option<Addr>,
    pub incarnation: u64,
    pub state: MemberState,
}

/// The total order of snapshots of one member: incarnation first, then state rank.
pub open spec fn precedence(m: Member) -> int {
    m.incarnation * 4 + state_rank(m.state)
}

/// `r` carries newer information than `l`.
pub open spec fn supersedes(r: Member, l: Member) -> bool {
    precedence(r) > precedence(l)
}

impl Member {
    pub fn new(host_key: u128, address: Addr, incarnation: u64, state: MemberState) -> (r: Member)
        ensures
            r == (Member { host_key, address: Some(address), incarnation, state }),
    {
        Member { host_key, address: Some(address), incarnation, state }
    }

    /// The local node at start: no bound address, incarnation 0, Alive.
    pub fn myself(host_key: u128) -> (r: Member)
        ensures
            r == (Member { host_key, address: None, incarnation: 0, state: MemberState::Alive }),
    {
        Member { host_key, address: None, incarnation: 0, state: MemberState::Alive }
    }

    pub fn host_key(&self) -> (r: u128)
        ensures
            r == self.host_key,
    {
        self.host_key
    }

    pub fn state(&self) -> (r: MemberState)
        ensures
            r == self.state,
    {
        self.state
    }

    pub fn incarnation(&self) -> (r: u64)
        ensures
            r == self.incarnation,
    {
        self.incarnation
    }

    pub fn remote_host(&self) -> (r: Option<Addr>)
        ensures
            r == self.address,
    {
        self.address
    }

    /// Members are the same peer when their host keys match.
    pub fn same_peer(&self, o: &Member) -> (r: bool)
        ensures
            r == (self.host_key == o.host_key),
    {
        self.host_key == o.host_key
    }

    pub fn supersedes(&self, l: &Member) -> (r: bool)
        ensures
            r == supersedes(*self, *l),
    {
        self.incarnation > l.incarnation || (self.incarnation == l.incarnation && rank_of(self.state)
            > rank_of(l.state))
    }
}

/// One entry of the gossiped log: a snapshot of a member.
#[derive(Clone, Copy, Debug)]
pub struct StateChange {
    pub member: Member,
}

impl StateChange {
    pub fn new(member: Member) -> (r: StateChange)
        ensures
            r.member == member,
    {
        StateChange { member }
    }

    pub fn member(&self) -> (r: Member)
        ensures
            r == self.member,
    {
        self.member
    }

    pub fn update(&mut self, member: Member)
        ensures
            final(self).member == member,
    {
        self.member = member;
    }
}

/// A membership transition reported to the embedding application.
#[derive(Clone, Copy, Debug)]
pub enum MemberEvent {
    MemberJoined(Member),
    MemberWentUp(Member),
    MemberSuspectedDown(Member),
    MemberWentDown(Member),
    MemberLeft(Member),
}

pub open spec fn event_member(e: MemberEvent) -> Member {
    match e {
        MemberEvent::MemberJoined(m) => m,
        MemberEvent::MemberWentUp(m) => m,
        MemberEvent::MemberSuspectedDown(m) => m,
        MemberEvent::MemberWentDown(m) => m,
        MemberEvent::MemberLeft(m) => m,
    }
}

/// The member carried by an event is in the state that the event's kind names.
pub open spec fn event_consistent(e: MemberEvent) -> bool {
    match e {
        MemberEvent::MemberJoined(_) => true,
        MemberEvent::MemberWentUp(m) => m.state == MemberState::Alive,
        MemberEvent::MemberSuspectedDown(m) => m.state == MemberState::Suspect,
        MemberEvent::MemberWentDown(m) => m.state == MemberState::Down,
        MemberEvent::MemberLeft(m) => m.state == MemberState::Left,
    }
}

/// The event that reports a change of `m` into its current state.
pub open spec fn event_of(m: Member) -> MemberEvent {
    match m.state {
        MemberState::Alive => MemberEvent::MemberWentUp(m),
        MemberState::Suspect => MemberEvent::MemberSuspectedDown(m),
        MemberState::Down => MemberEvent::MemberWentDown(m),
        MemberState::Left => MemberEvent::MemberLeft(m),
    }
}

/// The event that reports a change of `member` into its current state.
pub fn determine_member_event(member: Member) -> (r: MemberEvent)
    ensures
        r == event_of(member),
        event_member(r) == member,
        event_consistent(r),
        !(r is MemberJoined),
{
    match member.state {
        MemberState::Alive => MemberEvent::MemberWentUp(member),
        MemberState::Suspect => MemberEvent::MemberSuspectedDown(member),
        MemberState::Down => MemberEvent::MemberWentDown(member),
        MemberState::Left => MemberEvent::MemberLeft(member),
    }
}

impl MemberEvent {
    pub fn member(&self) -> (r: Member)
        ensures
            r == event_member(*self),
    {
        match self {
            MemberEvent::MemberJoined(m) => *m,
            MemberEvent::MemberWentUp(m) => *m,
            MemberEvent::MemberSuspectedDown(m) => *m,
            MemberEvent::MemberWentDown(m) => *m,
            MemberEvent::MemberLeft(m) => *m,
        }
    }
}

} // verus!
