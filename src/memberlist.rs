use vstd::prelude::*;
use rand::seq::SliceRandom;
use crate::member::{precedence, supersedes, Addr, Member, MemberState, StateChange};

verus! {

pub open spec fn keys_distinct(s: Seq<Member>) -> bool {
    forall|i: int, j: int|
        0 <= i < s.len() && 0 <= j < s.len() && i != j ==> s[i].host_key != s[j].host_key
}

/// A snapshot without an address is its author's own, and so names the
/// endpoint it came from.
pub open spec fn resolve(r: Member, from: Addr) -> Member {
    match r.address {
        Some(_) => r,
        None => Member {
            host_key: r.host_key,
            address: Some(from),
            incarnation: r.incarnation,
            state: r.state,
        },
    }
}

/// Some member other than `k` is bound to `a`.
pub open spec fn addr_taken(m: Map<u128, Member>, k: u128, a: Addr) -> bool {
    exists|j: u128| #[trigger] m.contains_key(j) && j != k && m[j].address == Some(a)
}

/// The record that snapshot `r` from `from` becomes in view `m`: its endpoint
/// is kept only where no other member is bound to it; else the member keeps
/// the endpoint it had, if any.
pub open spec fn placed(m: Map<u128, Member>, r: Member, from: Addr) -> Member {
    let c = resolve(r, from);
    if addr_taken(m, r.host_key, c.address->Some_0) {
        Member {
            host_key: c.host_key,
            address: if m.contains_key(r.host_key) {
                m[r.host_key].address
            } else {
                None
            },
            incarnation: c.incarnation,
            state: c.state,
        }
    } else {
        c
    }
}

/// `r` claims that the local node `me` is suspect or down.
pub open spec fn refutes(r: Member, me: u128) -> bool {
    r.host_key == me && (r.state == MemberState::Suspect || r.state == MemberState::Down)
}

/// The incarnation after one refutation. The counter is 64 bits wide: at
/// its largest value it cannot grow and stays there.
pub open spec fn bumped(n: u64) -> u64 {
    if n < u64::MAX {
        (n + 1) as u64
    } else {
        n
    }
}

/// The local record of `me` after refuting a claim against it.
pub open spec fn refuted(s: Member) -> Member {
    Member {
        host_key: s.host_key,
        address: s.address,
        incarnation: bumped(s.incarnation),
        state: MemberState::Alive,
    }
}

/// Merge one incoming snapshot `r`, received from `from`, into the view `m`
/// of the node `me`.
pub open spec fn apply_one(m: Map<u128, Member>, me: u128, r: Member, from: Addr) -> Map<
    u128,
    Member,
> {
    if r.host_key == me {
        if refutes(r, me) {
            m.insert(me, refuted(m[me]))
        } else {
            m
        }
    } else if !m.contains_key(r.host_key) || supersedes(r, m[r.host_key]) {
        m.insert(r.host_key, placed(m, r, from))
    } else {
        m
    }
}

/// Merge a batch of snapshots in order.
pub open spec fn apply_all(m: Map<u128, Member>, me: u128, b: Seq<StateChange>, from: Addr) -> Map<
    u128,
    Member,
>
    decreases b.len(),
{
    if b.len() == 0 {
        m
    } else {
        apply_one(apply_all(m, me, b.drop_last(), from), me, b.last().member, from)
    }
}

pub open spec fn timed_out(m: Member, expired: Seq<Addr>) -> Member {
    if m.address is Some && expired.contains(m.address->Some_0) {
        match m.state {
            MemberState::Alive => Member { state: MemberState::Suspect, ..m },
            MemberState::Suspect => Member { state: MemberState::Down, ..m },
            _ => m,
        }
    } else {
        m
    }
}

/// `m` answers at `a` and was suspect or down.
pub open spec fn revives(m: Member, a: Addr) -> bool {
    m.address == Some(a) && (m.state == MemberState::Suspect || m.state == MemberState::Down)
}

pub open spec fn revived(m: Member, a: Addr) -> Member {
    if revives(m, a) {
        Member { state: MemberState::Alive, ..m }
    } else {
        m
    }
}

pub open spec fn visible(m: Member) -> bool {
    m.state == MemberState::Alive || m.state == MemberState::Suspect
}

/// Host key `k` belongs to a member of `view` that may be probed.
pub open spec fn is_candidate(view: Map<u128, Member>, me: u128, k: u128) -> bool {
    view.contains_key(k) && probe_candidate(view[k], me)
}

/// One step of a probe round: `picked` is the first candidate left in the
/// round `r0`, and what remains is `r1`, the rest after it; or `r0` held no
/// candidate and a new round `r1` starts that holds only candidates.
pub open spec fn round_step(
    view: Map<u128, Member>,
    me: u128,
    r0: Seq<u128>,
    r1: Seq<u128>,
    picked: u128,
) -> bool {
    (exists|j: int|
        0 <= j < r0.len() && r0[j] == picked && r1 == r0.subrange(j + 1, r0.len() as int) && forall|
            x: int,
        | 0 <= x < j ==> !is_candidate(view, me, #[trigger] r0[x])) || ((forall|x: int|
        0 <= x < r0.len() ==> !is_candidate(view, me, #[trigger] r0[x])) && forall|x: int|
        0 <= x < r1.len() ==> is_candidate(view, me, #[trigger] r1[x]))
}

/// `m` may be probed: a live peer other than `me` with a known endpoint.
pub open spec fn probe_candidate(m: Member, me: u128) -> bool {
    m.state == MemberState::Alive && m.host_key != me && m.address is Some
}

/// `a` may relay an indirect probe of `target`: a probe candidate is bound
/// to it, and it is not `target` itself.
pub open spec fn relay_ok(m: Map<u128, Member>, me: u128, a: Addr, target: Addr) -> bool {
    a != target && exists|h: u128| #[trigger]
        m.contains_key(h) && probe_candidate(m[h], me) && m[h].address == Some(a)
}

/// What merging a batch did: the members first seen, the members whose
/// record changed, and whether a claim against the local node was refuted.
pub struct MergeOutcome {
    pub new: Vec<Member>,
    pub changed: Vec<Member>,
    pub refuted: bool,
}

/// The local view of the cluster, keyed by host key.
pub struct MemberList {
    myself_key: u128,
    members: Vec<Member>,
    model: Ghost<Map<u128, Member>>,
    probe_order: Vec<u128>,
    cursor: usize,
}

/// Relies on rand::seq::SliceRandom::shuffle: the slice is permuted in place.
#[verifier::external_body]
fn shuffle_keys(v: &mut Vec<u128>)
    ensures
        final(v)@.to_multiset() == old(v)@.to_multiset(),
{
    v.shuffle(&mut rand::thread_rng())
}

impl MemberList {
    pub closed spec fn view(&self) -> Map<u128, Member> {
        self.model@
    }

    pub closed spec fn me(&self) -> u128 {
        self.myself_key
    }

    pub closed spec fn wf(&self) -> bool {
        &&& keys_distinct(self.members@)
        &&& forall|i: int|
            0 <= i < self.members@.len() ==> #[trigger] self.model@.contains_key(
                self.members@[i].host_key,
            ) && self.model@[self.members@[i].host_key] == self.members@[i]
        &&& forall|k: u128|
            #[trigger] self.model@.contains_key(k) ==> exists|i: int|
                0 <= i < self.members@.len() && self.members@[i].host_key == k
        &&& self.model@.contains_key(self.myself_key)
        &&& self.model@[self.myself_key].host_key == self.myself_key
        &&& forall|i: int, j: int|
            0 <= i < self.members@.len() && 0 <= j < self.members@.len() && i != j
                && self.members@[i].address is Some ==> self.members@[i].address
                != self.members@[j].address
        &&& self.cursor <= self.probe_order@.len()
    }

    /// The host keys still to be probed in the current round, in order.
    pub closed spec fn round(&self) -> Seq<u128> {
        self.probe_order@.subrange(self.cursor as int, self.probe_order@.len() as int)
    }

    /// The local node is always in the view.
    pub proof fn lemma_me_present(&self)
        requires
            self.wf(),
        ensures
            self@.contains_key(self.me()),
            self@[self.me()].host_key == self.me(),
    {
    }

    /// No two members are bound to the same endpoint.
    pub proof fn lemma_addresses_unique(&self, k: u128)
        requires
            self.wf(),
            self@.contains_key(k),
        ensures
            self@[k].address matches Some(a) ==> !addr_taken(self@, k, a),
    {
        if let Some(a) = self@[k].address {
            if addr_taken(self@, k, a) {
                let j = choose|j: u128| #[trigger]
                    self@.contains_key(j) && j != k && self@[j].address == Some(a);
                let x = choose|x: int| 0 <= x < self.members@.len() && self.members@[x].host_key == k;
                let y = choose|y: int| 0 <= y < self.members@.len() && self.members@[y].host_key == j;
                assert(self.model@.contains_key(self.members@[x].host_key));
                assert(self.model@.contains_key(self.members@[y].host_key));
            }
        }
    }

    pub fn new(me: Member) -> (r: MemberList)
        ensures
            r.wf(),
            r.me() == me.host_key,
            r@ == Map::<u128, Member>::empty().insert(me.host_key, me),
    {
        let r = MemberList {
            myself_key: me.host_key,
            members: vec![me],
            model: Ghost(Map::empty().insert(me.host_key, me)),
            probe_order: Vec::new(),
            cursor: 0,
        };
        assert(r.members@[0] == me);
        assert(r.members@[0] == me);
        r
    }

    pub fn myself_key(&self) -> (r: u128)
        ensures
            r == self.me(),
    {
        self.myself_key
    }

    fn index_of(&self, k: u128) -> (r: Option<usize>)
        requires
            self.wf(),
        ensures
            match r {
                Some(i) => i < self.members@.len() && self.members@[i as int].host_key == k
                    && self@.contains_key(k) && self@[k] == self.members@[i as int],
                None => !self@.contains_key(k),
            },
    {
        let mut i: usize = 0;
        while i < self.members.len()
            invariant
                self.wf(),
                i <= self.members@.len(),
                forall|j: int| 0 <= j < i ==> self.members@[j].host_key != k,
            decreases self.members@.len() - i,
        {
            if self.members[i].host_key == k {
                assert(self.model@.contains_key(self.members@[i as int].host_key));
                return Some(i);
            }
            i = i + 1;
        }
        None
    }

    fn update_at(&mut self, i: usize, m: Member)
        requires
            old(self).wf(),
            i < old(self).members@.len(),
            old(self).members@[i as int].host_key == m.host_key,
            m.address matches Some(a) ==> !addr_taken(old(self)@, m.host_key, a),
        ensures
            final(self).wf(),
            final(self).me() == old(self).me(),
            final(self)@ == old(self)@.insert(m.host_key, m),
            final(self).members@ == old(self).members@.update(i as int, m),
    {
        let ghost before = self.members@;
        self.members[i] = m;
        proof {
            self.model@ = self.model@.insert(m.host_key, m);
        }
        assert forall|j: int| 0 <= j < self.members@.len() implies #[trigger] self.model@.contains_key(
            self.members@[j].host_key,
        ) && self.model@[self.members@[j].host_key] == self.members@[j] by {
            if j != i {
                assert(before[j].host_key != before[i as int].host_key);
                assert(old(self).model@.contains_key(old(self).members@[j].host_key));
                assert(self.members@[j] == before[j]);
            }
        }
        assert forall|x: int, y: int|
            0 <= x < self.members@.len() && 0 <= y < self.members@.len() && x != y
                && self.members@[x].address is Some implies self.members@[x].address
            != self.members@[y].address by {
            if x == i || y == i {
                let o = if x == i { y } else { x };
                assert(old(self).model@.contains_key(before[o].host_key));
                assert(before[o].host_key != m.host_key);
                if m.address is Some && before[o].address == m.address {
                    assert(old(self)@.contains_key(before[o].host_key) && before[o].host_key != m.host_key
                        && old(self)@[before[o].host_key].address == Some(m.address->Some_0));
                }
            }
        }
        assert forall|k: u128| #[trigger] self.model@.contains_key(k) implies exists|j: int|
            0 <= j < self.members@.len() && self.members@[j].host_key == k by {
            if k != m.host_key {
                let j = choose|j: int| 0 <= j < before.len() && before[j].host_key == k;
                assert(self.members@[j].host_key == k);
            } else {
                assert(self.members@[i as int].host_key == k);
            }
        }
    }

    fn push_new(&mut self, m: Member)
        requires
            old(self).wf(),
            !old(self)@.contains_key(m.host_key),
            m.address matches Some(a) ==> !addr_taken(old(self)@, m.host_key, a),
        ensures
            final(self).wf(),
            final(self).me() == old(self).me(),
            final(self)@ == old(self)@.insert(m.host_key, m),
            final(self).members@ == old(self).members@.push(m),
    {
        let ghost before = self.members@;
        proof {
            assert forall|j: int| 0 <= j < before.len() implies before[j].host_key != m.host_key by {
                assert(self.model@.contains_key(before[j].host_key));
            }
        }
        self.members.push(m);
        proof {
            self.model@ = self.model@.insert(m.host_key, m);
        }
        assert forall|j: int| 0 <= j < self.members@.len() implies #[trigger] self.model@.contains_key(
            self.members@[j].host_key,
        ) && self.model@[self.members@[j].host_key] == self.members@[j] by {
            if j < before.len() {
                assert(self.members@[j] == before[j]);
            }
        }
        assert forall|k: u128| #[trigger] self.model@.contains_key(k) implies exists|j: int|
            0 <= j < self.members@.len() && self.members@[j].host_key == k by {
            if k != m.host_key {
                let j = choose|j: int| 0 <= j < before.len() && before[j].host_key == k;
                assert(self.members@[j].host_key == k);
            } else {
                assert(self.members@[before.len() as int].host_key == k);
            }
        }
        assert forall|x: int, y: int|
            0 <= x < self.members@.len() && 0 <= y < self.members@.len() && x != y
                && self.members@[x].address is Some implies self.members@[x].address
            != self.members@[y].address by {
            let n = before.len() as int;
            if x == n || y == n {
                let o = if x == n { y } else { x };
                assert(old(self).model@.contains_key(before[o].host_key));
                if m.address is Some && before[o].address == m.address {
                    assert(old(self)@.contains_key(before[o].host_key) && before[o].host_key != m.host_key
                        && old(self)@[before[o].host_key].address == Some(m.address->Some_0));
                }
            } else {
                assert(self.members@[x] == before[x] && self.members@[y] == before[y]);
            }
        }
    }

    /// Whether some member other than `k` is bound to `a`.
    pub fn address_taken(&self, k: u128, a: &Addr) -> (r: bool)
        requires
            self.wf(),
        ensures
            r == addr_taken(self@, k, *a),
    {
        let mut i: usize = 0;
        while i < self.members.len()
            invariant
                self.wf(),
                i <= self.members@.len(),
                forall|j: int|
                    0 <= j < i ==> self.members@[j].host_key == k || self.members@[j].address != Some(
                        *a,
                    ),
            decreases self.members@.len() - i,
        {
            let m = self.members[i];
            if m.host_key != k {
                if let Some(x) = m.address {
                    if x.same(a) {
                        assert(self.model@.contains_key(self.members@[i as int].host_key));
                        return true;
                    }
                }
            }
            i = i + 1;
        }
        assert forall|j: u128| #[trigger] self@.contains_key(j) && j != k implies self@[j].address
            != Some(*a) by {
            let x = choose|x: int| 0 <= x < self.members@.len() && self.members@[x].host_key == j;
            assert(self.model@.contains_key(self.members@[x].host_key));
        }
        false
    }

    /// Bind member `k` to endpoint `a`, which no other member holds.
    pub fn rebind(&mut self, k: u128, a: Addr)
        requires
            old(self).wf(),
            old(self)@.contains_key(k),
            !addr_taken(old(self)@, k, a),
        ensures
            final(self).wf(),
            final(self).me() == old(self).me(),
            final(self)@ == old(self)@.insert(k, Member { address: Some(a), ..old(self)@[k] }),
    {
        let idx = self.index_of(k).unwrap();
        let m = Member { address: Some(a), ..self.members[idx] };
        self.update_at(idx, m);
    }

    /// Whether some member is bound to `addr`.
    pub fn has_member(&self, addr: &Addr) -> (r: bool)
        requires
            self.wf(),
        ensures
            r == exists|k: u128| #[trigger]
                self@.contains_key(k) && self@[k].address == Some(*addr),
    {
        let mut i: usize = 0;
        while i < self.members.len()
            invariant
                self.wf(),
                i <= self.members@.len(),
                forall|j: int| 0 <= j < i ==> self.members@[j].address != Some(*addr),
            decreases self.members@.len() - i,
        {
            if let Some(a) = self.members[i].address {
                if a.same(addr) {
                    assert(self@.contains_key(self.members@[i as int].host_key));
                    return true;
                }
            }
            i = i + 1;
        }
        assert forall|k: u128| #[trigger] self@.contains_key(k) implies self@[k].address != Some(
            *addr,
        ) by {
            let j = choose|j: int| 0 <= j < self.members@.len() && self.members@[j].host_key == k;
            assert(self.model@.contains_key(self.members@[j].host_key));
        }
        false
    }

    /// The member bound to `addr`, if any.
    pub fn find_by_address(&self, addr: &Addr) -> (r: Option<Member>)
        requires
            self.wf(),
        ensures
            r matches Some(m) ==> self@.contains_key(m.host_key) && self@[m.host_key] == m
                && m.address == Some(*addr),
            r is None ==> !exists|k: u128| #[trigger]
                self@.contains_key(k) && self@[k].address == Some(*addr),
    {
        let mut i: usize = 0;
        while i < self.members.len()
            invariant
                self.wf(),
                i <= self.members@.len(),
                forall|j: int| 0 <= j < i ==> self.members@[j].address != Some(*addr),
            decreases self.members@.len() - i,
        {
            if let Some(a) = self.members[i].address {
                if a.same(addr) {
                    assert(self.model@.contains_key(self.members@[i as int].host_key));
                    return Some(self.members[i]);
                }
            }
            i = i + 1;
        }
        assert forall|k: u128| #[trigger] self@.contains_key(k) implies self@[k].address != Some(
            *addr,
        ) by {
            let j = choose|j: int| 0 <= j < self.members@.len() && self.members@[j].host_key == k;
            assert(self.model@.contains_key(self.members@[j].host_key));
        }
        None
    }

    /// Whether `k` is a known host key.
    pub fn has_key(&self, k: u128) -> (r: bool)
        requires
            self.wf(),
        ensures
            r == self@.contains_key(k),
    {
        self.index_of(k).is_some()
    }

    /// The record of host key `k`.
    pub fn get(&self, k: u128) -> (r: Option<Member>)
        requires
            self.wf(),
        ensures
            r == (if self@.contains_key(k) {
                Some(self@[k])
            } else {
                None
            }),
    {
        match self.index_of(k) {
            Some(i) => Some(self.members[i]),
            None => None,
        }
    }

    /// Add a member of a host key not yet known.
    pub fn add_member(&mut self, m: Member)
        requires
            old(self).wf(),
            !old(self)@.contains_key(m.host_key),
            m.address matches Some(a) ==> !addr_taken(old(self)@, m.host_key, a),
        ensures
            final(self).wf(),
            final(self).me() == old(self).me(),
            final(self)@ == old(self)@.insert(m.host_key, m),
    {
        self.push_new(m);
    }

    /// Merge a batch of snapshots received from `from`, in order.
    pub fn apply_state_changes(&mut self, changes: &Vec<StateChange>, from: Addr) -> (r:
        MergeOutcome)
        requires
            old(self).wf(),
        ensures
            final(self).wf(),
            final(self).me() == old(self).me(),
            final(self)@ == apply_all(old(self)@, old(self).me(), changes@, from),
            forall|i: int|
                0 <= i < r.new@.len() ==> !old(self)@.contains_key(#[trigger] r.new@[i].host_key)
                    && final(self)@.contains_key(r.new@[i].host_key),
            forall|k: u128|
                #[trigger] final(self)@.contains_key(k) && !old(self)@.contains_key(k) ==> exists|
                    i: int,
                | 0 <= i < r.new@.len() && r.new@[i].host_key == k,
            forall|i: int|
                0 <= i < r.changed@.len() ==> (#[trigger] r.changed@[i]).host_key != old(
                    self,
                ).me(),
            r.refuted <==> exists|i: int|
                0 <= i < changes@.len() && refutes(#[trigger] changes@[i].member, old(self).me()),
            !r.refuted ==> final(self)@[old(self).me()] == old(self)@[old(self).me()],
            forall|i: int|
                0 <= i < r.changed@.len() ==> (old(self)@.contains_key(
                    (#[trigger] r.changed@[i]).host_key,
                ) ==> precedence(old(self)@[r.changed@[i].host_key]) < precedence(r.changed@[i]))
                    && exists|x: int|
                    0 <= x < changes@.len() && changes@[x].member.host_key == r.changed@[i].host_key
                        && precedence(changes@[x].member) == precedence(r.changed@[i]),
            keys_distinct(r.new@),
            forall|k: u128|
                #[trigger] final(self)@.contains_key(k) && k != old(self).me() && !(old(self)@.contains_key(k)
                    && final(self)@[k] == old(self)@[k]) ==> (exists|i: int|
                    0 <= i < r.changed@.len() && r.changed@[i] == final(self)@[k]) || (exists|i: int|
                    0 <= i < r.new@.len() && r.new@[i] == final(self)@[k]),
            forall|x: int, y: int|
                0 <= x < y < r.changed@.len() && r.changed@[x].host_key == r.changed@[y].host_key
                    ==> precedence(#[trigger] r.changed@[x]) < precedence(#[trigger] r.changed@[y]),
            forall|x: int|
                0 <= x < r.changed@.len() ==> final(self)@.contains_key((#[trigger] r.changed@[x]).host_key)
                    && precedence(r.changed@[x]) <= precedence(final(self)@[r.changed@[x].host_key]),
    {
        let ghost start = self@;
        let me = self.myself_key;
        let mut out = MergeOutcome { new: Vec::new(), changed: Vec::new(), refuted: false };
        let mut i: usize = 0;
        while i < changes.len()
            invariant
                self.wf(),
                self.me() == me,
                i <= changes@.len(),
                self@ == apply_all(start, me, changes@.take(i as int), from),
                forall|j: int|
                    0 <= j < out.new@.len() ==> !start.contains_key(#[trigger] out.new@[j].host_key)
                        && self@.contains_key(out.new@[j].host_key),
                forall|k: u128|
                    #[trigger] self@.contains_key(k) && !start.contains_key(k) ==> exists|j: int|
                        0 <= j < out.new@.len() && out.new@[j].host_key == k,
                forall|j: int| 0 <= j < out.changed@.len() ==> (#[trigger] out.changed@[j]).host_key != me,
                out.refuted <==> exists|j: int|
                    0 <= j < i && refutes(#[trigger] changes@[j].member, me),
                !out.refuted ==> self@[me] == start[me],
                forall|k: u128| #[trigger] start.contains_key(k) ==> self@.contains_key(k),
                forall|k: u128|
                    #[trigger] start.contains_key(k) && k != me ==> precedence(start[k]) <= precedence(
                        self@[k],
                    ),
                forall|j: int|
                    0 <= j < out.changed@.len() ==> (start.contains_key(
                        (#[trigger] out.changed@[j]).host_key,
                    ) ==> precedence(start[out.changed@[j].host_key]) < precedence(out.changed@[j]))
                        && exists|x: int|
                        0 <= x < i && changes@[x].member.host_key == out.changed@[j].host_key
                            && precedence(changes@[x].member) == precedence(out.changed@[j]),
                keys_distinct(out.new@),
                forall|k: u128|
                    #[trigger] self@.contains_key(k) && k != me && !(start.contains_key(k) && self@[k]
                        == start[k]) ==> (exists|x: int|
                        0 <= x < out.changed@.len() && out.changed@[x] == self@[k]) || (exists|x: int|
                        0 <= x < out.new@.len() && out.new@[x] == self@[k]),
                forall|x: int, y: int|
                    0 <= x < y < out.changed@.len() && out.changed@[x].host_key == out.changed@[y].host_key
                        ==> precedence(#[trigger] out.changed@[x]) < precedence(#[trigger] out.changed@[y]),
                forall|x: int|
                    0 <= x < out.changed@.len() ==> self@.contains_key((#[trigger] out.changed@[x]).host_key)
                        && precedence(out.changed@[x]) <= precedence(self@[out.changed@[x].host_key]),
            decreases changes@.len() - i,
        {
            let r = changes[i].member;
            let ghost prev = self@;
            let ghost prev_new = out.new@;
            let ghost prev_changed = out.changed@;
            assert(changes@.take(i + 1).drop_last() == changes@.take(i as int));
            assert(changes@.take(i + 1).last() == changes@[i as int]);
            if r.host_key == me {
                if r.state == MemberState::Suspect || r.state == MemberState::Down {
                    let idx = self.index_of(me).unwrap();
                    let s = self.members[idx];
                    let inc = if s.incarnation < u64::MAX {
                        s.incarnation + 1
                    } else {
                        s.incarnation
                    };
                    let m = Member {
                        host_key: s.host_key,
                        address: s.address,
                        incarnation: inc,
                        state: MemberState::Alive,
                    };
                    proof {
                        self.lemma_addresses_unique(me);
                    }
                    self.update_at(idx, m);
                    out.refuted = true;
                }
            } else {
                match self.index_of(r.host_key) {
                    None => {
                        let c = match r.address {
                            Some(_) => r,
                            None => Member {
                                host_key: r.host_key,
                                address: Some(from),
                                incarnation: r.incarnation,
                                state: r.state,
                            },
                        };
                        let m = if self.address_taken(r.host_key, &c.address.unwrap()) {
                            Member { address: None, ..c }
                        } else {
                            c
                        };
                        let ghost old_new = out.new@;
                        self.push_new(m);
                        out.new.push(m);
                        proof {
                            assert forall|k: u128| #[trigger]
                                self@.contains_key(k) && !start.contains_key(k) implies exists|
                                j: int,
                            | 0 <= j < out.new@.len() && out.new@[j].host_key == k by {
                                if k == m.host_key {
                                    assert(out.new@[out.new@.len() - 1].host_key == k);
                                } else {
                                    assert(prev.contains_key(k));
                                    let j = choose|j: int|
                                        0 <= j < old_new.len() && old_new[j].host_key == k;
                                    assert(out.new@[j] == old_new[j]);
                                }
                            }
                        }
                    },
                    Some(idx) => {
                        let l = self.members[idx];
                        if r.supersedes(&l) {
                            let c = match r.address {
                                Some(_) => r,
                                None => Member {
                                    host_key: r.host_key,
                                    address: Some(from),
                                    incarnation: r.incarnation,
                                    state: r.state,
                                },
                            };
                            let m = if self.address_taken(r.host_key, &c.address.unwrap()) {
                                Member { address: l.address, ..c }
                            } else {
                                c
                            };
                            proof {
                                self.lemma_addresses_unique(r.host_key);
                            }
                            let ghost prev_changed = out.changed@;
                            self.update_at(idx, m);
                            out.changed.push(m);
                            proof {
                                assert(precedence(m) == precedence(r));
                                assert(changes@[i as int].member == r);
                                assert forall|j: int| 0 <= j < out.changed@.len() implies (start.contains_key(
                                    (#[trigger] out.changed@[j]).host_key,
                                ) ==> precedence(start[out.changed@[j].host_key]) < precedence(
                                    out.changed@[j],
                                )) && exists|x: int|
                                    0 <= x < i + 1 && changes@[x].member.host_key
                                        == out.changed@[j].host_key && precedence(changes@[x].member)
                                        == precedence(out.changed@[j]) by {
                                    if j < prev_changed.len() {
                                        assert(out.changed@[j] == prev_changed[j]);
                                    } else {
                                        assert(out.changed@[j] == m);
                                        assert(changes@[i as int].member.host_key == m.host_key);
                                    }
                                }
                            }
                            proof {
                                assert forall|k: u128| #[trigger]
                                    self@.contains_key(k) && !start.contains_key(k) implies exists|
                                    j: int,
                                | 0 <= j < out.new@.len() && out.new@[j].host_key == k by {
                                    assert(prev.contains_key(k));
                                }
                            }
                        }
                    },
                }
            }
            proof {
                assert forall|x: int, y: int|
                    0 <= x < out.new@.len() && 0 <= y < out.new@.len() && x != y implies out.new@[x].host_key
                    != out.new@[y].host_key by {
                    if x < prev_new.len() && y < prev_new.len() {
                        assert(out.new@[x] == prev_new[x] && out.new@[y] == prev_new[y]);
                    } else if x < prev_new.len() {
                        assert(out.new@[x] == prev_new[x]);
                        assert(prev.contains_key(prev_new[x].host_key));
                    } else {
                        assert(out.new@[y] == prev_new[y]);
                        assert(prev.contains_key(prev_new[y].host_key));
                    }
                }
                assert forall|x: int, y: int|
                    0 <= x < y < out.changed@.len() && out.changed@[x].host_key == out.changed@[y].host_key
                        implies precedence(#[trigger] out.changed@[x]) < precedence(
                    #[trigger] out.changed@[y],
                ) by {
                    assert(out.changed@[x] == prev_changed[x]);
                    if y < prev_changed.len() {
                        assert(out.changed@[y] == prev_changed[y]);
                    }
                }
                assert forall|x: int|
                    0 <= x < out.changed@.len() implies self@.contains_key(
                    (#[trigger] out.changed@[x]).host_key,
                ) && precedence(out.changed@[x]) <= precedence(self@[out.changed@[x].host_key]) by {
                    if x < prev_changed.len() {
                        assert(out.changed@[x] == prev_changed[x]);
                    }
                }
                assert forall|k: u128|
                    #[trigger] self@.contains_key(k) && k != me && !(start.contains_key(k) && self@[k]
                        == start[k]) implies (exists|x: int|
                        0 <= x < out.changed@.len() && out.changed@[x] == self@[k]) || (exists|x: int|
                        0 <= x < out.new@.len() && out.new@[x] == self@[k]) by {
                    if out.changed@.len() > prev_changed.len() && out.changed@[out.changed@.len() - 1]
                        == self@[k] {
                    } else if out.new@.len() > prev_new.len() && out.new@[out.new@.len() - 1] == self@[k] {
                    } else {
                        assert(prev.contains_key(k) && self@[k] == prev[k]);
                        if exists|x: int| 0 <= x < prev_changed.len() && prev_changed[x] == prev[k] {
                            let x = choose|x: int| 0 <= x < prev_changed.len() && prev_changed[x] == prev[k];
                            assert(out.changed@[x] == prev_changed[x]);
                        } else {
                            let x = choose|x: int| 0 <= x < prev_new.len() && prev_new[x] == prev[k];
                            assert(out.new@[x] == prev_new[x]);
                        }
                    }
                }
            }
            proof {
                if exists|j: int| 0 <= j < i + 1 && refutes(#[trigger] changes@[j].member, me) {
                    let j = choose|j: int|
                        0 <= j < i + 1 && refutes(#[trigger] changes@[j].member, me);
                    if j < i {
                    } else {
                        assert(out.refuted);
                    }
                }
            }
            i = i + 1;
        }
        assert(changes@.take(i as int) == changes@);
        out
    }

    /// Expire probes of `expired`: each member bound to one of them goes from
    /// Alive to Suspect, or from Suspect to Down. Returns those that became
    /// Suspect and those that became Down.
    pub fn time_out_nodes(&mut self, expired: &Vec<Addr>) -> (r: (Vec<Member>, Vec<Member>))
        requires
            old(self).wf(),
        ensures
            keys_distinct(r.0@),
            keys_distinct(r.1@),
            final(self).wf(),
            final(self).me() == old(self).me(),
            final(self)@.dom() == old(self)@.dom(),
            forall|k: u128|
                #[trigger] old(self)@.contains_key(k) ==> final(self)@[k] == timed_out(
                    old(self)@[k],
                    expired@,
                ),
            forall|i: int|
                0 <= i < r.0@.len() ==> (#[trigger] r.0@[i]).state == MemberState::Suspect
                    && final(self)@.contains_key(r.0@[i].host_key) && final(self)@[r.0@[i].host_key]
                    == r.0@[i] && old(self)@[r.0@[i].host_key].state == MemberState::Alive,
            forall|i: int|
                0 <= i < r.1@.len() ==> (#[trigger] r.1@[i]).state == MemberState::Down
                    && final(self)@.contains_key(r.1@[i].host_key) && final(self)@[r.1@[i].host_key]
                    == r.1@[i] && old(self)@[r.1@[i].host_key].state == MemberState::Suspect,
            forall|k: u128|
                #[trigger] old(self)@.contains_key(k) && old(self)@[k].state == MemberState::Alive
                    && final(self)@[k].state == MemberState::Suspect ==> exists|i: int|
                    0 <= i < r.0@.len() && r.0@[i].host_key == k,
            forall|k: u128|
                #[trigger] old(self)@.contains_key(k) && old(self)@[k].state == MemberState::Suspect
                    && final(self)@[k].state == MemberState::Down ==> exists|i: int|
                    0 <= i < r.1@.len() && r.1@[i].host_key == k,
    {
        let ghost start = self@;
        let ghost start_members = self.members@;
        let mut suspect: Vec<Member> = Vec::new();
        let mut down: Vec<Member> = Vec::new();
        let ghost mut sidx: Seq<int> = Seq::empty();
        let ghost mut didx: Seq<int> = Seq::empty();
        let mut i: usize = 0;
        while i < self.members.len()
            invariant
                self.wf(),
                self.me() == old(self).me(),
                start == old(self)@,
                start_members == old(self).members@,
                old(self).wf(),
                i <= self.members@.len() == start_members.len(),
                forall|j: int|
                    0 <= j < i ==> self.members@[j] == timed_out(start_members[j], expired@),
                forall|j: int| i <= j < self.members@.len() ==> self.members@[j] == start_members[j],
                sidx.len() == suspect@.len(),
                didx.len() == down@.len(),
                forall|a: int, b: int| 0 <= a < b < suspect@.len() ==> sidx[a] < sidx[b],
                forall|a: int, b: int| 0 <= a < b < down@.len() ==> didx[a] < didx[b],
                forall|j: int|
                    0 <= j < suspect@.len() ==> 0 <= #[trigger] sidx[j] < i && self.members@[sidx[j]]
                        == suspect@[j] && suspect@[j].state == MemberState::Suspect
                        && start_members[sidx[j]].state == MemberState::Alive,
                forall|j: int|
                    0 <= j < down@.len() ==> 0 <= #[trigger] didx[j] < i && self.members@[didx[j]]
                        == down@[j] && down@[j].state == MemberState::Down
                        && start_members[didx[j]].state == MemberState::Suspect,
                forall|x: int|
                    0 <= x < i && start_members[x].state == MemberState::Alive
                        && #[trigger] self.members@[x].state == MemberState::Suspect ==> exists|
                        j: int,
                    | 0 <= j < suspect@.len() && suspect@[j].host_key == start_members[x].host_key,
                forall|x: int|
                    0 <= x < i && start_members[x].state == MemberState::Suspect
                        && #[trigger] self.members@[x].state == MemberState::Down ==> exists|
                        j: int,
                    | 0 <= j < down@.len() && down@[j].host_key == start_members[x].host_key,
            decreases self.members@.len() - i,
        {
            let m = self.members[i];
            let hit = match m.address {
                Some(a) => contains_addr(expired, &a),
                None => false,
            };
            let ghost prev_members = self.members@;
            let ghost prev_s = suspect@;
            let ghost prev_d = down@;
            proof {
                assert(self.model@.contains_key(self.members@[i as int].host_key));
                self.lemma_addresses_unique(m.host_key);
            }
            if hit && m.state == MemberState::Alive {
                let n = Member { state: MemberState::Suspect, ..m };
                self.update_at(i, n);
                suspect.push(n);
                proof {
                    sidx = sidx.push(i as int);
                }
            } else if hit && m.state == MemberState::Suspect {
                let n = Member { state: MemberState::Down, ..m };
                self.update_at(i, n);
                down.push(n);
                proof {
                    didx = didx.push(i as int);
                }
            }
            proof {
                assert forall|j: int| 0 <= j < suspect@.len() implies 0 <= #[trigger] sidx[j] < i + 1
                    && self.members@[sidx[j]] == suspect@[j] && suspect@[j].state
                    == MemberState::Suspect && start_members[sidx[j]].state == MemberState::Alive by {
                    if j < prev_s.len() {
                        assert(prev_members[sidx[j]] == prev_s[j]);
                    }
                }
                assert forall|j: int| 0 <= j < down@.len() implies 0 <= #[trigger] didx[j] < i + 1
                    && self.members@[didx[j]] == down@[j] && down@[j].state == MemberState::Down
                    && start_members[didx[j]].state == MemberState::Suspect by {
                    if j < prev_d.len() {
                        assert(prev_members[didx[j]] == prev_d[j]);
                    }
                }
                assert forall|x: int|
                    0 <= x < i + 1 && start_members[x].state == MemberState::Alive
                        && #[trigger] self.members@[x].state == MemberState::Suspect implies exists|
                    j: int,
                | 0 <= j < suspect@.len() && suspect@[j].host_key == start_members[x].host_key by {
                    if x < i {
                        assert(prev_members[x].state == MemberState::Suspect);
                        let j = choose|j: int|
                            0 <= j < prev_s.len() && prev_s[j].host_key == start_members[x].host_key;
                        assert(suspect@[j] == prev_s[j]);
                    } else {
                        assert(suspect@[suspect@.len() - 1].host_key == start_members[x].host_key);
                    }
                }
                assert forall|x: int|
                    0 <= x < i + 1 && start_members[x].state == MemberState::Suspect
                        && #[trigger] self.members@[x].state == MemberState::Down implies exists|
                    j: int,
                | 0 <= j < down@.len() && down@[j].host_key == start_members[x].host_key by {
                    if x < i {
                        assert(prev_members[x].state == MemberState::Down);
                        let j = choose|j: int|
                            0 <= j < prev_d.len() && prev_d[j].host_key == start_members[x].host_key;
                        assert(down@[j] == prev_d[j]);
                    } else {
                        assert(down@[down@.len() - 1].host_key == start_members[x].host_key);
                    }
                }
            }
            i = i + 1;
        }
        proof {
            assert forall|k: u128| #[trigger] start.contains_key(k) implies self@.contains_key(k)
                && self@[k] == timed_out(start[k], expired@) by {
                let j = choose|j: int| 0 <= j < start_members.len() && start_members[j].host_key == k;
                assert(old(self).model@.contains_key(start_members[j].host_key));
                assert(self.model@.contains_key(self.members@[j].host_key));
            }
            assert forall|k: u128| #[trigger] self@.contains_key(k) implies start.contains_key(k) by {
                let j = choose|j: int| 0 <= j < self.members@.len() && self.members@[j].host_key == k;
                assert(old(self).model@.contains_key(start_members[j].host_key));
            }
            assert(self@.dom() =~= start.dom());
            assert forall|a: int, b: int|
                0 <= a < suspect@.len() && 0 <= b < suspect@.len() && a != b implies suspect@[a].host_key
                != suspect@[b].host_key by {
                assert(sidx[a] != sidx[b]);
            }
            assert forall|a: int, b: int|
                0 <= a < down@.len() && 0 <= b < down@.len() && a != b implies down@[a].host_key
                != down@[b].host_key by {
                assert(didx[a] != didx[b]);
            }
            assert forall|i: int| 0 <= i < suspect@.len() implies (#[trigger] suspect@[i]).state
                == MemberState::Suspect && self@.contains_key(suspect@[i].host_key)
                && self@[suspect@[i].host_key] == suspect@[i]
                && start[suspect@[i].host_key].state == MemberState::Alive by {
                let x = sidx[i];
                assert(self.model@.contains_key(self.members@[x].host_key));
                assert(old(self).model@.contains_key(start_members[x].host_key));
            }
            assert forall|i: int| 0 <= i < down@.len() implies (#[trigger] down@[i]).state
                == MemberState::Down && self@.contains_key(down@[i].host_key) && self@[down@[i].host_key]
                == down@[i] && start[down@[i].host_key].state == MemberState::Suspect by {
                let x = didx[i];
                assert(self.model@.contains_key(self.members@[x].host_key));
                assert(old(self).model@.contains_key(start_members[x].host_key));
            }
            assert forall|k: u128| #[trigger] start.contains_key(k) && start[k].state
                == MemberState::Alive && self@[k].state == MemberState::Suspect implies exists|
                i: int,
            | 0 <= i < suspect@.len() && suspect@[i].host_key == k by {
                let j = choose|j: int| 0 <= j < start_members.len() && start_members[j].host_key == k;
                assert(old(self).model@.contains_key(start_members[j].host_key));
                assert(self.model@.contains_key(self.members@[j].host_key));
                assert(self.members@[j].state == MemberState::Suspect);
            }
            assert forall|k: u128| #[trigger] start.contains_key(k) && start[k].state
                == MemberState::Suspect && self@[k].state == MemberState::Down implies exists|
                i: int,
            | 0 <= i < down@.len() && down@[i].host_key == k by {
                let j = choose|j: int| 0 <= j < start_members.len() && start_members[j].host_key == k;
                assert(old(self).model@.contains_key(start_members[j].host_key));
                assert(self.model@.contains_key(self.members@[j].host_key));
                assert(self.members@[j].state == MemberState::Down);
            }
        }
        (suspect, down)
    }
}

impl MemberList {
    /// A member bound to `addr` that was Suspect or Down answers again: every
    /// such member becomes Alive. Returns one that changed, if any did.
    pub fn mark_node_alive(&mut self, addr: &Addr) -> (r: Option<Member>)
        requires
            old(self).wf(),
        ensures
            final(self).wf(),
            final(self).me() == old(self).me(),
            final(self)@.dom() == old(self)@.dom(),
            forall|k: u128|
                #[trigger] old(self)@.contains_key(k) ==> final(self)@[k] == revived(
                    old(self)@[k],
                    *addr,
                ),
            r is None <==> !exists|k: u128| #[trigger]
                old(self)@.contains_key(k) && revives(old(self)@[k], *addr),
            r matches Some(m) ==> m.state == MemberState::Alive && old(self)@.contains_key(
                m.host_key,
            ) && revives(old(self)@[m.host_key], *addr) && final(self)@[m.host_key] == m,
    {
        let ghost start = self@;
        let ghost start_members = self.members@;
        let mut first: Option<Member> = None;
        let ghost mut fidx: int = 0;
        let mut i: usize = 0;
        while i < self.members.len()
            invariant
                self.wf(),
                self.me() == old(self).me(),
                start == old(self)@,
                start_members == old(self).members@,
                old(self).wf(),
                i <= self.members@.len() == start_members.len(),
                forall|j: int| 0 <= j < i ==> self.members@[j] == revived(start_members[j], *addr),
                forall|j: int| i <= j < self.members@.len() ==> self.members@[j] == start_members[j],
                first is None <==> forall|j: int| 0 <= j < i ==> !revives(start_members[j], *addr),
                first matches Some(m) ==> 0 <= fidx < i && self.members@[fidx] == m && revives(
                    start_members[fidx],
                    *addr,
                ) && m.state == MemberState::Alive,
            decreases self.members@.len() - i,
        {
            let m = self.members[i];
            let hit = match m.address {
                Some(a) => a.same(addr),
                None => false,
            };
            proof {
                assert(self.model@.contains_key(self.members@[i as int].host_key));
                self.lemma_addresses_unique(m.host_key);
            }
            if hit && (m.state == MemberState::Suspect || m.state == MemberState::Down) {
                let n = Member { state: MemberState::Alive, ..m };
                self.update_at(i, n);
                if first.is_none() {
                    first = Some(n);
                    proof {
                        fidx = i as int;
                    }
                }
            }
            i = i + 1;
        }
        proof {
            assert forall|k: u128| #[trigger] start.contains_key(k) implies self@.contains_key(k)
                && self@[k] == revived(start[k], *addr) by {
                let j = choose|j: int| 0 <= j < start_members.len() && start_members[j].host_key == k;
                assert(old(self).model@.contains_key(start_members[j].host_key));
                assert(self.model@.contains_key(self.members@[j].host_key));
            }
            assert forall|k: u128| #[trigger] self@.contains_key(k) implies start.contains_key(k) by {
                let j = choose|j: int| 0 <= j < self.members@.len() && self.members@[j].host_key == k;
                assert(old(self).model@.contains_key(start_members[j].host_key));
            }
            assert(self@.dom() =~= start.dom());
            if first is None {
                assert forall|k: u128| #[trigger] start.contains_key(k) implies !revives(start[k], *addr) by {
                    let j = choose|j: int|
                        0 <= j < start_members.len() && start_members[j].host_key == k;
                    assert(old(self).model@.contains_key(start_members[j].host_key));
                }
            } else {
                assert(old(self).model@.contains_key(start_members[fidx].host_key));
                assert(self.model@.contains_key(self.members@[fidx].host_key));
            }
        }
        first
    }

    /// The local node leaves: its record becomes Left and is returned.
    pub fn leave(&mut self) -> (r: Member)
        requires
            old(self).wf(),
        ensures
            final(self).wf(),
            final(self).me() == old(self).me(),
            r == (Member { state: MemberState::Left, ..old(self)@[old(self).me()] }),
            final(self)@ == old(self)@.insert(old(self).me(), r),
    {
        let idx = self.index_of(self.myself_key).unwrap();
        let m = Member { state: MemberState::Left, ..self.members[idx] };
        proof {
            self.lemma_addresses_unique(self.myself_key);
        }
        self.update_at(idx, m);
        m
    }

    /// The record of the local node.
    pub fn myself(&self) -> (r: Member)
        requires
            self.wf(),
        ensures
            r == self@[self.me()],
            r.host_key == self.me(),
    {
        let idx = self.index_of(self.myself_key).unwrap();
        self.members[idx]
    }

    /// Every member visible to consumers: those Alive or Suspect.
    pub fn available_nodes(&self) -> (r: Vec<Member>)
        requires
            self.wf(),
        ensures
            keys_distinct(r@),
            forall|j: int|
                0 <= j < r@.len() ==> visible(#[trigger] r@[j]) && self@.contains_key(r@[j].host_key)
                    && self@[r@[j].host_key] == r@[j],
            forall|k: u128|
                #[trigger] self@.contains_key(k) && visible(self@[k]) ==> exists|j: int|
                    0 <= j < r@.len() && r@[j].host_key == k,
    {
        let mut out: Vec<Member> = Vec::new();
        let ghost mut idx: Seq<int> = Seq::empty();
        let mut i: usize = 0;
        while i < self.members.len()
            invariant
                self.wf(),
                i <= self.members@.len(),
                idx.len() == out@.len(),
                forall|j: int|
                    0 <= j < out@.len() ==> 0 <= #[trigger] idx[j] < i && self.members@[idx[j]]
                        == out@[j] && visible(out@[j]),
                forall|a: int, b: int| 0 <= a < b < out@.len() ==> idx[a] < idx[b],
                forall|x: int|
                    0 <= x < i && visible(#[trigger] self.members@[x]) ==> exists|j: int|
                        0 <= j < out@.len() && out@[j].host_key == self.members@[x].host_key,
            decreases self.members@.len() - i,
        {
            let m = self.members[i];
            let ghost prev = out@;
            if m.state == MemberState::Alive || m.state == MemberState::Suspect {
                out.push(m);
                proof {
                    idx = idx.push(i as int);
                }
            }
            proof {
                assert forall|x: int|
                    0 <= x < i + 1 && visible(#[trigger] self.members@[x]) implies exists|j: int|
                    0 <= j < out@.len() && out@[j].host_key == self.members@[x].host_key by {
                    if x < i {
                        let j = choose|j: int|
                            0 <= j < prev.len() && prev[j].host_key == self.members@[x].host_key;
                        assert(out@[j] == prev[j]);
                    } else {
                        assert(out@[out@.len() - 1] == m);
                    }
                }
            }
            i = i + 1;
        }
        proof {
            assert forall|a: int, b: int|
                0 <= a < out@.len() && 0 <= b < out@.len() && a != b implies out@[a].host_key
                != out@[b].host_key by {
                assert(idx[a] != idx[b]);
            }
            assert forall|j: int| 0 <= j < out@.len() implies visible(#[trigger] out@[j])
                && self@.contains_key(out@[j].host_key) && self@[out@[j].host_key] == out@[j] by {
                assert(self.model@.contains_key(self.members@[idx[j]].host_key));
            }
            assert forall|k: u128| #[trigger] self@.contains_key(k) && visible(self@[k]) implies exists|
                j: int,
            | 0 <= j < out@.len() && out@[j].host_key == k by {
                let x = choose|x: int| 0 <= x < self.members@.len() && self.members@[x].host_key == k;
                assert(self.model@.contains_key(self.members@[x].host_key));
                assert(visible(self.members@[x]));
            }
        }
        out
    }

    /// The members that may be probed, other than those bound to `exclude`.
    fn candidates(&self, exclude: Option<Addr>) -> (r: Vec<Member>)
        requires
            self.wf(),
        ensures
            keys_distinct(r@),
            forall|j: int|
                0 <= j < r@.len() ==> probe_candidate(#[trigger] r@[j], self.me())
                    && self@.contains_key(r@[j].host_key) && self@[r@[j].host_key] == r@[j]
                    && (exclude matches Some(t) ==> r@[j].address != Some(t)),
            forall|k: u128|
                #[trigger] self@.contains_key(k) && probe_candidate(self@[k], self.me()) && (
                exclude matches Some(t) ==> self@[k].address != Some(t)) ==> exists|j: int|
                    0 <= j < r@.len() && r@[j].host_key == k,
    {
        let mut out: Vec<Member> = Vec::new();
        let ghost mut idx: Seq<int> = Seq::empty();
        let mut i: usize = 0;
        while i < self.members.len()
            invariant
                self.wf(),
                i <= self.members@.len(),
                idx.len() == out@.len(),
                forall|a: int, b: int| 0 <= a < b < out@.len() ==> idx[a] < idx[b],
                forall|j: int|
                    0 <= j < out@.len() ==> 0 <= #[trigger] idx[j] < i && self.members@[idx[j]]
                        == out@[j] && probe_candidate(out@[j], self.me()) && (exclude matches Some(
                        t,
                    ) ==> out@[j].address != Some(t)),
                forall|x: int|
                    0 <= x < i && probe_candidate(#[trigger] self.members@[x], self.me()) && (
                    exclude matches Some(t) ==> self.members@[x].address != Some(t)) ==> exists|
                        j: int,
                    | 0 <= j < out@.len() && out@[j].host_key == self.members@[x].host_key,
            decreases self.members@.len() - i,
        {
            let m = self.members[i];
            let ghost prev = out@;
            let excluded = match (m.address, exclude) {
                (Some(a), Some(t)) => a.same(&t),
                _ => false,
            };
            let ghost prev_idx = idx;
            if m.state == MemberState::Alive && m.host_key != self.myself_key && m.address.is_some()
                && !excluded {
                out.push(m);
                proof {
                    idx = idx.push(i as int);
                }
            }
            proof {
                assert forall|j: int| 0 <= j < out@.len() implies 0 <= #[trigger] idx[j] < i + 1
                    && self.members@[idx[j]] == out@[j] && probe_candidate(out@[j], self.me()) && (
                exclude matches Some(t) ==> out@[j].address != Some(t)) by {
                    if j < prev.len() {
                        assert(out@[j] == prev[j]);
                        assert(idx[j] == prev_idx[j]);
                    } else {
                        assert(out@[j] == m);
                        assert(idx[j] == i);
                    }
                }
            }
            proof {
                assert forall|x: int|
                    0 <= x < i + 1 && probe_candidate(#[trigger] self.members@[x], self.me()) && (
                    exclude matches Some(t) ==> self.members@[x].address != Some(t)) implies exists|
                    j: int,
                | 0 <= j < out@.len() && out@[j].host_key == self.members@[x].host_key by {
                    if x < i {
                        let j = choose|j: int|
                            0 <= j < prev.len() && prev[j].host_key == self.members@[x].host_key;
                        assert(out@[j] == prev[j]);
                    } else {
                        assert(out@[out@.len() - 1] == m);
                    }
                }
            }
            i = i + 1;
        }
        proof {
            assert forall|a: int, b: int|
                0 <= a < out@.len() && 0 <= b < out@.len() && a != b implies out@[a].host_key
                != out@[b].host_key by {
                assert(idx[a] != idx[b]);
            }
        }
        proof {
            assert forall|j: int| 0 <= j < out@.len() implies probe_candidate(
                #[trigger] out@[j],
                self.me(),
            ) && self@.contains_key(out@[j].host_key) && self@[out@[j].host_key] == out@[j] && (
            exclude matches Some(t) ==> out@[j].address != Some(t)) by {
                assert(self.model@.contains_key(self.members@[idx[j]].host_key));
            }
            assert forall|k: u128| #[trigger] self@.contains_key(k) && probe_candidate(
                self@[k],
                self.me(),
            ) && (exclude matches Some(t) ==> self@[k].address != Some(t)) implies exists|j: int|
                0 <= j < out@.len() && out@[j].host_key == k by {
                let x = choose|x: int| 0 <= x < self.members@.len() && self.members@[x].host_key == k;
                assert(self.model@.contains_key(self.members@[x].host_key));
            }
        }
        out
    }

    /// The next peer to probe: Alive, other than the local node. Peers are
    /// taken in a shuffled order, each once per round; a new round reshuffles
    /// the peers that qualify then. None where no peer qualifies.
    pub fn next_random_member(&mut self) -> (r: Option<Member>)
        requires
            old(self).wf(),
        ensures
            final(self).wf(),
            final(self)@ == old(self)@,
            final(self).me() == old(self).me(),
            r is None <==> !exists|k: u128| #[trigger]
                old(self)@.contains_key(k) && probe_candidate(old(self)@[k], old(self).me()),
            r matches Some(m) ==> old(self)@.contains_key(m.host_key) && old(self)@[m.host_key] == m
                && probe_candidate(m, old(self).me()),
            r matches Some(m) ==> round_step(
                old(self)@,
                old(self).me(),
                old(self).round(),
                final(self).round(),
                m.host_key,
            ),
    {
        let ghost view0 = self@;
        let ghost order0 = self.probe_order@;
        let ghost cursor0 = self.cursor as int;
        while self.cursor < self.probe_order.len()
            invariant
                self.wf(),
                self@ == view0,
                self.me() == old(self).me(),
                view0 == old(self)@,
                self.probe_order@ == order0,
                order0 == old(self).probe_order@,
                cursor0 == old(self).cursor,
                cursor0 <= self.cursor <= order0.len(),
                forall|x: int|
                    cursor0 <= x < self.cursor ==> !is_candidate(view0, self.me(), #[trigger] order0[x]),
            decreases self.probe_order@.len() - self.cursor,
        {
            let at = self.cursor;
            let k = self.probe_order[self.cursor];
            self.cursor = self.cursor + 1;
            if let Some(m) = self.get(k) {
                if m.state == MemberState::Alive && m.host_key != self.myself_key
                    && m.address.is_some() {
                    proof {
                        let j = at - cursor0;
                        let r0 = old(self).round();
                        assert(r0[j] == order0[at as int]);
                        assert(self.round() =~= r0.subrange(j + 1, r0.len() as int));
                        assert forall|x: int| 0 <= x < j implies !is_candidate(
                            old(self)@,
                            old(self).me(),
                            #[trigger] r0[x],
                        ) by {
                            assert(r0[x] == order0[cursor0 + x]);
                        }
                    }
                    return Some(m);
                }
            }
        }
        proof {
            let r0 = old(self).round();
            assert forall|x: int| 0 <= x < r0.len() implies !is_candidate(
                old(self)@,
                old(self).me(),
                #[trigger] r0[x],
            ) by {
                assert(r0[x] == order0[cursor0 + x]);
            }
        }
        let c = self.candidates(None);
        let mut keys: Vec<u128> = Vec::new();
        let mut i: usize = 0;
        while i < c.len()
            invariant
                i <= c@.len(),
                keys@.len() == i,
                forall|j: int| 0 <= j < i ==> keys@[j] == #[trigger] c@[j].host_key,
            decreases c@.len() - i,
        {
            keys.push(c[i].host_key);
            i = i + 1;
        }
        let ghost fresh = keys@;
        shuffle_keys(&mut keys);
        let ghost shuffled = keys@;
        proof {
            fresh.to_multiset_ensures();
            shuffled.to_multiset_ensures();
        }
        self.probe_order = keys;
        self.cursor = 0;
        if self.probe_order.len() == 0 {
            proof {
                assert forall|k: u128| #[trigger] self@.contains_key(k) implies !probe_candidate(
                    self@[k],
                    self.me(),
                ) by {
                    if probe_candidate(self@[k], self.me()) {
                        let j = choose|j: int| 0 <= j < c@.len() && c@[j].host_key == k;
                    }
                }
            }
            return None;
        }
        let k = self.probe_order[0];
        self.cursor = 1;
        proof {
            assert forall|x: int| 0 <= x < self.round().len() implies is_candidate(
                old(self)@,
                old(self).me(),
                #[trigger] self.round()[x],
            ) by {
                let y = shuffled[x + 1];
                assert(self.round()[x] == y);
                assert(shuffled.contains(y));
                assert(shuffled.to_multiset().count(y) > 0);
                assert(fresh.to_multiset().count(y) > 0);
                assert(fresh.contains(y));
                let j = choose|j: int| 0 <= j < fresh.len() && fresh[j] == y;
                assert(c@[j].host_key == y);
            }
            assert(self.probe_order@ == shuffled);
            assert(shuffled[0] == k);
            assert(shuffled.contains(k));
            assert(shuffled.to_multiset().count(k) > 0);
            assert(fresh.to_multiset().count(k) > 0);
            assert(fresh.contains(k));
            let j = choose|j: int| 0 <= j < fresh.len() && fresh[j] == k;
            assert(c@[j].host_key == k);
        }
        self.get(k)
    }

    /// Up to `k` relays for an indirect probe of `target`: Alive peers other
    /// than the local node and than the one bound to `target`.
    pub fn hosts_for_indirect_ping(&self, k: usize, target: &Addr) -> (r: Vec<Addr>)
        requires
            self.wf(),
        ensures
            r@.len() <= k,
            r@.no_duplicates(),
            forall|j: int| 0 <= j < r@.len() ==> #[trigger] relay_ok(self@, self.me(), r@[j], *target),
            r@.len() < k ==> forall|h: u128|
                #[trigger] self@.contains_key(h) && probe_candidate(self@[h], self.me())
                    && self@[h].address != Some(*target) ==> r@.contains(self@[h].address->Some_0),
    {
        let c = self.candidates(Some(*target));
        let mut out: Vec<Addr> = Vec::new();
        let mut i: usize = 0;
        while i < c.len() && out.len() < k
            invariant
                self.wf(),
                i <= c@.len(),
                out@.len() == i,
                out@.len() <= k,
                forall|j: int| 0 <= j < i ==> c@[j].address == Some(#[trigger] out@[j]),
                keys_distinct(c@),
                forall|j: int|
                    0 <= j < c@.len() ==> probe_candidate(#[trigger] c@[j], self.me())
                        && self@.contains_key(c@[j].host_key) && self@[c@[j].host_key] == c@[j]
                        && c@[j].address != Some(*target),
            decreases c@.len() - i,
        {
            let a = c[i].address.unwrap();
            out.push(a);
            proof {
                assert forall|j: int| 0 <= j < i + 1 implies c@[j].address == Some(
                    #[trigger] out@[j],
                ) by {
                    if j == i {
                        assert(out@[j] == a);
                    }
                }
            }
            i = i + 1;
        }
        proof {
            assert forall|j: int| 0 <= j < out@.len() implies #[trigger] relay_ok(
                self@,
                self.me(),
                out@[j],
                *target,
            ) by {
                let h = c@[j].host_key;
                assert(self@.contains_key(h) && probe_candidate(self@[h], self.me()) && self@[h].address
                    == Some(out@[j]));
            }
            assert forall|a: int, b: int| 0 <= a < out@.len() && 0 <= b < out@.len() && a != b implies out@[a]
                != out@[b] by {
                let ka = c@[a].host_key;
                let kb = c@[b].host_key;
                assert(ka != kb);
                assert(self@[ka].address == Some(out@[a]));
                self.lemma_addresses_unique(ka);
                if out@[a] == out@[b] {
                    assert(self@.contains_key(kb) && kb != ka && self@[kb].address == Some(out@[a]));
                }
            }
            if out@.len() < k {
                assert forall|h: u128| #[trigger]
                    self@.contains_key(h) && probe_candidate(self@[h], self.me()) && self@[h].address
                        != Some(*target) implies out@.contains(self@[h].address->Some_0) by {
                    let j = choose|j: int| 0 <= j < c@.len() && c@[j].host_key == h;
                    assert(out@[j] == self@[h].address->Some_0);
                }
            }
        }
        out
    }
}

pub fn contains_addr(v: &Vec<Addr>, a: &Addr) -> (r: bool)
    ensures
        r == v@.contains(*a),
{
    let mut i: usize = 0;
    while i < v.len()
        invariant
            i <= v@.len(),
            forall|j: int| 0 <= j < i ==> v@[j] != *a,
        decreases v@.len() - i,
    {
        if v[i].same(a) {
            assert(v@[i as int] == *a);
            return true;
        }
        i = i + 1;
    }
    false
}

} // verus!
