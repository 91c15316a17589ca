use vstd::prelude::*;
use crate::member::{Member, StateChange};

verus! {

/// No two entries of the log concern the same host key.
pub open spec fn log_wf(s: Seq<StateChange>) -> bool {
    forall|i: int, j: int|
        0 <= i < s.len() && 0 <= j < s.len() && i != j ==> s[i].member.host_key
            != s[j].member.host_key
}

pub open spec fn has_key(s: Seq<StateChange>, k: u128) -> bool {
    exists|i: int| 0 <= i < s.len() && s[i].member.host_key == k
}

/// Record `m` in the log: overwrite the entry of the same host key in place,
/// or append a new entry.
pub open spec fn enqueue_one(s: Seq<StateChange>, m: Member) -> Seq<StateChange> {
    if has_key(s, m.host_key) {
        let i = choose|i: int| 0 <= i < s.len() && s[i].member.host_key == m.host_key;
        s.update(i, StateChange { member: m })
    } else {
        s.push(StateChange { member: m })
    }
}

pub open spec fn enqueue_all(s: Seq<StateChange>, ms: Seq<Member>) -> Seq<StateChange>
    decreases ms.len(),
{
    if ms.len() == 0 {
        s
    } else {
        enqueue_one(enqueue_all(s, ms.drop_last()), ms.last())
    }
}

pub open spec fn keys_of(cs: Seq<StateChange>) -> Set<u128> {
    Set::new(|k: u128| has_key(cs, k))
}

/// The entries of `s` whose host key is not in `gone`, in their order.
pub open spec fn retained(s: Seq<StateChange>, gone: Set<u128>) -> Seq<StateChange>
    decreases s.len(),
{
    if s.len() == 0 {
        s
    } else if gone.contains(s.last().member.host_key) {
        retained(s.drop_last(), gone)
    } else {
        retained(s.drop_last(), gone).push(s.last())
    }
}

pub proof fn lemma_retained_keys(s: Seq<StateChange>, gone: Set<u128>)
    ensures
        forall|i: int|
            0 <= i < retained(s, gone).len() ==> !gone.contains(
                #[trigger] retained(s, gone)[i].member.host_key,
            ) && has_key(s, retained(s, gone)[i].member.host_key),
        log_wf(s) ==> log_wf(retained(s, gone)),
        retained(s, gone).len() <= s.len(),
    decreases s.len(),
{
    if s.len() > 0 {
        let p = s.drop_last();
        lemma_retained_keys(p, gone);
        let r = retained(s, gone);
        assert forall|i: int| 0 <= i < r.len() implies !gone.contains(
            #[trigger] r[i].member.host_key,
        ) && has_key(s, r[i].member.host_key) by {
            if i < retained(p, gone).len() {
                let j = choose|j: int|
                    0 <= j < p.len() && p[j].member.host_key == retained(p, gone)[i].member.host_key;
                assert(s[j] == p[j]);
            } else {
                assert(s[s.len() - 1].member.host_key == r[i].member.host_key);
            }
        }
        if log_wf(s) {
            assert(log_wf(p));
            if !gone.contains(s.last().member.host_key) {
                assert forall|i: int| 0 <= i < retained(p, gone).len() implies retained(
                    p,
                    gone,
                )[i].member.host_key != s.last().member.host_key by {
                    let k = retained(p, gone)[i].member.host_key;
                    let j = choose|j: int| 0 <= j < p.len() && p[j].member.host_key == k;
                    assert(s[j] == p[j]);
                }
            }
        }
    }
}

/// Index of the log entry for host key `k`, if any.
pub fn find_change(log: &Vec<StateChange>, k: u128) -> (r: Option<usize>)
    requires
        log_wf(log@),
    ensures
        match r {
            Some(i) => i < log@.len() && log@[i as int].member.host_key == k,
            None => !has_key(log@, k),
        },
{
    let mut i: usize = 0;
    while i < log.len()
        invariant
            i <= log@.len(),
            forall|j: int| 0 <= j < i ==> log@[j].member.host_key != k,
        decreases log@.len() - i,
    {
        if log[i].member.host_key == k {
            return Some(i);
        }
        i = i + 1;
    }
    None
}

pub fn enqueue_one_change(log: &mut Vec<StateChange>, m: Member)
    requires
        log_wf(old(log)@),
    ensures
        final(log)@ == enqueue_one(old(log)@, m),
        log_wf(final(log)@),
{
    match find_change(log, m.host_key) {
        Some(i) => {
            proof {
                let j = choose|j: int|
                    0 <= j < log@.len() && log@[j].member.host_key == m.host_key;
                assert(j == i);
            }
            log[i] = StateChange::new(m);
        },
        None => {
            log.push(StateChange::new(m));
        },
    }
}

/// Record each of `members` in the log, in order: an entry for a host key
/// already present is overwritten in place, any other is appended.
pub fn enqueue_state_change(state_changes: &mut Vec<StateChange>, members: &[Member])
    requires
        log_wf(old(state_changes)@),
    ensures
        final(state_changes)@ == enqueue_all(old(state_changes)@, members@),
        log_wf(final(state_changes)@),
{
    let ghost start = state_changes@;
    let mut i: usize = 0;
    while i < members.len()
        invariant
            i <= members@.len(),
            log_wf(state_changes@),
            state_changes@ == enqueue_all(start, members@.take(i as int)),
        decreases members@.len() - i,
    {
        assert(members@.take(i + 1).drop_last() == members@.take(i as int));
        enqueue_one_change(state_changes, members[i]);
        i = i + 1;
    }
    assert(members@.take(i as int) == members@);
}

pub fn contains_key(cs: &Vec<StateChange>, k: u128) -> (r: bool)
    ensures
        r == has_key(cs@, k),
{
    let mut i: usize = 0;
    while i < cs.len()
        invariant
            i <= cs@.len(),
            forall|j: int| 0 <= j < i ==> cs@[j].member.host_key != k,
        decreases cs@.len() - i,
    {
        if cs[i].member.host_key == k {
            return true;
        }
        i = i + 1;
    }
    false
}

pub fn copy_changes(v: &Vec<StateChange>) -> (r: Vec<StateChange>)
    ensures
        r@ == v@,
{
    let mut out: Vec<StateChange> = Vec::new();
    let mut i: usize = 0;
    while i < v.len()
        invariant
            i <= v@.len(),
            out@ == v@.take(i as int),
        decreases v@.len() - i,
    {
        out.push(v[i]);
        assert(v@.take(i + 1) == v@.take(i as int).push(v@[i as int]));
        i = i + 1;
    }
    assert(v@.take(i as int) == v@);
    out
}

pub proof fn lemma_enqueue_one_holds(s: Seq<StateChange>, m: Member)
    ensures
        enqueue_one(s, m).contains(StateChange { member: m }),
{
    if has_key(s, m.host_key) {
        let i = choose|i: int| 0 <= i < s.len() && s[i].member.host_key == m.host_key;
        assert(enqueue_one(s, m)[i] == StateChange { member: m });
    } else {
        assert(enqueue_one(s, m)[s.len() as int] == StateChange { member: m });
    }
}

/// Drop from the log every entry whose host key occurs among `acked`.
pub fn retire_changes(log: &mut Vec<StateChange>, acked: &Vec<StateChange>)
    requires
        log_wf(old(log)@),
    ensures
        final(log)@ == retained(old(log)@, keys_of(acked@)),
        log_wf(final(log)@),
        forall|i: int|
            0 <= i < final(log)@.len() ==> !has_key(acked@, #[trigger] final(log)@[i].member.host_key),
{
    let ghost start = log@;
    let mut out: Vec<StateChange> = Vec::new();
    let mut i: usize = 0;
    while i < log.len()
        invariant
            i <= log@.len(),
            log@ == start,
            out@ == retained(start.take(i as int), keys_of(acked@)),
        decreases log@.len() - i,
    {
        let c = log[i];
        assert(start.take(i + 1).drop_last() == start.take(i as int));
        assert(start.take(i + 1).last() == c);
        if !contains_key(acked, c.member.host_key) {
            out.push(c);
        }
        i = i + 1;
    }
    assert(start.take(i as int) == start);
    proof {
        lemma_retained_keys(start, keys_of(acked@));
    }
    *log = out;
}

/// Once the snapshots `acked` are retired from `log`, no prefix of what is
/// left, which is all that a later message carries, holds a snapshot of any
/// of their host keys, until one is enqueued again.
pub proof fn lemma_ack_retirement(log: Seq<StateChange>, acked: Seq<StateChange>, n: int)
    requires
        0 <= n <= retained(log, keys_of(acked)).len(),
    ensures
        forall|i: int|
            0 <= i < n ==> !has_key(
                acked,
                #[trigger] retained(log, keys_of(acked)).take(n)[i].member.host_key,
            ),
{
    lemma_retained_keys(log, keys_of(acked));
    let r = retained(log, keys_of(acked));
    assert forall|i: int| 0 <= i < n implies !has_key(
        acked,
        #[trigger] r.take(n)[i].member.host_key,
    ) by {
        assert(r.take(n)[i] == r[i]);
        assert(!keys_of(acked).contains(r[i].member.host_key));
    }
}

} // verus!
