use vstd::prelude::*;
use crate::member::{precedence, state_rank, supersedes, Addr, Member, StateChange};
use crate::memberlist::{apply_all, apply_one, refutes};

verus! {

/// Merging `r` into `m` changes nothing.
pub open spec fn absorbed(m: Map<u128, Member>, me: u128, r: Member) -> bool {
    if r.host_key == me {
        !refutes(r, me)
    } else {
        m.contains_key(r.host_key) && !supersedes(r, m[r.host_key])
    }
}

pub open spec fn batch_has_key(b: Seq<StateChange>, k: u128) -> bool {
    exists|i: int| 0 <= i < b.len() && b[i].member.host_key == k
}

proof fn lemma_grows(m: Map<u128, Member>, me: u128, r: Member, from: Addr, k: u128)
    requires
        k != me,
        m.contains_key(k),
    ensures
        apply_one(m, me, r, from).contains_key(k),
        precedence(m[k]) <= precedence(apply_one(m, me, r, from)[k]),
{
}

proof fn lemma_absorbs_itself(m: Map<u128, Member>, me: u128, r: Member, from: Addr)
    requires
        !refutes(r, me),
    ensures
        absorbed(apply_one(m, me, r, from), me, r),
{
}

proof fn lemma_all_absorbed(m: Map<u128, Member>, me: u128, b: Seq<StateChange>, from: Addr)
    requires
        forall|i: int| 0 <= i < b.len() ==> !refutes(#[trigger] b[i].member, me),
    ensures
        forall|i: int|
            0 <= i < b.len() ==> absorbed(apply_all(m, me, b, from), me, #[trigger] b[i].member),
    decreases b.len(),
{
    if b.len() > 0 {
        let p = b.drop_last();
        let mid = apply_all(m, me, p, from);
        assert forall|i: int| 0 <= i < p.len() implies !refutes(#[trigger] p[i].member, me) by {
            assert(p[i] == b[i]);
        }
        lemma_all_absorbed(m, me, p, from);
        let last = b.last().member;
        lemma_absorbs_itself(mid, me, last, from);
        assert forall|i: int| 0 <= i < b.len() implies absorbed(
            apply_all(m, me, b, from),
            me,
            #[trigger] b[i].member,
        ) by {
            if i < p.len() {
                assert(p[i] == b[i]);
                assert(absorbed(mid, me, p[i].member));
                if b[i].member.host_key != me {
                    lemma_grows(mid, me, last, from, b[i].member.host_key);
                }
            }
        }
    }
}

proof fn lemma_absorbed_noop(m: Map<u128, Member>, me: u128, b: Seq<StateChange>, from: Addr)
    requires
        forall|i: int| 0 <= i < b.len() ==> absorbed(m, me, #[trigger] b[i].member),
    ensures
        apply_all(m, me, b, from) == m,
    decreases b.len(),
{
    if b.len() > 0 {
        let p = b.drop_last();
        assert forall|i: int| 0 <= i < p.len() implies absorbed(m, me, #[trigger] p[i].member) by {
            assert(p[i] == b[i]);
        }
        lemma_absorbed_noop(m, me, p, from);
        assert(absorbed(m, me, b[b.len() - 1].member));
    }
}

/// Merging the same batch a second time leaves the view as the first merge
/// left it, for every batch that holds no claim against the local node
/// (such a claim is refuted anew each time it arrives).
pub proof fn lemma_merge_idempotent(
    m: Map<u128, Member>,
    me: u128,
    b: Seq<StateChange>,
    from: Addr,
)
    requires
        forall|i: int| 0 <= i < b.len() ==> !refutes(#[trigger] b[i].member, me),
    ensures
        apply_all(apply_all(m, me, b, from), me, b, from) == apply_all(m, me, b, from),
{
    lemma_all_absorbed(m, me, b, from);
    lemma_absorbed_noop(apply_all(m, me, b, from), me, b, from);
}

/// After a batch, the record of a peer other than the local node is the
/// greatest, by incarnation and then state rank, of its earlier record and of
/// the batch's snapshots of it.
pub proof fn lemma_merge_max(m: Map<u128, Member>, me: u128, b: Seq<StateChange>, from: Addr, k: u128)
    requires
        k != me,
    ensures
        apply_all(m, me, b, from).contains_key(k) <==> (m.contains_key(k) || batch_has_key(b, k)),
        m.contains_key(k) ==> precedence(m[k]) <= precedence(apply_all(m, me, b, from)[k]),
        forall|i: int|
            0 <= i < b.len() && (#[trigger] b[i].member).host_key == k ==> precedence(b[i].member)
                <= precedence(apply_all(m, me, b, from)[k]),
        apply_all(m, me, b, from).contains_key(k) ==> (m.contains_key(k) && precedence(
            apply_all(m, me, b, from)[k],
        ) == precedence(m[k])) || exists|i: int|
            0 <= i < b.len() && (#[trigger] b[i].member).host_key == k && precedence(
                apply_all(m, me, b, from)[k],
            ) == precedence(b[i].member),
    decreases b.len(),
{
    if b.len() > 0 {
        let p = b.drop_last();
        let mid = apply_all(m, me, p, from);
        let res = apply_all(m, me, b, from);
        let last = b.last().member;
        lemma_merge_max(m, me, p, from, k);
        assert forall|i: int| 0 <= i < p.len() implies p[i] == b[i] by {}
        if batch_has_key(p, k) {
            let i = choose|i: int| 0 <= i < p.len() && p[i].member.host_key == k;
            assert(b[i] == p[i]);
        }
        if batch_has_key(b, k) && last.host_key != k {
            let i = choose|i: int| 0 <= i < b.len() && b[i].member.host_key == k;
            assert(i < p.len());
            assert(p[i] == b[i]);
        }
        if mid.contains_key(k) {
            lemma_grows(mid, me, last, from, k);
        }
        if res.contains_key(k) && !(m.contains_key(k) && precedence(res[k]) == precedence(m[k])) {
            if last.host_key == k && (!mid.contains_key(k) || supersedes(last, mid[k])) {
                assert(b[b.len() - 1].member.host_key == k);
            } else {
                let i = choose|i: int|
                    0 <= i < p.len() && (#[trigger] p[i].member).host_key == k && precedence(mid[k])
                        == precedence(p[i].member);
                assert(b[i] == p[i]);
            }
        }
    }
}

proof fn lemma_precedence_injective(a: Member, b: Member)
    requires
        precedence(a) == precedence(b),
    ensures
        a.incarnation == b.incarnation,
        a.state == b.state,
{
    assert(state_rank(a.state) < 4 && state_rank(b.state) < 4);
    assert(a.incarnation == b.incarnation);
}

/// The record that a batch leaves for a peer other than the local node does
/// not depend on the order in which the batch's snapshots arrive: two batches
/// that hold the same snapshots yield the same incarnation and state.
pub proof fn lemma_merge_order_independent(
    m: Map<u128, Member>,
    me: u128,
    b1: Seq<StateChange>,
    b2: Seq<StateChange>,
    from: Addr,
    k: u128,
)
    requires
        k != me,
        forall|x: StateChange| b1.contains(x) <==> b2.contains(x),
    ensures
        apply_all(m, me, b1, from).contains_key(k) <==> apply_all(m, me, b2, from).contains_key(k),
        apply_all(m, me, b1, from).contains_key(k) ==> apply_all(m, me, b1, from)[k].incarnation
            == apply_all(m, me, b2, from)[k].incarnation && apply_all(m, me, b1, from)[k].state
            == apply_all(m, me, b2, from)[k].state,
{
    let r1 = apply_all(m, me, b1, from);
    let r2 = apply_all(m, me, b2, from);
    lemma_merge_max(m, me, b1, from, k);
    lemma_merge_max(m, me, b2, from, k);
    if batch_has_key(b1, k) {
        let i = choose|i: int| 0 <= i < b1.len() && b1[i].member.host_key == k;
        assert(b1.contains(b1[i]));
        let j = choose|j: int| 0 <= j < b2.len() && b2[j] == b1[i];
    }
    if batch_has_key(b2, k) {
        let i = choose|i: int| 0 <= i < b2.len() && b2[i].member.host_key == k;
        assert(b2.contains(b2[i]));
        let j = choose|j: int| 0 <= j < b1.len() && b1[j] == b2[i];
    }
    if r1.contains_key(k) {
        // each result is attained by the other's inputs, so neither exceeds the other
        if !(m.contains_key(k) && precedence(r1[k]) == precedence(m[k])) {
            let i = choose|i: int|
                0 <= i < b1.len() && (#[trigger] b1[i].member).host_key == k && precedence(r1[k])
                    == precedence(b1[i].member);
            assert(b1.contains(b1[i]));
            let j = choose|j: int| 0 <= j < b2.len() && b2[j] == b1[i];
        }
        if !(m.contains_key(k) && precedence(r2[k]) == precedence(m[k])) {
            let i = choose|i: int|
                0 <= i < b2.len() && (#[trigger] b2[i].member).host_key == k && precedence(r2[k])
                    == precedence(b2[i].member);
            assert(b2.contains(b2[i]));
            let j = choose|j: int| 0 <= j < b1.len() && b1[j] == b2[i];
        }
        lemma_precedence_injective(r1[k], r2[k]);
    }
}

/// A snapshot that claims the local node is Suspect or Down is refuted: the
/// local incarnation goes up by one and the local state is Alive again.
pub proof fn lemma_refutation(m: Map<u128, Member>, me: u128, r: Member, from: Addr)
    requires
        refutes(r, me),
        m.contains_key(me),
        m[me].incarnation < u64::MAX,
    ensures
        apply_all(m, me, seq![StateChange { member: r }], from)[me].incarnation == m[me].incarnation
            + 1,
        apply_all(m, me, seq![StateChange { member: r }], from)[me].state
            == crate::member::MemberState::Alive,
{
    let b = seq![StateChange { member: r }];
    assert(b.drop_last() =~= Seq::<StateChange>::empty());
    assert(apply_all(m, me, b.drop_last(), from) == m);
    assert(b.last().member == r);
    assert(apply_all(m, me, b, from) == apply_one(m, me, r, from));
}

/// Over a whole batch: where any snapshot claims the local node is Suspect
/// or Down, the local node ends Alive at a higher incarnation; in any case
/// its incarnation never goes down.
pub proof fn lemma_refutation_batch(m: Map<u128, Member>, me: u128, b: Seq<StateChange>, from: Addr)
    requires
        m.contains_key(me),
        m[me].incarnation < u64::MAX,
    ensures
        apply_all(m, me, b, from).contains_key(me),
        apply_all(m, me, b, from)[me].incarnation >= m[me].incarnation,
        (exists|i: int| 0 <= i < b.len() && refutes(#[trigger] b[i].member, me)) ==> apply_all(
            m,
            me,
            b,
            from,
        )[me].state == crate::member::MemberState::Alive && apply_all(m, me, b, from)[me].incarnation
            > m[me].incarnation,
    decreases b.len(),
{
    if b.len() > 0 {
        let p = b.drop_last();
        lemma_refutation_batch(m, me, p, from);
        let last = b.last().member;
        if exists|i: int| 0 <= i < b.len() && refutes(#[trigger] b[i].member, me) {
            if !refutes(last, me) {
                let i = choose|i: int| 0 <= i < b.len() && refutes(#[trigger] b[i].member, me);
                assert(i < p.len());
                assert(p[i] == b[i]);
            }
        }
    }
}

} // verus!
