use vstd::prelude::*;
use crate::member::Addr;

verus! {

/// Relays waiting for an indirect ack, as pairs (target, relay) in arrival order.
pub type WaitList = Vec<(Addr, Addr)>;

/// The relays waiting on `a`, in the order they asked.
pub open spec fn relays_of(w: Seq<(Addr, Addr)>, a: Addr) -> Seq<Addr>
    decreases w.len(),
{
    if w.len() == 0 {
        Seq::empty()
    } else if w.last().0 == a {
        relays_of(w.drop_last(), a).push(w.last().1)
    } else {
        relays_of(w.drop_last(), a)
    }
}

/// Record that `notify_addr` waits for an ack from `wait_addr`.
pub fn add_to_wait_list(wait_list: &mut WaitList, wait_addr: &Addr, notify_addr: &Addr)
    ensures
        relays_of(final(wait_list)@, *wait_addr) == relays_of(old(wait_list)@, *wait_addr).push(
            *notify_addr,
        ),
        forall|b: Addr|
            b != *wait_addr ==> #[trigger] relays_of(final(wait_list)@, b) == relays_of(
                old(wait_list)@,
                b,
            ),
{
    let ghost before = wait_list@;
    wait_list.push((*wait_addr, *notify_addr));
    assert(wait_list@.drop_last() == before);
}

/// Remove and return the relays waiting on `a`; the others stay.
pub fn take_waiters(wait_list: &mut WaitList, a: &Addr) -> (r: Vec<Addr>)
    ensures
        r@ == relays_of(old(wait_list)@, *a),
        relays_of(final(wait_list)@, *a) == Seq::<Addr>::empty(),
        forall|b: Addr|
            b != *a ==> #[trigger] relays_of(final(wait_list)@, b) == relays_of(old(wait_list)@, b),
{
    let ghost start = wait_list@;
    let mut kept: WaitList = Vec::new();
    let mut out: Vec<Addr> = Vec::new();
    let mut i: usize = 0;
    while i < wait_list.len()
        invariant
            wait_list@ == start,
            i <= start.len(),
            out@ == relays_of(start.take(i as int), *a),
            relays_of(kept@, *a) == Seq::<Addr>::empty(),
            forall|b: Addr|
                b != *a ==> #[trigger] relays_of(kept@, b) == relays_of(start.take(i as int), b),
        decreases start.len() - i,
    {
        let e = wait_list[i];
        let ghost prev = kept@;
        assert(start.take(i + 1).drop_last() == start.take(i as int));
        assert(start.take(i + 1).last() == e);
        if e.0.same(a) {
            out.push(e.1);
        } else {
            kept.push(e);
            assert(kept@.drop_last() == prev);
            assert(kept@.last() == e);
        }
        assert forall|b: Addr| b != *a implies #[trigger] relays_of(kept@, b) == relays_of(
            start.take(i + 1),
            b,
        ) by {
            assert(relays_of(prev, b) == relays_of(start.take(i as int), b));
        }
        i = i + 1;
    }
    assert(start.take(i as int) == start);
    *wait_list = kept;
    out
}

/// `s` without the occurrences of `a`, in order.
pub open spec fn without(s: Seq<Addr>, a: Addr) -> Seq<Addr>
    decreases s.len(),
{
    if s.len() == 0 {
        s
    } else if s.last() == a {
        without(s.drop_last(), a)
    } else {
        without(s.drop_last(), a).push(s.last())
    }
}

/// Drop `src_addr` from the seeds still to be pinged.
pub fn remove_potential_seed(seed_queue: &mut Vec<Addr>, src_addr: Addr)
    ensures
        final(seed_queue)@ == without(old(seed_queue)@, src_addr),
{
    let ghost start = seed_queue@;
    let mut kept: Vec<Addr> = Vec::new();
    let mut i: usize = 0;
    while i < seed_queue.len()
        invariant
            seed_queue@ == start,
            i <= start.len(),
            kept@ == without(start.take(i as int), src_addr),
        decreases start.len() - i,
    {
        let s = seed_queue[i];
        assert(start.take(i + 1).drop_last() == start.take(i as int));
        assert(start.take(i + 1).last() == s);
        if !s.same(&src_addr) {
            kept.push(s);
        }
        i = i + 1;
    }
    assert(start.take(i as int) == start);
    *seed_queue = kept;
}

} // verus!
