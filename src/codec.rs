use vstd::prelude::*;
use crate::member::{state_rank, Addr, Member, MemberState, StateChange, rank_of};

verus! {

/// What a message asks of its receiver.
#[derive(Clone, Copy, Debug)]
pub enum Request {
    Ping,
    Ack,
    PingRequest(Addr),
    AckHost(Member),
}

/// One datagram of the protocol.
#[derive(Clone, Debug)]
pub struct Message {
    pub sender: u128,
    pub cluster_key: Vec<u8>,
    pub request: Request,
    pub state_changes: Vec<StateChange>,
}

/// `n` little-endian bytes of `v` (higher bytes are dropped).
pub open spec fn le_bytes(v: nat, n: nat) -> Seq<u8>
    decreases n,
{
    if n == 0 {
        Seq::empty()
    } else {
        seq![(v % 256) as u8] + le_bytes(v / 256, (n - 1) as nat)
    }
}

pub open spec fn zero_bytes(n: nat) -> Seq<u8> {
    Seq::new(n, |i: int| 0u8)
}

pub open spec fn addr_bytes(a: Addr) -> Seq<u8> {
    seq![if a.v6 { 1u8 } else { 0u8 }] + le_bytes(a.ip as nat, 16) + le_bytes(a.port as nat, 2)
}

pub open spec fn opt_addr_bytes(a: Option<Addr>) -> Seq<u8> {
    match a {
        Some(a) => seq![1u8] + addr_bytes(a),
        None => seq![0u8] + zero_bytes(19),
    }
}

pub open spec fn member_bytes(m: Member) -> Seq<u8> {
    le_bytes(m.host_key as nat, 16) + opt_addr_bytes(m.address) + le_bytes(m.incarnation as nat, 8)
        + seq![state_rank(m.state) as u8]
}

pub open spec fn request_bytes(r: Request) -> Seq<u8> {
    match r {
        Request::Ping => seq![0u8],
        Request::Ack => seq![1u8],
        Request::PingRequest(a) => seq![2u8] + addr_bytes(a),
        Request::AckHost(m) => seq![3u8] + member_bytes(m),
    }
}

pub open spec fn request_len(r: Request) -> nat {
    match r {
        Request::Ping => 1,
        Request::Ack => 1,
        Request::PingRequest(_) => 20,
        Request::AckHost(_) => 46,
    }
}

pub open spec fn changes_bytes(cs: Seq<StateChange>) -> Seq<u8>
    decreases cs.len(),
{
    if cs.len() == 0 {
        Seq::empty()
    } else {
        changes_bytes(cs.drop_last()) + member_bytes(cs.last().member)
    }
}

/// The wire form of a message: sender, cluster key with its length, request,
/// then the count of piggybacked snapshots and the snapshots themselves.
pub open spec fn message_bytes(m: Message) -> Seq<u8> {
    le_bytes(m.sender as nat, 16) + le_bytes(m.cluster_key@.len(), 4) + m.cluster_key@
        + request_bytes(m.request) + le_bytes(m.state_changes@.len(), 4) + changes_bytes(
        m.state_changes@,
    )
}

/// Encoded size of a message with a key of `key_len` bytes, request `r` and
/// `count` snapshots.
pub open spec fn message_len(key_len: nat, r: Request, count: nat) -> nat {
    24 + key_len + request_len(r) + 45 * count
}

/// The largest encoded size of a message without snapshots, over all requests.
pub open spec fn max_header_len(key_len: nat) -> nat {
    70 + key_len
}

pub proof fn lemma_le_len(v: nat, n: nat)
    ensures
        le_bytes(v, n).len() == n,
    decreases n,
{
    if n > 0 {
        lemma_le_len(v / 256, (n - 1) as nat);
    }
}

pub proof fn lemma_member_len(m: Member)
    ensures
        member_bytes(m).len() == 45,
{
    lemma_le_len(m.host_key as nat, 16);
    lemma_le_len(m.incarnation as nat, 8);
    match m.address {
        Some(a) => {
            lemma_le_len(a.ip as nat, 16);
            lemma_le_len(a.port as nat, 2);
        },
        None => {},
    }
}

pub proof fn lemma_changes_len(cs: Seq<StateChange>)
    ensures
        changes_bytes(cs).len() == 45 * cs.len(),
    decreases cs.len(),
{
    if cs.len() > 0 {
        lemma_changes_len(cs.drop_last());
        lemma_member_len(cs.last().member);
    }
}

/// The encoded size of a message is fixed by its key length, its request
/// and its number of snapshots.
pub proof fn lemma_message_len(m: Message)
    ensures
        message_bytes(m).len() == message_len(
            m.cluster_key@.len(),
            m.request,
            m.state_changes@.len(),
        ),
        request_len(m.request) <= 46,
{
    lemma_le_len(m.sender as nat, 16);
    lemma_le_len(m.cluster_key@.len(), 4);
    lemma_le_len(m.state_changes@.len(), 4);
    lemma_changes_len(m.state_changes@);
    match m.request {
        Request::PingRequest(a) => {
            lemma_le_len(a.ip as nat, 16);
            lemma_le_len(a.port as nat, 2);
        },
        Request::AckHost(x) => {
            lemma_member_len(x);
        },
        _ => {},
    }
}

fn push_le(out: &mut Vec<u8>, v: u128, n: usize)
    ensures
        final(out)@ == old(out)@ + le_bytes(v as nat, n as nat),
{
    let ghost start = out@;
    let mut x: u128 = v;
    let mut k: usize = 0;
    while k < n
        invariant
            k <= n,
            out@ + le_bytes(x as nat, (n - k) as nat) == start + le_bytes(v as nat, n as nat),
        decreases n - k,
    {
        let b = (x % 256) as u8;
        let ghost before = out@;
        out.push(b);
        proof {
            let rest = le_bytes((x / 256) as nat, (n - k - 1) as nat);
            assert(le_bytes(x as nat, (n - k) as nat) == seq![b] + rest);
            assert(before + (seq![b] + rest) =~= before.push(b) + rest);
        }
        x = x / 256;
        k = k + 1;
    }
    assert(out@ + le_bytes(x as nat, 0) =~= out@);
}

fn push_bytes(out: &mut Vec<u8>, b: &Vec<u8>)
    ensures
        final(out)@ == old(out)@ + b@,
{
    let ghost start = out@;
    let mut i: usize = 0;
    while i < b.len()
        invariant
            i <= b@.len(),
            out@ == start + b@.take(i as int),
        decreases b@.len() - i,
    {
        out.push(b[i]);
        assert(start + b@.take(i + 1) =~= (start + b@.take(i as int)).push(b@[i as int]));
        i = i + 1;
    }
    assert(b@.take(i as int) =~= b@);
}

fn push_addr(out: &mut Vec<u8>, a: &Addr)
    ensures
        final(out)@ == old(out)@ + addr_bytes(*a),
{
    let ghost start = out@;
    out.push(if a.v6 { 1u8 } else { 0u8 });
    push_le(out, a.ip, 16);
    push_le(out, a.port as u128, 2);
    assert(out@ =~= start + addr_bytes(*a));
}

fn push_member(out: &mut Vec<u8>, m: &Member)
    ensures
        final(out)@ == old(out)@ + member_bytes(*m),
{
    let ghost start = out@;
    push_le(out, m.host_key, 16);
    let ghost mid = out@;
    match m.address {
        Some(a) => {
            out.push(1u8);
            push_addr(out, &a);
            assert(out@ =~= mid + opt_addr_bytes(m.address));
        },
        None => {
            out.push(0u8);
            let mut i: usize = 0;
            while i < 19
                invariant
                    i <= 19,
                    out@ == mid + seq![0u8] + zero_bytes(i as nat),
                decreases 19 - i,
            {
                out.push(0u8);
                assert(mid + seq![0u8] + zero_bytes((i + 1) as nat) =~= (mid + seq![0u8]
                    + zero_bytes(i as nat)).push(0u8));
                i = i + 1;
            }
            assert(out@ =~= mid + opt_addr_bytes(m.address));
        },
    }
    push_le(out, m.incarnation as u128, 8);
    out.push(rank_of(m.state));
    assert(out@ =~= start + member_bytes(*m));
}

fn push_request(out: &mut Vec<u8>, r: &Request)
    ensures
        final(out)@ == old(out)@ + request_bytes(*r),
{
    let ghost start = out@;
    match r {
        Request::Ping => {
            out.push(0u8);
        },
        Request::Ack => {
            out.push(1u8);
        },
        Request::PingRequest(a) => {
            out.push(2u8);
            push_addr(out, a);
        },
        Request::AckHost(m) => {
            out.push(3u8);
            push_member(out, m);
        },
    }
    assert(out@ =~= start + request_bytes(*r));
}

/// The wire form of `m`.
pub fn encode_message(m: &Message) -> (r: Vec<u8>)
    ensures
        r@ == message_bytes(*m),
        r@.len() == message_len(m.cluster_key@.len(), m.request, m.state_changes@.len()),
{
    let mut out: Vec<u8> = Vec::new();
    push_le(&mut out, m.sender, 16);
    push_le(&mut out, m.cluster_key.len() as u128, 4);
    push_bytes(&mut out, &m.cluster_key);
    push_request(&mut out, &m.request);
    push_le(&mut out, m.state_changes.len() as u128, 4);
    let ghost head = out@;
    let mut i: usize = 0;
    while i < m.state_changes.len()
        invariant
            i <= m.state_changes@.len(),
            out@ == head + changes_bytes(m.state_changes@.take(i as int)),
        decreases m.state_changes@.len() - i,
    {
        let ghost cs = m.state_changes@.take(i + 1);
        assert(cs.drop_last() == m.state_changes@.take(i as int));
        push_member(&mut out, &m.state_changes[i].member);
        assert(out@ =~= head + changes_bytes(cs));
        i = i + 1;
    }
    assert(m.state_changes@.take(i as int) == m.state_changes@);
    assert(out@ =~= message_bytes(*m));
    proof {
        lemma_message_len(*m);
    }
    out
}

/// The message with request `request` and the longest prefix of
/// `state_changes` whose encoding stays under `network_mtu` bytes. Where even
/// the message without snapshots does not fit, it carries none.
pub fn build_message(
    sender: u128,
    cluster_key: &Vec<u8>,
    request: Request,
    state_changes: &Vec<StateChange>,
    network_mtu: usize,
) -> (r: Message)
    ensures
        r.sender == sender,
        r.cluster_key@ == cluster_key@,
        r.request == request,
        r.state_changes@ == state_changes@.take(r.state_changes@.len() as int),
        r.state_changes@.len() <= state_changes@.len(),
        message_bytes(r).len() < network_mtu || r.state_changes@.len() == 0,
        r.state_changes@.len() == state_changes@.len() || message_len(
            cluster_key@.len(),
            request,
            r.state_changes@.len() + 1,
        ) >= network_mtu,
        message_len(cluster_key@.len(), request, 0) < network_mtu ==> message_bytes(r).len()
            < network_mtu,
{
    let req_len: u128 = match request {
        Request::Ping => 1,
        Request::Ack => 1,
        Request::PingRequest(_) => 20,
        Request::AckHost(_) => 46,
    };
    let header: u128 = 24 + cluster_key.len() as u128 + req_len;
    let mtu = network_mtu as u128;
    let mut i: usize = 0;
    while i < state_changes.len() && header + 45 * (i as u128 + 1) < mtu
        invariant
            i <= state_changes@.len(),
            header == message_len(cluster_key@.len(), request, 0),
            header <= 70 + usize::MAX,
            i == 0 || header + 45 * i < mtu,
        decreases state_changes@.len() - i,
    {
        i = i + 1;
    }
    let mut picked: Vec<StateChange> = Vec::new();
    let mut j: usize = 0;
    while j < i
        invariant
            j <= i <= state_changes@.len(),
            picked@ == state_changes@.take(j as int),
        decreases i - j,
    {
        picked.push(state_changes[j]);
        assert(state_changes@.take(j + 1) =~= state_changes@.take(j as int).push(
            state_changes@[j as int],
        ));
        j = j + 1;
    }
    let mut key: Vec<u8> = Vec::new();
    push_bytes(&mut key, cluster_key);
    assert(Seq::<u8>::empty() + cluster_key@ =~= cluster_key@);
    let r = Message { sender, cluster_key: key, request, state_changes: picked };
    proof {
        lemma_message_len(r);
    }
    r
}

pub open spec fn pow256(n: nat) -> nat
    decreases n,
{
    if n == 0 {
        1
    } else {
        256 * pow256((n - 1) as nat)
    }
}

proof fn lemma_pow256_mono(a: nat, b: nat)
    requires
        a <= b,
    ensures
        pow256(a) <= pow256(b),
        pow256(a) >= 1,
    decreases b,
{
    if a < b {
        lemma_pow256_mono(a, (b - 1) as nat);
    } else if a > 0 {
        lemma_pow256_mono((a - 1) as nat, (a - 1) as nat);
    }
}

proof fn lemma_pow256_16()
    ensures
        pow256(16) == 0x1_0000_0000_0000_0000_0000_0000_0000_0000,
{
    reveal_with_fuel(pow256, 17);
}

proof fn lemma_le_step(v: nat, b: u8, m: nat)
    ensures
        le_bytes((v * 256 + b) as nat, m + 1) == seq![b] + le_bytes(v, m),
{
    assert((v * 256 + b) % 256 == b as nat && (v * 256 + b) / 256 == v) by (nonlinear_arith)
        requires
            0 <= b < 256,
    ;
}

proof fn lemma_le_injective(a: nat, b: nat, n: nat)
    requires
        a < pow256(n),
        b < pow256(n),
        le_bytes(a, n) == le_bytes(b, n),
    ensures
        a == b,
    decreases n,
{
    if n > 0 {
        let p = pow256((n - 1) as nat);
        lemma_le_len(a, n);
        lemma_le_len(b, n);
        lemma_le_len(a / 256, (n - 1) as nat);
        lemma_le_len(b / 256, (n - 1) as nat);
        assert(le_bytes(a, n)[0] == le_bytes(b, n)[0]);
        assert(le_bytes(a, n)[0] == (a % 256) as u8);
        assert(le_bytes(b, n)[0] == (b % 256) as u8);
        assert(a % 256 == b % 256);
        assert(le_bytes(a, n).subrange(1, n as int) =~= le_bytes(a / 256, (n - 1) as nat));
        assert(le_bytes(b, n).subrange(1, n as int) =~= le_bytes(b / 256, (n - 1) as nat));
        assert(a / 256 < p && b / 256 < p) by (nonlinear_arith)
            requires
                a < 256 * p,
                b < 256 * p,
        ;
        lemma_le_injective(a / 256, b / 256, (n - 1) as nat);
        assert(a == 256 * (a / 256) + a % 256 && b == 256 * (b / 256) + b % 256) by (nonlinear_arith);
    }
}

/// Reads `n` little-endian bytes at `pos`.
fn read_le(b: &Vec<u8>, pos: usize, n: usize) -> (r: u128)
    requires
        pos + n <= b.len(),
        n <= 16,
    ensures
        le_bytes(r as nat, n as nat) == b@.subrange(pos as int, pos + n),
        (r as nat) < pow256(n as nat),
{
    let mut v: u128 = 0;
    let mut k: usize = n;
    proof {
        lemma_pow256_16();
    }
    while k > 0
        invariant
            k <= n <= 16,
            pos + n <= b.len(),
            le_bytes(v as nat, (n - k) as nat) == b@.subrange(pos + k, pos + n),
            (v as nat) < pow256((n - k) as nat),
            pow256(16) == 0x1_0000_0000_0000_0000_0000_0000_0000_0000,
        decreases k,
    {
        k = k - 1;
        let byte = b[pos + k];
        proof {
            let p = pow256((n - k - 1) as nat);
            lemma_pow256_mono((n - k) as nat, 16);
            assert(v * 256 + byte < 256 * p) by (nonlinear_arith)
                requires
                    v < p,
                    byte < 256,
            ;
            lemma_le_step(v as nat, byte, (n - k - 1) as nat);
            assert(b@.subrange(pos + k, pos + n) =~= seq![byte] + b@.subrange(pos + k + 1, pos + n));
        }
        v = v * 256 + byte as u128;
    }
    v
}

proof fn lemma_small_pows()
    ensures
        pow256(2) == 0x1_0000,
        pow256(4) == 0x1_0000_0000,
        pow256(8) == 0x1_0000_0000_0000_0000,
{
    reveal_with_fuel(pow256, 9);
}

/// A message whose lengths fit the wire's four-byte length fields.
pub open spec fn encodable(m: Message) -> bool {
    m.cluster_key@.len() < 0x1_0000_0000 && m.state_changes@.len() < 0x1_0000_0000
}

proof fn lemma_changes_at(cs: Seq<StateChange>, i: int)
    requires
        0 <= i < cs.len(),
    ensures
        changes_bytes(cs).subrange(45 * i, 45 * i + 45) == member_bytes(cs[i].member),
    decreases cs.len(),
{
    let p = cs.drop_last();
    lemma_changes_len(p);
    lemma_member_len(cs.last().member);
    if i < cs.len() - 1 {
        lemma_changes_at(p, i);
        assert(changes_bytes(cs).subrange(45 * i, 45 * i + 45) =~= changes_bytes(p).subrange(
            45 * i,
            45 * i + 45,
        ));
    } else {
        assert(changes_bytes(cs).subrange(45 * i, 45 * i + 45) =~= member_bytes(cs.last().member));
    }
}

proof fn lemma_message_layout(m: Message)
    ensures
        ({
            let b = message_bytes(m);
            let k = m.cluster_key@.len() as int;
            let h = 20 + k + request_len(m.request);
            &&& b.subrange(0, 16) == le_bytes(m.sender as nat, 16)
            &&& b.subrange(16, 20) == le_bytes(k as nat, 4)
            &&& b.subrange(20, 20 + k) == m.cluster_key@
            &&& b.subrange(20 + k, h) == request_bytes(m.request)
            &&& b.subrange(h, h + 4) == le_bytes(m.state_changes@.len(), 4)
            &&& b.subrange(h + 4, b.len() as int) == changes_bytes(m.state_changes@)
        }),
{
    lemma_message_len(m);
    lemma_le_len(m.sender as nat, 16);
    lemma_le_len(m.cluster_key@.len(), 4);
    lemma_le_len(m.state_changes@.len(), 4);
    lemma_changes_len(m.state_changes@);
    let b = message_bytes(m);
    let k = m.cluster_key@.len() as int;
    let h = 20 + k + request_len(m.request);
    assert(request_bytes(m.request).len() == request_len(m.request)) by {
        match m.request {
            Request::PingRequest(a) => {
                lemma_le_len(a.ip as nat, 16);
                lemma_le_len(a.port as nat, 2);
            },
            Request::AckHost(x) => {
                lemma_member_len(x);
            },
            _ => {},
        }
    }
    assert(b.subrange(0, 16) =~= le_bytes(m.sender as nat, 16));
    assert(b.subrange(16, 20) =~= le_bytes(k as nat, 4));
    assert(b.subrange(20, 20 + k) =~= m.cluster_key@);
    assert(b.subrange(20 + k, h) =~= request_bytes(m.request));
    assert(b.subrange(h, h + 4) =~= le_bytes(m.state_changes@.len(), 4));
    assert(b.subrange(h + 4, b.len() as int) =~= changes_bytes(m.state_changes@));
}

fn read_addr(b: &Vec<u8>, pos: usize) -> (r: Option<Addr>)
    requires
        pos + 19 <= b.len(),
    ensures
        r matches Some(a) ==> addr_bytes(a) == b@.subrange(pos as int, pos + 19),
        (exists|a: Addr| addr_bytes(a) == b@.subrange(pos as int, pos + 19)) ==> r is Some,
{
    let flag = b[pos];
    if flag > 1 {
        proof {
            if exists|a: Addr| addr_bytes(a) == b@.subrange(pos as int, pos + 19) {
                let a = choose|a: Addr| addr_bytes(a) == b@.subrange(pos as int, pos + 19);
                assert(addr_bytes(a)[0] == b@[pos as int]);
            }
        }
        return None;
    }
    let ip = read_le(b, pos + 1, 16);
    let port = read_le(b, pos + 17, 2);
    proof {
        lemma_small_pows();
    }
    let a = Addr { v6: flag == 1, ip, port: port as u16 };
    proof {
        lemma_le_len(ip as nat, 16);
        lemma_le_len(port as nat, 2);
        assert(addr_bytes(a) =~= b@.subrange(pos as int, pos + 19));
    }
    Some(a)
}

fn state_of(x: u8) -> (r: MemberState)
    requires
        x < 4,
    ensures
        state_rank(r) == x,
{
    if x == 0 {
        MemberState::Alive
    } else if x == 1 {
        MemberState::Suspect
    } else if x == 2 {
        MemberState::Down
    } else {
        MemberState::Left
    }
}

#[verifier::rlimit(60)]
fn read_member(b: &Vec<u8>, pos: usize) -> (r: Option<Member>)
    requires
        pos + 45 <= b.len(),
    ensures
        r matches Some(m) ==> member_bytes(m) == b@.subrange(pos as int, pos + 45),
        (exists|m: Member| member_bytes(m) == b@.subrange(pos as int, pos + 45)) ==> r is Some,
{
    let ghost slice = b@.subrange(pos as int, pos + 45);
    proof {
        if exists|m: Member| member_bytes(m) == slice {
            let m = choose|m: Member| member_bytes(m) == slice;
            lemma_le_len(m.host_key as nat, 16);
            lemma_le_len(m.incarnation as nat, 8);
            match m.address {
                Some(a) => {
                    lemma_le_len(a.ip as nat, 16);
                    lemma_le_len(a.port as nat, 2);
                    assert(slice[16] == 1u8);
                    assert(slice.subrange(17, 36) =~= addr_bytes(a));
                    assert(b@.subrange(pos + 17, pos + 36) =~= slice.subrange(17, 36));
                },
                None => {
                    assert(slice[16] == 0u8);
                    assert forall|j: int| 17 <= j < 36 implies slice[j] == 0u8 by {
                        assert(slice[j] == zero_bytes(19)[j - 17]);
                    }
                },
            }
            assert(slice[44] == state_rank(m.state) as u8);
        }
    }
    let host_key = read_le(b, pos, 16);
    let flag = b[pos + 16];
    let address = if flag == 1 {
        match read_addr(b, pos + 17) {
            Some(a) => Some(a),
            None => {
                proof {
                    if exists|m: Member| member_bytes(m) == slice {
                        let m = choose|m: Member| member_bytes(m) == slice;
                        lemma_le_len(m.host_key as nat, 16);
                        lemma_le_len(m.incarnation as nat, 8);
                        match m.address {
                            Some(a) => {
                                lemma_le_len(a.ip as nat, 16);
                                lemma_le_len(a.port as nat, 2);
                                assert(slice.subrange(17, 36) =~= addr_bytes(a));
                                assert(b@.subrange(pos + 17, pos + 17 + 19) =~= slice.subrange(17, 36));
                                assert(addr_bytes(a) == b@.subrange(pos + 17, pos + 17 + 19));
                            },
                            None => {
                                assert(slice[16] == 0u8);
                            },
                        }
                    }
                }
                return None;
            },
        }
    } else if flag == 0 {
        proof {
            if exists|m: Member| member_bytes(m) == slice {
                let m = choose|m: Member| member_bytes(m) == slice;
                lemma_le_len(m.host_key as nat, 16);
                lemma_le_len(m.incarnation as nat, 8);
                match m.address {
                    Some(a) => {
                        lemma_le_len(a.ip as nat, 16);
                        lemma_le_len(a.port as nat, 2);
                        assert(slice[16] == 1u8);
                    },
                    None => {
                        assert forall|x: int| 17 <= x < 36 implies slice[x] == 0u8 by {
                            assert(slice[x] == zero_bytes(19)[x - 17]);
                        }
                    },
                }
            }
        }
        let mut j: usize = 17;
        while j < 36
            invariant
                17 <= j <= 36,
                pos + 45 <= b.len(),
                slice == b@.subrange(pos as int, pos + 45),
                forall|x: int| 17 <= x < j ==> slice[x] == 0u8,
                (exists|m: Member| member_bytes(m) == slice) ==> forall|x: int|
                    17 <= x < 36 ==> slice[x] == 0u8,
            decreases 36 - j,
        {
            if b[pos + j] != 0 {
                assert(slice[j as int] == b@[pos + j]);
                return None;
            }
            j = j + 1;
        }
        None
    } else {
        return None;
    };
    let inc = read_le(b, pos + 36, 8);
    let st = b[pos + 44];
    if st > 3 {
        return None;
    }
    proof {
        lemma_small_pows();
    }
    let m = Member { host_key, address, incarnation: inc as u64, state: state_of(st) };
    proof {
        lemma_le_len(host_key as nat, 16);
        lemma_le_len(inc as nat, 8);
        match address {
            Some(a) => {
                lemma_le_len(a.ip as nat, 16);
                lemma_le_len(a.port as nat, 2);
                assert(opt_addr_bytes(address) =~= slice.subrange(16, 36));
            },
            None => {
                assert(opt_addr_bytes(address) =~= slice.subrange(16, 36));
            },
        }
        assert(member_bytes(m) =~= slice);
    }
    Some(m)
}

fn read_changes(b: &Vec<u8>, body: usize, n: usize) -> (r: Option<Vec<StateChange>>)
    requires
        body + 45 * n == b.len(),
    ensures
        r matches Some(cs) ==> cs@.len() == n && changes_bytes(cs@) == b@.subrange(
            body as int,
            b@.len() as int,
        ),
        (exists|cs: Seq<StateChange>|
            cs.len() == n && changes_bytes(cs) == b@.subrange(body as int, b@.len() as int))
            ==> r is Some,
{
    let len = b.len();
    let ghost has = exists|cs: Seq<StateChange>|
        cs.len() == n && changes_bytes(cs) == b@.subrange(body as int, len as int);
    let ghost c0 = choose|cs: Seq<StateChange>|
        cs.len() == n && changes_bytes(cs) == b@.subrange(body as int, len as int);
    let mut changes: Vec<StateChange> = Vec::new();
    let mut c: usize = 0;
    while c < n
        invariant
            body + 45 * n == len == b@.len(),
            c <= n,
            changes@.len() == c,
            changes_bytes(changes@) == b@.subrange(body as int, body + 45 * c),
            has ==> c0.len() == n && b@.subrange(body as int, len as int) == changes_bytes(c0),
            has == exists|cs: Seq<StateChange>|
                cs.len() == n && changes_bytes(cs) == b@.subrange(body as int, len as int),
        decreases n - c,
    {
        let at = body + 45 * c;
        proof {
            if has {
                lemma_changes_at(c0, c as int);
                assert(b@.subrange(at as int, at + 45) =~= b@.subrange(body as int, len as int).subrange(
                    45 * c,
                    45 * c + 45,
                ));
                assert(b@.subrange(at as int, at + 45) == member_bytes(c0[c as int].member));
            }
        }
        match read_member(b, at) {
            Some(m) => {
                let ghost prev = changes@;
                changes.push(StateChange::new(m));
                proof {
                    assert(changes@.drop_last() == prev);
                    assert(b@.subrange(body as int, body + 45 * (c + 1)) =~= b@.subrange(
                        body as int,
                        body + 45 * c,
                    ) + b@.subrange(at as int, at + 45));
                }
            },
            None => {
                return None;
            },
        }
        c = c + 1;
    }
    Some(changes)
}

#[verifier::rlimit(40)]
fn parse_message(b: &Vec<u8>) -> (r: Option<Message>)
    ensures
        r matches Some(m) ==> message_bytes(m) == b@,
        (exists|m: Message| encodable(m) && message_bytes(m) == b@) ==> r is Some,
{
    let ghost has = exists|m: Message| encodable(m) && message_bytes(m) == b@;
    let ghost m0 = choose|m: Message| encodable(m) && message_bytes(m) == b@;
    let ghost k0 = m0.cluster_key@.len() as int;
    let ghost h0 = 20 + k0 + request_len(m0.request);
    proof {
        if has {
            lemma_message_layout(m0);
            lemma_message_len(m0);
            lemma_small_pows();
            lemma_le_len(m0.sender as nat, 16);
        }
    }
    let len = b.len();
    if len < 20 {
        return None;
    }
    let sender = read_le(b, 0, 16);
    let key_len = read_le(b, 16, 4);
    proof {
        lemma_small_pows();
        if has {
            lemma_le_injective(key_len as nat, k0 as nat, 4);
        }
    }
    if key_len > (len - 20) as u128 {
        return None;
    }
    let kl = key_len as usize;
    let mut key: Vec<u8> = Vec::new();
    let mut i: usize = 0;
    while i < kl
        invariant
            20 + kl <= len == b@.len(),
            i <= kl,
            key@ == b@.subrange(20, 20 + i),
        decreases kl - i,
    {
        key.push(b[20 + i]);
        assert(b@.subrange(20, 20 + i + 1) =~= b@.subrange(20, 20 + i).push(b@[20 + i]));
        i = i + 1;
    }
    let start = 20 + kl;
    if start >= len {
        return None;
    }
    let tag = b[start];
    let mut pos = start + 1;
    proof {
        if has {
            assert(b@[start as int] == request_bytes(m0.request)[0]);
        }
    }
    let request = if tag == 0 {
        Request::Ping
    } else if tag == 1 {
        Request::Ack
    } else if tag == 2 {
        if len - pos < 19 {
            return None;
        }
        proof {
            if has {
                if let Request::PingRequest(a) = m0.request {
                    assert(b@.subrange(pos as int, pos + 19) =~= addr_bytes(a));
                }
            }
        }
        match read_addr(b, pos) {
            Some(a) => {
                pos = pos + 19;
                Request::PingRequest(a)
            },
            None => {
                return None;
            },
        }
    } else if tag == 3 {
        if len - pos < 45 {
            return None;
        }
        proof {
            if has {
                if let Request::AckHost(x) = m0.request {
                    lemma_member_len(x);
                    assert(b@.subrange(pos as int, pos + 45) =~= member_bytes(x));
                }
            }
        }
        match read_member(b, pos) {
            Some(m) => {
                pos = pos + 45;
                Request::AckHost(m)
            },
            None => {
                return None;
            },
        }
    } else {
        return None;
    };
    proof {
        assert(request_bytes(request) =~= b@.subrange(start as int, pos as int));
        if has {
            assert(pos == h0);
        }
    }
    if len - pos < 4 {
        return None;
    }
    let count = read_le(b, pos, 4);
    let body = pos + 4;
    proof {
        if has {
            lemma_le_injective(count as nat, m0.state_changes@.len(), 4);
            lemma_changes_len(m0.state_changes@);
        }
    }
    if (len - body) as u128 != count * 45 {
        return None;
    }
    let n = count as usize;
    proof {
        if has {
            assert(b@.subrange(body as int, len as int) == changes_bytes(m0.state_changes@));
        }
    }
    let changes = match read_changes(b, body, n) {
        Some(cs) => cs,
        None => {
            return None;
        },
    };
    let m = Message { sender, cluster_key: key, request, state_changes: changes };
    proof {
        lemma_le_len(sender as nat, 16);
        assert(message_bytes(m) =~= b@);
    }
    Some(m)
}

pub fn same_bytes(a: &Vec<u8>, b: &Vec<u8>) -> (r: bool)
    ensures
        r == (a@ == b@),
{
    if a.len() != b.len() {
        return false;
    }
    let mut i: usize = 0;
    while i < a.len()
        invariant
            i <= a@.len() == b@.len(),
            forall|j: int| 0 <= j < i ==> a@[j] == b@[j],
        decreases a@.len() - i,
    {
        if a[i] != b[i] {
            return false;
        }
        i = i + 1;
    }
    assert(a@ =~= b@);
    true
}

/// Read a datagram: the message whose wire form is exactly `bytes`, if
/// there is one whose lengths fit the wire.
pub fn decode_message(bytes: &Vec<u8>) -> (r: Option<Message>)
    ensures
        r matches Some(m) ==> message_bytes(m) == bytes@,
        (exists|m: Message| encodable(m) && message_bytes(m) == bytes@) ==> r is Some,
{
    parse_message(bytes)
}

} // verus!
