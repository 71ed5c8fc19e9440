//! The reliable connection layer: per-peer window sizes grown and halved by
//! an additive-increase / multiplicative-decrease rule, a bounded per-peer
//! retransmit buffer, and send and receive operations that keep both.
use std::collections::HashMap;
use std::hash::Hash;

use vstd::prelude::*;

use crate::parsing::{get_primitive, PrimitiveMessage};
use crate::socket::{PeerAddr, Socket, SocketError};

verus! {

/// Maximum raw bytes in one datagram.
pub const MTU: usize = 1280;

/// Maximum file bytes carried by one data packet.
pub const DATA_SIZE: usize = 1000;

/// The window size every peer starts from.
pub const INITIAL_N: usize = 1;

/// The window size no peer may grow past.
pub const MAX_N: usize = 256;

/// Removes `key` and puts `newval` in its place, when `key` is in `map`; a
/// map without the key stays as it is.
pub fn change_map_value<K, V>(map: &mut HashMap<K, V>, key: K, newval: V) where
    K: Eq,
    K: Hash,

    ensures
        vstd::std_specs::hash::obeys_key_model::<K>()
            && vstd::std_specs::hash::builds_valid_hashers::<
            std::collections::hash_map::RandomState,
        >() ==> final(map)@ == (if old(map)@.dom().contains(key) {
            old(map)@.insert(key, newval)
        } else {
            old(map)@
        }),
{
    if map.remove(&key).is_some() {
        map.insert(key, newval);
    }
}

/// Whether `n` is a power of two.
pub open spec fn is_pow2(n: nat) -> bool
    decreases n,
{
    if n == 0 {
        false
    } else if n == 1 {
        true
    } else {
        n % 2 == 0 && is_pow2(n / 2)
    }
}

/// The state kept for one peer: its window size and the datagrams most
/// recently sent to it, newest last.
pub struct PeerEntry {
    pub addr: PeerAddr,
    pub n: usize,
    pub last_sent: Vec<Vec<u8>>,
    pub encryption_token: Option<Vec<u8>>,
}

/// The byte sequences held in a retransmit buffer, in order.
pub open spec fn views_of(ls: Seq<Vec<u8>>) -> Seq<Seq<u8>> {
    ls.map(|k: int, v: Vec<u8>| v@)
}

/// Whether some entry is for `a`.
pub open spec fn has_addr(s: Seq<PeerEntry>, a: PeerAddr) -> bool {
    exists|i: int| 0 <= i < s.len() && (#[trigger] s[i]).addr == a
}

/// The index of the entry for `a`, meaningful when `has_addr` holds and the
/// addresses are distinct.
pub open spec fn addr_index(s: Seq<PeerEntry>, a: PeerAddr) -> int {
    choose|i: int| 0 <= i < s.len() && (#[trigger] s[i]).addr == a
}

/// No two entries are for the same peer.
pub open spec fn distinct_addrs(s: Seq<PeerEntry>) -> bool {
    forall|i: int, j: int|
        0 <= i < j < s.len() ==> (#[trigger] s[i]).addr != (#[trigger] s[j]).addr
}

/// The window size for `a`: its entry's, or the initial one before first
/// contact.
pub open spec fn spec_window(s: Seq<PeerEntry>, a: PeerAddr) -> nat {
    if has_addr(s, a) {
        s[addr_index(s, a)].n as nat
    } else {
        INITIAL_N as nat
    }
}

/// The retransmit buffer for `a`: its entry's, or empty before first
/// contact.
pub open spec fn spec_last_sent(s: Seq<PeerEntry>, a: PeerAddr) -> Seq<Seq<u8>> {
    if has_addr(s, a) {
        views_of(s[addr_index(s, a)].last_sent@)
    } else {
        Seq::empty()
    }
}

/// What one growth step makes of a window: doubled, unless that would pass
/// the cap.
pub open spec fn grown(n: nat) -> nat {
    if 2 * n <= MAX_N {
        2 * n
    } else {
        n
    }
}

/// What one reset makes of a window: halved, but never below the initial
/// size.
pub open spec fn halved(n: nat) -> nat {
    if n / 2 < INITIAL_N {
        INITIAL_N as nat
    } else {
        n / 2
    }
}

/// The entry for `a` is the only one, and `addr_index` finds it.
pub proof fn lemma_addr_index(s: Seq<PeerEntry>, a: PeerAddr, i: int)
    requires
        distinct_addrs(s),
        0 <= i < s.len(),
        s[i].addr == a,
    ensures
        has_addr(s, a),
        addr_index(s, a) == i,
{
    assert(has_addr(s, a));
    let k = addr_index(s, a);
    if k != i {
        if k < i {
            assert(s[k].addr != s[i].addr);
        } else {
            assert(s[i].addr != s[k].addr);
        }
    }
}

/// Replacing the entry at `i` by one for the same peer changes that peer's
/// window and buffer to the new entry's and leaves every other peer's alone.
pub proof fn lemma_update_frame(s: Seq<PeerEntry>, i: int, e: PeerEntry)
    requires
        distinct_addrs(s),
        0 <= i < s.len(),
        e.addr == s[i].addr,
    ensures
        distinct_addrs(s.update(i, e)),
        has_addr(s.update(i, e), e.addr),
        spec_window(s.update(i, e), e.addr) == e.n as nat,
        spec_last_sent(s.update(i, e), e.addr) == views_of(e.last_sent@),
        forall|b: PeerAddr|
            b != e.addr ==> #[trigger] spec_window(s.update(i, e), b) == spec_window(s, b)
                && spec_last_sent(s.update(i, e), b) == spec_last_sent(s, b),
{
    let s2 = s.update(i, e);
    assert(distinct_addrs(s2));
    lemma_addr_index(s2, e.addr, i);
    assert forall|b: PeerAddr| b != e.addr implies #[trigger] spec_window(s2, b) == spec_window(
        s,
        b,
    ) && spec_last_sent(s2, b) == spec_last_sent(s, b) by {
        if has_addr(s, b) {
            let k = addr_index(s, b);
            assert(0 <= k < s.len() && s[k].addr == b);
            assert(k != i);
            assert(s2[k].addr == b);
            lemma_addr_index(s2, b, k);
        } else {
            if has_addr(s2, b) {
                let k = choose|k: int| 0 <= k < s2.len() && (#[trigger] s2[k]).addr == b;
                assert(k != i);
                assert(s[k].addr == b);
            }
        }
    }
}

/// Appending an entry for a new peer gives that peer the entry's window and
/// buffer and leaves every other peer's alone.
pub proof fn lemma_push_frame(s: Seq<PeerEntry>, e: PeerEntry)
    requires
        distinct_addrs(s),
        !has_addr(s, e.addr),
    ensures
        distinct_addrs(s.push(e)),
        has_addr(s.push(e), e.addr),
        spec_window(s.push(e), e.addr) == e.n as nat,
        spec_last_sent(s.push(e), e.addr) == views_of(e.last_sent@),
        forall|b: PeerAddr|
            b != e.addr ==> #[trigger] spec_window(s.push(e), b) == spec_window(s, b)
                && spec_last_sent(s.push(e), b) == spec_last_sent(s, b),
{
    let s2 = s.push(e);
    assert forall|i: int, j: int| 0 <= i < j < s2.len() implies (#[trigger] s2[i]).addr
        != (#[trigger] s2[j]).addr by {
        if j < s.len() {
        } else {
            assert(s2[j] == e);
            if s[i].addr == e.addr {
                assert(has_addr(s, e.addr));
            }
        }
    }
    lemma_addr_index(s2, e.addr, s.len() as int);
    assert forall|b: PeerAddr| b != e.addr implies #[trigger] spec_window(s2, b) == spec_window(
        s,
        b,
    ) && spec_last_sent(s2, b) == spec_last_sent(s, b) by {
        if has_addr(s, b) {
            let k = addr_index(s, b);
            assert(0 <= k < s.len() && s[k].addr == b);
            assert(s2[k].addr == b);
            lemma_addr_index(s2, b, k);
        } else {
            if has_addr(s2, b) {
                let k = choose|k: int| 0 <= k < s2.len() && (#[trigger] s2[k]).addr == b;
                assert(k == s.len());
            }
        }
    }
}

/// Every retransmit buffer is within its peer's window.
pub open spec fn buffers_bounded(s: Seq<PeerEntry>) -> bool {
    forall|a: PeerAddr| (#[trigger] spec_last_sent(s, a)).len() <= spec_window(s, a)
}

/// The address a failed receive is reported under, so callers can proceed.
pub open spec fn bogus_peer() -> PeerAddr {
    PeerAddr { o0: 127, o1: 0, o2: 0, o3: 253, port: 80 }
}

/// One resend request to every entered peer, in table order.
pub open spec fn resend_broadcast(peers: Seq<PeerEntry>) -> Seq<(PeerAddr, Seq<u8>)> {
    Seq::new(peers.len(), |i: int| (peers[i].addr, crate::parsing::resend_bytes()))
}

/// Every datagram of `msgs` addressed to `ip`, in order.
pub open spec fn replay_to(ip: PeerAddr, msgs: Seq<Seq<u8>>) -> Seq<(PeerAddr, Seq<u8>)> {
    Seq::new(msgs.len(), |j: int| (ip, msgs[j]))
}

/// The connection layer over some datagram socket. Beside the real state it
/// carries two ghost journals: every datagram handed to the port, and every
/// raw answer the port gave to a receive, so that contracts can promise
/// what was transmitted, not only what was recorded.
pub struct Connection<T: Socket> {
    pub socket: T,
    pub peers: Vec<PeerEntry>,
    pub sent: Ghost<Seq<(PeerAddr, Seq<u8>)>>,
    pub received: Ghost<Seq<Result<(usize, PeerAddr), SocketError>>>,
}

/// Builds a fresh connection layer around `socket`, with no peers known and
/// nothing yet on the wire.
pub fn init_conn<T: Socket>(socket: T) -> (r: Connection<T>)
    ensures
        r.wf(),
        r.peers@.len() == 0,
        r.socket == socket,
        r.sent@ == Seq::<(PeerAddr, Seq<u8>)>::empty(),
        r.received@ == Seq::<Result<(usize, PeerAddr), SocketError>>::empty(),
{
    Connection {
        socket,
        peers: Vec::new(),
        sent: Ghost(Seq::empty()),
        received: Ghost(Seq::empty()),
    }
}

impl<T: Socket> Connection<T> {
    /// Every peer is entered once, and every window is a power of two
    /// between the initial size and the cap.
    pub open spec fn wf_windows(self) -> bool {
        &&& distinct_addrs(self.peers@)
        &&& forall|i: int|
            0 <= i < self.peers@.len() ==> {
                let e = #[trigger] self.peers@[i];
                &&& INITIAL_N <= e.n <= MAX_N
                &&& is_pow2(e.n as nat)
            }
    }

    /// Windows well formed, and no retransmit buffer outgrown its window.
    pub open spec fn wf(self) -> bool {
        self.wf_windows() && buffers_bounded(self.peers@)
    }

    /// Finds the entry for `a`.
    fn find_peer(&self, a: &PeerAddr) -> (r: Option<usize>)
        ensures
            r is Some <==> has_addr(self.peers@, *a),
            r is Some ==> r->Some_0 < self.peers@.len() && self.peers@[r->Some_0 as int].addr
                == *a,
    {
        let n = self.peers.len();
        let mut i: usize = 0;
        while i < n
            invariant
                0 <= i <= n,
                n == self.peers@.len(),
                forall|j: int| 0 <= j < i ==> (#[trigger] self.peers@[j]).addr != *a,
            decreases n - i,
        {
            if self.peers[i].addr == *a {
                return Some(i);
            }
            i = i + 1;
        }
        None
    }

    /// Enters `ip` with the initial window and an empty retransmit buffer,
    /// when it is not yet known.
    fn add_ip_to_maps(&mut self, ip: &PeerAddr)
        requires
            old(self).wf_windows(),
        ensures
            final(self).wf_windows(),
            final(self).sent == old(self).sent,
            final(self).received == old(self).received,
            buffers_bounded(old(self).peers@) ==> buffers_bounded(final(self).peers@),
            final(self).socket == old(self).socket,
            has_addr(final(self).peers@, *ip),
            spec_window(final(self).peers@, *ip) == spec_window(old(self).peers@, *ip),
            spec_last_sent(final(self).peers@, *ip) == spec_last_sent(old(self).peers@, *ip),
            forall|b: PeerAddr|
                b != *ip ==> #[trigger] spec_window(final(self).peers@, b) == spec_window(
                    old(self).peers@,
                    b,
                ) && spec_last_sent(final(self).peers@, b) == spec_last_sent(old(self).peers@, b),
    {
        match self.find_peer(ip) {
            Some(i) => {
                proof {
                    lemma_addr_index(self.peers@, *ip, i as int);
                }
            },
            None => {
                let e = PeerEntry {
                    addr: *ip,
                    n: INITIAL_N,
                    last_sent: Vec::new(),
                    encryption_token: None,
                };
                proof {
                    lemma_push_frame(self.peers@, e);
                    assert(views_of(e.last_sent@) =~= Seq::<Seq<u8>>::empty());
                }
                self.peers.push(e);
                proof {
                    if buffers_bounded(old(self).peers@) {
                        assert forall|a: PeerAddr| (#[trigger] spec_last_sent(
                            self.peers@,
                            a,
                        )).len() <= spec_window(self.peers@, a) by {
                            if a != *ip {
                                assert(spec_last_sent(old(self).peers@, a).len() <= spec_window(
                                    old(self).peers@,
                                    a,
                                ));
                            }
                        }
                    }
                }
            },
        }
    }

    /// Grows the window for `ip` by one doubling, up to the cap; a peer not
    /// yet known is entered at the initial window instead.
    fn grow_n(&mut self, ip: &PeerAddr)
        requires
            old(self).wf_windows(),
        ensures
            final(self).wf_windows(),
            final(self).sent == old(self).sent,
            final(self).received == old(self).received,
            buffers_bounded(old(self).peers@) ==> buffers_bounded(final(self).peers@),
            final(self).socket == old(self).socket,
            has_addr(final(self).peers@, *ip),
            has_addr(old(self).peers@, *ip) ==> spec_window(final(self).peers@, *ip) == grown(
                spec_window(old(self).peers@, *ip),
            ),
            !has_addr(old(self).peers@, *ip) ==> spec_window(final(self).peers@, *ip)
                == INITIAL_N as nat,
            spec_last_sent(final(self).peers@, *ip) == spec_last_sent(old(self).peers@, *ip),
            forall|b: PeerAddr|
                b != *ip ==> #[trigger] spec_window(final(self).peers@, b) == spec_window(
                    old(self).peers@,
                    b,
                ) && spec_last_sent(final(self).peers@, b) == spec_last_sent(old(self).peers@, b),
    {
        match self.find_peer(ip) {
            Some(i) => {
                proof {
                    lemma_addr_index(self.peers@, *ip, i as int);
                }
                let n = self.peers[i].n;
                if n * 2 <= MAX_N {
                    let ghost s0 = self.peers@;
                    self.peers[i].n = n * 2;
                    proof {
                        assert(is_pow2((n * 2) as nat)) by {
                            assert((n * 2) as nat % 2 == 0 && (n * 2) as nat / 2 == n as nat);
                        }
                        lemma_update_frame(s0, i as int, self.peers@[i as int]);
                        lemma_addr_index(s0, *ip, i as int);
                        if buffers_bounded(old(self).peers@) {
                            assert forall|a: PeerAddr| (#[trigger] spec_last_sent(
                                self.peers@,
                                a,
                            )).len() <= spec_window(self.peers@, a) by {
                                assert(spec_last_sent(s0, a).len() <= spec_window(s0, a));
                            }
                        }
                    }
                }
            },
            None => {
                self.add_ip_to_maps(ip);
            },
        }
    }

    /// Halves the window for `ip`, but never below the initial size; a peer
    /// not yet known is entered at the initial window instead.
    fn reset_n(&mut self, ip: &PeerAddr)
        requires
            old(self).wf_windows(),
        ensures
            final(self).wf_windows(),
            final(self).sent == old(self).sent,
            final(self).received == old(self).received,
            final(self).socket == old(self).socket,
            has_addr(final(self).peers@, *ip),
            has_addr(old(self).peers@, *ip) ==> spec_window(final(self).peers@, *ip) == halved(
                spec_window(old(self).peers@, *ip),
            ),
            !has_addr(old(self).peers@, *ip) ==> spec_window(final(self).peers@, *ip)
                == INITIAL_N as nat,
            spec_last_sent(final(self).peers@, *ip) == spec_last_sent(old(self).peers@, *ip),
            forall|b: PeerAddr|
                b != *ip ==> #[trigger] spec_window(final(self).peers@, b) == spec_window(
                    old(self).peers@,
                    b,
                ) && spec_last_sent(final(self).peers@, b) == spec_last_sent(old(self).peers@, b),
    {
        match self.find_peer(ip) {
            Some(i) => {
                proof {
                    lemma_addr_index(self.peers@, *ip, i as int);
                }
                let mut n = self.peers[i].n / 2;
                if n < INITIAL_N {
                    n = INITIAL_N;
                }
                let ghost s0 = self.peers@;
                let ghost n0 = self.peers@[i as int].n as nat;
                self.peers[i].n = n;
                proof {
                    assert(is_pow2(n as nat)) by {
                        if n0 > 1 {
                            assert(n0 % 2 == 0 && is_pow2(n0 / 2));
                        }
                    }
                    lemma_update_frame(s0, i as int, self.peers@[i as int]);
                }
            },
            None => {
                self.add_ip_to_maps(ip);
            },
        }
    }

    /// The window size for `ip`. A peer not yet known is entered at the
    /// initial window, which is also returned for it.
    pub fn read_n(&mut self, ip: &PeerAddr) -> (r: usize)
        requires
            old(self).wf_windows(),
        ensures
            final(self).wf_windows(),
            final(self).sent == old(self).sent,
            final(self).received == old(self).received,
            buffers_bounded(old(self).peers@) ==> buffers_bounded(final(self).peers@),
            final(self).socket == old(self).socket,
            r as nat == spec_window(old(self).peers@, *ip),
            has_addr(final(self).peers@, *ip),
            spec_window(final(self).peers@, *ip) == spec_window(old(self).peers@, *ip),
            spec_last_sent(final(self).peers@, *ip) == spec_last_sent(old(self).peers@, *ip),
            forall|b: PeerAddr|
                b != *ip ==> #[trigger] spec_window(final(self).peers@, b) == spec_window(
                    old(self).peers@,
                    b,
                ) && spec_last_sent(final(self).peers@, b) == spec_last_sent(old(self).peers@, b),
    {
        match self.find_peer(ip) {
            Some(i) => {
                proof {
                    lemma_addr_index(self.peers@, *ip, i as int);
                }
                self.peers[i].n
            },
            None => {
                self.add_ip_to_maps(ip);
                INITIAL_N
            },
        }
    }

    /// The addresses of every peer this connection has state for.
    fn get_ip_connected(&self) -> (r: Vec<PeerAddr>)
        ensures
            r@.len() == self.peers@.len(),
            forall|i: int| 0 <= i < r@.len() ==> r@[i] == (#[trigger] self.peers@[i]).addr,
    {
        let n = self.peers.len();
        let mut v: Vec<PeerAddr> = Vec::new();
        let mut i: usize = 0;
        while i < n
            invariant
                0 <= i <= n,
                n == self.peers@.len(),
                v@.len() == i,
                forall|j: int| 0 <= j < i ==> v@[j] == (#[trigger] self.peers@[j]).addr,
            decreases n - i,
        {
            v.push(self.peers[i].addr);
            i = i + 1;
        }
        v
    }

    /// Appends `message` to the retransmit buffer for `ip`, first clearing
    /// a buffer that has filled its window; the batch it held is done.
    fn add_last_msg(&mut self, ip: &PeerAddr, message: Vec<u8>)
        requires
            old(self).wf_windows(),
        ensures
            final(self).wf_windows(),
            final(self).sent == old(self).sent,
            final(self).received == old(self).received,
            buffers_bounded(old(self).peers@) ==> buffers_bounded(final(self).peers@),
            final(self).socket == old(self).socket,
            has_addr(final(self).peers@, *ip),
            spec_last_sent(final(self).peers@, *ip) == (if spec_last_sent(
                old(self).peers@,
                *ip,
            ).len() >= spec_window(old(self).peers@, *ip) {
                seq![message@]
            } else {
                spec_last_sent(old(self).peers@, *ip).push(message@)
            }),
            spec_window(final(self).peers@, *ip) == spec_window(old(self).peers@, *ip),
            forall|b: PeerAddr|
                b != *ip ==> #[trigger] spec_window(final(self).peers@, b) == spec_window(
                    old(self).peers@,
                    b,
                ) && spec_last_sent(final(self).peers@, b) == spec_last_sent(old(self).peers@, b),
    {
        match self.find_peer(ip) {
            Some(i) => {
                proof {
                    lemma_addr_index(self.peers@, *ip, i as int);
                }
                let ghost s0 = self.peers@;
                let ghost ls0 = self.peers@[i as int].last_sent@;
                let w = self.peers[i].n;
                if self.peers[i].last_sent.len() >= w {
                    self.peers[i].last_sent.clear();
                }
                self.peers[i].last_sent.push(message);
                proof {
                    let lsn = self.peers@[i as int].last_sent@;
                    if ls0.len() >= w {
                        assert(views_of(lsn) =~= seq![message@]);
                    } else {
                        assert(views_of(lsn) =~= views_of(ls0).push(message@));
                    }
                    assert(self.peers@ =~= s0.update(i as int, self.peers@[i as int]));
                    lemma_update_frame(s0, i as int, self.peers@[i as int]);
                    lemma_addr_index(s0, *ip, i as int);
                    assert(views_of(ls0) == spec_last_sent(s0, *ip));
                    if buffers_bounded(old(self).peers@) {
                        assert forall|a: PeerAddr| (#[trigger] spec_last_sent(
                            self.peers@,
                            a,
                        )).len() <= spec_window(self.peers@, a) by {
                            if a != *ip {
                                assert(spec_last_sent(s0, a).len() <= spec_window(s0, a));
                            }
                        }
                    }
                }
            },
            None => {
                let mut ls: Vec<Vec<u8>> = Vec::new();
                ls.push(message);
                let e = PeerEntry {
                    addr: *ip,
                    n: INITIAL_N,
                    last_sent: ls,
                    encryption_token: None,
                };
                proof {
                    lemma_push_frame(self.peers@, e);
                    assert(views_of(e.last_sent@) =~= seq![message@]);
                    assert(spec_last_sent(old(self).peers@, *ip) =~= Seq::<Seq<u8>>::empty());
                }
                self.peers.push(e);
                proof {
                    if buffers_bounded(old(self).peers@) {
                        assert forall|a: PeerAddr| (#[trigger] spec_last_sent(
                            self.peers@,
                            a,
                        )).len() <= spec_window(self.peers@, a) by {
                            if a != *ip {
                                assert(spec_last_sent(old(self).peers@, a).len() <= spec_window(
                                    old(self).peers@,
                                    a,
                                ));
                            }
                        }
                    }
                }
            },
        }
    }

    /// Empties the retransmit buffer for `ip`; a peer not yet known stays
    /// unknown.
    fn reset_last_msg(&mut self, ip: &PeerAddr)
        requires
            old(self).wf_windows(),
        ensures
            final(self).wf_windows(),
            final(self).sent == old(self).sent,
            final(self).received == old(self).received,
            buffers_bounded(old(self).peers@) ==> buffers_bounded(final(self).peers@),
            final(self).socket == old(self).socket,
            spec_last_sent(final(self).peers@, *ip) == Seq::<Seq<u8>>::empty(),
            spec_window(final(self).peers@, *ip) == spec_window(old(self).peers@, *ip),
            has_addr(final(self).peers@, *ip) == has_addr(old(self).peers@, *ip),
            forall|b: PeerAddr|
                b != *ip ==> #[trigger] spec_window(final(self).peers@, b) == spec_window(
                    old(self).peers@,
                    b,
                ) && spec_last_sent(final(self).peers@, b) == spec_last_sent(old(self).peers@, b),
    {
        match self.find_peer(ip) {
            Some(i) => {
                proof {
                    lemma_addr_index(self.peers@, *ip, i as int);
                }
                let ghost s0 = self.peers@;
                self.peers[i].last_sent.clear();
                proof {
                    assert(views_of(self.peers@[i as int].last_sent@) =~= Seq::<Seq<u8>>::empty());
                    assert(self.peers@ =~= s0.update(i as int, self.peers@[i as int]));
                    lemma_update_frame(s0, i as int, self.peers@[i as int]);
                    if buffers_bounded(old(self).peers@) {
                        assert forall|a: PeerAddr| (#[trigger] spec_last_sent(
                            self.peers@,
                            a,
                        )).len() <= spec_window(self.peers@, a) by {
                            if a != *ip {
                                assert(spec_last_sent(s0, a).len() <= spec_window(s0, a));
                            }
                        }
                    }
                }
            },
            None => {
                proof {
                    assert(spec_last_sent(self.peers@, *ip) =~= Seq::<Seq<u8>>::empty());
                }
            },
        }
    }

    /// Hands `message` to the port and records it in the transmission
    /// journal; a send error is swallowed, never fatal.
    fn basic_send_to(&mut self, src: &PeerAddr, message: &Vec<u8>)
        ensures
            final(self).peers == old(self).peers,
            final(self).socket == old(self).socket,
            final(self).received == old(self).received,
            final(self).sent@ == old(self).sent@.push((*src, message@)),
    {
        match self.socket.send_to(message, src) {
            Ok(_) => {},
            Err(_) => {},
        }
        proof {
            self.sent@ = self.sent@.push((*src, message@));
        }
    }

    /// Sends `message` to `src`: grows the window by one step, records the
    /// datagram in the retransmit buffer, and hands exactly these bytes to
    /// the port exactly once.
    pub fn send_to(&mut self, src: &PeerAddr, message: &Vec<u8>)
        requires
            old(self).wf(),
        ensures
            final(self).wf(),
            final(self).socket == old(self).socket,
            final(self).received == old(self).received,
            final(self).sent@ == old(self).sent@.push((*src, message@)),
            has_addr(final(self).peers@, *src),
            spec_window(final(self).peers@, *src) == (if has_addr(old(self).peers@, *src) {
                grown(spec_window(old(self).peers@, *src))
            } else {
                INITIAL_N as nat
            }),
            spec_last_sent(final(self).peers@, *src) == (if spec_last_sent(
                old(self).peers@,
                *src,
            ).len() >= spec_window(final(self).peers@, *src) {
                seq![message@]
            } else {
                spec_last_sent(old(self).peers@, *src).push(message@)
            }),
            forall|b: PeerAddr|
                b != *src ==> #[trigger] spec_window(final(self).peers@, b) == spec_window(
                    old(self).peers@,
                    b,
                ) && spec_last_sent(final(self).peers@, b) == spec_last_sent(old(self).peers@, b),
    {
        self.grow_n(src);
        let copy = crate::parsing::copy_range(message.as_slice(), 0, message.len());
        proof {
            assert(copy@ =~= message@);
        }
        self.add_last_msg(src, copy);
        self.basic_send_to(src, message);
    }

    /// Asks every known peer to resend its last batch: one resend request
    /// goes to each entered peer, in table order.
    fn ask_resend_from_all(&mut self)
        ensures
            final(self).peers == old(self).peers,
            final(self).socket == old(self).socket,
            final(self).received == old(self).received,
            final(self).sent@ == old(self).sent@ + resend_broadcast(old(self).peers@),
    {
        let ipaddrs = self.get_ip_connected();
        let n = ipaddrs.len();
        proof {
            assert(self.sent@ =~= old(self).sent@ + resend_broadcast(old(self).peers@).subrange(
                0,
                0,
            ));
        }
        let mut i: usize = 0;
        while i < n
            invariant
                0 <= i <= n,
                n == ipaddrs@.len(),
                n == self.peers@.len(),
                forall|j: int| 0 <= j < n ==> ipaddrs@[j] == (#[trigger] self.peers@[j]).addr,
                self.peers == old(self).peers,
                self.socket == old(self).socket,
                self.received == old(self).received,
                self.sent@ == old(self).sent@ + resend_broadcast(old(self).peers@).subrange(
                    0,
                    i as int,
                ),
            decreases n - i,
        {
            let msg = get_primitive(PrimitiveMessage::RESEND);
            self.basic_send_to(&ipaddrs[i], &msg);
            proof {
                assert(self.sent@ =~= old(self).sent@ + resend_broadcast(
                    old(self).peers@,
                ).subrange(0, i + 1));
            }
            i = i + 1;
        }
        proof {
            assert(resend_broadcast(old(self).peers@).subrange(0, n as int) =~= resend_broadcast(
                old(self).peers@,
            ));
        }
    }

    /// Retransmits every datagram in the retransmit buffer for `ip`, in
    /// order, then halves the window; a buffer that outgrows the halved
    /// window is cleared, its batch given up.
    pub fn resend_to(&mut self, ip: &PeerAddr)
        requires
            old(self).wf(),
        ensures
            final(self).wf(),
            final(self).socket == old(self).socket,
            final(self).received == old(self).received,
            final(self).sent@ == old(self).sent@ + replay_to(
                *ip,
                spec_last_sent(old(self).peers@, *ip),
            ),
            has_addr(final(self).peers@, *ip),
            spec_window(final(self).peers@, *ip) == (if has_addr(old(self).peers@, *ip) {
                halved(spec_window(old(self).peers@, *ip))
            } else {
                INITIAL_N as nat
            }),
            spec_last_sent(final(self).peers@, *ip) == (if spec_last_sent(
                old(self).peers@,
                *ip,
            ).len() >= spec_window(final(self).peers@, *ip) {
                Seq::<Seq<u8>>::empty()
            } else {
                spec_last_sent(old(self).peers@, *ip)
            }),
            forall|b: PeerAddr|
                b != *ip ==> #[trigger] spec_window(final(self).peers@, b) == spec_window(
                    old(self).peers@,
                    b,
                ) && spec_last_sent(final(self).peers@, b) == spec_last_sent(old(self).peers@, b),
    {
        match self.find_peer(ip) {
            Some(i) => {
                proof {
                    lemma_addr_index(self.peers@, *ip, i as int);
                    assert(self.sent@ =~= old(self).sent@ + replay_to(
                        *ip,
                        spec_last_sent(old(self).peers@, *ip),
                    ).subrange(0, 0));
                }
                let m = self.peers[i].last_sent.len();
                let mut j: usize = 0;
                while j < m
                    invariant
                        0 <= j <= m,
                        i < self.peers@.len(),
                        m == self.peers@[i as int].last_sent@.len(),
                        self.peers == old(self).peers,
                        self.socket == old(self).socket,
                        self.received == old(self).received,
                        views_of(self.peers@[i as int].last_sent@) == spec_last_sent(
                            old(self).peers@,
                            *ip,
                        ),
                        self.sent@ == old(self).sent@ + replay_to(
                            *ip,
                            spec_last_sent(old(self).peers@, *ip),
                        ).subrange(0, j as int),
                    decreases m - j,
                {
                    let len = self.peers[i].last_sent[j].len();
                    let msg = crate::parsing::copy_range(
                        self.peers[i].last_sent[j].as_slice(),
                        0,
                        len,
                    );
                    proof {
                        assert(msg@ =~= spec_last_sent(old(self).peers@, *ip)[j as int]);
                    }
                    self.basic_send_to(ip, &msg);
                    proof {
                        assert(self.sent@ =~= old(self).sent@ + replay_to(
                            *ip,
                            spec_last_sent(old(self).peers@, *ip),
                        ).subrange(0, j + 1));
                    }
                    j = j + 1;
                }
                proof {
                    let all = replay_to(*ip, spec_last_sent(old(self).peers@, *ip));
                    assert(all.subrange(0, m as int) =~= all);
                }
            },
            None => {
                proof {
                    assert(spec_last_sent(self.peers@, *ip) =~= Seq::<Seq<u8>>::empty());
                    let all = replay_to(*ip, spec_last_sent(old(self).peers@, *ip));
                    assert(self.sent@ =~= old(self).sent@ + all);
                }
            },
        }
        self.reset_n(ip);
        let len = match self.find_peer(ip) {
            Some(i) => {
                proof {
                    lemma_addr_index(self.peers@, *ip, i as int);
                }
                self.peers[i].last_sent.len()
            },
            None => 0,
        };
        let n = self.read_n(ip);
        if len >= n {
            self.reset_last_msg(ip);
        }
        proof {
            assert(buffers_bounded(self.peers@)) by {
                assert forall|a: PeerAddr| (#[trigger] spec_last_sent(self.peers@, a)).len()
                    <= spec_window(self.peers@, a) by {
                    if a != *ip {
                        assert(spec_last_sent(old(self).peers@, a).len() <= spec_window(
                            old(self).peers@,
                            a,
                        ));
                    }
                }
            }
        }
    }

    /// Receives one datagram: the sender's window grows by one step. A
    /// socket failure is mapped to a zero-length datagram from a bogus
    /// address, so the caller's loop can proceed.
    pub fn recv(&mut self, buffer: &mut Vec<u8>) -> (r: (usize, PeerAddr))
        requires
            old(self).wf(),
            old(buffer)@.len() > 0,
        ensures
            final(self).wf(),
            final(self).socket == old(self).socket,
            final(self).sent == old(self).sent,
            final(self).received@.len() == old(self).received@.len() + 1,
            final(self).received@.drop_last() == old(self).received@,
            final(self).received@.last() matches Ok(got) ==> r == got,
            final(self).received@.last() is Err ==> r == (0usize, bogus_peer()),
            final(buffer)@.len() == old(buffer)@.len(),
            r.0 <= final(buffer)@.len(),
            has_addr(final(self).peers@, r.1),
            has_addr(old(self).peers@, r.1) ==> spec_window(final(self).peers@, r.1) == grown(
                spec_window(old(self).peers@, r.1),
            ),
            !has_addr(old(self).peers@, r.1) ==> spec_window(final(self).peers@, r.1)
                == INITIAL_N as nat,
            forall|b: PeerAddr|
                b != r.1 ==> #[trigger] spec_window(final(self).peers@, b) == spec_window(
                    old(self).peers@,
                    b,
                ) && spec_last_sent(final(self).peers@, b) == spec_last_sent(old(self).peers@, b),
            spec_last_sent(final(self).peers@, r.1) == spec_last_sent(old(self).peers@, r.1),
    {
        let res = self.socket.recv_from(buffer);
        proof {
            self.received@ = self.received@.push(res);
            assert(self.received@.drop_last() =~= old(self).received@);
        }
        match res {
            Ok((amt, src)) => {
                self.grow_n(&src);
                (amt, src)
            },
            Err(_) => {
                let src = PeerAddr::new(127, 0, 0, 253, 80);
                self.grow_n(&src);
                (0, src)
            },
        }
    }

    /// Receives one datagram, bounded by the layer's timeout. On a timely
    /// datagram the sender's window grows; when the wait times out, every
    /// known peer is asked to resend and no value is returned, so the
    /// caller retries.
    pub fn reliable_recv(&mut self, buffer: &mut Vec<u8>) -> (r: Option<(usize, PeerAddr)>)
        requires
            old(self).wf(),
            old(buffer)@.len() > 0,
        ensures
            final(self).wf(),
            final(self).socket == old(self).socket,
            final(buffer)@.len() == old(buffer)@.len(),
            final(self).received@.len() == old(self).received@.len() + 1,
            final(self).received@.drop_last() == old(self).received@,
            final(self).received@.last() matches Ok(got) ==> r == Some(got),
            final(self).received@.last() == Err::<(usize, PeerAddr), SocketError>(
                SocketError::Failure,
            ) ==> r == Some((0usize, bogus_peer())),
            final(self).received@.last() == Err::<(usize, PeerAddr), SocketError>(
                SocketError::Timeout,
            ) ==> r is None,
            r is None ==> final(self).peers == old(self).peers && final(self).sent@ == old(
                self,
            ).sent@ + resend_broadcast(old(self).peers@),
            r is Some ==> final(self).sent == old(self).sent,
            r is Some ==> r->Some_0.0 <= final(buffer)@.len() && has_addr(
                final(self).peers@,
                r->Some_0.1,
            ) && spec_last_sent(final(self).peers@, r->Some_0.1) == spec_last_sent(
                old(self).peers@,
                r->Some_0.1,
            ) && (has_addr(old(self).peers@, r->Some_0.1) ==> spec_window(
                final(self).peers@,
                r->Some_0.1,
            ) == grown(spec_window(old(self).peers@, r->Some_0.1))) && (!has_addr(
                old(self).peers@,
                r->Some_0.1,
            ) ==> spec_window(final(self).peers@, r->Some_0.1) == INITIAL_N as nat) && (forall|
                b: PeerAddr|
                b != r->Some_0.1 ==> #[trigger] spec_window(final(self).peers@, b) == spec_window(
                    old(self).peers@,
                    b,
                ) && spec_last_sent(final(self).peers@, b) == spec_last_sent(old(self).peers@, b)),
    {
        let res = self.socket.recv_from(buffer);
        proof {
            self.received@ = self.received@.push(res);
            assert(self.received@.drop_last() =~= old(self).received@);
        }
        match res {
            Ok((amt, src)) => {
                self.grow_n(&src);
                Some((amt, src))
            },
            Err(SocketError::Timeout) => {
                self.ask_resend_from_all();
                None
            },
            Err(SocketError::Failure) => {
                let src = PeerAddr::new(127, 0, 0, 253, 80);
                self.grow_n(&src);
                Some((0, src))
            },
        }
    }
}

/// After any run, every peer's window lies between the initial size and the
/// cap and is a power of two.
pub proof fn lemma_window_in_range<T: Socket>(c: Connection<T>, a: PeerAddr)
    requires
        c.wf(),
    ensures
        INITIAL_N as nat <= spec_window(c.peers@, a) <= MAX_N as nat,
        is_pow2(spec_window(c.peers@, a)),
{
    if has_addr(c.peers@, a) {
        let i = addr_index(c.peers@, a);
        assert(0 <= i < c.peers@.len() && c.peers@[i].addr == a);
    }
}

/// No peer's retransmit buffer ever holds more datagrams than its window.
pub proof fn lemma_last_sent_bounded<T: Socket>(c: Connection<T>, a: PeerAddr)
    requires
        c.wf(),
    ensures
        spec_last_sent(c.peers@, a).len() <= spec_window(c.peers@, a),
{
}

/// One growth step keeps the window a power of two between the initial
/// size and the cap, and doubles it exactly while the cap allows.
pub proof fn lemma_grown_in_range(n: nat)
    requires
        INITIAL_N <= n <= MAX_N,
        is_pow2(n),
    ensures
        INITIAL_N as nat <= grown(n) <= MAX_N as nat,
        is_pow2(grown(n)),
        2 * n <= MAX_N ==> grown(n) == 2 * n,
        2 * n > MAX_N ==> grown(n) == n,
{
    if 2 * n <= MAX_N {
        assert(is_pow2(2 * n)) by {
            assert((2 * n) % 2 == 0 && (2 * n) / 2 == n);
        }
    }
}

/// One reset halves the window but never below the initial size: a window
/// of twice `k` becomes `k`, and the smallest window stays where it is;
/// the bounds and the power of two are kept.
pub proof fn lemma_halved_in_range(n: nat)
    requires
        INITIAL_N <= n <= MAX_N,
        is_pow2(n),
    ensures
        INITIAL_N as nat <= halved(n) <= MAX_N as nat,
        is_pow2(halved(n)),
        forall|k: nat| n == 2 * k && k >= 1 ==> halved(#[trigger] (2 * k)) == k,
        n == 1 ==> halved(n) == 1,
{
    if n > 1 {
        assert(n % 2 == 0 && is_pow2(n / 2));
    }
}

} // verus!
