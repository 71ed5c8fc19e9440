//! The server engine: a per-peer session table, the served file, the
//! authentication checker, and the state machine that answers requests,
//! paces chunks, and winds a transfer down.
use vstd::prelude::*;
use vstd::utf8::{decode_utf8, encode_utf8, valid_utf8};

use crate::auth::{spec_valid_request, AuthChecker};
use crate::connection::{replay_to, spec_last_sent, spec_window, Connection, DATA_SIZE};
use crate::decimal::{dec_value, is_dec_chars};
use crate::parsing::{data_packet, filesize_packet, get_primitive, parse_last_received,
    parse_primitive};
use crate::parsing::{end_bytes, filesize_chars, resend_bytes};
use crate::parsing::{data_header_chars, last_tag, spec_parse_primitive, ClientState,
    PrimitiveMessage};
use crate::search::seg_after;
use crate::socket::{PeerAddr, Socket};

verus! {

/// One peer's place in the transfer: where its session stands.
#[derive(Clone, Copy)]
pub struct Session {
    pub addr: PeerAddr,
    pub state: ClientState,
}

/// Whether some session is for `a`.
pub open spec fn has_session(s: Seq<Session>, a: PeerAddr) -> bool {
    exists|i: int| 0 <= i < s.len() && (#[trigger] s[i]).addr == a
}

/// The index of the session for `a`, meaningful when `has_session` holds
/// and the addresses are distinct.
pub open spec fn session_index(s: Seq<Session>, a: PeerAddr) -> int {
    choose|i: int| 0 <= i < s.len() && (#[trigger] s[i]).addr == a
}

/// No two sessions are for the same peer.
pub open spec fn distinct_sessions(s: Seq<Session>) -> bool {
    forall|i: int, j: int|
        0 <= i < j < s.len() ==> (#[trigger] s[i]).addr != (#[trigger] s[j]).addr
}

/// The state of the session for `a`, or nothing where no session stands.
pub open spec fn spec_state(s: Seq<Session>, a: PeerAddr) -> Option<ClientState> {
    if has_session(s, a) {
        Some(s[session_index(s, a)].state)
    } else {
        None
    }
}

/// The session for `a` is the only one, and `session_index` finds it.
pub proof fn lemma_session_index(s: Seq<Session>, a: PeerAddr, i: int)
    requires
        distinct_sessions(s),
        0 <= i < s.len(),
        s[i].addr == a,
    ensures
        has_session(s, a),
        session_index(s, a) == i,
{
    assert(has_session(s, a));
    let k = session_index(s, a);
    if k != i {
        if k < i {
            assert(s[k].addr != s[i].addr);
        } else {
            assert(s[i].addr != s[k].addr);
        }
    }
}

/// Replacing the session at `i` by one for the same peer moves only that
/// peer's state.
pub proof fn lemma_session_update(s: Seq<Session>, i: int, e: Session)
    requires
        distinct_sessions(s),
        0 <= i < s.len(),
        e.addr == s[i].addr,
    ensures
        distinct_sessions(s.update(i, e)),
        spec_state(s.update(i, e), e.addr) == Some(e.state),
        forall|b: PeerAddr|
            b != e.addr ==> #[trigger] spec_state(s.update(i, e), b) == spec_state(s, b),
{
    let s2 = s.update(i, e);
    lemma_session_index(s2, e.addr, i);
    assert forall|b: PeerAddr| b != e.addr implies #[trigger] spec_state(s2, b) == spec_state(
        s,
        b,
    ) by {
        if has_session(s, b) {
            let k = session_index(s, b);
            assert(0 <= k < s.len() && s[k].addr == b);
            assert(s2[k].addr == b);
            lemma_session_index(s2, b, k);
        } else {
            if has_session(s2, b) {
                let k = choose|k: int| 0 <= k < s2.len() && (#[trigger] s2[k]).addr == b;
                assert(s[k].addr == b);
            }
        }
    }
}

/// Appending a session for a new peer gives only that peer a state.
pub proof fn lemma_session_push(s: Seq<Session>, e: Session)
    requires
        distinct_sessions(s),
        !has_session(s, e.addr),
    ensures
        distinct_sessions(s.push(e)),
        spec_state(s.push(e), e.addr) == Some(e.state),
        forall|b: PeerAddr|
            b != e.addr ==> #[trigger] spec_state(s.push(e), b) == spec_state(s, b),
{
    let s2 = s.push(e);
    assert forall|i: int, j: int| 0 <= i < j < s2.len() implies (#[trigger] s2[i]).addr
        != (#[trigger] s2[j]).addr by {
        if j == s.len() {
            if s[i].addr == e.addr {
                assert(has_session(s, e.addr));
            }
        }
    }
    lemma_session_index(s2, e.addr, s.len() as int);
    assert forall|b: PeerAddr| b != e.addr implies #[trigger] spec_state(s2, b) == spec_state(
        s,
        b,
    ) by {
        if has_session(s, b) {
            let k = session_index(s, b);
            assert(0 <= k < s.len() && s[k].addr == b);
            assert(s2[k].addr == b);
            lemma_session_index(s2, b, k);
        } else {
            if has_session(s2, b) {
                let k = choose|k: int| 0 <= k < s2.len() && (#[trigger] s2[k]).addr == b;
                assert(k == s.len());
            }
        }
    }
}

/// Dropping the session at `i` forgets only that peer's state.
pub proof fn lemma_session_remove(s: Seq<Session>, i: int)
    requires
        distinct_sessions(s),
        0 <= i < s.len(),
    ensures
        distinct_sessions(s.remove(i)),
        spec_state(s.remove(i), s[i].addr) is None,
        forall|b: PeerAddr|
            b != s[i].addr ==> #[trigger] spec_state(s.remove(i), b) == spec_state(s, b),
{
    let s2 = s.remove(i);
    assert(s2.len() == s.len() - 1);
    assert forall|k: int| 0 <= k < s2.len() implies s2[k] == (if k < i {
        s[k]
    } else {
        s[k + 1]
    }) by {}
    assert forall|k1: int, k2: int| 0 <= k1 < k2 < s2.len() implies (#[trigger] s2[k1]).addr
        != (#[trigger] s2[k2]).addr by {}
    if has_session(s2, s[i].addr) {
        let k = choose|k: int| 0 <= k < s2.len() && (#[trigger] s2[k]).addr == s[i].addr;
        if k < i {
            assert(s[k].addr != s[i].addr);
        } else {
            assert(s[i].addr != s[k + 1].addr);
        }
    }
    assert forall|b: PeerAddr| b != s[i].addr implies #[trigger] spec_state(s2, b) == spec_state(
        s,
        b,
    ) by {
        if has_session(s, b) {
            let k = session_index(s, b);
            assert(0 <= k < s.len() && s[k].addr == b);
            assert(k != i);
            if k < i {
                assert(s2[k].addr == b);
                lemma_session_index(s2, b, k);
            } else {
                assert(s2[k - 1].addr == b);
                lemma_session_index(s2, b, k - 1);
            }
        } else {
            if has_session(s2, b) {
                let k = choose|k: int| 0 <= k < s2.len() && (#[trigger] s2[k]).addr == b;
                if k < i {
                    assert(s[k].addr == b);
                } else {
                    assert(s[k + 1].addr == b);
                }
            }
        }
    }
}

/// What a progress report in `amt` leading bytes of `message` reports, or
/// nothing where none is read: the value `parse_last_received` returns.
pub open spec fn spec_last_received(message: Seq<u8>, amt: int) -> Option<int> {
    let pre = message.subrange(0, amt);
    let txt = decode_utf8(pre);
    let seg = seg_after(txt, last_tag());
    if spec_parse_primitive(message, amt) != PrimitiveMessage::ACK && 0 <= amt <= message.len()
        && valid_utf8(pre) && seg is Some && is_dec_chars(seg->Some_0) && dec_value(seg->Some_0)
        <= usize::MAX {
        Some(dec_value(seg->Some_0) as int)
    } else {
        None
    }
}

/// Where a session moves on one message, per the server's state table;
/// nothing means the session is dropped. `window` is the peer's window when
/// the message arrives and decides whether a batch reaches the end of the
/// file.
pub open spec fn next_session(
    st: ClientState,
    message: Seq<u8>,
    amt: int,
    files: Seq<String>,
    tokens: Seq<String>,
    filesize: nat,
    window: nat,
) -> Option<ClientState> {
    let prim = spec_parse_primitive(message, amt);
    match st {
        ClientState::NoState => if spec_valid_request(files, tokens, message, amt) {
            Some(ClientState::ACKorNACK)
        } else {
            None
        },
        ClientState::ACKorNACK => if prim == PrimitiveMessage::ACK {
            Some(ClientState::SendFile)
        } else if prim == PrimitiveMessage::NACK {
            None
        } else {
            Some(ClientState::ACKorNACK)
        },
        ClientState::SendFile => if prim == PrimitiveMessage::END {
            None
        } else if prim == PrimitiveMessage::RESEND {
            Some(ClientState::SendFile)
        } else {
            match spec_last_received(message, amt) {
                Some(off) => if off + window * DATA_SIZE >= filesize {
                    Some(ClientState::EndedConn)
                } else {
                    Some(ClientState::SendFile)
                },
                None => Some(ClientState::SendFile),
            }
        },
        ClientState::EndConn => if prim == PrimitiveMessage::END {
            None
        } else {
            Some(ClientState::EndedConn)
        },
        ClientState::EndedConn => if prim == PrimitiveMessage::END {
            None
        } else {
            Some(ClientState::EndedConn)
        },
    }
}

/// The data packet serving the chunk at `off` of `file`: the header naming
/// the offset, then the file's bytes there, cut at the end of the file; an
/// empty body past the end.
pub open spec fn chunk_packet(file: Seq<u8>, off: int) -> Seq<u8> {
    let lo = if off < file.len() {
        off
    } else {
        file.len() as int
    };
    let hi = if off + DATA_SIZE < file.len() {
        off + DATA_SIZE
    } else {
        file.len() as int
    };
    encode_utf8(data_header_chars(off as nat)) + file.subrange(lo, hi)
}

/// The batch of data packets one window serves from `offset`: one chunk
/// every `DATA_SIZE` bytes in rising offset order, stopping with the chunk
/// that reaches the end of the file, and at most `n` in all.
pub open spec fn spec_batch(file: Seq<u8>, peer: PeerAddr, offset: int, n: int) -> Seq<
    (PeerAddr, Seq<u8>),
>
    decreases n,
{
    if n <= 0 {
        Seq::empty()
    } else if offset + DATA_SIZE >= file.len() {
        seq![(peer, chunk_packet(file, offset))]
    } else {
        seq![(peer, chunk_packet(file, offset))] + spec_batch(
            file,
            peer,
            offset + DATA_SIZE,
            n - 1,
        )
    }
}

/// The server: its session table, the file it serves, and its checker.
pub struct Server {
    pub sessions: Vec<Session>,
    pub file: Vec<u8>,
    pub auth: AuthChecker,
}

/// Builds a server around the file's contents and a checker.
pub fn init_server(file: Vec<u8>, auth: AuthChecker) -> (r: Server)
    ensures
        r.wf(),
        r.sessions@.len() == 0,
        r.file == file,
        r.auth == auth,
{
    Server { sessions: Vec::new(), file, auth }
}

impl Server {
    /// Every peer has at most one session.
    pub open spec fn wf(self) -> bool {
        distinct_sessions(self.sessions@)
    }

    /// Finds the session for `a`.
    fn find_session(&self, a: &PeerAddr) -> (r: Option<usize>)
        ensures
            r is Some <==> has_session(self.sessions@, *a),
            r is Some ==> r->Some_0 < self.sessions@.len()
                && self.sessions@[r->Some_0 as int].addr == *a,
    {
        let n = self.sessions.len();
        let mut i: usize = 0;
        while i < n
            invariant
                0 <= i <= n,
                n == self.sessions@.len(),
                forall|j: int| 0 <= j < i ==> (#[trigger] self.sessions@[j]).addr != *a,
            decreases n - i,
        {
            if self.sessions[i].addr == *a {
                return Some(i);
            }
            i = i + 1;
        }
        None
    }

    /// Moves the session for `a` to `st`.
    fn set_state(&mut self, a: &PeerAddr, st: ClientState)
        requires
            old(self).wf(),
            has_session(old(self).sessions@, *a),
        ensures
            final(self).wf(),
            final(self).file == old(self).file,
            final(self).auth == old(self).auth,
            spec_state(final(self).sessions@, *a) == Some(st),
            forall|b: PeerAddr|
                b != *a ==> #[trigger] spec_state(final(self).sessions@, b) == spec_state(
                    old(self).sessions@,
                    b,
                ),
    {
        if let Some(i) = self.find_session(a) {
            let ghost s0 = self.sessions@;
            self.sessions[i].state = st;
            proof {
                lemma_session_update(s0, i as int, self.sessions@[i as int]);
            }
        }
    }

    /// Drops the session for `a`.
    fn remove_session(&mut self, a: &PeerAddr)
        requires
            old(self).wf(),
        ensures
            final(self).wf(),
            final(self).file == old(self).file,
            final(self).auth == old(self).auth,
            spec_state(final(self).sessions@, *a) is None,
            forall|b: PeerAddr|
                b != *a ==> #[trigger] spec_state(final(self).sessions@, b) == spec_state(
                    old(self).sessions@,
                    b,
                ),
    {
        if let Some(i) = self.find_session(a) {
            proof {
                lemma_session_remove(self.sessions@, i as int);
            }
            self.sessions.remove(i);
        }
    }

    /// Sends up to one window of data packets starting at `offset`, each
    /// chunk at its own offset. A chunk that would cross the end of the
    /// file is cut to the tail, the batch stops there, and the transfer is
    /// reported ended.
    pub fn send_n_chunks<T: Socket>(
        &self,
        conn: &mut Connection<T>,
        peer: &PeerAddr,
        offset: usize,
    ) -> (ended: bool)
        requires
            old(conn).wf(),
        ensures
            final(conn).wf(),
            final(conn).received == old(conn).received,
            final(conn).sent@ == old(conn).sent@ + spec_batch(
                self.file@,
                *peer,
                offset as int,
                spec_window(old(conn).peers@, *peer) as int,
            ),
            ended <==> offset + spec_window(old(conn).peers@, *peer) * DATA_SIZE
                >= self.file@.len(),
            forall|b: PeerAddr|
                b != *peer ==> #[trigger] spec_window(final(conn).peers@, b) == spec_window(
                    old(conn).peers@,
                    b,
                ) && spec_last_sent(final(conn).peers@, b) == spec_last_sent(old(conn).peers@, b),
    {
        let n = conn.read_n(peer);
        proof {
            crate::connection::lemma_window_in_range(*old(conn), *peer);
        }
        let flen = self.file.len();
        let mut ended = false;
        let mut off = offset;
        let mut t: usize = 0;
        while t < n && !ended
            invariant
                0 <= t <= n,
                1 <= n,
                n as nat == spec_window(old(conn).peers@, *peer),
                conn.wf(),
                conn.socket == old(conn).socket,
                flen == self.file@.len(),
                !ended ==> off == offset + t * DATA_SIZE,
                !ended ==> (offset + n * DATA_SIZE >= flen ==> t < n),
                ended ==> offset + n * DATA_SIZE >= flen,
                conn.received == old(conn).received,
                old(conn).sent@ + spec_batch(self.file@, *peer, offset as int, n as int)
                    == conn.sent@ + (if ended {
                    Seq::<(PeerAddr, Seq<u8>)>::empty()
                } else {
                    spec_batch(self.file@, *peer, off as int, n - t)
                }),
                forall|b: PeerAddr|
                    b != *peer ==> #[trigger] spec_window(conn.peers@, b) == spec_window(
                        old(conn).peers@,
                        b,
                    ) && spec_last_sent(conn.peers@, b) == spec_last_sent(old(conn).peers@, b),
            decreases n - t,
        {
            let lo = if off < flen {
                off
            } else {
                flen
            };
            let hi = if off < flen && flen - off >= DATA_SIZE {
                off + DATA_SIZE
            } else {
                flen
            };
            let ghost sent_pre = conn.sent@;
            let chunk = crate::parsing::copy_range(self.file.as_slice(), lo, hi);
            let packet = data_packet(off, &chunk);
            proof {
                assert(packet@ =~= chunk_packet(self.file@, off as int));
            }
            conn.send_to(peer, &packet);
            proof {
                assert(conn.sent@ =~= sent_pre + seq![(*peer, chunk_packet(self.file@, off as int))]);
            }
            if off >= flen || flen - off <= DATA_SIZE {
                ended = true;
                proof {
                    assert(off + DATA_SIZE >= flen);
                    assert(offset + n * DATA_SIZE >= offset + (t + 1) * DATA_SIZE) by (
                    nonlinear_arith)
                        requires
                            t < n,
                            DATA_SIZE == 1000,
                    ;
                    assert(offset + (t + 1) * DATA_SIZE == off + DATA_SIZE) by (nonlinear_arith)
                        requires
                            off == offset + t * DATA_SIZE,
                            DATA_SIZE == 1000,
                    ;
                    assert(spec_batch(self.file@, *peer, off as int, n - t) =~= seq![
                        (*peer, chunk_packet(self.file@, off as int)),
                    ]);
                }
            } else {
                proof {
                    assert(offset + (t + 1) * DATA_SIZE == off + DATA_SIZE) by (nonlinear_arith)
                        requires
                            off == offset + t * DATA_SIZE,
                            DATA_SIZE == 1000,
                    ;
                    assert(spec_batch(self.file@, *peer, off as int, n - t) =~= seq![
                        (*peer, chunk_packet(self.file@, off as int)),
                    ] + spec_batch(self.file@, *peer, off + DATA_SIZE, n - t - 1));
                    assert(sent_pre + (seq![(*peer, chunk_packet(self.file@, off as int))]
                        + spec_batch(self.file@, *peer, off + DATA_SIZE, n - t - 1)) =~= (sent_pre
                        + seq![(*peer, chunk_packet(self.file@, off as int))]) + spec_batch(
                        self.file@,
                        *peer,
                        off + DATA_SIZE,
                        n - t - 1,
                    ));
                }
                off = off + DATA_SIZE;
            }
            t = t + 1;
        }
        proof {
            if !ended {
                assert(t == n);
                assert(spec_batch(self.file@, *peer, off as int, 0) =~= Seq::<(
                    PeerAddr,
                    Seq<u8>,
                )>::empty());
            }
            assert(conn.sent@ =~= old(conn).sent@ + spec_batch(
                self.file@,
                *peer,
                offset as int,
                n as int,
            ));
        }
        ended
    }

    /// Takes one datagram from `src` and drives that peer's session through
    /// the server's state table, sending whatever the table calls for: the
    /// size report or the refusal on first contact, the next batch of
    /// chunks on a progress report, an echoed resend request mid-transfer,
    /// the retransmit buffer after the end, and the terminal notice.
    pub fn handle_message<T: Socket>(
        &mut self,
        conn: &mut Connection<T>,
        src: PeerAddr,
        message: &Vec<u8>,
        amt: usize,
    )
        requires
            old(self).wf(),
            old(conn).wf(),
            amt <= message@.len(),
        ensures
            final(self).wf(),
            final(conn).wf(),
            final(self).file == old(self).file,
            final(self).auth == old(self).auth,
            ({
                let st0 = match spec_state(old(self).sessions@, src) {
                    Some(st) => st,
                    None => ClientState::NoState,
                };
                spec_state(final(self).sessions@, src) == next_session(
                    st0,
                    message@,
                    amt as int,
                    old(self).auth.valid_files@,
                    old(self).auth.valid_tokens@,
                    old(self).file@.len(),
                    spec_window(old(conn).peers@, src),
                )
            }),
            forall|b: PeerAddr|
                b != src ==> #[trigger] spec_state(final(self).sessions@, b) == spec_state(
                    old(self).sessions@,
                    b,
                ),
            final(conn).received == old(conn).received,
            ({
                let st0 = match spec_state(old(self).sessions@, src) {
                    Some(st) => st,
                    None => ClientState::NoState,
                };
                let prim = spec_parse_primitive(message@, amt as int);
                let sent0 = old(conn).sent@;
                let file = old(self).file@;
                let window = spec_window(old(conn).peers@, src) as int;
                match st0 {
                    ClientState::NoState => if spec_valid_request(
                        old(self).auth.valid_files@,
                        old(self).auth.valid_tokens@,
                        message@,
                        amt as int,
                    ) {
                        final(conn).sent@ == sent0.push(
                            (src, encode_utf8(filesize_chars(file.len()))),
                        )
                    } else {
                        final(conn).sent@ == sent0.push(
                            (src, encode_utf8(filesize_chars(0))),
                        ).push((src, end_bytes()))
                    },
                    ClientState::ACKorNACK => if prim == PrimitiveMessage::NACK {
                        final(conn).sent@ == sent0.push((src, end_bytes()))
                    } else {
                        final(conn).sent@ == sent0
                    },
                    ClientState::SendFile => if prim == PrimitiveMessage::END {
                        final(conn).sent@ == sent0.push((src, end_bytes()))
                    } else if prim == PrimitiveMessage::RESEND {
                        final(conn).sent@ == sent0.push((src, resend_bytes()))
                    } else {
                        match spec_last_received(message@, amt as int) {
                            Some(off) => final(conn).sent@ == sent0 + spec_batch(
                                file,
                                src,
                                off,
                                window,
                            ),
                            None => final(conn).sent@ == sent0,
                        }
                    },
                    ClientState::EndConn => final(conn).sent@ == sent0.push((src, end_bytes())),
                    ClientState::EndedConn => if prim == PrimitiveMessage::END {
                        final(conn).sent@ == sent0.push((src, end_bytes()))
                    } else if prim == PrimitiveMessage::RESEND {
                        final(conn).sent@ == sent0 + replay_to(
                            src,
                            spec_last_sent(old(conn).peers@, src),
                        )
                    } else {
                        match spec_last_received(message@, amt as int) {
                            Some(off) => final(conn).sent@ == sent0 + spec_batch(
                                file,
                                src,
                                off,
                                window,
                            ),
                            None => final(conn).sent@ == sent0,
                        }
                    },
                }
            }),
    {
        let st = match self.find_session(&src) {
            Some(i) => {
                proof {
                    lemma_session_index(self.sessions@, src, i as int);
                }
                self.sessions[i].state
            },
            None => {
                let e = Session { addr: src, state: ClientState::NoState };
                proof {
                    lemma_session_push(self.sessions@, e);
                }
                self.sessions.push(e);
                ClientState::NoState
            },
        };
        let prim = parse_primitive(message.as_slice(), amt);
        match st {
            ClientState::NoState => {
                if self.auth.is_valid_request(message.as_slice(), amt) {
                    let fs = filesize_packet(self.file.len());
                    conn.send_to(&src, &fs);
                    self.set_state(&src, ClientState::ACKorNACK);
                } else {
                    let fs = filesize_packet(0);
                    conn.send_to(&src, &fs);
                    let end = get_primitive(PrimitiveMessage::END);
                    conn.send_to(&src, &end);
                    self.remove_session(&src);
                }
            },
            ClientState::ACKorNACK => {
                if prim == PrimitiveMessage::ACK {
                    self.set_state(&src, ClientState::SendFile);
                } else if prim == PrimitiveMessage::NACK {
                    let end = get_primitive(PrimitiveMessage::END);
                    conn.send_to(&src, &end);
                    self.remove_session(&src);
                } else {
                }
            },
            ClientState::SendFile => {
                if prim == PrimitiveMessage::END {
                    let end = get_primitive(PrimitiveMessage::END);
                    conn.send_to(&src, &end);
                    self.remove_session(&src);
                } else if prim == PrimitiveMessage::RESEND {
                    let r = get_primitive(PrimitiveMessage::RESEND);
                    conn.send_to(&src, &r);
                } else {
                    match parse_last_received(message.as_slice(), amt) {
                        Some(off) => {
                            let ended = self.send_n_chunks(conn, &src, off);
                            if ended {
                                self.set_state(&src, ClientState::EndedConn);
                            }
                        },
                        None => {},
                    }
                }
            },
            ClientState::EndConn => {
                let end = get_primitive(PrimitiveMessage::END);
                conn.send_to(&src, &end);
                if prim == PrimitiveMessage::END {
                    self.remove_session(&src);
                } else {
                    self.set_state(&src, ClientState::EndedConn);
                }
            },
            ClientState::EndedConn => {
                if prim == PrimitiveMessage::END {
                    let end = get_primitive(PrimitiveMessage::END);
                    conn.send_to(&src, &end);
                    self.remove_session(&src);
                } else if prim == PrimitiveMessage::RESEND {
                    conn.resend_to(&src);
                } else {
                    match parse_last_received(message.as_slice(), amt) {
                        Some(off) => {
                            let _ = self.send_n_chunks(conn, &src, off);
                        },
                        None => {},
                    }
                }
            },
        }
    }
}

} // verus!