//! The datagram port: a narrow capability for sending and receiving single
//! datagrams, with a deterministic fake for driving the layers above it in
//! tests. The real socket lives outside the library and implements the same
//! trait there.
use vstd::prelude::*;

verus! {

/// A transport-level peer address: four IPv4 octets and a port. Equality is
/// structural.
#[derive(PartialEq, Eq, Structural, Debug, Clone, Copy, Hash)]
pub struct PeerAddr {
    pub o0: u8,
    pub o1: u8,
    pub o2: u8,
    pub o3: u8,
    pub port: u16,
}

impl PeerAddr {
    /// Builds the address `o0.o1.o2.o3:port`.
    pub fn new(o0: u8, o1: u8, o2: u8, o3: u8, port: u16) -> (r: PeerAddr)
        ensures
            r == (PeerAddr { o0, o1, o2, o3, port }),
    {
        PeerAddr { o0, o1, o2, o3, port }
    }
}

/// Why a datagram operation yielded nothing: nothing arrived in time, or the
/// socket itself failed.
#[derive(PartialEq, Eq, Structural, Debug, Clone, Copy)]
pub enum SocketError {
    Timeout,
    Failure,
}

/// A datagram port. `send_to` reports how many bytes went out; `recv_from`
/// fills the start of `buffer` and reports the length and the sender.
pub trait Socket {
    /// Sends `message` to `dst`.
    fn send_to(&self, message: &Vec<u8>, dst: &PeerAddr) -> (r: Result<usize, SocketError>);

    /// Receives one datagram into `buffer`.
    fn recv_from(&self, buffer: &mut Vec<u8>) -> (r: Result<(usize, PeerAddr), SocketError>)
        requires
            old(buffer)@.len() > 0,
        ensures
            final(buffer)@.len() == old(buffer)@.len(),
            r is Ok ==> r->Ok_0.0 <= final(buffer)@.len(),
    ;
}

/// The address the fake socket reports every datagram as coming from.
pub open spec fn dummy_peer() -> PeerAddr {
    PeerAddr { o0: 127, o1: 0, o2: 0, o3: 1, port: 1025 }
}

/// A deterministic fake socket: three switches choose whether sends succeed,
/// whether received datagrams carry data, and whether they arrive in time.
pub struct DummySocket {
    pub send_proper: bool,
    pub recv_proper: bool,
    pub recv_ontime: bool,
}

impl Socket for DummySocket {
    fn send_to(&self, message: &Vec<u8>, dst: &PeerAddr) -> (r: Result<usize, SocketError>)
        ensures
            self.send_proper ==> r == Ok::<usize, SocketError>(message@.len() as usize),
            !self.send_proper ==> r == Ok::<usize, SocketError>(0usize),
    {
        if self.send_proper {
            Ok(message.len())
        } else {
            Ok(0)
        }
    }

    fn recv_from(&self, buffer: &mut Vec<u8>) -> (r: Result<(usize, PeerAddr), SocketError>)
        ensures
            self.recv_proper ==> r == Ok::<(usize, PeerAddr), SocketError>((1usize, dummy_peer()))
                && final(buffer)@ == old(buffer)@.update(0, 1u8),
            !self.recv_proper && self.recv_ontime ==> r == Ok::<(usize, PeerAddr), SocketError>(
                (0usize, dummy_peer()),
            ) && final(buffer)@ == old(buffer)@,
            !self.recv_proper && !self.recv_ontime ==> r == Err::<(usize, PeerAddr), SocketError>(
                SocketError::Timeout,
            ) && final(buffer)@ == old(buffer)@,
    {
        if self.recv_proper {
            buffer[0] = 1;
            Ok((1, PeerAddr::new(127, 0, 0, 1, 1025)))
        } else if self.recv_ontime {
            Ok((0, PeerAddr::new(127, 0, 0, 1, 1025)))
        } else {
            Err(SocketError::Timeout)
        }
    }
}

} // verus!
