use std::collections::HashMap;

use filetransfer::connection::{change_map_value, init_conn, DATA_SIZE, MTU};
use filetransfer::socket::{DummySocket, PeerAddr, Socket, SocketError};

#[test]
fn dummy_socket_behaviour() {
    let dum1 = DummySocket { send_proper: false, recv_proper: false, recv_ontime: true };
    let dum2 = DummySocket { send_proper: true, recv_proper: true, recv_ontime: true };
    let dum3 = DummySocket { send_proper: true, recv_proper: false, recv_ontime: true };
    let msg = b"Hello world".to_vec();
    let ip1 = PeerAddr::new(127, 0, 0, 1, 1026);
    assert_eq!(dum1.send_to(&msg, &ip1), Ok(0));
    assert_eq!(dum2.send_to(&msg, &ip1), Ok(msg.len()));
    assert_eq!(dum3.send_to(&msg, &ip1), Ok(msg.len()));

    let mut buf = vec![0u8; MTU];
    match dum2.recv_from(&mut buf) {
        Ok((size, from)) => {
            assert_eq!(size, 1);
            assert_eq!(buf[0], 1);
            assert_eq!(from, PeerAddr::new(127, 0, 0, 1, 1025));
        }
        Err(_) => panic!("expected data"),
    }
    buf[0] = 0;
    match dum3.recv_from(&mut buf) {
        Ok((size, _)) => {
            assert_eq!(size, 0);
            assert_eq!(buf[0], 0);
        }
        Err(_) => panic!("expected an empty but timely datagram"),
    }
    let late = DummySocket { send_proper: true, recv_proper: false, recv_ontime: false };
    assert_eq!(late.recv_from(&mut buf), Err(SocketError::Timeout));
}

#[test]
fn dummy_harness_tolerated() {
    // send_ok = true, recv_ok = false, recv_timely = true: the receive
    // yields a zero-length datagram from 127.0.0.1:1025 and the layer
    // proceeds.
    let sock = DummySocket { send_proper: true, recv_proper: false, recv_ontime: true };
    let mut conn = init_conn(sock);
    let mut buf = vec![0u8; MTU];
    let (amt, from) = conn.recv(&mut buf);
    assert_eq!(amt, 0);
    assert_eq!(from, PeerAddr::new(127, 0, 0, 1, 1025));
}

#[test]
fn window_grows_by_doubling_up_to_cap() {
    let sock = DummySocket { send_proper: true, recv_proper: true, recv_ontime: true };
    let mut conn = init_conn(sock);
    let peer = PeerAddr::new(10, 0, 0, 1, 4000);
    let msg = b"LAST 0".to_vec();
    let mut expected: usize = 1;
    conn.send_to(&peer, &msg);
    assert_eq!(conn.read_n(&peer), 1);
    for _ in 0..20 {
        conn.send_to(&peer, &msg);
        if expected * 2 <= 256 {
            expected *= 2;
        }
        let n = conn.read_n(&peer);
        assert_eq!(n, expected);
        assert!(1 <= n && n <= 256);
        assert!(n.is_power_of_two());
    }
    assert_eq!(conn.read_n(&peer), 256);
}

#[test]
fn resend_halves_window() {
    let sock = DummySocket { send_proper: true, recv_proper: true, recv_ontime: true };
    let mut conn = init_conn(sock);
    let peer = PeerAddr::new(10, 0, 0, 2, 4001);
    let msg = b"OFFSET: 0\npayload".to_vec();
    for _ in 0..3 {
        conn.send_to(&peer, &msg);
    }
    assert_eq!(conn.read_n(&peer), 4);
    conn.resend_to(&peer);
    assert_eq!(conn.read_n(&peer), 2);
    conn.resend_to(&peer);
    assert_eq!(conn.read_n(&peer), 1);
    conn.resend_to(&peer);
    assert_eq!(conn.read_n(&peer), 1);
}

#[test]
fn timeout_then_recovery() {
    let late = DummySocket { send_proper: true, recv_proper: false, recv_ontime: false };
    let mut conn = init_conn(late);
    let peer = PeerAddr::new(10, 0, 0, 3, 4002);
    conn.send_to(&peer, &b"SIZE 10".to_vec());
    let before = conn.read_n(&peer);
    let mut buf = vec![0u8; MTU];
    // the wait times out: a resend request goes to every known peer, no
    // value comes back, and no state is torn down
    assert_eq!(conn.reliable_recv(&mut buf), None);
    assert_eq!(conn.read_n(&peer), before);
    // on the next round a datagram arrives in time
    let timely = DummySocket { send_proper: true, recv_proper: true, recv_ontime: true };
    let mut conn2 = init_conn(timely);
    let got = conn2.reliable_recv(&mut buf);
    assert_eq!(got, Some((1, PeerAddr::new(127, 0, 0, 1, 1025))));
}

#[test]
fn unknown_peer_starts_at_initial_window() {
    let sock = DummySocket { send_proper: true, recv_proper: true, recv_ontime: true };
    let mut conn = init_conn(sock);
    let peer = PeerAddr::new(10, 0, 0, 4, 4003);
    assert_eq!(conn.read_n(&peer), 1);
    assert_eq!(conn.read_n(&peer), 1);
    assert_eq!(DATA_SIZE, 1000);
    assert_eq!(MTU, 1280);
}

#[test]
fn change_map_value_touches_only_present_keys() {
    let mut map: HashMap<u64, u64> = HashMap::new();
    map.insert(1, 10);
    map.insert(2, 20);
    change_map_value(&mut map, 1, 11);
    assert_eq!(map.get(&1), Some(&11));
    assert_eq!(map.get(&2), Some(&20));
    change_map_value(&mut map, 3, 30);
    assert_eq!(map.get(&3), None);
    assert_eq!(map.len(), 2);
}
