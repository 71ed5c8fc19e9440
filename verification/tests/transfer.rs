use filetransfer::auth::{init, AuthChecker};
use filetransfer::client::{Client, FileSink};
use filetransfer::connection::init_conn;
use filetransfer::parsing::{data_packet, get_primitive, parse_send_req, send_req, ClientState,
    PrimitiveMessage};
use filetransfer::server::init_server;
use filetransfer::socket::{DummySocket, PeerAddr};

fn test_socket() -> DummySocket {
    DummySocket { send_proper: true, recv_proper: true, recv_ontime: true }
}

fn source_bytes(n: usize) -> Vec<u8> {
    let mut v = Vec::with_capacity(n);
    for i in 0..n {
        v.push((i % 251) as u8);
    }
    v
}

#[test]
fn happy_path_assembles_file() {
    let source = source_bytes(2500);
    let mut sink = FileSink::new(2500);
    assert_eq!(sink.outstanding_count(), 3);
    assert!(sink.is_outstanding(0));
    assert!(sink.is_outstanding(1000));
    assert!(sink.is_outstanding(2000));
    assert!(!sink.is_outstanding(500));
    assert!(sink.accept_data(0, &source[0..1000].to_vec()));
    assert!(sink.accept_data(1000, &source[1000..2000].to_vec()));
    assert!(sink.accept_data(2000, &source[2000..2500].to_vec()));
    assert_eq!(sink.outstanding_count(), 0);
    assert!(sink.is_complete());
    sink.flush();
    assert_eq!(sink.data, source);
    assert_eq!(sink.data.len(), 2500);
}

#[test]
fn duplicate_data_is_dropped() {
    let source = source_bytes(2500);
    let mut sink = FileSink::new(2500);
    let chunk = source[0..1000].to_vec();
    assert!(sink.accept_data(0, &chunk));
    assert_eq!(sink.outstanding_count(), 2);
    assert_eq!(sink.counter, 1);
    // the same offset arrives again: dropped, nothing changes
    assert!(!sink.accept_data(0, &chunk));
    assert_eq!(sink.outstanding_count(), 2);
    assert_eq!(sink.counter, 1);
}

#[test]
fn chunks_outside_the_file_are_rejected() {
    let mut sink = FileSink::new(2500);
    // a full chunk at the tail offset would cross the end of the file
    assert!(!sink.accept_data(2000, &vec![1u8; 1000]));
    // beyond the file entirely
    assert!(!sink.accept_data(3000, &vec![1u8; 10]));
    // not a chunk offset
    assert!(!sink.accept_data(500, &vec![1u8; 1000]));
    assert_eq!(sink.data.len(), 2500);
    assert_eq!(sink.outstanding_count(), 3);
}

#[test]
fn empty_file_completes_at_once() {
    let mut sink = FileSink::new(0);
    assert_eq!(sink.outstanding_count(), 1);
    assert!(sink.is_outstanding(0));
    assert!(sink.accept_data(0, &Vec::new()));
    assert!(sink.is_complete());
    sink.flush();
    assert_eq!(sink.data.len(), 0);
}

#[test]
fn flush_writes_cached_chunks_in_place() {
    let source = source_bytes(1500);
    let mut sink = FileSink::new(1500);
    assert!(sink.accept_data(1000, &source[1000..1500].to_vec()));
    sink.flush();
    assert_eq!(sink.counter, 0);
    assert_eq!(&sink.data[1000..1500], &source[1000..1500]);
    // untouched bytes keep their zeroes
    assert!(sink.data[0..1000].iter().all(|b| *b == 0));
}

fn checker() -> AuthChecker {
    init(String::from("testauthtoken"), String::from("file.txt"))
}

#[test]
fn auth_accepts_prefix_match_and_exact_token() {
    let auth = checker();
    let good = send_req(&String::from("file.txt"), &String::from("testauthtoken"));
    assert!(auth.is_valid_request(&good, good.len()));
    // the file name is compared by the stored name's length: a longer
    // request still matches
    let longer = send_req(&String::from("file.txtEXTRA"), &String::from("testauthtoken"));
    assert!(auth.is_valid_request(&longer, longer.len()));
    let shorter = send_req(&String::from("file"), &String::from("testauthtoken"));
    assert!(!auth.is_valid_request(&shorter, shorter.len()));
    let wrong_token = send_req(&String::from("file.txt"), &String::from("other"));
    assert!(!auth.is_valid_request(&wrong_token, wrong_token.len()));
}

#[test]
fn empty_auth_fails_and_server_drops_session() {
    // the request "AUTH \nGET x" parses to ("x", "") and authentication
    // fails: the server answers with size zero and a terminal notice and
    // forgets the peer
    let req = send_req(&String::from("x"), &String::from(""));
    assert_eq!(
        parse_send_req(&req, req.len()),
        Some((String::from("x"), String::from("")))
    );
    let mut server = init_server(source_bytes(500), checker());
    let mut conn = init_conn(test_socket());
    let peer = PeerAddr::new(10, 1, 1, 1, 5000);
    server.handle_message(&mut conn, peer, &req, req.len());
    assert!(server.sessions.is_empty());
}

#[test]
fn server_walks_the_state_table() {
    let mut server = init_server(source_bytes(500), checker());
    let mut conn = init_conn(test_socket());
    let peer = PeerAddr::new(10, 1, 1, 2, 5001);

    let req = send_req(&String::from("file.txt"), &String::from("testauthtoken"));
    server.handle_message(&mut conn, peer, &req, req.len());
    assert_eq!(server.sessions.len(), 1);
    assert_eq!(server.sessions[0].state, ClientState::ACKorNACK);

    let ack = get_primitive(PrimitiveMessage::ACK);
    server.handle_message(&mut conn, peer, &ack, ack.len());
    assert_eq!(server.sessions[0].state, ClientState::SendFile);

    // a progress report whose batch reaches the end of the file ends the
    // transfer but keeps the session for late resend requests
    let last = filetransfer::parsing::last_received_packet(0);
    server.handle_message(&mut conn, peer, &last, last.len());
    assert_eq!(server.sessions[0].state, ClientState::EndedConn);
    assert_eq!(conn.read_n(&peer), 2);

    // a resend request after the end replays the buffer and halves the
    // window; the session stays
    let resend = get_primitive(PrimitiveMessage::RESEND);
    server.handle_message(&mut conn, peer, &resend, resend.len());
    assert_eq!(server.sessions[0].state, ClientState::EndedConn);
    assert_eq!(conn.read_n(&peer), 1);

    // the terminal notice removes the session
    let end = get_primitive(PrimitiveMessage::END);
    server.handle_message(&mut conn, peer, &end, end.len());
    assert!(server.sessions.is_empty());
}

#[test]
fn resend_in_send_file_is_echoed_not_replayed() {
    let mut server = init_server(source_bytes(5000), checker());
    let mut conn = init_conn(test_socket());
    let peer = PeerAddr::new(10, 1, 1, 3, 5002);
    let req = send_req(&String::from("file.txt"), &String::from("testauthtoken"));
    server.handle_message(&mut conn, peer, &req, req.len());
    let ack = get_primitive(PrimitiveMessage::ACK);
    server.handle_message(&mut conn, peer, &ack, ack.len());
    assert_eq!(server.sessions[0].state, ClientState::SendFile);
    // mid-transfer, a resend request is echoed back and the session stays
    // in its state; the window grows with the echo send
    let resend = get_primitive(PrimitiveMessage::RESEND);
    server.handle_message(&mut conn, peer, &resend, resend.len());
    assert_eq!(server.sessions[0].state, ClientState::SendFile);
    assert_eq!(conn.read_n(&peer), 2);
}

#[test]
fn unknown_message_in_ack_state_is_ignored() {
    let mut server = init_server(source_bytes(500), checker());
    let mut conn = init_conn(test_socket());
    let peer = PeerAddr::new(10, 1, 1, 4, 5003);
    let req = send_req(&String::from("file.txt"), &String::from("testauthtoken"));
    server.handle_message(&mut conn, peer, &req, req.len());
    assert_eq!(server.sessions[0].state, ClientState::ACKorNACK);
    let noise = b"what is this".to_vec();
    server.handle_message(&mut conn, peer, &noise, noise.len());
    assert_eq!(server.sessions[0].state, ClientState::ACKorNACK);
    let nack = get_primitive(PrimitiveMessage::NACK);
    server.handle_message(&mut conn, peer, &nack, nack.len());
    assert!(server.sessions.is_empty());
}

#[test]
fn config_collects_trusted_keys() {
    let mut conf = filetransfer::config::Config {
        public_key: vec![1, 2, 3],
        private_key: vec![4, 5, 6],
        trusted_keys: Vec::new(),
    };
    conf.add_trusted_key(vec![7, 8]);
    conf.add_trusted_key(vec![9]);
    assert_eq!(conf.trusted_keys, vec![vec![7, 8], vec![9]]);
    assert_eq!(conf.public_key, vec![1, 2, 3]);
}

#[test]
fn client_engine_assembles_and_ends() {
    let source = source_bytes(2500);
    let mut conn = init_conn(test_socket());
    let peer = PeerAddr::new(10, 2, 2, 2, 6000);
    let mut client = Client::start(
        &mut conn,
        peer,
        &String::from("file.txt"),
        &String::from("testauthtoken"),
    );
    assert_eq!(client.state, ClientState::ACKorNACK);
    client.confirm(&mut conn, true, 2500);
    assert_eq!(client.state, ClientState::SendFile);
    for off in [0usize, 1000, 2000] {
        let hi = if off + 1000 < 2500 { off + 1000 } else { 2500 };
        let pkt = data_packet(off, &source[off..hi].to_vec());
        client.handle_packet(&mut conn, &pkt, pkt.len());
    }
    assert_eq!(client.state, ClientState::EndConn);
    assert_eq!(client.sink.data, source);
}

#[test]
fn client_engine_tolerates_noise_mid_transfer() {
    let source = source_bytes(1500);
    let mut conn = init_conn(test_socket());
    let peer = PeerAddr::new(10, 2, 2, 3, 6001);
    let mut client = Client::start(
        &mut conn,
        peer,
        &String::from("file.txt"),
        &String::from("testauthtoken"),
    );
    client.confirm(&mut conn, true, 1500);
    // a terminal notice before anything arrived is ignored
    let end = get_primitive(PrimitiveMessage::END);
    client.handle_packet(&mut conn, &end, end.len());
    assert_eq!(client.state, ClientState::SendFile);
    // a resend request replays the last batch and changes nothing else
    let resend = get_primitive(PrimitiveMessage::RESEND);
    client.handle_packet(&mut conn, &resend, resend.len());
    assert_eq!(client.state, ClientState::SendFile);
    // the same chunk twice: the duplicate is dropped
    let pkt = data_packet(0, &source[0..1000].to_vec());
    client.handle_packet(&mut conn, &pkt, pkt.len());
    client.handle_packet(&mut conn, &pkt, pkt.len());
    assert_eq!(client.sink.outstanding_count(), 1);
    assert_eq!(client.state, ClientState::SendFile);
    let tail = data_packet(1000, &source[1000..1500].to_vec());
    client.handle_packet(&mut conn, &tail, tail.len());
    assert_eq!(client.state, ClientState::EndConn);
    assert_eq!(client.sink.data, source);
}

#[test]
fn client_refusal_closes() {
    let mut conn = init_conn(test_socket());
    let peer = PeerAddr::new(10, 2, 2, 4, 6002);
    let mut client = Client::start(
        &mut conn,
        peer,
        &String::from("file.txt"),
        &String::from("testauthtoken"),
    );
    client.confirm(&mut conn, false, 9999);
    assert_eq!(client.state, ClientState::EndConn);
}
