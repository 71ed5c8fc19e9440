use filetransfer::parsing::{data_packet, filesize_packet, get_primitive, last_received_packet,
    parse_data_packet, parse_filesize_packet, parse_generic_req, parse_last_received,
    parse_primitive, parse_resend_offset, parse_send_req, resend_offset, send_req,
    PrimitiveMessage};

#[test]
fn parsing_test_primitives() {
    let ack = get_primitive(PrimitiveMessage::ACK);
    let nack = get_primitive(PrimitiveMessage::NACK);
    let resend = get_primitive(PrimitiveMessage::RESEND);
    let end = get_primitive(PrimitiveMessage::END);
    assert_eq!(parse_primitive(&ack, ack.len()), PrimitiveMessage::ACK);
    assert_eq!(parse_primitive(&nack, nack.len()), PrimitiveMessage::NACK);
    assert_eq!(
        parse_primitive(&resend, resend.len()),
        PrimitiveMessage::RESEND
    );
    assert_eq!(parse_primitive(&end, end.len()), PrimitiveMessage::END);
}

#[test]
fn parsing_test_send() {
    let fname = String::from("testfilename");
    let auth = String::from("testauthtoken");
    let sendreq = send_req(&fname, &auth);
    assert_eq!(parse_send_req(&sendreq, sendreq.len()).is_some(), true);
    if let Some((parsedfname, parsedauth)) = parse_send_req(&sendreq, sendreq.len()) {
        assert_eq!(parsedfname, fname);
        assert_eq!(parsedauth, auth);
    }
    let ack = get_primitive(PrimitiveMessage::ACK);
    assert_eq!(parse_send_req(&ack, ack.len()).is_none(), true);
}

#[test]
fn parsing_test_filesize() {
    let fsize1 = 0;
    let fsize2 = 100;
    let fsize3 = usize::max_value();

    let packet1 = filesize_packet(fsize1);
    let packet2 = filesize_packet(fsize2);
    let packet3 = filesize_packet(fsize3);

    let result1 = parse_filesize_packet(&packet1, packet1.len());
    let result2 = parse_filesize_packet(&packet2, packet2.len());
    let result3 = parse_filesize_packet(&packet3, packet3.len());

    assert_eq!(result1.is_some(), true);
    assert_eq!(result2.is_some(), true);
    assert_eq!(result3.is_some(), true);

    if let Some(parsedfsize1) = result1 {
        assert_eq!(parsedfsize1, fsize1);
    }
    if let Some(parsedfsize2) = result2 {
        assert_eq!(parsedfsize2, fsize2);
    }
    if let Some(parsedfsize3) = result3 {
        assert_eq!(parsedfsize3, fsize3);
    }
}

#[test]
fn parsing_test_last_recv() {
    let offset1 = 0;
    let offset2 = 100;
    let offset3 = usize::max_value();

    let packet1 = last_received_packet(offset1);
    let packet2 = last_received_packet(offset2);
    let packet3 = last_received_packet(offset3);

    let result1 = parse_last_received(&packet1, packet1.len());
    let result2 = parse_last_received(&packet2, packet2.len());
    let result3 = parse_last_received(&packet3, packet3.len());

    assert_eq!(result1.is_some(), true);
    assert_eq!(result2.is_some(), true);
    assert_eq!(result3.is_some(), true);

    if let Some(parsedoffset1) = result1 {
        assert_eq!(parsedoffset1, offset1);
    }
    if let Some(parsedoffset2) = result2 {
        assert_eq!(parsedoffset2, offset2);
    }
    if let Some(parsedoffset3) = result3 {
        assert_eq!(parsedoffset3, offset3);
    }
}

#[test]
fn parsing_test_data_packet() {
    let offset1 = 0;
    let offset2 = 1000;
    let offset3 = 10000;

    let data1: Vec<u8> = Vec::new();
    let data2: Vec<u8> = Vec::from(*b"Hello world this is data");
    let data3: Vec<u8> = Vec::from([0u8; 10000]);

    let dp1 = data_packet(offset1, &data1);
    let dp2 = data_packet(offset2, &data2);
    let dp3 = data_packet(offset3, &data3);

    let result1 = parse_data_packet(&dp1, dp1.len());
    let result2 = parse_data_packet(&dp2, dp2.len());
    let result3 = parse_data_packet(&dp3, dp3.len());

    assert_eq!(result1.is_some(), true);
    assert_eq!(result2.is_some(), true);
    assert_eq!(result3.is_some(), true);

    if let Some((parsedoffset1, parseddata1)) = result1 {
        assert_eq!(parsedoffset1, offset1);
        assert_eq!(parseddata1, data1);
    }

    if let Some((parsedoffset2, parseddata2)) = result2 {
        assert_eq!(parsedoffset2, offset2);
        assert_eq!(parseddata2, data2);
    }

    if let Some((parsedoffset3, parseddata3)) = result3 {
        assert_eq!(parsedoffset3, offset3);
        assert_eq!(parseddata3, data3);
    }
}

#[test]
fn test_generic_parser() {
    let ok_input = *b"HELLO WORLD";
    let bad_input = [129u8; 1000];
    assert_eq!(parse_generic_req(&ok_input, 11).is_some(), true);
    assert_eq!(parse_generic_req(&bad_input, 1000).is_some(), false);
    assert_eq!(parse_generic_req(&bad_input, 1).is_some(), false);
    assert_eq!(parse_generic_req(&bad_input, 1001).is_some(), false);
}

#[test]
fn primitive_exact_bytes() {
    assert_eq!(get_primitive(PrimitiveMessage::ACK), b"ACK".to_vec());
    assert_eq!(get_primitive(PrimitiveMessage::ACK).len(), 3);
    assert_eq!(get_primitive(PrimitiveMessage::NACK), b"NACK".to_vec());
    assert_eq!(get_primitive(PrimitiveMessage::END), b"END".to_vec());
    assert_eq!(get_primitive(PrimitiveMessage::RESEND), b"RESEND".to_vec());
    assert_eq!(get_primitive(PrimitiveMessage::INVALID), b"ACK".to_vec());
}

#[test]
fn wire_format_exact() {
    let req = send_req(&String::from("testfilename"), &String::from("testauthtoken"));
    assert_eq!(req, b"AUTH testauthtoken\nGET testfilename".to_vec());
    assert_eq!(filesize_packet(100), b"SIZE 100".to_vec());
    assert_eq!(last_received_packet(2000), b"LAST 2000".to_vec());
    assert_eq!(resend_offset(42), b"RESEND 42".to_vec());
    let dp = data_packet(1000, &b"abc".to_vec());
    assert_eq!(dp, b"OFFSET: 1000\nabc".to_vec());
}

#[test]
fn empty_auth_token_parses() {
    let req = send_req(&String::from("x"), &String::from(""));
    assert_eq!(req, b"AUTH \nGET x".to_vec());
    let parsed = parse_send_req(&req, req.len());
    assert_eq!(parsed, Some((String::from("x"), String::from(""))));
}

#[test]
fn malformed_packets_give_no_value() {
    assert_eq!(parse_filesize_packet(b"SIZE abc", 8), None);
    assert_eq!(parse_filesize_packet(b"WRONG 10", 8), None);
    assert_eq!(parse_last_received(b"ACK", 3), None);
    assert_eq!(parse_data_packet(b"OFFSET: 10 no newline", 21), None);
    assert_eq!(parse_resend_offset(b"RESEND x", 8), None);
    assert_eq!(parse_send_req(b"no markers here", 15), None);
    let overflow = b"SIZE 99999999999999999999";
    assert_eq!(parse_filesize_packet(overflow, overflow.len()), None);
}

#[test]
fn resend_offset_roundtrip() {
    for k in [0usize, 7, 1000, usize::max_value()] {
        let p = resend_offset(k);
        assert_eq!(parse_resend_offset(&p, p.len()), Some(k));
    }
}

#[test]
fn generic_parser_decodes_text() {
    let text = "héllo wörld";
    let bytes = text.as_bytes();
    assert_eq!(parse_generic_req(bytes, bytes.len()), Some(String::from(text)));
    assert_eq!(parse_generic_req(bytes, 1), Some(String::from("h")));
    assert_eq!(parse_generic_req(bytes, 2), None);
}
