//! The fixed-buffer face of the wire codec: the same messages read out of a
//! whole receive buffer, failing soft — a malformed packet parses to an
//! empty or zero value rather than to no value.
use vstd::prelude::*;
use vstd::string::StrSliceExecFns;
use vstd::utf8::{decode_utf8, encode_utf8, valid_utf8};

use crate::decimal::{dec_chars, dec_value, is_dec_chars};
use crate::parsing::{ack_bytes, end_bytes, nack_bytes, resend_bytes};
use crate::parsing::{auth_tag, get_tag, last_tag, offset_tag, size_tag};
use crate::parsing::{data_header_chars, filesize_chars, last_received_chars, send_req_chars};
use crate::parsing::{copy_range, parse_generic_req, prefix_is};
use crate::search::{find_first, seg_after, upto_newline};
use crate::search::{chars_of, seg_after_str, upto_newline_str};

verus! {

/// Maximum raw bytes in one datagram.
pub const MTU: usize = 1280;

/// Maximum file bytes carried by one data packet.
pub const DATA_SIZE: usize = 1000;

/// The stages a transfer session moves through, as this face of the codec
/// knew them, before a session could outlive its last batch.
#[derive(PartialEq, Eq, Structural, Debug, Clone, Copy)]
pub enum ClientState {
    NoState,
    ACKorNACK,
    SendFile,
    EndConn,
}

/// Whether the buffer's `amt` leading bytes are exactly an acknowledgement.
pub fn parse_ack(message: [u8; MTU], amt: usize) -> (r: bool)
    ensures
        r <==> amt == 3 && message@.subrange(0, 3) == ack_bytes(),
{
    if amt == 3 {
        prefix_is(message.as_slice(), &crate::parsing::get_primitive(
            crate::parsing::PrimitiveMessage::ACK,
        ))
    } else {
        false
    }
}

/// Whether the buffer's `amt` leading bytes are exactly a refusal.
pub fn parse_nack(message: [u8; MTU], amt: usize) -> (r: bool)
    ensures
        r <==> amt == 4 && message@.subrange(0, 4) == nack_bytes(),
{
    if amt == 4 {
        prefix_is(message.as_slice(), &crate::parsing::get_primitive(
            crate::parsing::PrimitiveMessage::NACK,
        ))
    } else {
        false
    }
}

/// Whether the buffer's `amt` leading bytes are exactly a termination
/// notice.
pub fn parse_end(message: [u8; MTU], amt: usize) -> (r: bool)
    ensures
        r <==> amt == 3 && message@.subrange(0, 3) == end_bytes(),
{
    if amt == 3 {
        prefix_is(message.as_slice(), &crate::parsing::get_primitive(
            crate::parsing::PrimitiveMessage::END,
        ))
    } else {
        false
    }
}

/// Whether the buffer's `amt` leading bytes are exactly a retransmission
/// request.
pub fn parse_resend(message: [u8; MTU], amt: usize) -> (r: bool)
    ensures
        r <==> amt == 6 && message@.subrange(0, 6) == resend_bytes(),
{
    if amt == 6 {
        prefix_is(message.as_slice(), &crate::parsing::get_primitive(
            crate::parsing::PrimitiveMessage::RESEND,
        ))
    } else {
        false
    }
}

/// Builds the initial transfer request: the token and the wanted file name.
pub fn send_req(filename: &String, auth: &String) -> (r: Vec<u8>)
    ensures
        r@ == encode_utf8(send_req_chars(filename@, auth@)),
{
    crate::parsing::send_req(filename, auth)
}

/// Parses a transfer request out of the buffer. A buffer that holds no text
/// yields a pair of empty strings; a missing marker leaves its half empty.
pub fn parse_send_req(message: [u8; MTU], amt: usize) -> (r: (String, String))
    ensures
        ({
            let pre = message@.subrange(0, amt as int);
            let txt = decode_utf8(pre);
            let bad = amt > MTU || !valid_utf8(pre) || txt.len() == 0;
            &&& bad ==> r.0@ == Seq::<char>::empty() && r.1@ == Seq::<char>::empty()
            &&& !bad ==> r.0@ == (match seg_after(txt, get_tag()) {
                Some(s) => s,
                None => Seq::<char>::empty(),
            })
            &&& !bad ==> r.1@ == (match seg_after(txt, auth_tag()) {
                Some(s) => upto_newline(s),
                None => Seq::<char>::empty(),
            })
        }),
{
    let req = match parse_generic_req(message.as_slice(), amt) {
        None => {
            return (String::new(), String::new());
        },
        Some(s) => s,
    };
    if req.as_str().unicode_len() == 0 {
        return (String::new(), String::new());
    }
    proof {
        reveal_strlit("GET ");
        reveal_strlit("AUTH ");
    }
    let get_pat = chars_of("GET ");
    let file_requested = match seg_after_str(req.as_str(), &get_pat) {
        None => String::new(),
        Some(f) => f,
    };
    let auth_pat = chars_of("AUTH ");
    let giventoken = match seg_after_str(req.as_str(), &auth_pat) {
        None => String::new(),
        Some(t) => upto_newline_str(t.as_str()),
    };
    (file_requested, giventoken)
}

/// Builds the size report the server answers a valid request with.
pub fn filesize_packet(filesize: usize) -> (r: Vec<u8>)
    ensures
        r@ == encode_utf8(filesize_chars(filesize as nat)),
{
    crate::parsing::filesize_packet(filesize)
}

/// Parses a size report out of the buffer; anything malformed reads as
/// size zero.
pub fn parse_filesize_packet(message: [u8; MTU], amt: usize) -> (r: usize)
    ensures
        ({
            let pre = message@.subrange(0, amt as int);
            let txt = decode_utf8(pre);
            let seg = seg_after(txt, size_tag());
            if amt <= MTU && valid_utf8(pre) && seg is Some && is_dec_chars(seg->Some_0)
                && dec_value(seg->Some_0) <= usize::MAX {
                r == dec_value(seg->Some_0)
            } else {
                r == 0
            }
        }),
{
    match crate::parsing::parse_filesize_packet(message.as_slice(), amt) {
        Some(size) => size,
        None => 0,
    }
}

/// Builds the progress report the client sends to ask for the next batch.
pub fn last_received_packet(num: usize) -> (r: Vec<u8>)
    ensures
        r@ == encode_utf8(last_received_chars(num as nat)),
{
    crate::parsing::last_received_packet(num)
}

/// Parses a progress report out of the buffer; an acknowledgement or
/// anything malformed reads as offset zero.
pub fn parse_last_received(message: [u8; MTU], amt: usize) -> (r: usize)
    ensures
        ({
            let pre = message@.subrange(0, amt as int);
            let txt = decode_utf8(pre);
            let seg = seg_after(txt, last_tag());
            if crate::parsing::spec_parse_primitive(message@, amt as int)
                != crate::parsing::PrimitiveMessage::ACK && amt <= MTU && valid_utf8(pre)
                && seg is Some && is_dec_chars(seg->Some_0) && dec_value(seg->Some_0)
                <= usize::MAX {
                r == dec_value(seg->Some_0)
            } else {
                r == 0
            }
        }),
{
    match crate::parsing::parse_last_received(message.as_slice(), amt) {
        Some(lastrecv) => lastrecv,
        None => 0,
    }
}

/// Builds the header line naming where a data packet's chunk goes.
pub fn build_data_packet_header(offset: usize) -> (r: Vec<u8>)
    ensures
        r@ == encode_utf8(data_header_chars(offset as nat)),
{
    let mut v = "OFFSET: ".as_bytes_vec();
    let mut d = crate::decimal::encode_usize(offset);
    v.append(&mut d);
    let mut nl = "\n".as_bytes_vec();
    v.append(&mut nl);
    proof {
        reveal_strlit("\n");
        assert("\n"@ =~= seq!['\n']);
        crate::decimal::lemma_encode_utf8_concat(offset_tag(), dec_chars(offset as nat));
        crate::decimal::lemma_encode_utf8_concat(
            offset_tag() + dec_chars(offset as nat),
            seq!['\n'],
        );
        assert(data_header_chars(offset as nat) =~= (offset_tag() + dec_chars(offset as nat))
            + seq!['\n']);
        assert(v@ =~= encode_utf8(data_header_chars(offset as nat)));
    }
    v
}

/// Builds a data packet: the header naming the offset, then the raw chunk.
pub fn data_packet(offset: usize, message: &Vec<u8>) -> (r: Vec<u8>)
    ensures
        r@ == encode_utf8(data_header_chars(offset as nat)) + message@,
{
    let mut v = build_data_packet_header(offset);
    let mut body = copy_range(message.as_slice(), 0, message.len());
    v.append(&mut body);
    proof {
        assert(message@.subrange(0, message@.len() as int) =~= message@);
    }
    v
}

/// Parses a data packet out of the buffer; anything malformed reads as the
/// empty chunk at offset zero, and a header with no readable offset keeps
/// its chunk under offset zero.
pub fn parse_data_packet(message: [u8; MTU], amt: usize) -> (r: (usize, Vec<u8>))
    ensures
        ({
            let pre = message@.subrange(0, amt as int);
            let nl = find_first(pre, seq![10u8]);
            &&& (amt > MTU || nl is None) ==> r.0 == 0 && r.1@ == Seq::<u8>::empty()
            &&& (amt <= MTU && nl is Some) ==> {
                let header = pre.subrange(0, nl->Some_0 + 1);
                let txt = decode_utf8(header);
                let seg = seg_after(txt, offset_tag());
                let digits = upto_newline(seg->Some_0);
                &&& !valid_utf8(header) ==> r.0 == 0 && r.1@ == Seq::<u8>::empty()
                &&& valid_utf8(header) ==> {
                    &&& r.1@ == pre.subrange(nl->Some_0 + 1, amt as int)
                    &&& (seg is Some && is_dec_chars(digits) && dec_value(digits) <= usize::MAX)
                        ==> r.0 == dec_value(digits)
                    &&& !(seg is Some && is_dec_chars(digits) && dec_value(digits) <= usize::MAX)
                        ==> r.0 == 0
                }
            }
        }),
{
    if amt > MTU {
        return (0, Vec::new());
    }
    let pre = copy_range(message.as_slice(), 0, amt);
    let mut nlpat: Vec<u8> = Vec::new();
    nlpat.push(10);
    proof {
        assert(nlpat@ =~= seq![10u8]);
    }
    let nl = match crate::search::find_sub(pre.as_slice(), nlpat.as_slice()) {
        None => {
            return (0, Vec::new());
        },
        Some(i) => i,
    };
    proof {
        crate::search::lemma_find_first(pre@, nlpat@);
        assert(crate::search::matches_at(pre@, nlpat@, nl as int));
    }
    let sizeofheader = nl + 1;
    proof {
        assert(message@.subrange(0, sizeofheader as int) =~= pre@.subrange(
            0,
            sizeofheader as int,
        ));
    }
    let req = match parse_generic_req(message.as_slice(), sizeofheader) {
        None => {
            return (0, Vec::new());
        },
        Some(s) => s,
    };
    let body = copy_range(message.as_slice(), sizeofheader, amt);
    proof {
        assert(message@.subrange(sizeofheader as int, amt as int) =~= pre@.subrange(
            sizeofheader as int,
            amt as int,
        ));
    }
    proof {
        reveal_strlit("OFFSET: ");
    }
    let pat = chars_of("OFFSET: ");
    let seg = match seg_after_str(req.as_str(), &pat) {
        None => {
            return (0, body);
        },
        Some(s) => s,
    };
    let digits = upto_newline_str(seg.as_str());
    let offset = match crate::decimal::parse_dec_str(digits.as_str()) {
        None => 0,
        Some(o) => o,
    };
    (offset, body)
}

} // verus!
