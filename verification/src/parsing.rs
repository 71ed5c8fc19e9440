//! The wire codec: every message of the transfer protocol encoded to raw
//! bytes and parsed back. Messages are textual, line oriented and ASCII;
//! parsers are total and signal malformed input by returning no value.
use vstd::prelude::*;
use vstd::string::StrSliceExecFns;
use vstd::utf8::{decode_utf8, encode_utf8, valid_utf8};

use crate::decimal::{dec_chars, dec_value, is_dec_chars};
use crate::search::{find_first, seg_after, upto_newline};
use crate::search::{chars_of, seg_after_str, upto_newline_str};

verus! {

/// The classification of a short fixed message.
#[derive(PartialEq, Eq, Structural, Debug)]
pub enum PrimitiveMessage {
    ACK,
    NACK,
    END,
    RESEND,
    INVALID,
}

/// The stages a transfer session moves through, used by both endpoints.
#[derive(PartialEq, Eq, Structural, Debug, Clone, Copy)]
pub enum ClientState {
    NoState,
    ACKorNACK,
    SendFile,
    EndConn,
    EndedConn,
}

/// The marker that precedes the authentication token in a transfer request.
pub open spec fn auth_tag() -> Seq<char> {
    "AUTH "@
}

/// The marker that precedes the file name in a transfer request.
pub open spec fn get_tag() -> Seq<char> {
    "GET "@
}

/// The line break and marker inserted between token and file name.
pub open spec fn nl_get_tag() -> Seq<char> {
    "\nGET "@
}

/// The marker that precedes the file size in a size report.
pub open spec fn size_tag() -> Seq<char> {
    "SIZE "@
}

/// The marker that precedes the offset in a progress report.
pub open spec fn last_tag() -> Seq<char> {
    "LAST "@
}

/// The marker that precedes the offset in a data packet header.
pub open spec fn offset_tag() -> Seq<char> {
    "OFFSET: "@
}

/// The marker that precedes the offset in a targeted resend request.
pub open spec fn resend_offset_tag() -> Seq<char> {
    "RESEND "@
}

/// The bytes of an acknowledgement.
pub open spec fn ack_bytes() -> Seq<u8> {
    seq![65u8, 67u8, 75u8]
}

/// The bytes of a refusal.
pub open spec fn nack_bytes() -> Seq<u8> {
    seq![78u8, 65u8, 67u8, 75u8]
}

/// The bytes of a termination notice.
pub open spec fn end_bytes() -> Seq<u8> {
    seq![69u8, 78u8, 68u8]
}

/// The bytes of a retransmission request.
pub open spec fn resend_bytes() -> Seq<u8> {
    seq![82u8, 69u8, 83u8, 69u8, 78u8, 68u8]
}

/// Relies on std's `str::from_utf8`: it returns `Ok` exactly on a valid
/// UTF-8 byte sequence, and the string it yields holds the characters that
/// the bytes encode.
#[verifier::external_body]
fn utf8_to_string(bytes: &[u8]) -> (r: Option<String>)
    ensures
        r is Some <==> valid_utf8(bytes@),
        r is Some ==> r->Some_0@ == decode_utf8(bytes@),
{
    match std::str::from_utf8(bytes) {
        Ok(s) => Some(s.to_string()),
        Err(_) => None,
    }
}

/// Copies the bytes of `s` between `from` and `to` into a fresh vector.
pub fn copy_range(s: &[u8], from: usize, to: usize) -> (r: Vec<u8>)
    requires
        from <= to <= s@.len(),
    ensures
        r@ == s@.subrange(from as int, to as int),
{
    let mut v: Vec<u8> = Vec::new();
    let mut i = from;
    while i < to
        invariant
            from <= i <= to <= s@.len(),
            v@ =~= s@.subrange(from as int, i as int),
        decreases to - i,
    {
        v.push(s[i]);
        assert(v@ =~= s@.subrange(from as int, i + 1));
        i = i + 1;
    }
    proof {
        assert(v@ =~= s@.subrange(from as int, to as int));
    }
    v
}

/// Whether `message` starts with exactly the bytes of `tag`.
pub fn prefix_is(message: &[u8], tag: &Vec<u8>) -> (r: bool)
    requires
        tag@.len() <= message@.len(),
    ensures
        r <==> message@.subrange(0, tag@.len() as int) == tag@,
{
    let n = tag.len();
    let mut i: usize = 0;
    while i < n
        invariant
            0 <= i <= n,
            n == tag@.len() <= message@.len(),
            forall|j: int| 0 <= j < i ==> message@[j] == tag@[j],
        decreases n - i,
    {
        if message[i] != tag[i] {
            proof {
                let pre = message@.subrange(0, n as int);
                assert(pre[i as int] == message@[i as int]);
            }
            return false;
        }
        i = i + 1;
    }
    proof {
        assert(message@.subrange(0, n as int) =~= tag@);
    }
    true
}

/// What the primitive classifier yields on `amt` leading bytes of `s`: an
/// exact length and content match against one of the four fixed messages.
pub open spec fn spec_parse_primitive(s: Seq<u8>, amt: int) -> PrimitiveMessage {
    if amt < 0 || amt > s.len() {
        PrimitiveMessage::INVALID
    } else if amt == 3 && s.subrange(0, 3) == ack_bytes() {
        PrimitiveMessage::ACK
    } else if amt == 3 && s.subrange(0, 3) == end_bytes() {
        PrimitiveMessage::END
    } else if amt == 4 && s.subrange(0, 4) == nack_bytes() {
        PrimitiveMessage::NACK
    } else if amt == 6 && s.subrange(0, 6) == resend_bytes() {
        PrimitiveMessage::RESEND
    } else {
        PrimitiveMessage::INVALID
    }
}

/// The raw bytes of each primitive message. A request for `INVALID` has no
/// encoding of its own and falls back to the acknowledgement bytes.
pub open spec fn primitive_bytes(m: PrimitiveMessage) -> Seq<u8> {
    match m {
        PrimitiveMessage::ACK => ack_bytes(),
        PrimitiveMessage::NACK => nack_bytes(),
        PrimitiveMessage::END => end_bytes(),
        PrimitiveMessage::RESEND => resend_bytes(),
        PrimitiveMessage::INVALID => ack_bytes(),
    }
}

fn ack_vec() -> (r: Vec<u8>)
    ensures
        r@ == ack_bytes(),
{
    let mut v: Vec<u8> = Vec::new();
    v.push(65);
    v.push(67);
    v.push(75);
    proof {
        assert(v@ =~= ack_bytes());
    }
    v
}

fn nack_vec() -> (r: Vec<u8>)
    ensures
        r@ == nack_bytes(),
{
    let mut v: Vec<u8> = Vec::new();
    v.push(78);
    v.push(65);
    v.push(67);
    v.push(75);
    proof {
        assert(v@ =~= nack_bytes());
    }
    v
}

fn end_vec() -> (r: Vec<u8>)
    ensures
        r@ == end_bytes(),
{
    let mut v: Vec<u8> = Vec::new();
    v.push(69);
    v.push(78);
    v.push(68);
    proof {
        assert(v@ =~= end_bytes());
    }
    v
}

fn resend_vec() -> (r: Vec<u8>)
    ensures
        r@ == resend_bytes(),
{
    let mut v: Vec<u8> = Vec::new();
    v.push(82);
    v.push(69);
    v.push(83);
    v.push(69);
    v.push(78);
    v.push(68);
    proof {
        assert(v@ =~= resend_bytes());
    }
    v
}

/// Encodes a primitive message as its fixed bytes.
pub fn get_primitive(msgtype: PrimitiveMessage) -> (r: Vec<u8>)
    ensures
        r@ == primitive_bytes(msgtype),
{
    match msgtype {
        PrimitiveMessage::ACK => ack_vec(),
        PrimitiveMessage::NACK => nack_vec(),
        PrimitiveMessage::END => end_vec(),
        PrimitiveMessage::RESEND => resend_vec(),
        PrimitiveMessage::INVALID => ack_vec(),
    }
}

/// Classifies `amt` leading bytes of `message` as a primitive message.
pub fn parse_primitive(message: &[u8], amt: usize) -> (r: PrimitiveMessage)
    ensures
        r == spec_parse_primitive(message@, amt as int),
{
    if amt > message.len() {
        return PrimitiveMessage::INVALID;
    }
    if amt == 3 {
        if prefix_is(message, &ack_vec()) {
            return PrimitiveMessage::ACK;
        }
        if prefix_is(message, &end_vec()) {
            return PrimitiveMessage::END;
        }
        return PrimitiveMessage::INVALID;
    }
    if amt == 4 {
        if prefix_is(message, &nack_vec()) {
            return PrimitiveMessage::NACK;
        }
        return PrimitiveMessage::INVALID;
    }
    if amt == 6 {
        if prefix_is(message, &resend_vec()) {
            return PrimitiveMessage::RESEND;
        }
        return PrimitiveMessage::INVALID;
    }
    PrimitiveMessage::INVALID
}

/// Decodes `amt` leading bytes of `message` as text, if they are valid
/// UTF-8; the plain-text view every structured parser starts from.
pub fn parse_generic_req(message: &[u8], amt: usize) -> (r: Option<String>)
    ensures
        r is Some <==> amt <= message@.len() && valid_utf8(message@.subrange(0, amt as int)),
        r is Some ==> r->Some_0@ == decode_utf8(message@.subrange(0, amt as int)),
{
    if amt > message.len() {
        return None;
    }
    let pre = copy_range(message, 0, amt);
    utf8_to_string(pre.as_slice())
}

/// The text of a transfer request for `filename` carrying the token `auth`.
pub open spec fn send_req_chars(filename: Seq<char>, auth: Seq<char>) -> Seq<char> {
    auth_tag() + auth + nl_get_tag() + filename
}

/// Builds the initial transfer request: the token and the wanted file name.
pub fn send_req(filename: &String, auth: &String) -> (r: Vec<u8>)
    ensures
        r@ == encode_utf8(send_req_chars(filename@, auth@)),
{
    let mut v = "AUTH ".as_bytes_vec();
    let mut a = auth.as_str().as_bytes_vec();
    v.append(&mut a);
    let mut g = "\nGET ".as_bytes_vec();
    v.append(&mut g);
    let mut f = filename.as_str().as_bytes_vec();
    v.append(&mut f);
    proof {
        crate::decimal::lemma_encode_utf8_concat(auth_tag(), auth@);
        crate::decimal::lemma_encode_utf8_concat(auth_tag() + auth@, nl_get_tag());
        crate::decimal::lemma_encode_utf8_concat(auth_tag() + auth@ + nl_get_tag(), filename@);
        assert(send_req_chars(filename@, auth@) =~= (auth_tag() + auth@ + nl_get_tag())
            + filename@);
        assert(v@ =~= encode_utf8(send_req_chars(filename@, auth@)));
    }
    v
}

/// Parses a transfer request back into its file name and token: the piece
/// after the first `GET ` marker, and the piece after the first `AUTH `
/// marker cut at the first line break.
pub fn parse_send_req(message: &[u8], amt: usize) -> (r: Option<(String, String)>)
    ensures
        ({
            let pre = message@.subrange(0, amt as int);
            let txt = decode_utf8(pre);
            &&& (r is Some <==> amt <= message@.len() && valid_utf8(pre) && seg_after(
                txt,
                get_tag(),
            ) is Some && seg_after(txt, auth_tag()) is Some)
            &&& (r is Some ==> r->Some_0.0@ == seg_after(txt, get_tag())->Some_0
                && r->Some_0.1@ == upto_newline(seg_after(txt, auth_tag())->Some_0))
        }),
{
    let req = match parse_generic_req(message, amt) {
        None => {
            return None;
        },
        Some(s) => s,
    };
    proof {
        reveal_strlit("GET ");
        reveal_strlit("AUTH ");
    }
    let get_pat = chars_of("GET ");
    let file = match seg_after_str(req.as_str(), &get_pat) {
        None => {
            return None;
        },
        Some(f) => f,
    };
    let auth_pat = chars_of("AUTH ");
    let tok_seg = match seg_after_str(req.as_str(), &auth_pat) {
        None => {
            return None;
        },
        Some(t) => t,
    };
    let token = upto_newline_str(tok_seg.as_str());
    Some((file, token))
}

/// The text of a size report for a file of `filesize` bytes.
pub open spec fn filesize_chars(filesize: nat) -> Seq<char> {
    size_tag() + dec_chars(filesize)
}

/// Builds the size report the server answers a valid request with.
pub fn filesize_packet(filesize: usize) -> (r: Vec<u8>)
    ensures
        r@ == encode_utf8(filesize_chars(filesize as nat)),
{
    let mut v = "SIZE ".as_bytes_vec();
    let mut d = crate::decimal::encode_usize(filesize);
    v.append(&mut d);
    proof {
        crate::decimal::lemma_encode_utf8_concat(size_tag(), dec_chars(filesize as nat));
        assert(v@ =~= encode_utf8(filesize_chars(filesize as nat)));
    }
    v
}

/// Parses a size report back into the announced file size: the decimal
/// number after the first `SIZE ` marker.
pub fn parse_filesize_packet(message: &[u8], amt: usize) -> (r: Option<usize>)
    ensures
        ({
            let pre = message@.subrange(0, amt as int);
            let txt = decode_utf8(pre);
            let seg = seg_after(txt, size_tag());
            &&& (r is Some <==> amt <= message@.len() && valid_utf8(pre) && seg is Some
                && is_dec_chars(seg->Some_0) && dec_value(seg->Some_0) <= usize::MAX)
            &&& (r is Some ==> r->Some_0 == dec_value(seg->Some_0))
        }),
{
    let req = match parse_generic_req(message, amt) {
        None => {
            return None;
        },
        Some(s) => s,
    };
    proof {
        reveal_strlit("SIZE ");
    }
    let pat = chars_of("SIZE ");
    let seg = match seg_after_str(req.as_str(), &pat) {
        None => {
            return None;
        },
        Some(s) => s,
    };
    crate::decimal::parse_dec_str(seg.as_str())
}

/// The text of a progress report naming the last received offset.
pub open spec fn last_received_chars(num: nat) -> Seq<char> {
    last_tag() + dec_chars(num)
}

/// Builds the progress report the client sends to ask for the next batch.
pub fn last_received_packet(num: usize) -> (r: Vec<u8>)
    ensures
        r@ == encode_utf8(last_received_chars(num as nat)),
{
    let mut v = "LAST ".as_bytes_vec();
    let mut d = crate::decimal::encode_usize(num);
    v.append(&mut d);
    proof {
        crate::decimal::lemma_encode_utf8_concat(last_tag(), dec_chars(num as nat));
        assert(v@ =~= encode_utf8(last_received_chars(num as nat)));
    }
    v
}

/// Parses a progress report back into the reported offset: the decimal
/// number after the first `LAST ` marker. An acknowledgement is not a
/// progress report and yields no value.
pub fn parse_last_received(message: &[u8], amt: usize) -> (r: Option<usize>)
    ensures
        ({
            let pre = message@.subrange(0, amt as int);
            let txt = decode_utf8(pre);
            let seg = seg_after(txt, last_tag());
            &&& (r is Some <==> spec_parse_primitive(message@, amt as int)
                != PrimitiveMessage::ACK && amt <= message@.len() && valid_utf8(pre)
                && seg is Some && is_dec_chars(seg->Some_0) && dec_value(seg->Some_0)
                <= usize::MAX)
            &&& (r is Some ==> r->Some_0 == dec_value(seg->Some_0))
        }),
{
    let prim = parse_primitive(message, amt);
    if prim == PrimitiveMessage::ACK {
        return None;
    }
    let req = match parse_generic_req(message, amt) {
        None => {
            return None;
        },
        Some(s) => s,
    };
    proof {
        reveal_strlit("LAST ");
    }
    let pat = chars_of("LAST ");
    let seg = match seg_after_str(req.as_str(), &pat) {
        None => {
            return None;
        },
        Some(s) => s,
    };
    crate::decimal::parse_dec_str(seg.as_str())
}

/// The header line of a data packet carrying the chunk at `offset`.
pub open spec fn data_header_chars(offset: nat) -> Seq<char> {
    offset_tag() + dec_chars(offset) + seq!['\n']
}

/// Builds a data packet: a header naming the offset, a line break, and the
/// raw chunk bytes.
pub fn data_packet(offset: usize, message: &Vec<u8>) -> (r: Vec<u8>)
    ensures
        r@ == encode_utf8(data_header_chars(offset as nat)) + message@,
{
    let mut v = "OFFSET: ".as_bytes_vec();
    let mut d = crate::decimal::encode_usize(offset);
    v.append(&mut d);
    let mut nl = "\n".as_bytes_vec();
    v.append(&mut nl);
    let mut body = copy_range(message.as_slice(), 0, message.len());
    v.append(&mut body);
    proof {
        reveal_strlit("\n");
        assert("\n"@ =~= seq!['\n']);
        crate::decimal::lemma_encode_utf8_concat(offset_tag(), dec_chars(offset as nat));
        crate::decimal::lemma_encode_utf8_concat(
            offset_tag() + dec_chars(offset as nat),
            seq!['\n'],
        );
        assert(data_header_chars(offset as nat) =~= (offset_tag() + dec_chars(offset as nat))
            + seq!['\n']);
        assert(message@.subrange(0, message@.len() as int) =~= message@);
        assert(v@ =~= encode_utf8(data_header_chars(offset as nat)) + message@);
    }
    v
}

/// Parses a data packet back into its offset and chunk bytes. The header is
/// everything up to and including the first line-break byte; the offset is
/// the decimal number after the header's `OFFSET: ` marker; the chunk is
/// every byte after the header.
pub fn parse_data_packet(message: &[u8], amt: usize) -> (r: Option<(usize, Vec<u8>)>)
    ensures
        ({
            let pre = message@.subrange(0, amt as int);
            let nl = find_first(pre, seq![10u8]);
            &&& (amt > message@.len() || nl is None) ==> r is None
            &&& (amt <= message@.len() && nl is Some) ==> {
                let header = pre.subrange(0, nl->Some_0 + 1);
                let txt = decode_utf8(header);
                let seg = seg_after(txt, offset_tag());
                let digits = upto_newline(seg->Some_0);
                &&& (r is Some <==> valid_utf8(header) && seg is Some && is_dec_chars(digits)
                    && dec_value(digits) <= usize::MAX)
                &&& (r is Some ==> r->Some_0.0 == dec_value(digits) && r->Some_0.1@
                    == pre.subrange(nl->Some_0 + 1, amt as int))
            }
        }),
{
    if amt > message.len() {
        return None;
    }
    let pre = copy_range(message, 0, amt);
    let mut nlpat: Vec<u8> = Vec::new();
    nlpat.push(10);
    proof {
        assert(nlpat@ =~= seq![10u8]);
    }
    let nl = match crate::search::find_sub(pre.as_slice(), nlpat.as_slice()) {
        None => {
            return None;
        },
        Some(i) => i,
    };
    proof {
        crate::search::lemma_find_first(pre@, nlpat@);
        assert(crate::search::matches_at(pre@, nlpat@, nl as int));
    }
    let sizeofheader = nl + 1;
    proof {
        assert(message@.subrange(0, sizeofheader as int) =~= pre@.subrange(
            0,
            sizeofheader as int,
        ));
    }
    let req = match parse_generic_req(message, sizeofheader) {
        None => {
            return None;
        },
        Some(s) => s,
    };
    proof {
        reveal_strlit("OFFSET: ");
    }
    let pat = chars_of("OFFSET: ");
    let seg = match seg_after_str(req.as_str(), &pat) {
        None => {
            return None;
        },
        Some(s) => s,
    };
    let digits = upto_newline_str(seg.as_str());
    let offset = match crate::decimal::parse_dec_str(digits.as_str()) {
        None => {
            return None;
        },
        Some(o) => o,
    };
    let body = copy_range(message, sizeofheader, amt);
    proof {
        assert(message@.subrange(sizeofheader as int, amt as int) =~= pre@.subrange(
            sizeofheader as int,
            amt as int,
        ));
    }
    Some((offset, body))
}

/// The text of a targeted resend request for the chunk at `offset`.
pub open spec fn resend_offset_chars(offset: nat) -> Seq<char> {
    resend_offset_tag() + dec_chars(offset)
}

/// Builds a targeted resend request naming one chunk offset.
pub fn resend_offset(offset: usize) -> (r: Vec<u8>)
    ensures
        r@ == encode_utf8(resend_offset_chars(offset as nat)),
{
    let mut v = "RESEND ".as_bytes_vec();
    let mut d = crate::decimal::encode_usize(offset);
    v.append(&mut d);
    proof {
        crate::decimal::lemma_encode_utf8_concat(resend_offset_tag(), dec_chars(offset as nat));
        assert(v@ =~= encode_utf8(resend_offset_chars(offset as nat)));
    }
    v
}

/// Parses a targeted resend request back into the wanted offset: the decimal
/// number after the first `RESEND ` marker.
pub fn parse_resend_offset(message: &[u8], amt: usize) -> (r: Option<usize>)
    ensures
        ({
            let pre = message@.subrange(0, amt as int);
            let txt = decode_utf8(pre);
            let seg = seg_after(txt, resend_offset_tag());
            &&& (r is Some <==> amt <= message@.len() && valid_utf8(pre) && seg is Some
                && is_dec_chars(seg->Some_0) && dec_value(seg->Some_0) <= usize::MAX)
            &&& (r is Some ==> r->Some_0 == dec_value(seg->Some_0))
        }),
{
    let req = match parse_generic_req(message, amt) {
        None => {
            return None;
        },
        Some(s) => s,
    };
    proof {
        reveal_strlit("RESEND ");
    }
    let pat = chars_of("RESEND ");
    let seg = match seg_after_str(req.as_str(), &pat) {
        None => {
            return None;
        },
        Some(s) => s,
    };
    crate::decimal::parse_dec_str(seg.as_str())
}

} // verus!
