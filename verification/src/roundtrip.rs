//! Round-trip laws of the wire codec: parsing an encoded message yields
//! exactly the values the message was built from.
use vstd::prelude::*;
use vstd::utf8::{decode_utf8, encode_utf8, is_ascii_chars, valid_utf8};
use vstd::utf8::{encode_utf8_decode_utf8, encode_utf8_valid_utf8};

use crate::connection::{DATA_SIZE, MTU};
use crate::decimal::{dec_chars, dec_value, is_dec_chars, is_digit_char, lemma_dec_chars_value};
use crate::decimal::{lemma_dec_chars_len_word, lemma_encode_utf8_len};
use crate::parsing::{ack_bytes, end_bytes, nack_bytes, resend_bytes};
use crate::parsing::{data_header_chars, filesize_chars, last_received_chars, resend_offset_chars};
use crate::parsing::{auth_tag, get_tag, last_tag, nl_get_tag, offset_tag, resend_offset_tag, size_tag};
use crate::parsing::{primitive_bytes, send_req_chars, spec_parse_primitive, PrimitiveMessage};
use crate::search::{contains_seq, find_first, matches_at, seg_after, upto_newline};
use crate::search::{lemma_find_first, lemma_find_first_unique, lemma_mismatch_at};

verus! {

/// Parsing the encoding of any primitive message yields that message back.
pub proof fn lemma_primitive_roundtrip(m: PrimitiveMessage)
    requires
        m != PrimitiveMessage::INVALID,
    ensures
        spec_parse_primitive(primitive_bytes(m), primitive_bytes(m).len() as int) == m,
{
    let b = primitive_bytes(m);
    match m {
        PrimitiveMessage::ACK => {
            assert(b.subrange(0, 3) =~= ack_bytes());
        },
        PrimitiveMessage::END => {
            assert(b.subrange(0, 3) =~= end_bytes());
            assert(ack_bytes()[0] == 65 && end_bytes()[0] == 69);
        },
        PrimitiveMessage::NACK => {
            assert(b.subrange(0, 4) =~= nack_bytes());
        },
        PrimitiveMessage::RESEND => {
            assert(b.subrange(0, 6) =~= resend_bytes());
        },
        PrimitiveMessage::INVALID => {
        },
    }
}

/// Splitting `tag + digits` on `tag` yields exactly the digits, for any tag
/// that does not open with a digit.
pub proof fn lemma_tag_number_seg(tag: Seq<char>, n: nat)
    requires
        tag.len() > 0,
        !is_digit_char(tag[0]),
    ensures
        valid_utf8(encode_utf8(tag + dec_chars(n))),
        decode_utf8(encode_utf8(tag + dec_chars(n))) == tag + dec_chars(n),
        seg_after(tag + dec_chars(n), tag) == Some(dec_chars(n)),
{
    let d = dec_chars(n);
    let full = tag + d;
    lemma_dec_chars_value(n);
    encode_utf8_valid_utf8(full);
    encode_utf8_decode_utf8(full);
    assert(full.subrange(0, tag.len() as int) =~= tag);
    assert(matches_at(full, tag, 0));
    lemma_find_first_unique(full, tag, 0);
    let rest = full.subrange(tag.len() as int, full.len() as int);
    assert(rest =~= d);
    assert forall|j: int| !matches_at(d, tag, j) by {
        if matches_at(d, tag, j) {
            assert(is_digit_char(d[j]));
            lemma_mismatch_at(d, tag, j, j);
        }
    }
    lemma_find_first(d, tag);
    assert(find_first(d, tag) is None);
}

/// A size report round-trips: the segment after its marker is the numeral
/// of the size, and that numeral reads back as the size.
pub proof fn lemma_filesize_roundtrip(n: nat)
    ensures
        valid_utf8(encode_utf8(filesize_chars(n))),
        decode_utf8(encode_utf8(filesize_chars(n))) == filesize_chars(n),
        seg_after(filesize_chars(n), size_tag()) == Some(dec_chars(n)),
        is_dec_chars(dec_chars(n)),
        dec_value(dec_chars(n)) == n,
{
    reveal_strlit("SIZE ");
    assert(size_tag().len() == 5 && size_tag()[0] == 'S');
    lemma_tag_number_seg(size_tag(), n);
    lemma_dec_chars_value(n);
}

/// A progress report round-trips: the segment after its marker is the
/// numeral of the offset, and that numeral reads back as the offset.
pub proof fn lemma_last_received_roundtrip(n: nat)
    ensures
        valid_utf8(encode_utf8(last_received_chars(n))),
        decode_utf8(encode_utf8(last_received_chars(n))) == last_received_chars(n),
        seg_after(last_received_chars(n), last_tag()) == Some(dec_chars(n)),
        is_dec_chars(dec_chars(n)),
        dec_value(dec_chars(n)) == n,
{
    reveal_strlit("LAST ");
    assert(last_tag().len() == 5 && last_tag()[0] == 'L');
    lemma_tag_number_seg(last_tag(), n);
    lemma_dec_chars_value(n);
}

/// A targeted resend request round-trips: the segment after its marker is
/// the numeral of the offset, and that numeral reads back as the offset.
pub proof fn lemma_resend_offset_roundtrip(n: nat)
    ensures
        valid_utf8(encode_utf8(resend_offset_chars(n))),
        decode_utf8(encode_utf8(resend_offset_chars(n))) == resend_offset_chars(n),
        seg_after(resend_offset_chars(n), resend_offset_tag()) == Some(dec_chars(n)),
        is_dec_chars(dec_chars(n)),
        dec_value(dec_chars(n)) == n,
{
    reveal_strlit("RESEND ");
    assert(resend_offset_tag().len() == 7 && resend_offset_tag()[0] == 'R');
    lemma_tag_number_seg(resend_offset_tag(), n);
    lemma_dec_chars_value(n);
}

proof fn lemma_offset_tag_chars()
    ensures
        offset_tag().len() == 8,
        offset_tag()[0] == 'O',
        forall|i: int| 0 <= i < 8 ==> ' ' <= #[trigger] offset_tag()[i] <= '~',
{
    reveal_strlit("OFFSET: ");
    assert forall|i: int| 0 <= i < 8 implies ' ' <= #[trigger] offset_tag()[i] <= '~' by {
        if i == 0 {
        } else if i == 1 {
        } else if i == 2 {
        } else if i == 3 {
        } else if i == 4 {
        } else if i == 5 {
        } else if i == 6 {
        } else {
            assert(i == 7);
        }
    }
}

/// A data packet round-trips: its first line-break byte closes the header,
/// the header names the offset, and the bytes after it are the chunk.
pub proof fn lemma_data_packet_roundtrip(offset: nat, body: Seq<u8>)
    ensures
        ({
            let header = data_header_chars(offset);
            let eh = encode_utf8(header);
            let packet = eh + body;
            &&& eh.len() == header.len()
            &&& find_first(packet, seq![10u8]) == Some(eh.len() - 1)
            &&& packet.subrange(0, eh.len() as int) == eh
            &&& valid_utf8(eh)
            &&& decode_utf8(eh) == header
            &&& seg_after(header, offset_tag()) == Some(dec_chars(offset) + seq!['\n'])
            &&& upto_newline(dec_chars(offset) + seq!['\n']) == dec_chars(offset)
            &&& is_dec_chars(dec_chars(offset))
            &&& dec_value(dec_chars(offset)) == offset
            &&& packet.subrange(eh.len() as int, packet.len() as int) == body
        }),
{
    broadcast use vstd::utf8::is_ascii_chars_encode_utf8;

    let d = dec_chars(offset);
    let header = data_header_chars(offset);
    let eh = encode_utf8(header);
    let packet = eh + body;
    let hn = header.len() as int;
    lemma_offset_tag_chars();
    lemma_dec_chars_value(offset);
    encode_utf8_valid_utf8(header);
    encode_utf8_decode_utf8(header);
    assert(header.len() == 8 + d.len() + 1);
    assert(header[hn - 1] == '\n');
    assert forall|i: int| 0 <= i < hn - 1 implies header[i] != '\n' by {
        if i < 8 {
            assert(header[i] == offset_tag()[i]);
        } else {
            assert(header[i] == d[i - 8]);
            assert(is_digit_char(d[i - 8]));
        }
    }
    assert(is_ascii_chars(header)) by {
        assert forall|i: int| 0 <= i < hn implies '\0' <= #[trigger] header[i] <= '\u{7f}' by {
            if i < 8 {
                assert(header[i] == offset_tag()[i]);
            } else if i < hn - 1 {
                assert(header[i] == d[i - 8]);
                assert(is_digit_char(d[i - 8]));
            } else {
                assert(header[i] == '\n');
            }
        }
    }
    assert(eh.len() == header.len());
    // the packet's first line-break byte is the header's last byte
    assert(packet[hn - 1] == eh[hn - 1]);
    assert(eh[hn - 1] == header[hn - 1] as u8);
    assert(packet[hn - 1] == 10);
    crate::search::lemma_match_single(packet, 10u8, hn - 1);
    assert forall|j: int| 0 <= j < hn - 1 implies !matches_at(packet, seq![10u8], j) by {
        crate::search::lemma_match_single(packet, 10u8, j);
        assert(packet[j] == eh[j]);
        assert(eh[j] == header[j] as u8);
        assert(header[j] != '\n' && '\0' <= header[j] <= '\u{7f}');
    }
    lemma_find_first_unique(packet, seq![10u8], hn - 1);
    assert(packet.subrange(0, hn) =~= eh);
    assert(packet.subrange(hn, packet.len() as int) =~= body);
    // the header names the offset
    assert(header.subrange(0, 8) =~= offset_tag());
    assert(matches_at(header, offset_tag(), 0));
    lemma_find_first_unique(header, offset_tag(), 0);
    let rest = header.subrange(8, hn);
    assert(rest =~= d + seq!['\n']);
    assert forall|j: int| !matches_at(d + seq!['\n'], offset_tag(), j) by {
        let r = d + seq!['\n'];
        if matches_at(r, offset_tag(), j) {
            if j < d.len() {
                assert(r[j] == d[j]);
                assert(is_digit_char(d[j]));
                lemma_mismatch_at(r, offset_tag(), j, j);
            } else {
                assert(r[j] == '\n');
                lemma_mismatch_at(r, offset_tag(), j, j);
            }
        }
    }
    lemma_find_first(d + seq!['\n'], offset_tag());
    assert(seg_after(header, offset_tag()) == Some(d + seq!['\n']));
    // the digits stop at the line break
    let r = d + seq!['\n'];
    crate::search::lemma_match_single(r, '\n', d.len() as int);
    assert(matches_at(r, seq!['\n'], d.len() as int));
    assert forall|j: int| 0 <= j < d.len() implies !matches_at(r, seq!['\n'], j) by {
        crate::search::lemma_match_single(r, '\n', j);
        assert(r[j] == d[j]);
        assert(is_digit_char(d[j]));
    }
    lemma_find_first_unique(r, seq!['\n'], d.len() as int);
    assert(r.subrange(0, d.len() as int) =~= d);
}

/// Every datagram the codec builds fits in one maximum-size datagram: even
/// a data packet whose header names the largest offset and whose chunk is
/// full leaves room, and the numeric reports are far smaller.
pub proof fn lemma_packets_fit_mtu(n: nat, body: Seq<u8>)
    requires
        n <= u64::MAX,
        body.len() <= DATA_SIZE,
    ensures
        encode_utf8(data_header_chars(n)).len() + body.len() <= MTU,
        encode_utf8(filesize_chars(n)).len() <= MTU,
        encode_utf8(last_received_chars(n)).len() <= MTU,
        encode_utf8(resend_offset_chars(n)).len() <= MTU,
{
    reveal_strlit("OFFSET: ");
    reveal_strlit("SIZE ");
    reveal_strlit("LAST ");
    reveal_strlit("RESEND ");
    lemma_dec_chars_len_word(n);
    lemma_encode_utf8_len(data_header_chars(n));
    lemma_encode_utf8_len(filesize_chars(n));
    lemma_encode_utf8_len(last_received_chars(n));
    lemma_encode_utf8_len(resend_offset_chars(n));
    assert(data_header_chars(n).len() <= 29);
    assert(filesize_chars(n).len() <= 25);
    assert(last_received_chars(n).len() <= 25);
    assert(resend_offset_chars(n).len() <= 27);
}

proof fn lemma_auth_tag_chars()
    ensures
        auth_tag().len() == 5,
        auth_tag()[0] == 'A' && auth_tag()[1] == 'U' && auth_tag()[2] == 'T' && auth_tag()[3]
            == 'H' && auth_tag()[4] == ' ',
        forall|i: int| 0 <= i < 5 ==> ' ' <= #[trigger] auth_tag()[i] <= '~',
{
    reveal_strlit("AUTH ");
    assert forall|i: int| 0 <= i < 5 implies ' ' <= #[trigger] auth_tag()[i] <= '~' by {
        if i == 0 {
        } else if i == 1 {
        } else if i == 2 {
        } else if i == 3 {
        } else {
            assert(i == 4);
        }
    }
}

proof fn lemma_get_tag_chars()
    ensures
        get_tag().len() == 4,
        get_tag()[0] == 'G' && get_tag()[1] == 'E' && get_tag()[2] == 'T' && get_tag()[3] == ' ',
        forall|i: int| 0 <= i < 4 ==> ' ' <= #[trigger] get_tag()[i] <= '~',
{
    reveal_strlit("GET ");
    assert forall|i: int| 0 <= i < 4 implies ' ' <= #[trigger] get_tag()[i] <= '~' by {
        if i == 0 {
        } else if i == 1 {
        } else if i == 2 {
        } else {
            assert(i == 3);
        }
    }
}

proof fn lemma_nl_get_tag_chars()
    ensures
        nl_get_tag().len() == 5,
        nl_get_tag()[0] == '\n' && nl_get_tag()[1] == 'G' && nl_get_tag()[2] == 'E'
            && nl_get_tag()[3] == 'T' && nl_get_tag()[4] == ' ',
{
    reveal_strlit("\nGET ");
}

/// A transfer request round-trips: splitting it on its markers yields the
/// file name and the token it was built from. Admissible are file names
/// without the `GET ` marker in them, and tokens without either marker and
/// without a line break; anything beyond that the splits would swallow.
pub proof fn lemma_send_req_roundtrip(filename: Seq<char>, auth: Seq<char>)
    requires
        !contains_seq(filename, get_tag()),
        !contains_seq(auth, get_tag()),
        !contains_seq(auth, auth_tag()),
        !contains_seq(auth, seq!['\n']),
    ensures
        ({
            let full = send_req_chars(filename, auth);
            &&& valid_utf8(encode_utf8(full))
            &&& decode_utf8(encode_utf8(full)) == full
            &&& seg_after(full, get_tag()) == Some(filename)
            &&& seg_after(full, auth_tag()) is Some
            &&& upto_newline(seg_after(full, auth_tag())->Some_0) == auth
        }),
{
    let full = send_req_chars(filename, auth);
    let an = auth.len() as int;
    lemma_auth_tag_chars();
    lemma_get_tag_chars();
    lemma_nl_get_tag_chars();
    encode_utf8_valid_utf8(full);
    encode_utf8_decode_utf8(full);
    assert(full.len() == 10 + an + filename.len());
    // how full reads at each index
    assert forall|i: int| 0 <= i < 5 implies full[i] == auth_tag()[i] by {}
    assert forall|i: int| 5 <= i < 5 + an implies full[i] == auth[i - 5] by {}
    assert forall|i: int| 5 + an <= i < 10 + an implies full[i] == nl_get_tag()[i - 5 - an] by {}
    assert forall|i: int| 10 + an <= i < full.len() implies full[i] == filename[i - 10 - an] by {}
    // the GET marker first occurs right after the inserted line break
    let p = 6 + an;
    assert(full.subrange(p, p + 4) =~= get_tag());
    assert(matches_at(full, get_tag(), p));
    assert forall|j: int| 0 <= j < p implies !matches_at(full, get_tag(), j) by {
        if matches_at(full, get_tag(), j) {
            if j + 4 <= 5 + an {
                if j < 5 {
                    assert(full[j] == auth_tag()[j]);
                    lemma_mismatch_at(full, get_tag(), j, j);
                } else {
                    crate::search::lemma_matches_at_restrict(full, get_tag(), j, 5, 5 + an);
                    assert(full.subrange(5, 5 + an) =~= auth);
                }
            } else {
                let k = 5 + an;
                assert(full[k] == '\n');
                assert(' ' <= get_tag()[k - j] <= '~');
                lemma_mismatch_at(full, get_tag(), j, k);
            }
        }
    }
    lemma_find_first_unique(full, get_tag(), p);
    let rest = full.subrange(p + 4, full.len() as int);
    assert(rest =~= filename);
    lemma_find_first(filename, get_tag());
    if find_first(filename, get_tag()) is Some {
        let k = find_first(filename, get_tag())->Some_0;
        assert(matches_at(filename, get_tag(), k));
    }
    assert(seg_after(full, get_tag()) == Some(filename));
    // the AUTH marker first occurs at the very front
    assert(full.subrange(0, 5) =~= auth_tag());
    assert(matches_at(full, auth_tag(), 0));
    lemma_find_first_unique(full, auth_tag(), 0);
    let rest2 = full.subrange(5, full.len() as int);
    assert(rest2.len() == 5 + an + filename.len());
    assert forall|i: int| 0 <= i < an implies rest2[i] == auth[i] by {}
    assert(rest2[an] == '\n');
    // any further AUTH marker can only start after the line break
    assert forall|j: int| 0 <= j <= an implies !matches_at(rest2, auth_tag(), j) by {
        if matches_at(rest2, auth_tag(), j) {
            if j + 5 <= an {
                crate::search::lemma_matches_at_restrict(rest2, auth_tag(), j, 0, an);
                assert(rest2.subrange(0, an) =~= auth);
            } else {
                assert(' ' <= auth_tag()[an - j] <= '~');
                lemma_mismatch_at(rest2, auth_tag(), j, an);
            }
        }
    }
    let token_seg = seg_after(full, auth_tag())->Some_0;
    lemma_find_first(rest2, auth_tag());
    assert(token_seg.len() > an && (forall|i: int| 0 <= i < an ==> token_seg[i] == auth[i])
        && token_seg[an] == '\n') by {
        match find_first(rest2, auth_tag()) {
            None => {
                assert(token_seg == rest2);
            },
            Some(j) => {
                assert(matches_at(rest2, auth_tag(), j));
                assert(j > an);
                assert(token_seg == rest2.subrange(0, j));
            },
        }
    }
    // the token is everything before the line break
    crate::search::lemma_match_single(token_seg, '\n', an);
    assert forall|j: int| 0 <= j < an implies !matches_at(token_seg, seq!['\n'], j) by {
        crate::search::lemma_match_single(token_seg, '\n', j);
        if token_seg[j] == '\n' {
            crate::search::lemma_match_single(auth, '\n', j);
        }
    }
    lemma_find_first_unique(token_seg, seq!['\n'], an);
    assert(token_seg.subrange(0, an) =~= auth);
}

} // verus!
