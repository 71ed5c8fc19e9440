//! Authentication of transfer requests: one authorised file and token pair,
//! the file name compared by prefix, the token exactly.
use vstd::prelude::*;
use vstd::string::StrSliceExecFns;
use vstd::utf8::{decode_utf8, encode_utf8, valid_utf8};

use crate::parsing::{auth_tag, get_tag, parse_send_req};
use crate::search::{seg_after, upto_newline};

verus! {

/// Holds the authorised tokens and file names.
pub struct AuthChecker {
    pub valid_tokens: Vec<String>,
    pub valid_files: Vec<String>,
}

/// Builds a checker that authorises the one given token and file.
pub fn init(valid_token: String, valid_file: String) -> (r: AuthChecker)
    ensures
        r.valid_tokens@.len() == 1,
        r.valid_tokens@[0] == valid_token,
        r.valid_files@.len() == 1,
        r.valid_files@[0] == valid_file,
{
    let mut v: Vec<String> = Vec::new();
    v.push(valid_token);
    let mut w: Vec<String> = Vec::new();
    w.push(valid_file);
    AuthChecker { valid_tokens: v, valid_files: w }
}

/// Whether the bytes of `stored` are the leading bytes of `requested`: the
/// deliberate prefix-match rule for file names.
pub open spec fn prefix_matches(stored: Seq<u8>, requested: Seq<u8>) -> bool {
    stored.len() <= requested.len() && requested.subrange(0, stored.len() as int) == stored
}

/// Whether `requested` prefix-matches some authorised file name.
pub open spec fn some_file_matches(files: Seq<String>, requested: Seq<char>) -> bool {
    exists|i: int|
        0 <= i < files.len() && prefix_matches(
            encode_utf8((#[trigger] files[i])@),
            encode_utf8(requested),
        )
}

/// Whether `given` equals some authorised token.
pub open spec fn some_token_matches(tokens: Seq<String>, given: Seq<char>) -> bool {
    exists|i: int| 0 <= i < tokens.len() && (#[trigger] tokens[i])@ == given
}

/// What makes `amt` leading bytes of `message` a valid request: it parses as
/// a transfer request, names a nonempty file and token, the file
/// prefix-matches an authorised name, and the token is authorised.
pub open spec fn spec_valid_request(
    files: Seq<String>,
    tokens: Seq<String>,
    message: Seq<u8>,
    amt: int,
) -> bool {
    let pre = message.subrange(0, amt);
    let txt = decode_utf8(pre);
    let fileseg = seg_after(txt, get_tag());
    let tokseg = seg_after(txt, auth_tag());
    &&& 0 <= amt <= message.len()
    &&& valid_utf8(pre)
    &&& fileseg is Some
    &&& tokseg is Some
    &&& fileseg->Some_0.len() > 0
    &&& upto_newline(tokseg->Some_0).len() > 0
    &&& some_file_matches(files, fileseg->Some_0)
    &&& some_token_matches(tokens, upto_newline(tokseg->Some_0))
}

impl AuthChecker {
    /// Decides whether `amt` leading bytes of `request_body` are a valid,
    /// authorised transfer request.
    pub fn is_valid_request(&self, request_body: &[u8], amt: usize) -> (r: bool)
        ensures
            r == spec_valid_request(
                self.valid_files@,
                self.valid_tokens@,
                request_body@,
                amt as int,
            ),
    {
        let parsed = match parse_send_req(request_body, amt) {
            None => {
                return false;
            },
            Some(p) => p,
        };
        let (file_requested, giventoken) = parsed;
        if file_requested.as_str().unicode_len() == 0 || giventoken.as_str().unicode_len() == 0 {
            return false;
        }
        let requested_bytes = file_requested.as_str().as_bytes_vec();
        let mut does_file_exist = false;
        let nf = self.valid_files.len();
        let mut i: usize = 0;
        while i < nf
            invariant
                0 <= i <= nf,
                nf == self.valid_files@.len(),
                requested_bytes@ == encode_utf8(file_requested@),
                does_file_exist <==> exists|j: int|
                    0 <= j < i && prefix_matches(
                        encode_utf8((#[trigger] self.valid_files@[j])@),
                        requested_bytes@,
                    ),
            decreases nf - i,
        {
            let stored = self.valid_files[i].as_str().as_bytes_vec();
            if stored.len() <= requested_bytes.len() {
                if crate::parsing::prefix_is(requested_bytes.as_slice(), &stored) {
                    does_file_exist = true;
                }
            }
            i = i + 1;
        }
        if !does_file_exist {
            return false;
        }
        let mut is_token_allowed = false;
        let nt = self.valid_tokens.len();
        let mut k: usize = 0;
        while k < nt
            invariant
                0 <= k <= nt,
                nt == self.valid_tokens@.len(),
                is_token_allowed <==> exists|j: int|
                    0 <= j < k && (#[trigger] self.valid_tokens@[j])@ == giventoken@,
            decreases nt - k,
        {
            if self.valid_tokens[k].eq(&giventoken) {
                is_token_allowed = true;
            }
            k = k + 1;
        }
        is_token_allowed
    }
}

} // verus!
