//! ASCII decimal numerals: encoding a `usize` as its decimal digit characters
//! and parsing digit characters back, with proofs that the two are inverse.
use vstd::prelude::*;
use vstd::utf8::{encode_scalar, encode_utf8, is_ascii_chars};

verus! {

/// The character for the decimal digit `d`.
pub open spec fn digit_char(d: nat) -> char
    recommends
        d < 10,
{
    ((48 + d) as u8) as char
}

/// The decimal numeral of `n`, most significant digit first, with no leading
/// zeroes (the numeral of zero is the single character `'0'`).
pub open spec fn dec_chars(n: nat) -> Seq<char>
    decreases n,
{
    if n < 10 {
        seq![digit_char(n)]
    } else {
        dec_chars(n / 10).push(digit_char(n % 10))
    }
}

/// Whether `c` is a decimal digit.
pub open spec fn is_digit_char(c: char) -> bool {
    '0' <= c <= '9'
}

/// Whether `s` is a nonempty sequence of decimal digits.
pub open spec fn is_dec_chars(s: Seq<char>) -> bool {
    s.len() > 0 && forall|i: int| 0 <= i < s.len() ==> is_digit_char(#[trigger] s[i])
}

/// The value of a sequence of decimal digits, read most significant first.
pub open spec fn dec_value(s: Seq<char>) -> nat
    decreases s.len(),
{
    if s.len() == 0 {
        0
    } else {
        dec_value(s.drop_last()) * 10 + (if is_digit_char(s.last()) {
            (s.last() as u32 - 48) as nat
        } else {
            0
        })
    }
}

/// The numeral of `n` consists of ASCII digits and reads back as `n`.
pub proof fn lemma_dec_chars_value(n: nat)
    ensures
        is_dec_chars(dec_chars(n)),
        is_ascii_chars(dec_chars(n)),
        dec_value(dec_chars(n)) == n,
    decreases n,
{
    if n < 10 {
        let s = dec_chars(n);
        assert(s.drop_last() =~= Seq::<char>::empty());
        assert(digit_char(n) as u32 == 48 + n) by {
            assert((48 + n) as u8 == 48 + n);
        }
        assert(dec_value(Seq::<char>::empty()) == 0);
        assert(dec_value(s) == n);
    } else {
        lemma_dec_chars_value(n / 10);
        let s = dec_chars(n);
        assert(s.drop_last() =~= dec_chars(n / 10));
        assert(digit_char(n % 10) as u32 == 48 + n % 10) by {
            assert(n % 10 < 10) by (nonlinear_arith);
            assert((48 + n % 10) as u8 == 48 + n % 10);
        }
        assert(n % 10 < 10 && (n / 10) * 10 + n % 10 == n) by (nonlinear_arith);
        assert(dec_value(s) == (n / 10) * 10 + n % 10);
    }
}

/// Powers of ten, for bounding the length of numerals.
pub open spec fn pow10(k: nat) -> nat
    decreases k,
{
    if k == 0 {
        1
    } else {
        10 * pow10((k - 1) as nat)
    }
}

/// A number below the `k`-th power of ten has at most `k` digits.
pub proof fn lemma_dec_chars_len(n: nat, k: nat)
    requires
        k >= 1,
        n < pow10(k),
    ensures
        1 <= dec_chars(n).len() <= k,
    decreases k,
{
    if n < 10 {
    } else {
        assert(pow10(k) == 10 * pow10((k - 1) as nat));
        assert(n / 10 < pow10((k - 1) as nat)) by (nonlinear_arith)
            requires
                n < 10 * pow10((k - 1) as nat),
        ;
        assert(k >= 2) by {
            if k == 1 {
                assert(pow10(0nat) == 1);
                assert(pow10(1nat) == 10);
            }
        }
        lemma_dec_chars_len(n / 10, (k - 1) as nat);
    }
}

/// Any value a machine word can hold has a numeral of at most 20 digits.
pub proof fn lemma_dec_chars_len_word(n: nat)
    requires
        n <= u64::MAX,
    ensures
        1 <= dec_chars(n).len() <= 20,
{
    reveal_with_fuel(pow10, 21);
    assert(pow10(20) > u64::MAX);
    lemma_dec_chars_len(n, 20);
}

/// A UTF-8 encoding takes at most four bytes per character.
pub proof fn lemma_encode_utf8_len(s: Seq<char>)
    ensures
        encode_utf8(s).len() <= 4 * s.len(),
    decreases s.len(),
{
    if s.len() > 0 {
        lemma_encode_utf8_len(s.drop_first());
    }
}

/// Extending a digit string by one digit multiplies its value by ten and adds
/// the new digit.
pub proof fn lemma_dec_value_snoc(s: Seq<char>, c: char)
    requires
        is_digit_char(c),
    ensures
        dec_value(s.push(c)) == dec_value(s) * 10 + (c as u32 - 48),
{
    assert(s.push(c).drop_last() =~= s);
}

/// The value of a digit string is at least the value of any of its prefixes.
pub proof fn lemma_dec_value_prefix_bound(s: Seq<char>, i: int)
    requires
        0 <= i <= s.len(),
    ensures
        dec_value(s) >= dec_value(s.subrange(0, i)),
    decreases s.len() - i,
{
    if i < s.len() {
        lemma_dec_value_prefix_bound(s, i + 1);
        let pre = s.subrange(0, i);
        let ext = s.subrange(0, i + 1);
        assert(ext =~= pre.push(s[i]));
        assert(ext.drop_last() =~= pre);
    } else {
        assert(s.subrange(0, i) =~= s);
    }
}

/// UTF-8 encoding distributes over concatenation of character sequences.
pub proof fn lemma_encode_utf8_concat(a: Seq<char>, b: Seq<char>)
    ensures
        encode_utf8(a + b) == encode_utf8(a) + encode_utf8(b),
    decreases a.len(),
{
    if a.len() == 0 {
        assert(a + b =~= b);
        assert(encode_utf8(a) + encode_utf8(b) =~= encode_utf8(b));
    } else {
        lemma_encode_utf8_concat(a.drop_first(), b);
        assert((a + b).drop_first() =~= a.drop_first() + b);
        assert((a + b)[0] == a[0]);
        assert(encode_scalar(a[0] as u32) + (encode_utf8(a.drop_first()) + encode_utf8(b))
            =~= (encode_scalar(a[0] as u32) + encode_utf8(a.drop_first())) + encode_utf8(b));
    }
}

/// The UTF-8 encoding of a single ASCII character is that character's byte.
pub proof fn lemma_encode_ascii_char(c: char)
    requires
        (c as u32) < 128,
    ensures
        encode_scalar(c as u32) == seq![(c as u32) as u8],
{
    let v = c as u32;
    assert(vstd::utf8::leading_byte_width_1(v) == v as u8) by (bit_vector)
        requires
            v < 128,
    ;
}

/// Appending one character to a sequence appends its scalar encoding.
pub proof fn lemma_encode_utf8_push(s: Seq<char>, c: char)
    ensures
        encode_utf8(s.push(c)) == encode_utf8(s) + encode_scalar(c as u32),
{
    assert(s.push(c) =~= s + seq![c]);
    lemma_encode_utf8_concat(s, seq![c]);
    assert(seq![c].drop_first() =~= Seq::<char>::empty());
    assert(encode_utf8(Seq::<char>::empty()) =~= Seq::<u8>::empty());
    assert(encode_utf8(seq![c]) =~= encode_scalar(c as u32));
}

/// Encodes `n` as the UTF-8 bytes of its decimal numeral.
pub fn encode_usize(n: usize) -> (r: Vec<u8>)
    ensures
        r@ == encode_utf8(dec_chars(n as nat)),
    decreases n,
{
    if n < 10 {
        let mut v: Vec<u8> = Vec::new();
        v.push(48 + (n as u8));
        proof {
            let c = digit_char(n as nat);
            assert(c as u32 == 48 + n) by {
                assert((48 + n) as u8 == 48 + n);
            }
            lemma_encode_ascii_char(c);
            assert(dec_chars(n as nat).drop_first() =~= Seq::<char>::empty());
            assert(encode_utf8(Seq::<char>::empty()) =~= Seq::<u8>::empty());
            assert(encode_utf8(dec_chars(n as nat)) =~= encode_scalar(c as u32));
            assert(v@ =~= encode_utf8(dec_chars(n as nat)));
        }
        v
    } else {
        let mut v = encode_usize(n / 10);
        v.push(48 + ((n % 10) as u8));
        proof {
            let c = digit_char((n % 10) as nat);
            assert(c as u32 == 48 + (n as nat) % 10) by {
                assert((n as nat) % 10 < 10) by (nonlinear_arith);
                assert((48 + (n as nat) % 10) as u8 == 48 + (n as nat) % 10);
            }
            lemma_encode_ascii_char(c);
            lemma_encode_utf8_push(dec_chars((n as nat) / 10), c);
            assert(v@ =~= encode_utf8(dec_chars(n as nat)));
        }
        v
    }
}

/// Parses the whole of `s` as a decimal `usize`. Returns the value exactly
/// when `s` is a nonempty string of digits whose value fits in `usize`.
pub fn parse_dec_str(s: &str) -> (r: Option<usize>)
    ensures
        r is Some <==> is_dec_chars(s@) && dec_value(s@) <= usize::MAX,
        r is Some ==> r->Some_0 == dec_value(s@),
{
    let n = s.unicode_len();
    if n == 0 {
        return None;
    }
    let mut acc: usize = 0;
    let mut i: usize = 0;
    while i < n
        invariant
            0 <= i <= n,
            n == s@.len(),
            forall|j: int| 0 <= j < i ==> is_digit_char(#[trigger] s@[j]),
            acc == dec_value(s@.subrange(0, i as int)),
        decreases n - i,
    {
        let c = s.get_char(i);
        let u = c as u32;
        if u < 48 || u > 57 {
            assert(!is_digit_char(s@[i as int]));
            return None;
        }
        let d = (u - 48) as usize;
        proof {
            let pre = s@.subrange(0, i as int);
            let ext = s@.subrange(0, i + 1);
            assert(ext =~= pre.push(s@[i as int]));
            lemma_dec_value_snoc(pre, s@[i as int]);
        }
        if acc > (usize::MAX - d) / 10 {
            proof {
                assert(acc * 10 + d > usize::MAX) by (nonlinear_arith)
                    requires
                        acc > (usize::MAX - d) / 10,
                        0 <= d <= 9,
                ;
                lemma_dec_value_prefix_bound(s@, i + 1);
            }
            return None;
        }
        proof {
            assert(acc * 10 + d <= usize::MAX) by (nonlinear_arith)
                requires
                    acc <= (usize::MAX - d) / 10,
                    0 <= d <= 9,
            ;
        }
        acc = acc * 10 + d;
        i = i + 1;
    }
    proof {
        assert(s@.subrange(0, n as int) =~= s@);
    }
    Some(acc)
}

} // verus!
