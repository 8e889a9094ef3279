//! Short-code derivation: the leading 64 bits of a fresh identifier are
//! written as a fixed number of base62 digits (low digit first). Uniqueness
//! is not assumed from the digits themselves: the caller checks the store for
//! the code and retries with a fresh identifier on a collision.

use crate::CODE_LEN;
use vstd::prelude::*;
use vstd::utf8::{
    decode_utf8, encode_utf8, encode_utf8_decode_utf8, encode_utf8_valid_utf8, is_ascii_chars,
    is_ascii_chars_encode_utf8, valid_utf8,
};

verus! {

/// The base62 digit for a value below 62: `0-9`, then `A-Z`, then `a-z`.
pub open spec fn base62_digit(d: u64) -> u8
    recommends
        d < 62,
{
    if d < 10 {
        (48 + d) as u8
    } else if d < 36 {
        (65 + (d - 10)) as u8
    } else {
        (97 + (d - 36)) as u8
    }
}

/// True of the bytes that base62 digits are drawn from.
pub open spec fn is_code_byte(x: u8) -> bool {
    (48 <= x <= 57) || (65 <= x <= 90) || (97 <= x <= 122)
}

/// True of the characters a short code is made of.
pub open spec fn is_code_char(c: char) -> bool {
    (c as u32) < 128 && is_code_byte(c as u8)
}

/// The `k` low-order base62 digits of `n`, low digit first.
pub open spec fn spec_code_bytes(n: u64, k: nat) -> Seq<u8>
    decreases k,
{
    if k == 0 {
        Seq::empty()
    } else {
        seq![base62_digit(n % 62)] + spec_code_bytes(n / 62, (k - 1) as nat)
    }
}

/// Every byte of a base62 rendering is a code byte (in particular ASCII).
pub proof fn lemma_code_bytes_shape(n: u64, k: nat)
    ensures
        spec_code_bytes(n, k).len() == k,
        forall|i: int|
            0 <= i < k ==> is_code_byte(#[trigger] spec_code_bytes(n, k)[i]),
    decreases k,
{
    if k > 0 {
        lemma_code_bytes_shape(n / 62, (k - 1) as nat);
        assert forall|i: int| 0 <= i < k implies is_code_byte(
            #[trigger] spec_code_bytes(n, k)[i],
        ) by {
            if i > 0 {
                assert(spec_code_bytes(n, k)[i] == spec_code_bytes(n / 62, (k - 1) as nat)[i - 1]);
            }
        }
    }
}

/// An all-ASCII byte sequence is valid UTF-8 and decodes to itself,
/// character for character.
pub proof fn lemma_ascii_bytes_chars(b: Seq<u8>)
    requires
        forall|i: int| 0 <= i < b.len() ==> #[trigger] b[i] < 128,
    ensures
        valid_utf8(b),
        encode_utf8(decode_utf8(b)) == b,
        decode_utf8(b).len() == b.len(),
        forall|i: int| 0 <= i < b.len() ==> #[trigger] decode_utf8(b)[i] == b[i] as char,
{
    let chars = Seq::new(b.len(), |i: int| b[i] as char);
    assert(is_ascii_chars(chars));
    is_ascii_chars_encode_utf8(chars);
    assert(encode_utf8(chars) =~= b);
    encode_utf8_valid_utf8(chars);
    encode_utf8_decode_utf8(chars);
}

/// The base62 digit of `d`, executable form.
fn base62_digit_exec(d: u64) -> (r: u8)
    requires
        d < 62,
    ensures
        r == base62_digit(d),
{
    if d < 10 {
        (48 + d) as u8
    } else if d < 36 {
        (55 + d) as u8
    } else {
        (61 + d) as u8
    }
}

/// Renders `n` as `CODE_LEN` base62 digits, low digit first.
#[verifier::loop_isolation(false)]
pub fn code_bytes(n: u64) -> (r: Vec<u8>)
    ensures
        r@ == spec_code_bytes(n, CODE_LEN as nat),
        r@.len() == CODE_LEN,
        forall|i: int| 0 <= i < r@.len() ==> is_code_byte(#[trigger] r@[i]),
        forall|i: int| 0 <= i < r@.len() ==> #[trigger] r@[i] < 128,
{
    let mut r: Vec<u8> = Vec::new();
    let mut m = n;
    let mut i: usize = 0;
    while i < CODE_LEN
        invariant
            i <= CODE_LEN,
            r@.len() == i,
            spec_code_bytes(n, CODE_LEN as nat) == r@ + spec_code_bytes(m, (CODE_LEN - i) as nat),
        decreases CODE_LEN - i,
    {
        let d = m % 62;
        let ghost prev = r@;
        r.push(base62_digit_exec(d));
        proof {
            assert(spec_code_bytes(m, (CODE_LEN - i) as nat) == seq![base62_digit(m % 62)]
                + spec_code_bytes(m / 62, (CODE_LEN - i - 1) as nat));
            assert(prev + spec_code_bytes(m, (CODE_LEN - i) as nat) =~= r@ + spec_code_bytes(
                m / 62,
                (CODE_LEN - i - 1) as nat,
            ));
        }
        m = m / 62;
        i = i + 1;
    }
    proof {
        assert(r@ + spec_code_bytes(m, 0) =~= r@);
        lemma_code_bytes_shape(n, CODE_LEN as nat);
    }
    r
}

} // verus!
