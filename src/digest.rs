//! Hexadecimal text, SHA-1 digests and object addresses.

use vstd::prelude::*;
use vstd::string::StrSliceExecFns;

verus! {

/// The lowercase hexadecimal digit for a nibble.
pub open spec fn hex_digit(n: int) -> char {
    if n == 0 { '0' } else if n == 1 { '1' } else if n == 2 { '2' } else if n == 3 { '3' }
    else if n == 4 { '4' } else if n == 5 { '5' } else if n == 6 { '6' } else if n == 7 { '7' }
    else if n == 8 { '8' } else if n == 9 { '9' } else if n == 10 { 'a' } else if n == 11 { 'b' }
    else if n == 12 { 'c' } else if n == 13 { 'd' } else if n == 14 { 'e' } else { 'f' }
}

/// A lowercase hexadecimal digit.
pub open spec fn is_lower_hex(c: char) -> bool {
    ('0' <= c && c <= '9') || ('a' <= c && c <= 'f')
}

/// A hexadecimal digit of either case.
pub open spec fn is_hex_char(c: char) -> bool {
    is_lower_hex(c) || ('A' <= c && c <= 'F')
}

/// The value of a hexadecimal digit.
pub open spec fn hex_val(c: char) -> int {
    if '0' <= c && c <= '9' {
        c as int - '0' as int
    } else if 'a' <= c && c <= 'f' {
        c as int - 'a' as int + 10
    } else {
        c as int - 'A' as int + 10
    }
}

/// Two lowercase digits per byte, high nibble first.
pub open spec fn hex_of(b: Seq<u8>) -> Seq<char> {
    Seq::new(
        2 * b.len(),
        |j: int|
            if j % 2 == 0 {
                hex_digit(b[j / 2] as int / 16)
            } else {
                hex_digit(b[j / 2] as int % 16)
            },
    )
}

/// The bytes that a text of hexadecimal digit pairs stands for.
pub open spec fn unhex(s: Seq<char>) -> Seq<u8> {
    Seq::new(s.len() / 2, |i: int| (16 * hex_val(s[2 * i]) + hex_val(s[2 * i + 1])) as u8)
}

/// A text that hex decoding accepts: an even number of hexadecimal digits.
pub open spec fn is_hex_text(s: Seq<char>) -> bool {
    s.len() % 2 == 0 && forall|i: int| 0 <= i < s.len() ==> is_hex_char(#[trigger] s[i])
}

/// An object address: forty lowercase hexadecimal digits.
pub open spec fn is_address(s: Seq<char>) -> bool {
    s.len() == 40 && forall|i: int| 0 <= i < s.len() ==> is_lower_hex(#[trigger] s[i])
}

/// The SHA-1 digest of a byte sequence.
pub uninterp spec fn sha1_of(b: Seq<u8>) -> Seq<u8>;

/// The address of a byte sequence: its SHA-1 digest in lowercase hex.
pub open spec fn digest_hex(b: Seq<u8>) -> Seq<char> {
    hex_of(sha1_of(b))
}

proof fn lemma_hex_digit_val(n: int)
    requires
        0 <= n < 16,
    ensures
        is_lower_hex(hex_digit(n)),
        hex_val(hex_digit(n)) == n,
{
}

proof fn lemma_hex_val_digit(c: char)
    requires
        is_lower_hex(c),
    ensures
        0 <= hex_val(c) < 16,
        hex_digit(hex_val(c)) == c,
{
}

/// Decoding the hex text of a byte sequence gives the bytes back.
pub proof fn lemma_unhex_hex_of(b: Seq<u8>)
    ensures
        unhex(hex_of(b)) == b,
        is_hex_text(hex_of(b)),
        forall|i: int| 0 <= i < hex_of(b).len() ==> is_lower_hex(#[trigger] hex_of(b)[i]),
{
    let h = hex_of(b);
    assert forall|i: int| 0 <= i < b.len() implies #[trigger] unhex(h)[i] == b[i] by {
        assert((2 * i) % 2 == 0 && (2 * i) / 2 == i);
        assert((2 * i + 1) % 2 == 1 && (2 * i + 1) / 2 == i);
        let v = b[i] as int;
        lemma_hex_digit_val(v / 16);
        lemma_hex_digit_val(v % 16);
        assert(16 * (v / 16) + v % 16 == v);
    }
    assert forall|j: int| 0 <= j < h.len() implies is_lower_hex(#[trigger] h[j]) by {
        lemma_hex_digit_val(b[j / 2] as int / 16);
        lemma_hex_digit_val(b[j / 2] as int % 16);
    }
    assert(unhex(h) =~= b);
}

/// Encoding the bytes of a lowercase hex text gives the text back.
pub proof fn lemma_hex_of_unhex(s: Seq<char>)
    requires
        s.len() % 2 == 0,
        forall|i: int| 0 <= i < s.len() ==> is_lower_hex(#[trigger] s[i]),
    ensures
        hex_of(unhex(s)) == s,
{
    let u = unhex(s);
    assert forall|j: int| 0 <= j < s.len() implies #[trigger] hex_of(u)[j] == s[j] by {
        let i = j / 2;
        let hi = hex_val(s[2 * i]);
        let lo = hex_val(s[2 * i + 1]);
        lemma_hex_val_digit(s[2 * i]);
        lemma_hex_val_digit(s[2 * i + 1]);
        assert(u[i] as int == 16 * hi + lo);
        assert((16 * hi + lo) / 16 == hi && (16 * hi + lo) % 16 == lo) by (nonlinear_arith)
            requires
                0 <= hi < 16,
                0 <= lo < 16,
        ;
    }
    assert(hex_of(u) =~= s);
}

/// Whether a text is an object address.
pub fn check_address(s: &String) -> (r: bool)
    ensures
        r == is_address(s@),
{
    let t = s.as_str();
    let n = t.unicode_len();
    if n != 40 {
        return false;
    }
    let mut i: usize = 0;
    while i < n
        invariant
            t@ == s@,
            n == s@.len(),
            forall|k: int| 0 <= k < i ==> is_lower_hex(#[trigger] s@[k]),
        decreases n - i,
    {
        let c = t.get_char(i);
        if !(('0' <= c && c <= '9') || ('a' <= c && c <= 'f')) {
            return false;
        }
        i = i + 1;
    }
    true
}

/// Relies on hex::encode: two lowercase digits per byte, high nibble first.
#[verifier::external_body]
pub(crate) fn to_hex(b: &[u8]) -> (r: String)
    ensures
        r@ == hex_of(b@),
{
    hex::encode(b)
}

/// Relies on hex::decode: it accepts an even number of hexadecimal digits of
/// either case and gives one byte per pair; anything else is an error.
#[verifier::external_body]
pub(crate) fn from_hex(s: &String) -> (r: Result<Vec<u8>, hex::FromHexError>)
    ensures
        r is Ok <==> is_hex_text(s@),
        r matches Ok(v) ==> v@ == unhex(s@),
{
    hex::decode(s)
}

#[verifier::external_type_specification]
#[verifier::external_body]
pub struct ExFromHexError(hex::FromHexError);

/// Relies on sha1's `Digest::digest` for `Sha1`: the 160-bit digest of the input.
#[verifier::external_body]
fn sha1_digest(b: &[u8]) -> (r: Vec<u8>)
    ensures
        r@ == sha1_of(b@),
        r@.len() == 20,
{
    <sha1::Sha1 as sha1::Digest>::digest(b).to_vec()
}

/// The address of a byte sequence: its SHA-1 digest as forty lowercase hex digits.
pub fn sha_from_bytes(bytes: &[u8]) -> (r: String)
    ensures
        r@ == digest_hex(bytes@),
        is_address(r@),
{
    let d = sha1_digest(bytes);
    let r = to_hex(d.as_slice());
    proof {
        lemma_unhex_hex_of(d@);
    }
    r
}

} // verus!
