//! SHA-256 digests of text, and their rendering as lowercase hexadecimal.

use vstd::prelude::*;
use sha2::Digest;
use crate::text::push_char;

verus! {

/// The SHA-256 digest of a byte sequence.
pub uninterp spec fn sha256_spec(data: Seq<u8>) -> Seq<u8>;

/// `sha2::Sha256::digest`: the 32-byte SHA-256 digest of `data`. The
/// digest itself is named, not spelled out; its length is the algorithm's
/// output size.
#[verifier::external_body]
fn sha256(data: &[u8]) -> (res: Vec<u8>)
    ensures
        res@ == sha256_spec(data@),
        res@.len() == 32,
{
    sha2::Sha256::digest(data).to_vec()
}

pub open spec fn hex_digit(n: int) -> char {
    if n < 10 {
        (('0' as int) + n) as char
    } else {
        (('a' as int) + n - 10) as char
    }
}

/// Two lowercase hexadecimal digits of a byte (`{:02x}`).
pub open spec fn hex_byte(b: u8) -> Seq<char> {
    seq![hex_digit(b as int / 16), hex_digit(b as int % 16)]
}

/// The bytes rendered as lowercase hexadecimal, two digits per byte.
pub open spec fn hex(bytes: Seq<u8>) -> Seq<char>
    decreases bytes.len(),
{
    if bytes.len() == 0 {
        Seq::empty()
    } else {
        hex(bytes.drop_last()) + hex_byte(bytes.last())
    }
}

/// The UTF-8 bytes of a text.
pub open spec fn utf8(s: Seq<char>) -> Seq<u8> {
    vstd::utf8::encode_utf8(s)
}

/// The first `n` hexadecimal digits of the SHA-256 digest of the UTF-8
/// bytes of `s` (`n` even).
pub open spec fn digest_prefix(s: Seq<char>, n: nat) -> Seq<char> {
    hex(sha256_spec(utf8(s)).take(n as int / 2))
}

fn hex_char(n: u8) -> (c: char)
    requires
        n < 16,
    ensures
        c == hex_digit(n as int),
{
    if n < 10 {
        ((48u8 + n) as char)
    } else {
        ((87u8 + n) as char)
    }
}

/// The first `n` hexadecimal digits of the SHA-256 digest of `s`.
pub fn digest_hex_prefix(s: &str, n: usize) -> (res: String)
    requires
        n % 2 == 0,
        n <= 64,
    ensures
        res@ == digest_prefix(s@, n as nat),
{
    let d = sha256(s.as_bytes());
    let mut res = String::new();
    let mut i: usize = 0;
    while i < n / 2
        invariant
            i <= n / 2,
            n <= 64,
            d@.len() == 32,
            d@ == sha256_spec(utf8(s@)),
            res@ == hex(d@.take(i as int)),
        decreases n / 2 - i,
    {
        let b = d[i];
        push_char(&mut res, hex_char(b / 16));
        push_char(&mut res, hex_char(b % 16));
        proof {
            assert(d@.take(i + 1).drop_last() =~= d@.take(i as int));
            assert(res@ =~= hex(d@.take(i + 1)));
        }
        i += 1;
    }
    res
}

} // verus!
