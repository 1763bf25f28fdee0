//! MAC engine: HMAC-SHA-256 over arbitrary bytes, keyed by the application's
//! shared secret, with hex and base64 encodings of the tag.

use vstd::prelude::*;

use hmac::{Hmac, Mac, NewMac};
use sha2::Sha256;

use crate::ShopifyApp;

verus! {

/// The HMAC-SHA-256 tag of `data` under `key`. The tag is a pure function of
/// the key and the message; its value is left to the cryptographic primitive.
pub uninterp spec fn hmac_sha256_of(key: Seq<u8>, data: Seq<u8>) -> Seq<u8>;

/// The lowercase hexadecimal digit for a value below sixteen.
pub open spec fn hex_digit(n: int) -> char
    recommends
        0 <= n < 16,
{
    if n < 10 {
        ((48 + n) as u32) as char
    } else {
        ((87 + n) as u32) as char
    }
}

/// Lowercase hexadecimal encoding: two digits for each byte, high nibble
/// first.
pub open spec fn hex_of(b: Seq<u8>) -> Seq<char> {
    Seq::new(
        2 * b.len(),
        |i: int|
            if i % 2 == 0 {
                hex_digit(b[i / 2] as int / 16)
            } else {
                hex_digit(b[i / 2] as int % 16)
            },
    )
}

/// The standard base64 alphabet character for a value below sixty-four.
pub open spec fn b64_char(n: int) -> char
    recommends
        0 <= n < 64,
{
    if n < 26 {
        ((65 + n) as u32) as char
    } else if n < 52 {
        ((71 + n) as u32) as char
    } else if n < 62 {
        ((n - 4) as u32) as char
    } else if n == 62 {
        '+'
    } else {
        '/'
    }
}

/// Standard base64 encoding with `=` padding: each group of three bytes
/// becomes four alphabet characters; a trailing group of one or two bytes is
/// padded to four characters.
pub open spec fn base64_of(b: Seq<u8>) -> Seq<char>
    decreases b.len(),
{
    if b.len() == 0 {
        Seq::empty()
    } else if b.len() == 1 {
        let x = b[0] as int;
        seq![b64_char(x / 4), b64_char(x % 4 * 16), '=', '=']
    } else if b.len() == 2 {
        let x = b[0] as int;
        let y = b[1] as int;
        seq![b64_char(x / 4), b64_char(x % 4 * 16 + y / 16), b64_char(y % 16 * 4), '=']
    } else {
        let x = b[0] as int;
        let y = b[1] as int;
        let z = b[2] as int;
        seq![
            b64_char(x / 4),
            b64_char(x % 4 * 16 + y / 16),
            b64_char(y % 16 * 4 + z / 64),
            b64_char(z % 64),
        ] + base64_of(b.skip(3))
    }
}

/// The tag of `data` under the secret `secret`, taken as its UTF-8 bytes:
/// what every MAC of this library computes.
pub open spec fn app_mac(secret: Seq<char>, data: Seq<u8>) -> Seq<u8> {
    hmac_sha256_of(vstd::utf8::encode_utf8(secret), data)
}

/// Relies on `hmac::Hmac<sha2::Sha256>`: `new_from_slice` accepts a key of
/// any length, and the finalized tag is the 32-byte HMAC-SHA-256 of the
/// updated data under that key, a function of key and data alone.
#[verifier::external_body]
fn hmac_sha256(key: &[u8], data: &[u8]) -> (r: Vec<u8>)
    ensures
        r@ == hmac_sha256_of(key@, data@),
        r@.len() == 32,
{
    let mut m = <Hmac<Sha256> as NewMac>::new_from_slice(key).expect("any key length is accepted");
    m.update(data);
    m.finalize().into_bytes().to_vec()
}

/// Relies on `hex::encode`: lowercase hexadecimal, two digits per byte, high
/// nibble first.
#[verifier::external_body]
fn hex_string(b: &[u8]) -> (r: String)
    ensures
        r@ == hex_of(b@),
{
    hex::encode(b)
}

/// Relies on `base64::encode`: the standard alphabet with `=` padding.
#[verifier::external_body]
fn base64_string(b: &[u8]) -> (r: String)
    ensures
        r@ == base64_of(b@),
{
    base64::encode(b)
}

impl ShopifyApp {
    /// The raw 32-byte HMAC-SHA-256 tag of `data` under the shared secret.
    pub fn generate_hmac_bytes(&self, data: &[u8]) -> (r: Vec<u8>)
        ensures
            r@ == app_mac(self.credentials.secret@, data@),
            r@.len() == 32,
    {
        hmac_sha256(self.credentials.secret.as_str().as_bytes(), data)
    }

    /// The tag of `data` under the shared secret, in lowercase hexadecimal.
    pub fn generate_hmac_hex(&self, data: &[u8]) -> (r: String)
        ensures
            r@ == hex_of(app_mac(self.credentials.secret@, data@)),
    {
        let tag = self.generate_hmac_bytes(data);
        hex_string(tag.as_slice())
    }

    /// The tag of `data` under the shared secret, in standard base64.
    pub fn generate_hmac_base64(&self, data: &[u8]) -> (r: String)
        ensures
            r@ == base64_of(app_mac(self.credentials.secret@, data@)),
    {
        let tag = self.generate_hmac_bytes(data);
        base64_string(tag.as_slice())
    }
}

} // verus!
