//! Nonce generation and authorization URI construction.

use vstd::prelude::*;
use vstd::string::{StrSliceExecFns, StringExecFns};
use vstd::utf8::{
    encode_scalar, encode_utf8, is_ascii_chars, is_ascii_chars_encode_utf8,
    is_ascii_chars_nat_bound, partial_valid_utf8, partial_valid_utf8_extend_ascii_block,
    valid_utf8,
};

use crate::{mode_token, ShopifyApp};

verus! {

/// Relies on `textnonce::TextNonce::new` and `into_string`: the nonce is the
/// standard base64 text of 24 bytes (12 of time, 12 of randomness), so it is
/// 32 characters long and every character is ASCII; nothing more is assumed
/// of a random value. Relies on the operating system's random source and
/// clock being usable.
#[verifier::external_body]
fn fresh_nonce_text() -> (r: String)
    ensures
        r@.len() == 32,
        is_ascii_chars(r@),
{
    textnonce::TextNonce::new().into_string()
}

/// Relies on `String::from_utf8`: it succeeds exactly on valid UTF-8 input
/// and preserves the bytes.
#[verifier::external_body]
fn string_from_utf8(v: Vec<u8>) -> (r: Option<String>)
    ensures
        r is Some <==> valid_utf8(v@),
        r matches Some(s) ==> encode_utf8(s@) == v@,
{
    match String::from_utf8(v) {
        Ok(s) => Some(s),
        Err(_) => None,
    }
}

/// The UTF-8 encoding of a character sequence contains every ASCII character
/// of the sequence as a byte.
proof fn lemma_encode_contains_ascii(chars: Seq<char>, j: int)
    requires
        0 <= j < chars.len(),
        (chars[j] as u32) < 128,
    ensures
        encode_utf8(chars).contains(((chars[j] as u32) as u8)),
    decreases chars.len(),
{
    let c0 = chars[0] as u32;
    if j == 0 {
        assert(c0 as u8 == vstd::utf8::leading_byte_width_1(c0)) by (bit_vector)
            requires
                0 <= c0 <= 0x7f,
        ;
        assert(vstd::utf8::has_width_1_encoding(c0));
        assert(encode_scalar(c0) == seq![vstd::utf8::leading_byte_width_1(c0)]);
        assert(encode_utf8(chars) == encode_scalar(c0) + encode_utf8(chars.drop_first()));
        assert(encode_utf8(chars)[0] == c0 as u8);
    } else {
        lemma_encode_contains_ascii(chars.drop_first(), j - 1);
        let rest = encode_utf8(chars.drop_first());
        let b = (chars[j] as u32) as u8;
        let i = choose|i: int| 0 <= i < rest.len() && rest[i] == b;
        assert(encode_utf8(chars)[encode_scalar(c0).len() + i] == b);
    }
}

/// Decoding an all-ASCII byte sequence yields one character per byte.
proof fn lemma_decode_ascii_len(b: Seq<u8>)
    requires
        valid_utf8(b),
        forall|i: int| 0 <= i < b.len() ==> b[i] < 128,
    ensures
        vstd::utf8::decode_utf8(b).len() == b.len(),
    decreases b.len(),
{
    if b.len() > 0 {
        assert(vstd::utf8::is_leading_byte_width_1(b[0]));
        let rest = vstd::utf8::pop_first_scalar(b);
        assert(rest =~= b.drop_first());
        lemma_decode_ascii_len(rest);
    }
}

impl ShopifyApp {
    /// Generates a fresh random nonce whose text is URL-safe: the base64
    /// characters `+` and `/` are replaced by `-` and `_`, so neither ever
    /// appears in the result. The text keeps the random source's full
    /// length, never fewer than the 22 base64-range characters that the
    /// recommended 128-bit entropy floor needs.
    pub fn new_nonce() -> (r: String)
        ensures
            r@.len() >= 22,
            forall|i: int| 0 <= i < r@.len() ==> r@[i] != '+' && r@[i] != '/',
    {
        let text = fresh_nonce_text();
        let bytes = text.as_str().as_bytes_vec();
        proof {
            is_ascii_chars_encode_utf8(text@);
            is_ascii_chars_nat_bound(text@);
        }
        let mut out: Vec<u8> = Vec::new();
        let mut k: usize = 0;
        while k < bytes.len()
            invariant
                out@.len() == k <= bytes@.len(),
                forall|j: int| 0 <= j < bytes@.len() ==> #[trigger] bytes@[j] < 128,
                forall|j: int|
                    0 <= j < k ==> #[trigger] out@[j] < 128 && out@[j] != 43 && out@[j] != 47,
            decreases bytes@.len() - k,
        {
            let b = bytes[k];
            if b == 43 {
                out.push(45);
            } else if b == 47 {
                out.push(95);
            } else {
                out.push(b);
            }
            k += 1;
        }
        proof {
            assert(partial_valid_utf8(out@, 0)) by {
                assert(out@.subrange(0, 0) =~= Seq::<u8>::empty());
            }
            partial_valid_utf8_extend_ascii_block(out@, 0, out@.len() as int);
            assert(out@.subrange(0, out@.len() as int) =~= out@);
        }
        match string_from_utf8(out) {
            Some(s) => {
                proof {
                    vstd::utf8::encode_utf8_decode_utf8(s@);
                    lemma_decode_ascii_len(out@);
                    assert(s@.len() == out@.len());
                    assert forall|i: int| 0 <= i < s@.len() implies s@[i] != '+' && s@[i]
                        != '/' by {
                        if s@[i] == '+' || s@[i] == '/' {
                            lemma_encode_contains_ascii(s@, i);
                        }
                    }
                }
                s
            },
            None => {
                proof {
                    // `out` holds valid UTF-8, so this arm cannot be reached.
                    assert(false);
                }
                String::new()
            },
        }
    }
}

/// The scope names joined by commas, in their configured order.
pub open spec fn joined_scopes(ss: Seq<Seq<char>>) -> Seq<char>
    decreases ss.len(),
{
    if ss.len() == 0 {
        Seq::empty()
    } else if ss.len() == 1 {
        ss[0]
    } else {
        joined_scopes(ss.drop_last()) + ","@ + ss.last()
    }
}

/// The exact shape of the authorization redirect URI. No percent-encoding is
/// applied to any substituted value: callers must hand in well-formed parts.
pub open spec fn auth_uri(
    shop: Seq<char>,
    api_key: Seq<char>,
    scopes: Seq<Seq<char>>,
    return_uri: Seq<char>,
    nonce: Seq<char>,
    mode: crate::AccessMode,
) -> Seq<char> {
    "https://"@ + shop + "/admin/oauth/authorize?client_id="@ + api_key + "&scope="@
        + joined_scopes(scopes) + "&redirect_uri="@ + return_uri + "&state="@ + nonce
        + "&grant_options[]="@ + mode_token(mode)
}

fn join_comma(parts: &Vec<String>) -> (r: String)
    ensures
        r@ == joined_scopes(parts.deep_view()),
{
    let ghost dv = parts.deep_view();
    let mut r = String::new();
    let mut i: usize = 0;
    while i < parts.len()
        invariant
            0 <= i <= parts@.len(),
            dv == parts.deep_view(),
            dv.len() == parts@.len(),
            forall|j: int| 0 <= j < dv.len() ==> #[trigger] dv[j] == parts@[j]@,
            r@ == joined_scopes(dv.subrange(0, i as int)),
        decreases parts@.len() - i,
    {
        if i > 0 {
            r.append(",");
        }
        r.append(parts[i].as_str());
        proof {
            let pre = dv.subrange(0, i as int);
            let cur = dv.subrange(0, i + 1);
            assert(cur.drop_last() =~= pre);
            assert(cur.last() == dv[i as int]);
            if i == 0 {
                assert(r@ =~= joined_scopes(cur));
            } else {
                assert(r@ =~= joined_scopes(cur));
            }
        }
        i += 1;
    }
    proof {
        assert(dv.subrange(0, dv.len() as int) =~= dv);
    }
    r
}

impl ShopifyApp {
    /// Composes the authorization redirect URI from the configured
    /// credentials, scopes and access mode, and the given shop, return URI
    /// and nonce. Pure string composition: nothing is validated or encoded.
    pub fn new_auth_uri(&self, shop: &str, return_uri: &str, nonce: &str) -> (r: String)
        ensures
            r@ == auth_uri(
                shop@,
                self.credentials.api_key@,
                self.scopes.deep_view(),
                return_uri@,
                nonce@,
                self.access_mode,
            ),
    {
        let mut r = String::new();
        r.append("https://");
        r.append(shop);
        r.append("/admin/oauth/authorize?client_id=");
        r.append(self.credentials.api_key.as_str());
        r.append("&scope=");
        let scopes = join_comma(&self.scopes);
        r.append(scopes.as_str());
        r.append("&redirect_uri=");
        r.append(return_uri);
        r.append("&state=");
        r.append(nonce);
        r.append("&grant_options[]=");
        let mode = self.access_mode.as_string();
        r.append(mode.as_str());
        proof {
            assert(r@ =~= auth_uri(
                shop@,
                self.credentials.api_key@,
                self.scopes.deep_view(),
                return_uri@,
                nonce@,
                self.access_mode,
            ));
        }
        r
    }
}

} // verus!
