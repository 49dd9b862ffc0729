//! Connection-link building: a fresh secret, and the shareable link from
//! the current link parameters and a secret.

use vstd::prelude::*;
use crate::strutil::hex_of;
use crate::strutil::is_alnum_c;
use crate::strutil::is_hex_digit_c;
use crate::strutil::bytes_to_hex;
use crate::strutil::lemma_hex_of_props;
use crate::strutil::u64_dec;
use crate::strutil::u64_to_string;
use crate::strutil::skip_idx;
use crate::strutil::strip_leading_ats;

verus! {

/// The connection parameters the proxy link is built from: where the
/// running service listens.
pub struct LinkParams {
    pub server: String,
    pub port: u16,
}

/// What `urlencoding::encode` returns for a string.
pub uninterp spec fn url_encoded(s: Seq<char>) -> Seq<char>;

pub open spec fn is_unreserved_c(c: char) -> bool {
    is_alnum_c(c) || c == '-' || c == '_' || c == '.' || c == '~'
}

/// Relies on `urlencoding::encode`: percent-encodes every byte except
/// ASCII alphanumerics and `-`, `_`, `.`, `~`; a pure function of the
/// input, and a string made only of those characters comes back unchanged.
#[verifier::external_body]
fn url_encode(s: &str) -> (r: String)
    ensures
        r@ == url_encoded(s@),
        (forall|i: int| 0 <= i < s@.len() ==> is_unreserved_c(#[trigger] s@[i])) ==> r@ == s@,
        s@.len() == 0 ==> r@.len() == 0,
{
    urlencoding::encode(s).into_owned()
}

/// Relies on `rand::random`: sixteen bytes of randomness.  Nothing is
/// assumed about their values.
#[verifier::external_body]
fn random_bytes_16() -> (r: Vec<u8>)
    ensures
        r@.len() == 16,
{
    rand::random::<[u8; 16]>().to_vec()
}

/// A fresh credential secret: thirty-two lower-case hex digits encoding
/// sixteen random bytes.
pub fn generate_user_secret() -> (r: String)
    ensures
        r@.len() == 32,
        forall|i: int| 0 <= i < r@.len() ==> is_hex_digit_c(#[trigger] r@[i]),
        exists|b: Seq<u8>| b.len() == 16 && r@ == hex_of(b),
{
    let bytes = random_bytes_16();
    let r = bytes_to_hex(&bytes);
    proof {
        lemma_hex_of_props(bytes@);
    }
    r
}

/// The shareable proxy link for a secret, with the server name
/// percent-encoded.
pub open spec fn proxy_link_spec(server: Seq<char>, port: int, secret: Seq<char>) -> Seq<char> {
    "https://t.me/proxy?server="@ + url_encoded(server) + "&port="@ + u64_dec(port) + "&secret="@
        + url_encoded(secret)
}

pub fn build_proxy_link(params: &LinkParams, secret: &str) -> (r: String)
    ensures
        r@ == proxy_link_spec(params.server@, params.port as int, secret@),
{
    let mut s = "https://t.me/proxy?server=".to_owned();
    s.append(url_encode(params.server.as_str()).as_str());
    s.append("&port=");
    s.append(u64_to_string(params.port as u64).as_str());
    s.append("&secret=");
    s.append(url_encode(secret).as_str());
    s
}

/// The deep link that hands an invite token to the chat bot, with any
/// leading `@` stripped from the bot's name.
pub open spec fn bot_start_link_spec(bot_username: Seq<char>, token: Seq<char>) -> Seq<char> {
    "https://t.me/"@ + bot_username.subrange(
        skip_idx(bot_username, 0, |c: char| c == '@'),
        bot_username.len() as int,
    ) + "?start="@ + token
}

pub fn build_bot_start_link(bot_username: &str, token: &str) -> (r: String)
    ensures
        r@ == bot_start_link_spec(bot_username@, token@),
{
    let mut s = "https://t.me/".to_owned();
    s.append(strip_leading_ats(bot_username));
    s.append("?start=");
    s.append(token);
    s
}

} // verus!
