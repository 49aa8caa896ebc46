//! The calls into the overlay crate and into std that the library relies on.

use vstd::prelude::*;

verus! {

/// Length in bytes of an endpoint identity (an ed25519 public key) and of a topic.
pub const KEY_LEN: usize = 32;

/// The key bytes that `iroh::EndpointId::from_str` yields for a text, if it accepts it.
pub uninterp spec fn parsed_endpoint_key(s: Seq<char>) -> Option<Seq<u8>>;

/// Whether `iroh::EndpointId::from_bytes` accepts these 32 bytes as a curve point.
pub uninterp spec fn is_endpoint_key(k: Seq<u8>) -> bool;

/// Relies on `<iroh::EndpointId as FromStr>::from_str`: it decodes hex or base32
/// into 32 bytes and then builds the key with `EndpointId::from_bytes`, so an
/// accepted text yields 32 bytes that `from_bytes` accepts.
#[verifier::external_body]
pub(crate) fn parse_endpoint_key(s: &str) -> (r: Option<Vec<u8>>)
    ensures
        match r {
            Some(k) => parsed_endpoint_key(s@) == Some(k@) && k@.len() == KEY_LEN
                && is_endpoint_key(k@),
            None => parsed_endpoint_key(s@) is None,
        },
{
    s.parse::<iroh::EndpointId>().ok().map(|id| id.as_bytes().to_vec())
}

/// Relies on `iroh::EndpointId::from_bytes`: whether the bytes form a valid key.
#[verifier::external_body]
pub(crate) fn check_endpoint_key(k: &Vec<u8>) -> (r: bool)
    requires
        k@.len() == KEY_LEN,
    ensures
        r == is_endpoint_key(k@),
{
    match <&[u8; 32]>::try_from(k.as_slice()) {
        Ok(a) => iroh::EndpointId::from_bytes(a).is_ok(),
        Err(_) => false,
    }
}

/// Relies on `str::chars` collected into a `Vec`: the characters of the text, in order.
#[verifier::external_body]
pub(crate) fn chars_of(s: &str) -> (r: Vec<char>)
    ensures
        r@ == s@,
{
    s.chars().collect()
}

/// Relies on `String::from_iter` over characters: a string of exactly these, in order.
#[verifier::external_body]
pub(crate) fn string_of_chars(cs: &Vec<char>) -> (r: String)
    ensures
        r@ == cs@,
{
    cs.iter().collect()
}

} // verus!
