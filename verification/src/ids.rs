//! Node identifiers and names, which come from the `uuid` and `names` crates.
use vstd::prelude::*;

use crate::error::Error;

verus! {

/// A node's identifier: the 128-bit value of its UUID, most significant
/// byte first (the value `uuid::Uuid::as_u128` gives).
pub type NodeId = u128;

/// The value of the UUID that `uuid::Uuid::parse_str` reads from `text`,
/// or `None` where it reports an error.
pub uninterp spec fn uuid_parse(text: Seq<char>) -> Option<u128>;

/// Calls `uuid::Uuid::parse_str` and reads the UUID as its 128-bit value.
/// Claimed: the outcome depends on the text alone (the parser is a pure
/// function of its input), so it is named by `uuid_parse`.
#[verifier::external_body]
fn parse_uuid(text: &str) -> (r: Option<u128>)
    ensures
        r == uuid_parse(text@),
{
    match uuid::Uuid::parse_str(text) {
        Ok(u) => Some(u.as_u128()),
        Err(_) => None,
    }
}

/// Calls `uuid::Uuid::new_v4` and reads the UUID as its 128-bit value.
/// Claimed: the value is random apart from the version nibble (4) and the
/// variant bits (`10`), which `new_v4` sets by masking.
#[verifier::external_body]
pub(crate) fn random_uuid() -> (id: u128)
    ensures
        id & 0xF000_C000_0000_0000_0000u128 == 0x4000_8000_0000_0000_0000u128,
{
    uuid::Uuid::new_v4().as_u128()
}

/// Whether a hyphen stands somewhere strictly inside `s`, as in every name
/// that `names` generates (`adjective-noun`).
pub open spec fn has_inner_hyphen(s: Seq<char>) -> bool {
    exists|i: int| 0 < i < s.len() - 1 && s[i] == '-'
}

/// Calls `names::Generator::default().next()` and takes the name out of the
/// `Some` that it always returns. Claimed: the name is an adjective, a
/// hyphen and a noun, both words non-empty, so a hyphen stands somewhere
/// strictly inside it. Which words are drawn is left unsaid: it is random.
#[verifier::external_body]
pub(crate) fn random_name() -> (name: String)
    ensures
        has_inner_hyphen(name@),
{
    let mut generator = names::Generator::default();
    generator.next().unwrap()
}

/// Reads a node identifier from its textual UUID form.
pub fn parse_node_id(text: &str) -> (r: Result<NodeId, Error>)
    ensures
        match uuid_parse(text@) {
            Some(v) => r == Ok::<NodeId, Error>(v),
            None => r matches Err(Error::InvalidUUID { uuid }) && uuid@ == text@,
        },
{
    match parse_uuid(text) {
        Some(v) => Ok(v),
        None => Err(Error::InvalidUUID { uuid: text.to_owned() }),
    }
}

} // verus!
