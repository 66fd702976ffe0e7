//! Trusted boundary around the structured-data codec (serde_json).
//!
//! The codec is a black box with two duties here: parsing input bytes into
//! the transaction's field values, and quoting strings on the way out.
//! Both results depend on their arguments alone, so each carries an
//! uninterpreted name that the contracts of the verified code speak of:
//! the parse verdict and field lists (`tx_wellformed`, `tx_changes`,
//! `tx_events`) and the quoted form of a string (`json_quoted`).

use vstd::prelude::*;

verus! {

/// Whether the bytes are a well-formed encoding of a transaction: a JSON
/// object holding a `changes` array of objects with string `type` and
/// `address` fields, and an `events` array of objects with a string
/// `type` and an object `guid` holding a string `account_address`. A
/// function of the bytes alone.
pub uninterp spec fn tx_wellformed(data: Seq<u8>) -> bool;

/// The (type, address) pairs of the `changes` array, in input order,
/// when the bytes are well-formed. A function of the bytes alone.
pub uninterp spec fn tx_changes(data: Seq<u8>) -> Seq<(Seq<char>, Seq<char>)>;

/// The (type, account_address) pairs of the `events` array, in input
/// order, when the bytes are well-formed. A function of the bytes alone.
pub uninterp spec fn tx_events(data: Seq<u8>) -> Seq<(Seq<char>, Seq<char>)>;

/// The JSON string literal (surrounding quotes included) that the codec
/// produces for a given character sequence. The codec's output depends on
/// the characters alone, so it can be given a name; nothing further is
/// assumed about its shape.
pub uninterp spec fn json_quoted(s: Seq<char>) -> Seq<char>;

/// The views of a list of string pairs.
pub open spec fn string_pair_views(v: Seq<(String, String)>) -> Seq<(Seq<char>, Seq<char>)> {
    v.map_values(|p: (String, String)| (p.0@, p.1@))
}

/// Relies on serde_json::from_slice and the variant accessors of
/// serde_json::Value: parses the bytes and hands back the field values of
/// the `changes` and `events` arrays, or `None` when the bytes are not
/// well-formed. The verdict and the values depend on the bytes alone and
/// carry the names `tx_wellformed`, `tx_changes` and `tx_events`. A key
/// repeated within one object contributes its last value.
#[verifier::external_body]
pub(crate) fn decode_fields(data: &[u8]) -> (r: Option<
    (Vec<(String, String)>, Vec<(String, String)>),
>)
    ensures
        r is Some <==> tx_wellformed(data@),
        r matches Some(p) ==> string_pair_views(p.0@) == tx_changes(data@) && string_pair_views(
            p.1@,
        ) == tx_events(data@),
{
    let v: serde_json::Value = serde_json::from_slice(data).ok()?;
    let changes = v.get("changes")?.as_array()?.iter().map(
        |c| Some((c.get("type")?.as_str()?.to_string(), c.get("address")?.as_str()?.to_string())),
    ).collect::<Option<Vec<_>>>()?;
    let events = v.get("events")?.as_array()?.iter().map(
        |e| Some((
            e.get("type")?.as_str()?.to_string(),
            e.get("guid")?.get("account_address")?.as_str()?.to_string(),
        )),
    ).collect::<Option<Vec<_>>>()?;
    Some((changes, events))
}

/// Relies on serde_json::to_string on `str`: the result is the quoted,
/// escaped JSON string literal for the input, a function of the characters
/// alone; its source shows that serializing a plain string into an
/// in-memory buffer cannot fail, so the `Err` arm is unreachable.
#[verifier::external_body]
pub(crate) fn quote_string(s: &str) -> (r: String)
    ensures
        r@ == json_quoted(s@),
{
    serde_json::to_string(s).unwrap()
}

} // verus!
