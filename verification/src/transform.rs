//! The transform engine: one decoded transaction in, one encoded segment
//! list out.
//!
//! A transaction carries ordered changes and events. Each one becomes a
//! segment: a routing suffix `event.<address>.<short-type>` plus the
//! re-encoded JSON text of the originating record. Segments are emitted in
//! transaction order — all changes first, then all events — and the whole
//! list is encoded as a JSON array, except that zero segments yield a
//! zero-length result rather than an encoded empty array.

use vstd::prelude::*;
use vstd::utf8::encode_utf8;
use crate::short_type::short_type;
use crate::short_type::extract_event_type;
use crate::json::json_quoted;
use crate::json::quote_string;
use crate::json::decode_fields;
use crate::json::string_pair_views;
use crate::json::tx_wellformed;
use crate::json::tx_changes;
use crate::json::tx_events;

verus! {

/// One state change of a transaction: a namespaced type and an address,
/// possibly empty.
pub struct Change {
    pub change_type: String,
    pub address: String,
}

/// The globally unique identifier attached to an event; only the account
/// address matters here.
pub struct GUID {
    pub account_address: String,
}

/// One event of a transaction: a namespaced type and its identifier.
pub struct Event {
    pub event_type: String,
    pub guid: GUID,
}

/// The decoded input record.
pub struct AptosTransaction {
    pub changes: Vec<Change>,
    pub events: Vec<Event>,
}

/// One unit of output: a routing suffix and the re-encoded originating
/// record as text.
pub struct Segment {
    pub suffix: String,
    pub data: String,
}

/// The input bytes were not a well-formed encoding of a transaction.
#[derive(Clone, Copy, PartialEq, Eq, Structural, Debug)]
pub struct DecodeError;

/// The address component of a routing suffix: the address itself, or
/// `empty` when the address has no characters.
pub open spec fn address_key(addr: Seq<char>) -> Seq<char> {
    if addr.len() == 0 {
        "empty"@
    } else {
        addr
    }
}

/// The routing suffix `event.<address-key>.<short-type>`.
pub open spec fn route_suffix(ty: Seq<char>, addr: Seq<char>) -> Seq<char> {
    "event."@ + address_key(addr) + "."@ + short_type(ty)
}

/// The JSON text a change with this type and address is re-encoded to.
pub open spec fn change_data(ty: Seq<char>, addr: Seq<char>) -> Seq<char> {
    "{\"type\":"@ + json_quoted(ty) + ",\"address\":"@ + json_quoted(addr) + "}"@
}

/// The JSON text an event with this type and account address is
/// re-encoded to.
pub open spec fn event_data(ty: Seq<char>, addr: Seq<char>) -> Seq<char> {
    "{\"type\":"@ + json_quoted(ty) + ",\"guid\":{\"account_address\":"@ + json_quoted(addr)
        + "}}"@
}

/// The (suffix, data) pair derived from a change's (type, address) pair.
pub open spec fn change_entry(p: (Seq<char>, Seq<char>)) -> (Seq<char>, Seq<char>) {
    (route_suffix(p.0, p.1), change_data(p.0, p.1))
}

/// The (suffix, data) pair derived from an event's (type, account
/// address) pair.
pub open spec fn event_entry(p: (Seq<char>, Seq<char>)) -> (Seq<char>, Seq<char>) {
    (route_suffix(p.0, p.1), event_data(p.0, p.1))
}

/// All (suffix, data) pairs owed for the given change and event field
/// pairs, in emission order: changes in input order, then events in
/// input order.
pub open spec fn segment_entries(
    changes: Seq<(Seq<char>, Seq<char>)>,
    events: Seq<(Seq<char>, Seq<char>)>,
) -> Seq<(Seq<char>, Seq<char>)> {
    changes.map_values(|p: (Seq<char>, Seq<char>)| change_entry(p)) + events.map_values(
        |p: (Seq<char>, Seq<char>)| event_entry(p),
    )
}

/// The (type, address) pairs of a change list.
pub open spec fn change_views(cs: Seq<Change>) -> Seq<(Seq<char>, Seq<char>)> {
    cs.map_values(|c: Change| (c.change_type@, c.address@))
}

/// The (type, account address) pairs of an event list.
pub open spec fn event_views(es: Seq<Event>) -> Seq<(Seq<char>, Seq<char>)> {
    es.map_values(|e: Event| (e.event_type@, e.guid.account_address@))
}

/// All (suffix, data) pairs of a transaction, in emission order.
pub open spec fn transaction_entries(t: AptosTransaction) -> Seq<(Seq<char>, Seq<char>)> {
    segment_entries(change_views(t.changes@), event_views(t.events@))
}

/// The (suffix, data) pairs held by a built segment list.
pub open spec fn entries_of(segs: Seq<Segment>) -> Seq<(Seq<char>, Seq<char>)> {
    segs.map_values(|s: Segment| (s.suffix@, s.data@))
}

/// The JSON object text for one segment.
pub open spec fn segment_json(suffix: Seq<char>, data: Seq<char>) -> Seq<char> {
    "{\"suffix\":"@ + json_quoted(suffix) + ",\"data\":"@ + json_quoted(data) + "}"@
}

/// The comma-separated JSON object texts of a segment list, without the
/// surrounding brackets.
pub open spec fn segments_json(items: Seq<(Seq<char>, Seq<char>)>) -> Seq<char>
    decreases items.len(),
{
    if items.len() == 0 {
        Seq::<char>::empty()
    } else if items.len() == 1 {
        segment_json(items[0].0, items[0].1)
    } else {
        segments_json(items.drop_last()) + ","@ + segment_json(items.last().0, items.last().1)
    }
}

/// The full encoding of a segment list: a JSON array, or nothing at all
/// when there are no segments.
pub open spec fn encoded_segments(items: Seq<(Seq<char>, Seq<char>)>) -> Seq<char> {
    if items.len() == 0 {
        Seq::<char>::empty()
    } else {
        "["@ + segments_json(items) + "]"@
    }
}

/// The text the transform owes for a decoded transaction; the byte output
/// is its UTF-8 encoding.
pub open spec fn transform_output(t: AptosTransaction) -> Seq<char> {
    encoded_segments(transaction_entries(t))
}

/// Build the routing suffix `event.<address-key>.<short-type>`.
fn make_suffix(ty: &str, address: &str) -> (r: String)
    ensures
        r@ == route_suffix(ty@, address@),
{
    let mut r = String::from_str("event.");
    if address.is_empty() {
        r.append("empty");
    } else {
        r.append(address);
    }
    r.append(".");
    let st = extract_event_type(ty);
    r.append(st.as_str());
    proof {
        assert(r@ =~= route_suffix(ty@, address@));
    }
    r
}

/// Re-encode a change as JSON text.
fn encode_change(c: &Change) -> (r: String)
    ensures
        r@ == change_data(c.change_type@, c.address@),
{
    let mut r = String::from_str("{\"type\":");
    let q_ty = quote_string(c.change_type.as_str());
    r.append(q_ty.as_str());
    r.append(",\"address\":");
    let q_addr = quote_string(c.address.as_str());
    r.append(q_addr.as_str());
    r.append("}");
    proof {
        assert(r@ =~= change_data(c.change_type@, c.address@));
    }
    r
}

/// Re-encode an event as JSON text.
fn encode_event(e: &Event) -> (r: String)
    ensures
        r@ == event_data(e.event_type@, e.guid.account_address@),
{
    let mut r = String::from_str("{\"type\":");
    let q_ty = quote_string(e.event_type.as_str());
    r.append(q_ty.as_str());
    r.append(",\"guid\":{\"account_address\":");
    let q_addr = quote_string(e.guid.account_address.as_str());
    r.append(q_addr.as_str());
    r.append("}}");
    proof {
        assert(r@ =~= event_data(e.event_type@, e.guid.account_address@));
    }
    r
}

/// Derive the segment list of a transaction: one segment per change, in
/// input order, followed by one per event, in input order.
pub fn make_segments(t: &AptosTransaction) -> (segments: Vec<Segment>)
    ensures
        segments@.len() == t.changes@.len() + t.events@.len(),
        entries_of(segments@) == transaction_entries(*t),
{
    let mut segments: Vec<Segment> = Vec::new();
    let ghost changes_entries = change_views(t.changes@).map_values(
        |p: (Seq<char>, Seq<char>)| change_entry(p),
    );
    let ghost events_entries = event_views(t.events@).map_values(
        |p: (Seq<char>, Seq<char>)| event_entry(p),
    );

    let mut i: usize = 0;
    while i < t.changes.len()
        invariant
            i <= t.changes@.len(),
            segments@.len() == i,
            changes_entries == change_views(t.changes@).map_values(
                |p: (Seq<char>, Seq<char>)| change_entry(p),
            ),
            entries_of(segments@) == changes_entries.take(i as int),
        decreases t.changes@.len() - i,
    {
        let change = &t.changes[i];
        let suffix = make_suffix(change.change_type.as_str(), change.address.as_str());
        let data = encode_change(change);
        segments.push(Segment { suffix, data });
        proof {
            assert(changes_entries[i as int] == change_entry(
                (t.changes@[i as int].change_type@, t.changes@[i as int].address@),
            ));
            assert(entries_of(segments@) =~= changes_entries.take(i + 1));
        }
        i = i + 1;
    }

    let mut j: usize = 0;
    while j < t.events.len()
        invariant
            j <= t.events@.len(),
            segments@.len() == t.changes@.len() + j,
            changes_entries == change_views(t.changes@).map_values(
                |p: (Seq<char>, Seq<char>)| change_entry(p),
            ),
            events_entries == event_views(t.events@).map_values(
                |p: (Seq<char>, Seq<char>)| event_entry(p),
            ),
            entries_of(segments@) == changes_entries + events_entries.take(j as int),
        decreases t.events@.len() - j,
    {
        let event = &t.events[j];
        let suffix = make_suffix(event.event_type.as_str(), event.guid.account_address.as_str());
        let data = encode_event(event);
        segments.push(Segment { suffix, data });
        proof {
            let ghost before = changes_entries + events_entries.take(j as int);
            assert(events_entries[j as int] == event_entry(
                (t.events@[j as int].event_type@, t.events@[j as int].guid.account_address@),
            ));
            assert(entries_of(segments@) =~= before.push(events_entries[j as int]));
            assert(changes_entries + events_entries.take(j + 1) =~= before.push(
                events_entries[j as int],
            ));
        }
        j = j + 1;
    }
    proof {
        assert(changes_entries.take(t.changes@.len() as int) =~= changes_entries);
        assert(events_entries.take(t.events@.len() as int) =~= events_entries);
        assert(entries_of(segments@) =~= transaction_entries(*t));
    }
    segments
}

/// Encode a segment list as a JSON array of `{suffix, data}` objects;
/// zero segments give a zero-length byte sequence instead.
pub fn encode_segments(segments: &Vec<Segment>) -> (out: Vec<u8>)
    ensures
        out@ == encode_utf8(encoded_segments(entries_of(segments@))),
{
    let ghost entries = entries_of(segments@);
    if segments.len() == 0 {
        let out: Vec<u8> = Vec::new();
        proof {
            assert(encode_utf8(Seq::<char>::empty()) =~= Seq::<u8>::empty());
        }
        return out;
    }
    let mut acc = String::from_str("[");
    proof {
        assert(acc@ =~= "["@ + segments_json(entries.take(0)));
    }
    let mut i: usize = 0;
    while i < segments.len()
        invariant
            i <= segments@.len(),
            entries == entries_of(segments@),
            acc@ == "["@ + segments_json(entries.take(i as int)),
        decreases segments@.len() - i,
    {
        if i > 0 {
            acc.append(",");
        }
        let seg = &segments[i];
        let mut piece = String::from_str("{\"suffix\":");
        let q_suffix = quote_string(seg.suffix.as_str());
        piece.append(q_suffix.as_str());
        piece.append(",\"data\":");
        let q_data = quote_string(seg.data.as_str());
        piece.append(q_data.as_str());
        piece.append("}");
        proof {
            assert(piece@ =~= segment_json(entries[i as int].0, entries[i as int].1));
        }
        acc.append(piece.as_str());
        proof {
            assert(entries.take(i + 1).drop_last() =~= entries.take(i as int));
            assert(entries.take(i + 1).last() == entries[i as int]);
            assert(acc@ =~= "["@ + segments_json(entries.take(i + 1)));
        }
        i = i + 1;
    }
    acc.append("]");
    proof {
        assert(entries.take(entries.len() as int) =~= entries);
        assert(acc@ =~= encoded_segments(entries));
    }
    acc.as_str().as_bytes_vec()
}

/// Transform one decoded transaction into its encoded segment list. A
/// transaction with no changes and no events yields a zero-length result.
pub fn transform_transaction(t: &AptosTransaction) -> (out: Vec<u8>)
    ensures
        out@ == encode_utf8(transform_output(*t)),
        t.changes@.len() == 0 && t.events@.len() == 0 ==> out@ == Seq::<u8>::empty(),
{
    let segments = make_segments(t);
    let out = encode_segments(&segments);
    proof {
        if t.changes@.len() == 0 && t.events@.len() == 0 {
            assert(transaction_entries(*t) =~= Seq::<(Seq<char>, Seq<char>)>::empty());
            assert(encode_utf8(Seq::<char>::empty()) =~= Seq::<u8>::empty());
        }
    }
    out
}

/// Decode input bytes into a transaction. The result is `Ok` exactly
/// when the bytes are a well-formed encoding of the expected shape, and
/// the decoded fields are exactly the named parse results.
fn decode_transaction(data: &[u8]) -> (r: Result<AptosTransaction, DecodeError>)
    ensures
        r is Ok <==> tx_wellformed(data@),
        r matches Ok(t) ==> change_views(t.changes@) == tx_changes(data@) && event_views(
            t.events@,
        ) == tx_events(data@),
{
    let (change_pairs, event_pairs) = match decode_fields(data) {
        Some(p) => p,
        None => { return Err(DecodeError) },
    };

    let mut changes: Vec<Change> = Vec::new();
    let mut i: usize = 0;
    while i < change_pairs.len()
        invariant
            i <= change_pairs@.len(),
            change_views(changes@) == string_pair_views(change_pairs@).take(i as int),
        decreases change_pairs@.len() - i,
    {
        let pair = &change_pairs[i];
        changes.push(Change { change_type: pair.0.clone(), address: pair.1.clone() });
        proof {
            let ghost vs = string_pair_views(change_pairs@);
            let ghost before = vs.take(i as int);
            assert(vs[i as int] == (change_pairs@[i as int].0@, change_pairs@[i as int].1@));
            assert(change_views(changes@) =~= before.push(vs[i as int]));
            assert(vs.take(i + 1) =~= before.push(vs[i as int]));
        }
        i = i + 1;
    }

    let mut events: Vec<Event> = Vec::new();
    let mut j: usize = 0;
    while j < event_pairs.len()
        invariant
            j <= event_pairs@.len(),
            event_views(events@) == string_pair_views(event_pairs@).take(j as int),
        decreases event_pairs@.len() - j,
    {
        let pair = &event_pairs[j];
        events.push(Event {
            event_type: pair.0.clone(),
            guid: GUID { account_address: pair.1.clone() },
        });
        proof {
            let ghost vs = string_pair_views(event_pairs@);
            let ghost before = vs.take(j as int);
            assert(vs[j as int] == (event_pairs@[j as int].0@, event_pairs@[j as int].1@));
            assert(event_views(events@) =~= before.push(vs[j as int]));
            assert(vs.take(j + 1) =~= before.push(vs[j as int]));
        }
        j = j + 1;
    }

    proof {
        assert(string_pair_views(change_pairs@).take(change_pairs@.len() as int)
            =~= string_pair_views(change_pairs@));
        assert(string_pair_views(event_pairs@).take(event_pairs@.len() as int)
            =~= string_pair_views(event_pairs@));
    }
    Ok(AptosTransaction { changes, events })
}

/// Decode, transform and re-encode one transaction. The result is `Ok`
/// exactly when the input is a well-formed encoding of the expected
/// shape, and then holds exactly the encoded segment list of the named
/// parse results — zero-length when the transaction has no changes and no
/// events; any other input is a `DecodeError`.
pub fn process_aptos_transaction(data: &[u8]) -> (r: Result<Vec<u8>, DecodeError>)
    ensures
        r is Ok <==> tx_wellformed(data@),
        r matches Ok(out) ==> out@ == encode_utf8(
            encoded_segments(segment_entries(tx_changes(data@), tx_events(data@))),
        ),
{
    match decode_transaction(data) {
        Ok(t) => {
            let out = transform_transaction(&t);
            proof {
                assert(transaction_entries(t) == segment_entries(
                    tx_changes(data@),
                    tx_events(data@),
                ));
            }
            Ok(out)
        },
        Err(e) => Err(e),
    }
}

} // verus!
