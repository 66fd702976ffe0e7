use aptos_transform::transform::AptosTransaction;
use aptos_transform::transform::Change;
use aptos_transform::transform::Event;
use aptos_transform::transform::GUID;
use aptos_transform::transform::make_segments;
use aptos_transform::transform::process_aptos_transaction;
use aptos_transform::transform::transform_transaction;

fn change(ty: &str, addr: &str) -> Change {
    Change { change_type: ty.to_string(), address: addr.to_string() }
}

fn event(ty: &str, addr: &str) -> Event {
    Event { event_type: ty.to_string(), guid: GUID { account_address: addr.to_string() } }
}

#[test]
fn segments_count_and_order() {
    let t = AptosTransaction {
        changes: vec![
            change("0x1::account::Account", "0xaaa"),
            change("0x1::coin::CoinStore<AptosCoin>", "0xbbb"),
        ],
        events: vec![event("0x1::coin::DepositEvent", "0xccc")],
    };
    let segments = make_segments(&t);
    assert_eq!(segments.len(), 3);
    assert_eq!(segments[0].suffix, "event.0xaaa.Account");
    assert_eq!(segments[1].suffix, "event.0xbbb.CoinStore");
    assert_eq!(segments[2].suffix, "event.0xccc.DepositEvent");
    assert_eq!(
        segments[0].data,
        "{\"type\":\"0x1::account::Account\",\"address\":\"0xaaa\"}"
    );
    assert_eq!(
        segments[2].data,
        "{\"type\":\"0x1::coin::DepositEvent\",\"guid\":{\"account_address\":\"0xccc\"}}"
    );
}

#[test]
fn empty_address_uses_empty_key() {
    let t = AptosTransaction {
        changes: vec![change("0x1::account::Account", "")],
        events: vec![event("0x1::coin::WithdrawEvent", "")],
    };
    let segments = make_segments(&t);
    assert_eq!(segments[0].suffix, "event.empty.Account");
    assert_eq!(segments[1].suffix, "event.empty.WithdrawEvent");
}

#[test]
fn nonempty_address_is_kept() {
    let t = AptosTransaction {
        changes: vec![change("0x1::account::Account", "0xabc")],
        events: vec![],
    };
    let segments = make_segments(&t);
    assert_eq!(segments[0].suffix, "event.0xabc.Account");
}

#[test]
fn empty_transaction_yields_zero_length_output() {
    let t = AptosTransaction { changes: vec![], events: vec![] };
    let out = transform_transaction(&t);
    assert_eq!(out.len(), 0);
}

#[test]
fn transform_encodes_segment_array() {
    let t = AptosTransaction {
        changes: vec![change("0x1::account::Account", "0xabc")],
        events: vec![],
    };
    let out = transform_transaction(&t);
    let expected = "[{\"suffix\":\"event.0xabc.Account\",\"data\":\"{\\\"type\\\":\\\"0x1::account::Account\\\",\\\"address\\\":\\\"0xabc\\\"}\"}]";
    assert_eq!(out, expected.as_bytes());
}

#[test]
fn process_round_trips_one_change_and_one_event() {
    let input =
        "{\"changes\":[{\"type\":\"0x1::account::Account\",\"address\":\"0xabc\"}],\
         \"events\":[{\"type\":\"0x1::coin::DepositEvent\",\"guid\":{\"account_address\":\"\"}}]}";
    let out = process_aptos_transaction(input.as_bytes()).unwrap();
    let parsed: serde_json::Value = serde_json::from_slice(&out).unwrap();
    let arr = parsed.as_array().unwrap();
    assert_eq!(arr.len(), 2);
    assert_eq!(arr[0].get("suffix").unwrap().as_str().unwrap(), "event.0xabc.Account");
    assert_eq!(arr[1].get("suffix").unwrap().as_str().unwrap(), "event.empty.DepositEvent");
    let data0: serde_json::Value =
        serde_json::from_str(arr[0].get("data").unwrap().as_str().unwrap()).unwrap();
    assert_eq!(data0.get("type").unwrap().as_str().unwrap(), "0x1::account::Account");
    assert_eq!(data0.get("address").unwrap().as_str().unwrap(), "0xabc");
    let data1: serde_json::Value =
        serde_json::from_str(arr[1].get("data").unwrap().as_str().unwrap()).unwrap();
    assert_eq!(data1.get("type").unwrap().as_str().unwrap(), "0x1::coin::DepositEvent");
    assert_eq!(
        data1.get("guid").unwrap().get("account_address").unwrap().as_str().unwrap(),
        ""
    );
}

#[test]
fn quoting_escapes_special_characters() {
    // A type containing a quote and a backslash must be escaped in the
    // re-encoded data, exactly as the codec escapes it.
    let t = AptosTransaction {
        changes: vec![change("a\"b\\c::T", "0x1")],
        events: vec![],
    };
    let out = transform_transaction(&t);
    let parsed: serde_json::Value = serde_json::from_slice(&out).unwrap();
    let data = parsed.as_array().unwrap()[0].get("data").unwrap().as_str().unwrap();
    let inner: serde_json::Value = serde_json::from_str(data).unwrap();
    assert_eq!(inner.get("type").unwrap().as_str().unwrap(), "a\"b\\c::T");
    assert_eq!(inner.get("address").unwrap().as_str().unwrap(), "0x1");
}

#[test]
fn process_of_empty_transaction_returns_no_bytes() {
    let out = process_aptos_transaction(b"{\"changes\":[],\"events\":[]}").unwrap();
    assert_eq!(out.len(), 0);
}

#[test]
fn missing_changes_field_is_a_decode_error() {
    assert!(process_aptos_transaction(b"{\"events\":[]}").is_err());
}

#[test]
fn missing_events_field_is_a_decode_error() {
    assert!(process_aptos_transaction(b"{\"changes\":[]}").is_err());
}

#[test]
fn truncated_input_is_a_decode_error() {
    assert!(process_aptos_transaction(b"{\"changes\":[").is_err());
}

#[test]
fn wrongly_typed_fields_are_a_decode_error() {
    assert!(process_aptos_transaction(b"{\"changes\":\"x\",\"events\":[]}").is_err());
    assert!(
        process_aptos_transaction(b"{\"changes\":[{\"type\":7,\"address\":\"a\"}],\"events\":[]}")
            .is_err()
    );
    assert!(
        process_aptos_transaction(
            b"{\"changes\":[],\"events\":[{\"type\":\"t\",\"guid\":{}}]}"
        )
        .is_err()
    );
}

#[test]
fn garbage_bytes_are_a_decode_error() {
    assert!(process_aptos_transaction(&[0xff, 0xfe, 0x00]).is_err());
}

#[test]
fn two_segments_are_joined_with_a_comma() {
    let t = AptosTransaction {
        changes: vec![change("a::T", "1"), change("b::U", "")],
        events: vec![],
    };
    let out = transform_transaction(&t);
    let expected = "[{\"suffix\":\"event.1.T\",\"data\":\"{\\\"type\\\":\\\"a::T\\\",\\\"address\\\":\\\"1\\\"}\"},{\"suffix\":\"event.empty.U\",\"data\":\"{\\\"type\\\":\\\"b::U\\\",\\\"address\\\":\\\"\\\"}\"}]";
    assert_eq!(out, expected.as_bytes());
}

#[test]
fn unicode_addresses_and_types_survive_the_round_trip() {
    let t = AptosTransaction {
        changes: vec![change("0x1::mod::类型", "α")],
        events: vec![],
    };
    let segments = make_segments(&t);
    assert_eq!(segments[0].suffix, "event.α.类型");
    let out = transform_transaction(&t);
    let parsed: serde_json::Value = serde_json::from_slice(&out).unwrap();
    let arr = parsed.as_array().unwrap();
    assert_eq!(arr[0].get("suffix").unwrap().as_str().unwrap(), "event.α.类型");
    let inner: serde_json::Value =
        serde_json::from_str(arr[0].get("data").unwrap().as_str().unwrap()).unwrap();
    assert_eq!(inner.get("type").unwrap().as_str().unwrap(), "0x1::mod::类型");
    assert_eq!(inner.get("address").unwrap().as_str().unwrap(), "α");
}

#[test]
fn repeated_keys_take_the_last_value() {
    // serde_json's tree parser keeps the last value of a repeated key, so
    // the decode accepts such input rather than rejecting it.
    let input =
        b"{\"changes\":[{\"type\":\"a::T\",\"address\":\"1\",\"address\":\"2\"}],\"events\":[]}";
    let out = process_aptos_transaction(input).unwrap();
    let parsed: serde_json::Value = serde_json::from_slice(&out).unwrap();
    let arr = parsed.as_array().unwrap();
    assert_eq!(arr[0].get("suffix").unwrap().as_str().unwrap(), "event.2.T");
}

#[test]
fn unknown_top_level_fields_are_ignored() {
    let out =
        process_aptos_transaction(b"{\"changes\":[],\"events\":[],\"extra\":5}").unwrap();
    assert_eq!(out.len(), 0);
}

#[test]
fn equal_inputs_give_equal_outputs() {
    let input = b"{\"changes\":[{\"type\":\"a::T\",\"address\":\"1\"}],\"events\":[]}";
    let first = process_aptos_transaction(input).unwrap();
    let second = process_aptos_transaction(input).unwrap();
    assert_eq!(first, second);
}
