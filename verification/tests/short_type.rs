use aptos_transform::short_type::extract_event_type;

#[test]
fn generic_suffix_is_stripped() {
    assert_eq!(extract_event_type("0x1::coin::CoinStore<AptosCoin>"), "CoinStore");
}

#[test]
fn namespace_separators_inside_generics_win_the_split() {
    // The split on `::` runs over the whole identifier, generic arguments
    // included, so a namespaced type parameter supplies the last piece.
    assert_eq!(
        extract_event_type("0x1::coin::CoinStore<0x1::aptos_coin::AptosCoin>"),
        "AptosCoin>"
    );
}

#[test]
fn plain_namespaced_type() {
    assert_eq!(extract_event_type("0x1::account::Account"), "Account");
}

#[test]
fn dot_stripping_without_namespace() {
    assert_eq!(extract_event_type("foo.Bar"), "Bar");
}

#[test]
fn last_component_wins() {
    assert_eq!(extract_event_type("x::y::Z"), "Z");
}

#[test]
fn no_separator_at_all() {
    assert_eq!(extract_event_type("Plain"), "Plain");
}

#[test]
fn empty_input_stays_empty() {
    assert_eq!(extract_event_type(""), "");
}

#[test]
fn trailing_separator_leaves_empty_piece() {
    assert_eq!(extract_event_type("a::"), "");
}

#[test]
fn odd_colon_run_is_split_left_to_right() {
    // "a:::b" splits at the first "::", leaving ":b" as the last piece.
    assert_eq!(extract_event_type("a:::b"), ":b");
}

#[test]
fn generic_then_dot() {
    // The `<` cut can leave a dotted prefix behind, which is then stripped.
    assert_eq!(extract_event_type("ns.Box<T>"), "Box");
}

#[test]
fn multibyte_characters_are_handled_per_character() {
    assert_eq!(extract_event_type("模块::类型<参数>"), "类型");
}

#[test]
fn dot_strip_runs_after_generic_strip() {
    assert_eq!(extract_event_type("a::b.c<d>.e"), "c");
}
