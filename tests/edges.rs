use json_view::{parse, JsonElement, JsonNumber, JsonType, Slice, MAX_DEPTH};

#[test]
fn object_entries_sorted_by_key() {
    let parsed = parse("{\"zeta\":1,\"alpha\":2,\"mid\":3}").unwrap();
    let keys: Vec<&str> = parsed.entries().unwrap().iter().map(|(k, _)| k.key.as_str()).collect();
    assert_eq!(keys, vec!["alpha", "mid", "zeta"]);
}

#[test]
fn array_elements_in_source_order() {
    let parsed = parse("[3,1,2]").unwrap();
    let values: Vec<Option<i128>> = parsed.elements().unwrap().iter().map(|v| v.as_i128()).collect();
    assert_eq!(values, vec![Some(3), Some(1), Some(2)]);
}

#[test]
fn repeated_key_keeps_last_value() {
    let parsed = parse("{\"a\":1,\"a\":2}").unwrap();
    assert_eq!(parsed.entries().unwrap().len(), 1);
    assert_eq!(parsed.get("a").and_then(|v| v.as_i128()), Some(2));
}

#[test]
fn empty_containers() {
    let object = parse("{}").unwrap();
    assert_eq!(object.entries().unwrap().len(), 0);
    let array = parse(" [ ] ").unwrap();
    assert_eq!(array.elements().unwrap().len(), 0);
    assert_eq!(array.at(0).is_none(), true);
}

#[test]
fn escaped_backslash_before_quote_closes_string() {
    let parsed = parse("{\"k\":\"a\\\\\",\"n\":1}").unwrap();
    assert_eq!(parsed.get("k").and_then(|v| v.as_str()), Some("a\\\\"));
    assert_eq!(parsed.get("n").and_then(|v| v.as_i128()), Some(1));
}

#[test]
fn escaped_quote_stays_in_string() {
    let parsed = parse("{\"k\":\"say \\\"hi\\\"\"}").unwrap();
    assert_eq!(parsed.get("k").and_then(|v| v.as_str()), Some("say \\\"hi\\\""));
}

#[test]
fn literals_null_true_false() {
    let parsed = parse("[null, true, false]").unwrap();
    assert_eq!(*parsed.at(0).unwrap().get_type(), JsonType::JsonNull);
    assert_eq!(parsed.at(1).and_then(|v| v.as_bool()), Some(true));
    assert_eq!(parsed.at(2).and_then(|v| v.as_bool()), Some(false));
    assert_eq!(parsed.at(0).and_then(|v| v.as_str()), None);
}

#[test]
fn large_integer_kept_exactly() {
    let parsed = parse("[170141183460469231731687303715884105727]").unwrap();
    assert_eq!(parsed.at(0).and_then(|v| v.as_i128()), Some(i128::MAX));
}

#[test]
fn integer_overflow_fails() {
    let error = parse("[170141183460469231731687303715884105728]").unwrap_err();
    assert_eq!(error.offset, 1);
}

#[test]
fn mantissa_of_every_number() {
    let parsed = parse("[1.5, 2e3]").unwrap();
    assert_eq!(parsed.at(0).and_then(|v| v.as_i128()), Some(15));
    assert_eq!(parsed.at(1).and_then(|v| v.as_i128()), Some(2));
}

#[test]
fn number_decoded_exactly() {
    let parsed = parse("[3.7391238e+24, 12, -0.5]").unwrap();
    assert_eq!(
        parsed.at(0).unwrap().as_number(),
        Some(JsonNumber { mantissa: 37391238, exponent: 17, is_integer: false })
    );
    assert_eq!(
        parsed.at(1).unwrap().as_number(),
        Some(JsonNumber { mantissa: 12, exponent: 0, is_integer: true })
    );
    assert_eq!(
        parsed.at(2).unwrap().as_number(),
        Some(JsonNumber { mantissa: -5, exponent: -1, is_integer: false })
    );
}

#[test]
fn malformed_numbers_fail() {
    assert_eq!(parse("{\"a\":1.}").unwrap_err().offset, 7);
    assert_eq!(parse("{\"a\":-}").unwrap_err().offset, 6);
    assert_eq!(parse("{\"a\":1e}").unwrap_err().offset, 7);
    assert_eq!(parse("{\"a\":1e+}").unwrap_err().offset, 8);
    assert_eq!(parse("[1.5.3]").unwrap_err().offset, 4);
    assert_eq!(parse("[1-2]").unwrap_err().offset, 2);
}

#[test]
fn missing_colon_fails_at_value() {
    assert_eq!(parse("{\"a\" 1}").unwrap_err().offset, 5);
}

#[test]
fn unbalanced_fails_at_end() {
    let text = "{\"a\":[1,2}";
    assert_eq!(parse(text).unwrap_err().offset, 9);
    let open = "{\"a\":1";
    assert_eq!(parse(open).unwrap_err().offset, open.len());
}

#[test]
fn leading_comma_fails() {
    assert_eq!(parse("{,\"a\":1}").unwrap_err().offset, 1);
    assert_eq!(parse("[,1]").unwrap_err().offset, 1);
}

#[test]
fn missing_separator_fails() {
    assert_eq!(parse("[1 2]").unwrap_err().offset, 3);
}

#[test]
fn whitespace_only_fails_at_end() {
    assert_eq!(parse(" \n\t").unwrap_err().offset, 3);
    assert_eq!(parse("").unwrap_err().offset, 0);
}

#[test]
fn top_level_scalar_fails() {
    assert_eq!(parse("  42").unwrap_err().offset, 2);
    assert_eq!(parse("\"text\"").unwrap_err().offset, 0);
}

#[test]
fn lookups_on_other_kinds_find_nothing() {
    let parsed = parse("{\"s\":\"x\",\"a\":[1]}").unwrap();
    let s = parsed.get("s").unwrap();
    assert!(s.get("x").is_none());
    assert!(s.at(0).is_none());
    assert!(parsed.at(0).is_none());
    assert!(parsed.get("a").and_then(|v| v.at(5)).is_none());
    assert!(parsed.get("a").and_then(|v| v.get("x")).is_none());
}

#[test]
fn empty_value_is_absent() {
    let e = JsonElement::empty();
    assert!(!e.is_present());
    assert_eq!(*e.get_type(), JsonType::JsonEmpty);
    assert!(e.get("x").is_none());
    assert!(e.as_i128().is_none());
}

#[test]
fn spans_point_into_source() {
    let text = "{\"k\": \"val\", \"n\": 10}";
    let parsed = parse(text).unwrap();
    let k = parsed.get("k").unwrap().get_slice();
    assert_eq!((k.beginning, k.end), (7, 10));
    assert_eq!(k.as_str(), "val");
    let n = parsed.get("n").unwrap().get_slice();
    assert_eq!(n.as_str(), "10");
    assert_eq!(parsed.get_slice().as_str(), text);
}

#[test]
fn constructors_set_kind() {
    let text = "true";
    let slice = Slice::new(text, 0, 4);
    let e = JsonElement::from_boolean(true, slice);
    assert_eq!(e.as_bool(), Some(true));
    assert!(e.is_present());
    let s = JsonElement::from_string(Slice::new(text, 0, 4));
    assert_eq!(s.as_str(), Some("true"));
    let z = JsonElement::from_null(Slice::new(text, 0, 0));
    assert_eq!(*z.get_type(), JsonType::JsonNull);
    let n = JsonElement::from_number(JsonNumber { mantissa: 7, exponent: 0, is_integer: true }, Slice::new(text, 0, 0));
    assert_eq!(n.as_i128(), Some(7));
}

#[test]
fn non_ascii_text_kept() {
    let parsed = parse("{\"another\":  \"hey#çà@â&éè\"}").unwrap();
    assert_eq!(parsed.get("another").and_then(|v| v.as_str()), Some("hey#çà@â&éè"));
}

#[test]
fn unterminated_string_fails_at_end() {
    let text = "{\"a\":\"abc";
    assert_eq!(parse(text).unwrap_err().offset, text.len());
}

#[test]
fn bad_literal_fails_at_its_start() {
    assert_eq!(parse("[nul]").unwrap_err().offset, 1);
    assert_eq!(parse("[tru ]").unwrap_err().offset, 1);
    assert_eq!(parse("{\"a\": x}").unwrap_err().offset, 6);
}

#[test]
fn nesting_at_the_limit_parses() {
    let text = format!("{}{}", "[".repeat(MAX_DEPTH), "]".repeat(MAX_DEPTH));
    assert!(parse(&text).is_ok());
}

#[test]
fn nesting_past_the_limit_fails_at_the_deep_bracket() {
    let text = format!("{}{}", "[".repeat(100_000), "]".repeat(100_000));
    assert_eq!(parse(&text).unwrap_err().offset, MAX_DEPTH);
    let object = format!("  {}", "{\"a\":".repeat(MAX_DEPTH + 1));
    assert_eq!(parse(&object).unwrap_err().offset, 2 + 5 * MAX_DEPTH);
}

#[test]
fn brackets_inside_strings_do_not_nest() {
    let text = format!("[\"{}\\\"{}\"]", "[".repeat(1000), "{".repeat(1000));
    assert!(parse(&text).is_ok());
}
