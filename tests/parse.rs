use json_view::{parse, JsonElement, JsonNumber, JsonType};

const CORRECT_JSON: &str = " {\n\"test\": \"why not?\",\"b\": true,\"another\":  \"hey#çà@â&éè\" \r ,\"obj2\":{\"k\":{\"k2\":\"v\"}}, \"num\":4.2344, \"int\":-234,  \"obj\":{\"a\":\"b\", \"c\":\"d\"}, \"arr\":[1,2,3],\"bool\":false, \"exp\":3.3e-21, \"exp2\":-4.5e-213,\"exp3\":3.7391238e+24,\"depth\":[\"a\",[\"b\",\"c\"]]}  ";
const INCORRECT_JSON: &str = "{\"test\": \"num\", \"int\":234[] ,,}";

fn to_f64(n: &JsonNumber) -> f64 {
    let m = n.mantissa as f64;
    if n.exponent >= 0 {
        m * 10f64.powi(n.exponent as i32)
    } else {
        m / 10f64.powi(-n.exponent as i32)
    }
}

fn as_f64(e: Option<&JsonElement>) -> Option<f64> {
    e.and_then(|v| v.as_number()).map(|n| to_f64(&n))
}

#[test]
fn parse_correct() {
    match parse(CORRECT_JSON) {
        Ok(_) => {
            assert!(true);
        }
        Err(error) => {
            assert!(false, "{:?}", error);
        }
    }
}

#[test]
fn parse_incorrect() {
    match parse(INCORRECT_JSON) {
        Ok(_) => {
            assert!(false);
        }
        Err(_) => {
            assert!(true);
        }
    }
}

#[test]
fn parse_string() {
    let parsed = parse(CORRECT_JSON).unwrap();
    assert_eq!(parsed.get("test").and_then(|v| v.as_str()), Some("why not?"));
}

#[test]
fn parse_float() {
    let parsed = parse(CORRECT_JSON).unwrap();
    assert_eq!(as_f64(parsed.get("num")), Some(4.2344));
}

#[test]
fn parse_int() {
    let parsed = parse(CORRECT_JSON).unwrap();
    assert_eq!(parsed.get("int").and_then(|v| v.as_i128()), Some(-234));
}

#[test]
fn parse_object() {
    let parsed = parse(CORRECT_JSON).unwrap();
    let value = parsed.get("obj").and_then(|v| v.get("a")).and_then(|v| v.as_str());
    assert_eq!(value, Some("b"));
}

#[test]
fn parse_object_depth() {
    let parsed = parse(CORRECT_JSON).unwrap();
    let value = parsed
        .get("obj2")
        .and_then(|v| v.get("k"))
        .and_then(|v| v.get("k2"))
        .and_then(|v| v.as_str());
    assert_eq!(value, Some("v"));
}

#[test]
fn traverse_object() {
    let parsed = parse(CORRECT_JSON).unwrap();
    let mut iterator = parsed.get("obj").unwrap().entries().unwrap().iter();
    let (k, v) = iterator.next().unwrap();
    assert_eq!(k.key, "a");
    assert_eq!(v.as_str(), Some("b"));
    let (k, v) = iterator.next().unwrap();
    assert_eq!(k.key, "c");
    assert_eq!(v.as_str(), Some("d"));
}

#[test]
fn parse_array() {
    let parsed = parse(CORRECT_JSON).unwrap();
    assert_eq!(parsed.get("arr").and_then(|v| v.at(1)).and_then(|v| v.as_i128()), Some(2));
}

#[test]
fn parse_array_depth() {
    let parsed = parse(CORRECT_JSON).unwrap();
    let value = parsed
        .get("depth")
        .and_then(|v| v.at(1))
        .and_then(|v| v.at(1))
        .and_then(|v| v.as_str());
    assert_eq!(value, Some("c"));
}

#[test]
fn traverse_array() {
    let parsed = parse(CORRECT_JSON).unwrap();
    let mut iterator = parsed.get("arr").unwrap().elements().unwrap().iter();
    assert_eq!(iterator.next().unwrap().as_i128(), Some(1));
    assert_eq!(iterator.next().unwrap().as_i128(), Some(2));
    assert_eq!(iterator.next().unwrap().as_i128(), Some(3));
}

#[test]
fn parse_bool() {
    let parsed = parse(CORRECT_JSON).unwrap();
    assert_eq!(parsed.get("bool").and_then(|v| v.as_bool()), Some(false));
}

#[test]
fn parse_exp() {
    let parsed = parse(CORRECT_JSON).unwrap();
    match as_f64(parsed.get("exp")) {
        None => {
            assert!(false);
        }
        Some(value) => {
            assert!(f64::abs(value / 3.3e-21 - 1.0) < 1e-8);
        }
    }
}

#[test]
fn parse_exp_3_digits() {
    let parsed = parse(CORRECT_JSON).unwrap();
    match as_f64(parsed.get("exp2")) {
        None => {
            assert!(false);
        }
        Some(value) => {
            assert!(f64::abs(value / -4.5e-213 - 1.0) < 1e-8);
        }
    }
}

#[test]
fn missing_key() {
    let parsed = parse(CORRECT_JSON).unwrap();
    assert_eq!(parsed.get("a").is_some(), false);
}

#[test]
fn missing_key_get_value() {
    let parsed = parse(CORRECT_JSON).unwrap();
    match parsed.get("a").and_then(|v| v.at(1)).and_then(|v| v.as_i128()) {
        None => {
            assert!(true);
        }
        Some(_) => {
            assert!(false);
        }
    }
}

#[test]
fn scenario_integers_and_nested_array() {
    let parsed = parse("{\"a\":1,\"b\":[1,2,3]}").unwrap();
    assert_eq!(parsed.get("a").and_then(|v| v.as_i128()), Some(1));
    assert_eq!(parsed.get("b").and_then(|v| v.at(2)).and_then(|v| v.as_i128()), Some(3));
}

#[test]
fn scenario_negative_exponent() {
    let parsed = parse("{\"x\": -4.5e-3}").unwrap();
    let n = parsed.get("x").unwrap().as_number().unwrap();
    assert_eq!(n, JsonNumber { mantissa: -45, exponent: -4, is_integer: false });
    assert_eq!(parsed.get("x").unwrap().as_i128(), Some(-45));
    assert!(f64::abs(to_f64(&n) - -0.0045) < 1e-12);
}

#[test]
fn scenario_string_value() {
    let parsed = parse("{\"test\": \"why not?\"}").unwrap();
    assert_eq!(parsed.get("test").and_then(|v| v.as_str()), Some("why not?"));
}

#[test]
fn scenario_trailing_comma_fails() {
    let error = parse("{\"a\":1,}").unwrap_err();
    assert_eq!(error.offset(), 7);
}

#[test]
fn scenario_top_level_array() {
    let parsed = parse("[1,2,3]").unwrap();
    assert_eq!(*parsed.get_type(), JsonType::JsonArray);
    assert_eq!(parsed.elements().unwrap().len(), 3);
}

#[test]
fn scenario_not_json_fails_at_zero() {
    assert_eq!(parse("not json").unwrap_err().offset, 0);
}
