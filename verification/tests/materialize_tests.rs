use vapix_relay::decode::parse_body;
use vapix_relay::error::AppError;
use vapix_relay::json::JsonValue;

fn to_serde(v: &JsonValue) -> serde_json::Value {
    match v {
        JsonValue::Null => serde_json::Value::Null,
        JsonValue::Bool(b) => serde_json::Value::Bool(*b),
        JsonValue::Int(i) => serde_json::Value::Number(serde_json::Number::from(*i)),
        JsonValue::Num(s) => serde_json::Value::Number(s.parse::<serde_json::Number>().unwrap()),
        JsonValue::Str(s) => serde_json::Value::String(s.clone()),
        JsonValue::Arr(items) => serde_json::Value::Array(items.iter().map(to_serde).collect()),
        JsonValue::Obj(entries) => {
            let mut m = serde_json::Map::new();
            for (k, child) in entries {
                m.insert(k.clone(), to_serde(child));
            }
            serde_json::Value::Object(m)
        }
    }
}

fn query(pairs: &[(&str, &str)]) -> Vec<(String, String)> {
    pairs
        .iter()
        .map(|(k, v)| (k.to_string(), v.to_string()))
        .collect()
}

fn expect(text: &str) -> serde_json::Value {
    serde_json::from_str(text).unwrap()
}

#[test]
fn can_parse() {
    let query = query(&[
        ("null.", "null"),
        ("boolean.", "true"),
        ("integer.", "2"),
        ("decimal.", "3.0"),
        ("string", "4"),
        ("nested.string", "5"),
        ("nested.array.", "[6]"),
        ("nested.object.", "{\"key\":7}"),
    ]);
    let actual = parse_body(query).unwrap();
    let expected = expect(
        "{\"null\":null,\"boolean\":true,\"integer\":2,\"decimal\":3.0,\"string\":\"4\",\
         \"nested\":{\"string\":\"5\",\"array\":[6],\"object\":{\"key\":7}}}",
    );
    assert_eq!(to_serde(&actual), expected);
}

#[test]
fn marker_entries_build_nested_tree() {
    let actual = parse_body(query(&[("a.b.", "1"), ("a.c", "x")])).unwrap();
    assert_eq!(to_serde(&actual), expect("{\"a\":{\"b\":1,\"c\":\"x\"}}"));
}

#[test]
fn scalar_prefix_conflict_is_rejected() {
    let err = parse_body(query(&[("a", "1"), ("a.b", "2")])).unwrap_err();
    assert!(matches!(err, AppError::InvalidQuery(_)));
    assert_eq!(err.status_code(), 400);
}

#[test]
fn array_prefix_conflict_is_rejected() {
    let err = parse_body(query(&[("a.", "[1]"), ("a.b", "2")])).unwrap_err();
    assert!(matches!(err, AppError::InvalidQuery(_)));
}

#[test]
fn round_trip_through_text_is_equal() {
    let actual = parse_body(query(&[
        ("null.", "null"),
        ("decimal.", "3.5"),
        ("big.", "18446744073709551615"),
        ("nested.object.", "{\"key\":[1,2,\"three\"]}"),
    ]))
    .unwrap();
    let tree = to_serde(&actual);
    let text = serde_json::to_string(&tree).unwrap();
    let reparsed: serde_json::Value = serde_json::from_str(&text).unwrap();
    assert_eq!(reparsed, tree);
}

#[test]
fn order_of_distinct_paths_is_irrelevant() {
    let one = parse_body(query(&[("a.b.", "1"), ("a.c", "x"), ("d", "y")])).unwrap();
    let two = parse_body(query(&[("d", "y"), ("a.c", "x"), ("a.b.", "1")])).unwrap();
    assert_eq!(to_serde(&one), to_serde(&two));
    assert_eq!(to_serde(&one), expect("{\"a\":{\"b\":1,\"c\":\"x\"},\"d\":\"y\"}"));
}

#[test]
fn last_write_to_a_path_wins() {
    let actual = parse_body(query(&[("a", "1"), ("a.", "2")])).unwrap();
    assert_eq!(to_serde(&actual), expect("{\"a\":2}"));
}

#[test]
fn null_occupant_is_coerced_to_object() {
    let actual = parse_body(query(&[("a.", "null"), ("a.b", "x")])).unwrap();
    assert_eq!(to_serde(&actual), expect("{\"a\":{\"b\":\"x\"}}"));
}

#[test]
fn descending_into_an_object_literal_extends_it() {
    let actual = parse_body(query(&[("a.", "{\"k\":1}"), ("a.b", "x")])).unwrap();
    assert_eq!(to_serde(&actual), expect("{\"a\":{\"k\":1,\"b\":\"x\"}}"));
}

#[test]
fn empty_segment_is_rejected() {
    let err = parse_body(query(&[("a..b", "x")])).unwrap_err();
    assert!(matches!(err, AppError::InvalidQuery(_)));
    let err = parse_body(query(&[("", "x")])).unwrap_err();
    assert!(matches!(err, AppError::InvalidQuery(_)));
}

#[test]
fn malformed_literal_is_a_materialization_error() {
    let err = parse_body(query(&[("a.", "{not json")])).unwrap_err();
    match &err {
        AppError::InvalidQuery(m) => {
            assert_eq!(m.as_str(), "Could not parse value {not json at a")
        }
        other => panic!("unexpected error kind: {other:?}"),
    }
    assert_eq!(err.status_code(), 400);
}

#[test]
fn empty_query_gives_empty_object() {
    let actual = parse_body(Vec::new()).unwrap();
    assert_eq!(to_serde(&actual), expect("{}"));
}

#[test]
fn split_path_separates_segments() {
    let segs = vapix_relay::materialize::split_path("a.b.c");
    assert_eq!(segs, vec!["a".to_string(), "b".to_string(), "c".to_string()]);
    assert_eq!(vapix_relay::materialize::split_path(""), vec!["".to_string()]);
    assert_eq!(
        vapix_relay::materialize::split_path(".a."),
        vec!["".to_string(), "a".to_string(), "".to_string()]
    );
}

#[test]
fn insert_builds_intermediate_objects() {
    let tree = vapix_relay::materialize::insert(
        JsonValue::Obj(Vec::new()),
        &"a.b".to_string(),
        JsonValue::Int(5),
    )
    .unwrap();
    assert_eq!(to_serde(&tree), expect("{\"a\":{\"b\":5}}"));
}

#[test]
fn insert_rejects_scalar_occupant() {
    let tree = vapix_relay::materialize::insert(
        JsonValue::Obj(Vec::new()),
        &"a".to_string(),
        JsonValue::Bool(true),
    )
    .unwrap();
    let err =
        vapix_relay::materialize::insert(tree, &"a.b".to_string(), JsonValue::Int(1)).unwrap_err();
    match err {
        AppError::InvalidQuery(m) => {
            assert_eq!(m, "Could not insert intermediate object for path a.b");
        }
        other => panic!("unexpected error kind: {other:?}"),
    }
}

#[test]
fn decode_literal_sniffs_types() {
    assert!(matches!(
        vapix_relay::decode::decode_literal("7"),
        Some(JsonValue::Int(7))
    ));
    assert!(
        matches!(vapix_relay::decode::decode_literal("3.5"), Some(JsonValue::Num(s)) if s == "3.5")
    );
    assert!(matches!(
        vapix_relay::decode::decode_literal("true"),
        Some(JsonValue::Bool(true))
    ));
    assert!(matches!(
        vapix_relay::decode::decode_literal("null"),
        Some(JsonValue::Null)
    ));
    assert!(
        matches!(vapix_relay::decode::decode_literal("\"x\""), Some(JsonValue::Str(s)) if s == "x")
    );
    assert!(vapix_relay::decode::decode_literal("{not json").is_none());
}

#[test]
fn duplicate_keys_in_a_literal_keep_the_last_value() {
    let v = vapix_relay::decode::decode_literal("{\"k\":1,\"k\":2}").unwrap();
    assert_eq!(to_serde(&v), expect("{\"k\":2}"));
}
