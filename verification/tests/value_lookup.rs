use json_paths::JsonValue;
use json_paths::value_lookup::PathSegment;
use json_paths::value_lookup::lookup_value;
use json_paths::value_lookup::lookup_value_in_jsonl;
use json_paths::value_lookup::parse_json_path;

fn num(n: i64) -> JsonValue {
    JsonValue::Num(n.to_string())
}

fn obj(entries: Vec<(&str, JsonValue)>) -> JsonValue {
    JsonValue::Obj(
        entries
            .into_iter()
            .map(|(k, v)| (k.to_string(), v))
            .collect(),
    )
}

#[test]
fn test_parse_json_path_simple() {
    let segments = parse_json_path("$.foo[0].bar").unwrap();
    assert_eq!(
        segments,
        vec![
            PathSegment::Key("foo".to_string()),
            PathSegment::Index(0),
            PathSegment::Key("bar".to_string())
        ]
    );
}

#[test]
fn test_parse_json_path_with_bracket_key() {
    let segments = parse_json_path("$[\"my key\"][1]").unwrap();
    assert_eq!(
        segments,
        vec![PathSegment::Key("my key".to_string()), PathSegment::Index(1),]
    );
}

#[test]
fn test_parse_json_path_with_escaped_chars() {
    let segments = parse_json_path("$[\"key\\\"value\\\\test\"]").unwrap();
    assert_eq!(
        segments,
        vec![PathSegment::Key("key\"value\\test".to_string())]
    );
}

#[test]
fn test_lookup_value_simple() {
    let value = obj(vec![("foo", JsonValue::Arr(vec![obj(vec![("bar", num(1))])]))]);
    let result = lookup_value(&value, "$.foo[0].bar").unwrap();
    assert_eq!(result, &num(1));
}

#[test]
fn test_lookup_value_root() {
    let value = obj(vec![("foo", JsonValue::Str("bar".to_string()))]);
    let result = lookup_value(&value, "$").unwrap();
    assert_eq!(result, &value);
}

#[test]
fn test_lookup_value_jsonl() {
    let values = vec![
        obj(vec![("name", JsonValue::Str("first".to_string()))]),
        obj(vec![
            ("name", JsonValue::Str("second".to_string())),
            ("value", num(42)),
        ]),
    ];
    let result = lookup_value_in_jsonl(&values, "$[1].value").unwrap();
    assert_eq!(result, &num(42));
}

#[test]
fn test_parse_json_path_root_only() {
    let segments = parse_json_path("$").unwrap();
    assert_eq!(segments, vec![]);
}

#[test]
fn test_parse_json_path_rejects_malformed() {
    assert_eq!(parse_json_path(""), None);
    assert_eq!(parse_json_path("foo"), None);
    assert_eq!(parse_json_path("$x"), None);
    assert_eq!(parse_json_path("$."), None);
    assert_eq!(parse_json_path("$.."), None);
    assert_eq!(parse_json_path("$["), None);
    assert_eq!(parse_json_path("$[]"), None);
    assert_eq!(parse_json_path("$[12"), None);
    assert_eq!(parse_json_path("$[1a]"), None);
    assert_eq!(parse_json_path("$[\"abc"), None);
    assert_eq!(parse_json_path("$[\"abc\\"), None);
    assert_eq!(parse_json_path("$[\"abc\"x"), None);
    assert_eq!(parse_json_path("$[\"abc\"]extra"), None);
}

#[test]
fn test_parse_json_path_rejects_huge_index() {
    assert_eq!(parse_json_path("$[99999999999999999999999999]"), None);
}

#[test]
fn test_lookup_value_type_mismatch() {
    let arr = JsonValue::Arr(vec![num(1), num(2)]);
    assert_eq!(lookup_value(&arr, "$.key"), None);

    let object = obj(vec![("key", num(1))]);
    assert_eq!(lookup_value(&object, "$[0]"), None);

    let scalar = num(7);
    assert_eq!(lookup_value(&scalar, "$.key"), None);
    assert_eq!(lookup_value(&scalar, "$[0]"), None);
}

#[test]
fn test_lookup_value_missing_key_and_index() {
    let value = obj(vec![("foo", JsonValue::Arr(vec![num(1)]))]);
    assert_eq!(lookup_value(&value, "$.bar"), None);
    assert_eq!(lookup_value(&value, "$.foo[1]"), None);
    assert_eq!(lookup_value(&value, "$.foo[0].bar"), None);
}

#[test]
fn test_lookup_value_jsonl_rejects_root_and_key() {
    let values = vec![obj(vec![("name", num(1))])];
    assert_eq!(lookup_value_in_jsonl(&values, "$"), None);
    assert_eq!(lookup_value_in_jsonl(&values, "$.name"), None);
    assert_eq!(lookup_value_in_jsonl(&values, "$[1]"), None);
}

#[test]
fn test_round_trip_built_paths() {
    let p = json_paths::path_formatting::build_object_path("$", "key");
    assert_eq!(
        parse_json_path(&p).unwrap(),
        vec![PathSegment::Key("key".to_string())]
    );

    let p = json_paths::path_formatting::build_object_path("$", "key\"value");
    assert_eq!(
        parse_json_path(&p).unwrap(),
        vec![PathSegment::Key("key\"value".to_string())]
    );

    let p = json_paths::path_formatting::build_object_path("$", "with\\backslash");
    assert_eq!(
        parse_json_path(&p).unwrap(),
        vec![PathSegment::Key("with\\backslash".to_string())]
    );

    let base = json_paths::path_formatting::build_object_path("$", "my field");
    let p = json_paths::path_formatting::build_array_path(&base, 10);
    assert_eq!(
        parse_json_path(&p).unwrap(),
        vec![
            PathSegment::Key("my field".to_string()),
            PathSegment::Index(10)
        ]
    );
}
