use video_use::json::{JsonNumber, JsonValue};
use video_use::media::is_portrait_from_probe_json;

fn integer(n: i64) -> JsonValue {
    JsonValue::Number(JsonNumber { as_i64: Some(n), nearest_i64: n, text: n.to_string() })
}

fn float(text: &str, nearest: i64) -> JsonValue {
    JsonValue::Number(JsonNumber { as_i64: None, nearest_i64: nearest, text: text.to_string() })
}

fn object(entries: Vec<(&str, JsonValue)>) -> JsonValue {
    JsonValue::Object {
        entries: entries.into_iter().map(|(k, v)| (k.to_string(), v)).collect(),
        text: String::new(),
    }
}

fn array(items: Vec<JsonValue>) -> JsonValue {
    JsonValue::Array { items, text: String::new() }
}

fn probe(stream: JsonValue) -> JsonValue {
    object(vec![("streams", array(vec![stream]))])
}

#[test]
fn test_native_portrait_dimensions() {
    let p = probe(object(vec![("width", integer(1080)), ("height", integer(1920))]));
    assert!(is_portrait_from_probe_json(&p));
}

#[test]
fn test_native_landscape_dimensions() {
    let p = probe(object(vec![("width", integer(1920)), ("height", integer(1080))]));
    assert!(!is_portrait_from_probe_json(&p));
}

#[test]
fn test_side_data_rotation_turns_coded_landscape_into_portrait() {
    let p = probe(object(vec![
        ("width", integer(1920)),
        ("height", integer(1080)),
        ("side_data_list", array(vec![object(vec![("rotation", float("-90.0", -90))])])),
    ]));
    assert!(is_portrait_from_probe_json(&p));
}

#[test]
fn test_plain_rotation_tag_without_side_data_is_ignored() {
    let p = probe(object(vec![
        ("width", integer(1920)),
        ("height", integer(1080)),
        ("tags", object(vec![("rotate", JsonValue::Str("270".to_string()))])),
    ]));
    assert!(!is_portrait_from_probe_json(&p));
}

#[test]
fn test_rotation_can_turn_coded_portrait_into_landscape() {
    let p = probe(object(vec![
        ("width", integer(1080)),
        ("height", integer(1920)),
        ("side_data_list", array(vec![object(vec![("rotation", float("90.0", 90))])])),
    ]));
    assert!(!is_portrait_from_probe_json(&p));
}

#[test]
fn test_invalid_probe_output_falls_back_to_landscape() {
    let empty = object(vec![("streams", array(vec![]))]);
    assert!(!is_portrait_from_probe_json(&empty));

    let other = object(vec![("not_streams", integer(123))]);
    assert!(!is_portrait_from_probe_json(&other));
}

#[test]
fn test_rotation_uses_first_numeric_entry_and_full_turns() {
    let p = probe(object(vec![
        ("width", integer(1920)),
        ("height", integer(1080)),
        (
            "side_data_list",
            array(vec![
                object(vec![("displaymatrix", JsonValue::Str("x".to_string()))]),
                object(vec![("rotation", float("450.0", 450))]),
                object(vec![("rotation", integer(0))]),
            ]),
        ),
    ]));
    assert!(is_portrait_from_probe_json(&p));
    let q = probe(object(vec![
        ("width", integer(1920)),
        ("height", integer(1080)),
        ("side_data_list", array(vec![object(vec![("rotation", integer(180))])])),
    ]));
    assert!(!is_portrait_from_probe_json(&q));
    let square = probe(object(vec![("width", integer(1080)), ("height", integer(1080))]));
    assert!(!is_portrait_from_probe_json(&square));
    let no_height = probe(object(vec![("width", integer(1080))]));
    assert!(!is_portrait_from_probe_json(&no_height));
}
