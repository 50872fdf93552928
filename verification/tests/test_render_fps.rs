use video_use::fps::{parse_fps, probe_fps_from_json};
use video_use::json::{JsonNumber, JsonValue};

fn text(s: &str) -> JsonValue {
    JsonValue::Str(s.to_string())
}

fn object(entries: Vec<(&str, JsonValue)>) -> JsonValue {
    JsonValue::Object {
        entries: entries.into_iter().map(|(k, v)| (k.to_string(), v)).collect(),
        text: String::new(),
    }
}

fn array(items: Vec<JsonValue>) -> JsonValue {
    JsonValue::Array { items, text: String::new() }
}

#[test]
fn test_prefers_average_rate() {
    let probe = object(vec![(
        "streams",
        array(vec![object(vec![
            ("avg_frame_rate", text("30000/1001")),
            ("r_frame_rate", text("30/1")),
        ])]),
    )]);
    assert_eq!(probe_fps_from_json(&probe), Some("30000/1001".to_string()));
}

#[test]
fn test_falls_back_to_nominal_rate() {
    let probe = object(vec![(
        "streams",
        array(vec![object(vec![
            ("avg_frame_rate", text("0/0")),
            ("r_frame_rate", text("60/1")),
        ])]),
    )]);
    assert_eq!(probe_fps_from_json(&probe), Some("60/1".to_string()));
}

#[test]
fn test_returns_none_for_unusable_probe_output() {
    let probe = object(vec![("streams", array(vec![]))]);
    assert_eq!(probe_fps_from_json(&probe), None);

    let probe2 = object(vec![(
        "streams",
        array(vec![object(vec![
            ("avg_frame_rate", text("0/0")),
            ("r_frame_rate", text("0/0")),
        ])]),
    )]);
    assert_eq!(probe_fps_from_json(&probe2), None);
}

#[test]
fn test_fps_canonicalization_matrix() {
    let cases = [
        ("24", "24/1"),
        ("25", "25/1"),
        ("30", "30/1"),
        ("60", "60/1"),
        ("29.97", "2997/100"),
        ("59.94", "2997/50"),
        ("30000/1001", "30000/1001"),
        ("60000/1001", "60000/1001"),
    ];

    for (raw, canonical) in cases {
        let parsed = parse_fps(raw).unwrap();
        assert_eq!(parsed, canonical);
        assert_eq!(parse_fps(&parsed).unwrap(), canonical);
    }
}

#[test]
fn test_probe_canonicalizes_and_skips_non_strings() {
    let probe = object(vec![(
        "streams",
        array(vec![object(vec![
            (
                "avg_frame_rate",
                JsonValue::Number(JsonNumber {
                    as_i64: Some(25),
                    nearest_i64: 25,
                    text: "25".to_string(),
                }),
            ),
            ("r_frame_rate", text("50/2")),
        ])]),
    )]);
    assert_eq!(probe_fps_from_json(&probe), Some("25/1".to_string()));
    assert_eq!(probe_fps_from_json(&text("streams")), None);
    assert_eq!(probe_fps_from_json(&object(vec![("streams", text("x"))])), None);
}
