use video_use::json::{JsonNumber, JsonValue};
use video_use::loudnorm::{
    loudnorm_json_span, measure_filter, measurement_from_json, normalize_filter, second_pass_filter,
    LoudnormMeasurement,
};

fn to_model(v: &serde_json::Value) -> JsonValue {
    match v {
        serde_json::Value::Null => JsonValue::Null,
        serde_json::Value::Bool(b) => JsonValue::Bool(*b),
        serde_json::Value::Number(n) => JsonValue::Number(JsonNumber {
            as_i64: n.as_i64(),
            nearest_i64: n.as_f64().map(|f| f.round() as i64).unwrap_or(0),
            text: n.to_string(),
        }),
        serde_json::Value::String(s) => JsonValue::Str(s.clone()),
        serde_json::Value::Array(a) => JsonValue::Array {
            items: a.iter().map(to_model).collect(),
            text: v.to_string(),
        },
        serde_json::Value::Object(m) => JsonValue::Object {
            entries: m.iter().map(|(k, x)| (k.clone(), to_model(x))).collect(),
            text: v.to_string(),
        },
    }
}

fn parse(stderr: &str) -> Option<LoudnormMeasurement> {
    let span = loudnorm_json_span(stderr)?;
    let value: serde_json::Value = serde_json::from_str(&span).ok()?;
    measurement_from_json(&to_model(&value))
}

#[test]
fn test_parse_loudnorm_stderr() {
    let stderr = r#"
[Parsed_loudnorm_0 @ 0x123456] 
{
    "input_i" : "-22.45",
    "input_tp" : "-1.20",
    "input_lra" : "8.40",
    "input_thresh" : "-33.10",
    "output_i" : "-14.02",
    "output_tp" : "-1.00",
    "output_lra" : "7.10",
    "output_thresh" : "-24.50",
    "normalization_type" : "dynamic",
    "target_offset" : "0.02"
}
frame=  100 fps=0.0 q=-1.0 Lsize=N/A
"#;

    let measurement = parse(stderr).unwrap();
    assert_eq!(measurement.input_i, "-22.45");
    assert_eq!(measurement.input_tp, "-1.20");
    assert_eq!(measurement.input_lra, "8.40");
    assert_eq!(measurement.input_thresh, "-33.10");
    assert_eq!(measurement.target_offset, "0.02");

    assert!(parse("some error message").is_none());
    assert!(parse("{ broken json").is_none());
}

#[test]
fn test_json_span_and_field_text() {
    assert_eq!(loudnorm_json_span("x { a } y { b } z"), Some("{ b }".to_string()));
    assert_eq!(loudnorm_json_span("} before {"), None);
    assert_eq!(loudnorm_json_span("no braces"), None);
    let value: serde_json::Value = serde_json::from_str(
        r#"{"input_i": -22.5, "input_tp": true, "input_lra": null, "input_thresh": [1, 2], "target_offset": "0.1"}"#,
    )
    .unwrap();
    let m = measurement_from_json(&to_model(&value)).unwrap();
    assert_eq!(m.input_i, "-22.5");
    assert_eq!(m.input_tp, "true");
    assert_eq!(m.input_lra, "null");
    assert_eq!(m.input_thresh, "[1,2]");
    assert_eq!(m.target_offset, "0.1");
    let missing: serde_json::Value = serde_json::from_str(r#"{"input_i": "1"}"#).unwrap();
    assert!(measurement_from_json(&to_model(&missing)).is_none());
    assert!(measurement_from_json(&JsonValue::Str("x".to_string())).is_none());
}

#[test]
fn test_second_pass_filter_uses_measurement() {
    let m = LoudnormMeasurement {
        input_i: "-22.45".to_string(),
        input_tp: "-1.20".to_string(),
        input_lra: "8.40".to_string(),
        input_thresh: "-33.10".to_string(),
        target_offset: "0.02".to_string(),
    };
    assert_eq!(
        second_pass_filter("I=-14.0:TP=-1.0:LRA=11.0", &m),
        "loudnorm=I=-14.0:TP=-1.0:LRA=11.0:measured_I=-22.45:measured_TP=-1.20:measured_LRA=8.40:measured_thresh=-33.10:offset=0.02:linear=true"
    );
}

#[test]
fn test_measure_and_normalize_filters() {
    let targets = "I=-14.0:TP=-1.0:LRA=11.0";
    assert_eq!(measure_filter(targets), "loudnorm=I=-14.0:TP=-1.0:LRA=11.0:print_format=json");
    assert_eq!(normalize_filter(targets, None), "loudnorm=I=-14.0:TP=-1.0:LRA=11.0");
    let m = LoudnormMeasurement {
        input_i: "-22.45".to_string(),
        input_tp: "-1.20".to_string(),
        input_lra: "8.40".to_string(),
        input_thresh: "-33.10".to_string(),
        target_offset: "0.02".to_string(),
    };
    assert_eq!(normalize_filter(targets, Some(&m)), second_pass_filter(targets, &m));
    assert_eq!(
        normalize_filter(targets, Some(&m)),
        "loudnorm=I=-14.0:TP=-1.0:LRA=11.0:measured_I=-22.45:measured_TP=-1.20:measured_LRA=8.40:measured_thresh=-33.10:offset=0.02:linear=true"
    );
}
