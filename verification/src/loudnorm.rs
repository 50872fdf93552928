//! Two-pass EBU R128 loudness normalisation: reading the first pass's
//! measurement out of ffmpeg's output and writing the second pass's filter.
use crate::json::{JsonValue, display_text, spec_get};
use crate::text::{chars_of, find_last_char, last_index, push_str, string_of};
use vstd::prelude::*;

verus! {

/// What ffmpeg's `loudnorm` filter measured in its first pass, as printed.
#[derive(Debug)]
pub struct LoudnormMeasurement {
    pub input_i: String,
    pub input_tp: String,
    pub input_lra: String,
    pub input_thresh: String,
    pub target_offset: String,
}

/// The JSON block of ffmpeg's output: from its last `{` through its last `}`.
pub open spec fn json_span(stderr: Seq<char>) -> Option<Seq<char>> {
    let start = last_index(stderr, '{');
    let end = last_index(stderr, '}');
    if start < 0 || end < 0 || end <= start {
        None
    } else {
        Some(stderr.subrange(start, end + 1))
    }
}

/// Cuts the measurement's JSON block out of ffmpeg's error output: from the
/// last `{` through the last `}`, if the latter follows the former.
pub fn loudnorm_json_span(stderr: &str) -> (r: Option<String>)
    ensures
        match r {
            Some(s) => json_span(stderr@) == Some(s@),
            None => json_span(stderr@) is None,
        },
{
    let v = chars_of(stderr);
    let start = match find_last_char(&v, '{') {
        Some(k) => k,
        None => {
            return None;
        },
    };
    let end = match find_last_char(&v, '}') {
        Some(k) => k,
        None => {
            return None;
        },
    };
    if end <= start {
        return None;
    }
    assert(end < v.len());
    Some(string_of(&v, start, end + 1))
}

/// A measured field read as text, if present.
pub open spec fn field_text(val: JsonValue, key: Seq<char>) -> Option<Seq<char>> {
    match spec_get(val, key) {
        Some(v) => Some(display_text(v)),
        None => None,
    }
}

/// The measurement held by the JSON block, when it has all five fields.
pub open spec fn measurement_spec(val: JsonValue) -> Option<
    (Seq<char>, Seq<char>, Seq<char>, Seq<char>, Seq<char>),
> {
    match (
        field_text(val, "input_i"@),
        field_text(val, "input_tp"@),
        field_text(val, "input_lra"@),
        field_text(val, "input_thresh"@),
        field_text(val, "target_offset"@),
    ) {
        (Some(i), Some(tp), Some(lra), Some(thresh), Some(offset)) => Some(
            (i, tp, lra, thresh, offset),
        ),
        _ => None,
    }
}

fn field_exec(val: &JsonValue, key: &str) -> (r: Option<String>)
    ensures
        match r {
            Some(s) => field_text(*val, key@) == Some(s@),
            None => field_text(*val, key@) is None,
        },
{
    match val.get(key) {
        Some(v) => Some(v.to_display_text()),
        None => None,
    }
}

/// Reads the first-pass measurement from the parsed JSON block: the five
/// fields as text (strings as they are, other values as JSON text).
pub fn measurement_from_json(val: &JsonValue) -> (r: Option<LoudnormMeasurement>)
    ensures
        match r {
            Some(m) => measurement_spec(*val) == Some(
                (m.input_i@, m.input_tp@, m.input_lra@, m.input_thresh@, m.target_offset@),
            ),
            None => measurement_spec(*val) is None,
        },
{
    let input_i = field_exec(val, "input_i")?;
    let input_tp = field_exec(val, "input_tp")?;
    let input_lra = field_exec(val, "input_lra")?;
    let input_thresh = field_exec(val, "input_thresh")?;
    let target_offset = field_exec(val, "target_offset")?;
    Some(LoudnormMeasurement { input_i, input_tp, input_lra, input_thresh, target_offset })
}

/// The second-pass filter: the targets, then the first pass's measurement,
/// applied linearly.
pub open spec fn second_pass_filter_spec(targets: Seq<char>, m: LoudnormMeasurement) -> Seq<char> {
    "loudnorm="@ + targets + ":measured_I="@ + m.input_i@ + ":measured_TP="@ + m.input_tp@
        + ":measured_LRA="@ + m.input_lra@ + ":measured_thresh="@ + m.input_thresh@ + ":offset="@
        + m.target_offset@ + ":linear=true"@
}

/// Builds the second-pass `loudnorm` filter from the targets text
/// (`I=..:TP=..:LRA=..`) and the first pass's measurement.
pub fn second_pass_filter(targets: &str, m: &LoudnormMeasurement) -> (r: String)
    ensures
        r@ == second_pass_filter_spec(targets@, *m),
{
    let mut s = String::new();
    push_str(&mut s, "loudnorm=");
    push_str(&mut s, targets);
    push_str(&mut s, ":measured_I=");
    push_str(&mut s, m.input_i.as_str());
    push_str(&mut s, ":measured_TP=");
    push_str(&mut s, m.input_tp.as_str());
    push_str(&mut s, ":measured_LRA=");
    push_str(&mut s, m.input_lra.as_str());
    push_str(&mut s, ":measured_thresh=");
    push_str(&mut s, m.input_thresh.as_str());
    push_str(&mut s, ":offset=");
    push_str(&mut s, m.target_offset.as_str());
    push_str(&mut s, ":linear=true");
    s
}

/// The first-pass filter: measure against the targets and print the result as JSON.
pub fn measure_filter(targets: &str) -> (r: String)
    ensures
        r@ == "loudnorm="@ + targets@ + ":print_format=json"@,
{
    let mut s = String::new();
    push_str(&mut s, "loudnorm=");
    push_str(&mut s, targets);
    push_str(&mut s, ":print_format=json");
    s
}

/// The normalising filter: with a first-pass measurement, the linear second
/// pass; without one (a quick preview, or a measurement that could not be
/// read), a single dynamic pass toward the targets.
pub fn normalize_filter(targets: &str, measurement: Option<&LoudnormMeasurement>) -> (r: String)
    ensures
        r@ == match measurement {
            Some(m) => second_pass_filter_spec(targets@, *m),
            None => "loudnorm="@ + targets@,
        },
{
    match measurement {
        Some(m) => second_pass_filter(targets, m),
        None => {
            let mut s = String::new();
            push_str(&mut s, "loudnorm=");
            push_str(&mut s, targets);
            s
        },
    }
}

} // verus!
