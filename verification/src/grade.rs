//! Colour-grade presets, and the reading of ffmpeg `signalstats` metadata
//! from which the automatic grade is computed.
use crate::text::{
    chars_of, contains_seq, find_last_char, join_with, last_index, push_str, str_contains,
    str_eq, string_of, trim, trim_range,
};
use vstd::prelude::*;

verus! {

/// A barely-there contrast lift.
pub const PRESET_SUBTLE: &'static str = "eq=contrast=1.03:saturation=0.98";

/// A little more contrast with a gentle S-curve.
pub const PRESET_NEUTRAL_PUNCH: &'static str = "eq=contrast=1.06:brightness=0.0:saturation=1.0,curves=master='0/0 0.25/0.23 0.75/0.77 1/1'";

/// Warm, slightly desaturated, filmic contrast.
pub const PRESET_WARM_CINEMATIC: &'static str = "eq=contrast=1.12:brightness=-0.02:saturation=0.88,colorbalance=rs=0.02:gs=0.0:bs=-0.03:rm=0.04:gm=0.01:bm=-0.02:rh=0.08:gh=0.02:bh=-0.05,curves=master='0/0 0.25/0.22 0.75/0.78 1/1'";

/// No grade at all.
pub const PRESET_NONE: &'static str = "";

/// The presets by name, in ascending name order.
pub open spec fn preset_table() -> Seq<(Seq<char>, Seq<char>)> {
    seq![
        ("neutral_punch"@, PRESET_NEUTRAL_PUNCH@),
        ("none"@, PRESET_NONE@),
        ("subtle"@, PRESET_SUBTLE@),
        ("warm_cinematic"@, PRESET_WARM_CINEMATIC@),
    ]
}

/// The filter of the preset called `name`.
pub open spec fn preset_filter(name: Seq<char>) -> Option<Seq<char>> {
    if name == "subtle"@ {
        Some(PRESET_SUBTLE@)
    } else if name == "neutral_punch"@ {
        Some(PRESET_NEUTRAL_PUNCH@)
    } else if name == "warm_cinematic"@ {
        Some(PRESET_WARM_CINEMATIC@)
    } else if name == "none"@ {
        Some(PRESET_NONE@)
    } else {
        None
    }
}

/// All presets as `(name, filter)` pairs, in ascending name order.
pub fn presets() -> (r: Vec<(&'static str, &'static str)>)
    ensures
        r@.len() == preset_table().len(),
        forall|i: int|
            0 <= i < r@.len() ==> (#[trigger] r@[i]).0@ == preset_table()[i].0 && r@[i].1@
                == preset_table()[i].1,
{
    let mut m: Vec<(&'static str, &'static str)> = Vec::new();
    m.push(("neutral_punch", PRESET_NEUTRAL_PUNCH));
    m.push(("none", PRESET_NONE));
    m.push(("subtle", PRESET_SUBTLE));
    m.push(("warm_cinematic", PRESET_WARM_CINEMATIC));
    m
}

/// A preset name that no preset has.
#[derive(Debug)]
pub struct UnknownPreset {
    pub name: String,
}

/// The preset names, in ascending order.
pub open spec fn preset_names() -> Seq<Seq<char>> {
    preset_table().map_values(|p: (Seq<char>, Seq<char>)| p.0)
}

impl UnknownPreset {
    /// What to tell the user: the unknown name and every preset name, in
    /// ascending order, separated by `, `.
    pub fn message(&self) -> (r: String)
        ensures
            r@ == "unknown preset '"@ + self.name@ + "'. Available: "@ + join_with(
                preset_names(),
                ", "@,
            ),
    {
        let mut out = String::new();
        push_str(&mut out, "unknown preset '");
        push_str(&mut out, self.name.as_str());
        push_str(&mut out, "'. Available: ");
        let ghost head = out@;
        let table = presets();
        let mut i: usize = 0;
        assert(preset_names().subrange(0, 0) =~= Seq::<Seq<char>>::empty());
        while i < table.len()
            invariant
                i <= table@.len(),
                table@.len() == preset_table().len(),
                forall|k: int|
                    0 <= k < table@.len() ==> (#[trigger] table@[k]).0@ == preset_table()[k].0,
                out@ == head + join_with(preset_names().subrange(0, i as int), ", "@),
            decreases table.len() - i,
        {
            let ghost before = preset_names().subrange(0, i as int);
            if i > 0 {
                push_str(&mut out, ", ");
            }
            push_str(&mut out, table[i].0);
            proof {
                let after = preset_names().subrange(0, i + 1);
                assert(after.drop_last() =~= before);
                assert(after.last() == table@[i as int].0@);
                assert(out@ =~= head + join_with(after, ", "@));
            }
            i = i + 1;
        }
        assert(preset_names().subrange(0, 4) =~= preset_names());
        out
    }
}

/// Looks up a grade preset by name.
pub fn get_preset(name: &str) -> (r: Result<&'static str, UnknownPreset>)
    ensures
        match r {
            Ok(f) => preset_filter(name@) == Some(f@),
            Err(e) => preset_filter(name@) is None && e.name@ == name@,
        },
{
    if str_eq(name, "subtle") {
        Ok(PRESET_SUBTLE)
    } else if str_eq(name, "neutral_punch") {
        Ok(PRESET_NEUTRAL_PUNCH)
    } else if str_eq(name, "warm_cinematic") {
        Ok(PRESET_WARM_CINEMATIC)
    } else if str_eq(name, "none") {
        Ok(PRESET_NONE)
    } else {
        Err(UnknownPreset { name: name.to_owned() })
    }
}

/// Every listed preset is found by its name with its filter, every name that
/// is found is listed, and the names are listed in strictly ascending order
/// with no repeats.
pub proof fn lemma_presets_agree_with_lookup(name: Seq<char>)
    ensures
        forall|i: int|
            0 <= i < preset_table().len() ==> preset_filter(#[trigger] preset_table()[i].0) == Some(
                preset_table()[i].1,
            ),
        preset_filter(name) is Some <==> exists|i: int|
            0 <= i < preset_table().len() && #[trigger] preset_table()[i].0 == name,
        forall|i: int, j: int|
            0 <= i < j < preset_table().len() ==> preset_table()[i].0 != preset_table()[j].0,
{
    reveal_strlit("subtle");
    reveal_strlit("neutral_punch");
    reveal_strlit("warm_cinematic");
    reveal_strlit("none");
    let t = preset_table();
    assert(t[0].0 == "neutral_punch"@);
    assert(t[1].0 == "none"@);
    assert(t[2].0 == "subtle"@);
    assert(t[3].0 == "warm_cinematic"@);
    if preset_filter(name) is Some {
        if name == "neutral_punch"@ {
            assert(t[0].0 == name);
        } else if name == "none"@ {
            assert(t[1].0 == name);
        } else if name == "subtle"@ {
            assert(t[2].0 == name);
        } else {
            assert(t[3].0 == name);
        }
    }
}

/// Which `signalstats` measurement a metadata line carries.
#[derive(Debug, Clone, Copy, PartialEq, Eq, Structural)]
pub enum SignalStat {
    /// `lavfi.signalstats.YBITDEPTH`
    BitDepth,
    /// `lavfi.signalstats.YAVG`
    YAvg,
    /// `lavfi.signalstats.YMIN`
    YMin,
    /// `lavfi.signalstats.YMAX`
    YMax,
    /// `lavfi.signalstats.SATAVG`
    SatAvg,
}

/// The measurement a metadata line names; the keys are tried in this order.
pub open spec fn signalstat_of(line: Seq<char>) -> Option<SignalStat> {
    if contains_seq(line, "lavfi.signalstats.YBITDEPTH"@) {
        Some(SignalStat::BitDepth)
    } else if contains_seq(line, "lavfi.signalstats.YAVG"@) {
        Some(SignalStat::YAvg)
    } else if contains_seq(line, "lavfi.signalstats.YMIN"@) {
        Some(SignalStat::YMin)
    } else if contains_seq(line, "lavfi.signalstats.YMAX"@) {
        Some(SignalStat::YMax)
    } else if contains_seq(line, "lavfi.signalstats.SATAVG"@) {
        Some(SignalStat::SatAvg)
    } else {
        None
    }
}

/// A metadata line is read as a measurement only when it carries that
/// measurement's `signalstats` key; a line carrying none of the five keys
/// (such as `SATMAX` or `YLOW`) is read as nothing, and a line carrying
/// exactly one of them is read as that one.
pub proof fn lemma_signalstat_keys(line: Seq<char>)
    ensures
        signalstat_of(line) == Some(SignalStat::BitDepth) ==> contains_seq(
            line,
            "lavfi.signalstats.YBITDEPTH"@,
        ),
        signalstat_of(line) == Some(SignalStat::YAvg) ==> contains_seq(
            line,
            "lavfi.signalstats.YAVG"@,
        ),
        signalstat_of(line) == Some(SignalStat::YMin) ==> contains_seq(
            line,
            "lavfi.signalstats.YMIN"@,
        ),
        signalstat_of(line) == Some(SignalStat::YMax) ==> contains_seq(
            line,
            "lavfi.signalstats.YMAX"@,
        ),
        signalstat_of(line) == Some(SignalStat::SatAvg) ==> contains_seq(
            line,
            "lavfi.signalstats.SATAVG"@,
        ),
        !contains_seq(line, "lavfi.signalstats.YBITDEPTH"@) && !contains_seq(
            line,
            "lavfi.signalstats.YAVG"@,
        ) && !contains_seq(line, "lavfi.signalstats.YMIN"@) && !contains_seq(
            line,
            "lavfi.signalstats.YMAX"@,
        ) && !contains_seq(line, "lavfi.signalstats.SATAVG"@) ==> signalstat_of(line) is None,
        contains_seq(line, "lavfi.signalstats.YBITDEPTH"@) ==> signalstat_of(line) == Some(
            SignalStat::BitDepth,
        ),
        !contains_seq(line, "lavfi.signalstats.YBITDEPTH"@) && contains_seq(
            line,
            "lavfi.signalstats.YAVG"@,
        ) ==> signalstat_of(line) == Some(SignalStat::YAvg),
        !contains_seq(line, "lavfi.signalstats.YBITDEPTH"@) && !contains_seq(
            line,
            "lavfi.signalstats.YAVG"@,
        ) && contains_seq(line, "lavfi.signalstats.YMIN"@) ==> signalstat_of(line) == Some(
            SignalStat::YMin,
        ),
        !contains_seq(line, "lavfi.signalstats.YBITDEPTH"@) && !contains_seq(
            line,
            "lavfi.signalstats.YAVG"@,
        ) && !contains_seq(line, "lavfi.signalstats.YMIN"@) && contains_seq(
            line,
            "lavfi.signalstats.YMAX"@,
        ) ==> signalstat_of(line) == Some(SignalStat::YMax),
        !contains_seq(line, "lavfi.signalstats.YBITDEPTH"@) && !contains_seq(
            line,
            "lavfi.signalstats.YAVG"@,
        ) && !contains_seq(line, "lavfi.signalstats.YMIN"@) && !contains_seq(
            line,
            "lavfi.signalstats.YMAX"@,
        ) && contains_seq(line, "lavfi.signalstats.SATAVG"@) ==> signalstat_of(line) == Some(
            SignalStat::SatAvg,
        ),
{
}

/// Which `signalstats` measurement a line of ffmpeg's metadata file carries.
pub fn signalstat_key(line: &str) -> (r: Option<SignalStat>)
    ensures
        r == signalstat_of(line@),
{
    if str_contains(line, "lavfi.signalstats.YBITDEPTH") {
        Some(SignalStat::BitDepth)
    } else if str_contains(line, "lavfi.signalstats.YAVG") {
        Some(SignalStat::YAvg)
    } else if str_contains(line, "lavfi.signalstats.YMIN") {
        Some(SignalStat::YMin)
    } else if str_contains(line, "lavfi.signalstats.YMAX") {
        Some(SignalStat::YMax)
    } else if str_contains(line, "lavfi.signalstats.SATAVG") {
        Some(SignalStat::SatAvg)
    } else {
        None
    }
}

/// The trimmed text after the last `=` of a line, if it has one.
pub open spec fn value_after_last_equals(line: Seq<char>) -> Option<Seq<char>> {
    let k = last_index(line, '=');
    if k < 0 {
        None
    } else {
        Some(trim(line.subrange(k + 1, line.len() as int)))
    }
}

proof fn lemma_last_index_spot(s: Seq<char>, c: char)
    ensures
        last_index(s, c) == -1 <==> forall|i: int| 0 <= i < s.len() ==> s[i] != c,
        last_index(s, c) != -1 ==> 0 <= last_index(s, c) < s.len() && s[last_index(s, c)] == c
            && forall|i: int| last_index(s, c) < i < s.len() ==> s[i] != c,
    decreases s.len(),
{
    if s.len() > 0 && s.last() != c {
        let d = s.drop_last();
        lemma_last_index_spot(d, c);
        assert forall|i: int| 0 <= i < d.len() implies #[trigger] d[i] == s[i] by {}
        if last_index(d, c) == -1 {
            assert forall|i: int| 0 <= i < s.len() implies s[i] != c by {
                if i < d.len() {
                    assert(d[i] == s[i]);
                }
            }
        } else {
            let k = last_index(d, c);
            assert(s[k] == d[k]);
            assert forall|i: int| k < i < s.len() implies s[i] != c by {
                if i < d.len() {
                    assert(d[i] == s[i]);
                }
            }
            assert(exists|i: int| 0 <= i < s.len() && s[i] == c) by {
                assert(s[k] == c);
            }
        }
    } else if s.len() > 0 {
        assert(s[s.len() - 1] == c);
    }
}

/// A metadata line's value is what follows its last `=`, trimmed: there is
/// none exactly when the line has no `=`, and otherwise no `=` stands after
/// the one the value follows.
pub proof fn lemma_metadata_value_after_last_equals(line: Seq<char>)
    ensures
        value_after_last_equals(line) is None <==> forall|i: int| 0 <= i < line.len() ==> line[i]
            != '=',
        value_after_last_equals(line) matches Some(v) ==> exists|k: int|
            0 <= k < line.len() && line[k] == '=' && (forall|i: int|
                k < i < line.len() ==> line[i] != '=') && v == trim(
                line.subrange(k + 1, line.len() as int),
            ),
{
    lemma_last_index_spot(line, '=');
    let k = last_index(line, '=');
    if k != -1 {
        assert(line[k] == '=');
    }
}

/// The value text of a `key=value` metadata line: what follows its last `=`,
/// trimmed.
pub fn metadata_value(line: &str) -> (r: Option<String>)
    ensures
        match r {
            Some(s) => value_after_last_equals(line@) == Some(s@),
            None => value_after_last_equals(line@) is None,
        },
{
    let v = chars_of(line);
    match find_last_char(&v, '=') {
        Some(k) => {
            assert(k < v.len());
            let (a, b) = trim_range(&v, k + 1, v.len());
            Some(string_of(&v, a, b))
        },
        None => None,
    }
}

/// The ffmpeg output options of a grade: a stream copy when there is no
/// filter, else the filter with an x264 re-encode that keeps the audio.
pub open spec fn grade_output_args(filter: Seq<char>) -> Seq<Seq<char>> {
    if filter.len() == 0 {
        seq!["-c"@, "copy"@]
    } else {
        seq![
            "-vf"@,
            filter,
            "-c:v"@,
            "libx264"@,
            "-preset"@,
            "fast"@,
            "-crf"@,
            "18"@,
            "-pix_fmt"@,
            "yuv420p"@,
            "-c:a"@,
            "copy"@,
            "-movflags"@,
            "+faststart"@,
        ]
    }
}

/// The ffmpeg output options that apply `filter` to a clip.
pub fn grade_args(filter: &str) -> (r: Vec<String>)
    ensures
        r@.map_values(|s: String| s@) == grade_output_args(filter@),
{
    let mut r: Vec<String> = Vec::new();
    if filter.unicode_len() == 0 {
        r.push("-c".to_owned());
        r.push("copy".to_owned());
    } else {
        r.push("-vf".to_owned());
        r.push(filter.to_owned());
        r.push("-c:v".to_owned());
        r.push("libx264".to_owned());
        r.push("-preset".to_owned());
        r.push("fast".to_owned());
        r.push("-crf".to_owned());
        r.push("18".to_owned());
        r.push("-pix_fmt".to_owned());
        r.push("yuv420p".to_owned());
        r.push("-c:a".to_owned());
        r.push("copy".to_owned());
        r.push("-movflags".to_owned());
        r.push("+faststart".to_owned());
    }
    assert(r@.map_values(|s: String| s@) =~= grade_output_args(filter@));
    r
}

} // verus!
