//! Rendering an EDL: the grade each segment gets, the per-mode encoder
//! settings and file names, the per-segment video filter, and the final
//! compositing filter graph with overlays and burned-in subtitles.
use crate::grade::{get_preset, preset_filter};
use crate::media::TONEMAP_CHAIN;
use crate::subtitles::SUB_FORCE_STYLE;
use crate::text::{
    Joiner, chars_of, decimal, join_with, push_char, push_decimal, push_str, push_zero_padded,
    replace_all, replace_str, str_eq, string_of, trim, trim_bounds, zero_padded,
};
use std::path::Path;
use vstd::prelude::*;

verus! {

#[verifier::external_type_specification]
#[verifier::external_body]
pub struct ExPath(Path);

/// What to render and how.
pub struct RenderOptions<'a> {
    pub edl_path: &'a Path,
    pub output_path: &'a Path,
    pub preview: bool,
    pub draft: bool,
    pub build_subtitles: bool,
    pub no_subtitles: bool,
    pub no_loudnorm: bool,
    pub fps: Option<&'a str>,
}


/// How carefully a render encodes: draft beats preview, which beats final.
#[derive(Debug, Clone, Copy, PartialEq, Eq, Structural)]
pub enum RenderMode {
    /// Full quality.
    Final,
    /// 1080p at a medium preset, good enough to judge.
    Preview,
    /// 720p at the fastest preset, for checking cut points only.
    Draft,
}

impl RenderMode {
    /// The mode that the `preview` and `draft` switches select; draft wins.
    pub fn from_flags(preview: bool, draft: bool) -> (m: RenderMode)
        ensures
            m == (if draft {
                RenderMode::Draft
            } else if preview {
                RenderMode::Preview
            } else {
                RenderMode::Final
            }),
    {
        if draft {
            RenderMode::Draft
        } else if preview {
            RenderMode::Preview
        } else {
            RenderMode::Final
        }
    }

    /// The directory, under the edit directory, that holds the extracted segments.
    pub fn clips_dir(&self) -> (r: &'static str)
        ensures
            r@ == match *self {
                RenderMode::Draft => "clips_draft"@,
                RenderMode::Preview => "clips_preview"@,
                RenderMode::Final => "clips_graded"@,
            },
    {
        match self {
            RenderMode::Draft => "clips_draft",
            RenderMode::Preview => "clips_preview",
            RenderMode::Final => "clips_graded",
        }
    }

    /// The file name of the concatenated base video.
    pub fn base_name(&self) -> (r: &'static str)
        ensures
            r@ == match *self {
                RenderMode::Draft => "base_draft.mp4"@,
                RenderMode::Preview => "base_preview.mp4"@,
                RenderMode::Final => "base.mp4"@,
            },
    {
        match self {
            RenderMode::Draft => "base_draft.mp4",
            RenderMode::Preview => "base_preview.mp4",
            RenderMode::Final => "base.mp4",
        }
    }

    /// The x264 preset and CRF of a segment encode.
    pub fn encoder(&self) -> (r: (&'static str, &'static str))
        ensures
            (r.0@, r.1@) == match *self {
                RenderMode::Draft => ("ultrafast"@, "28"@),
                RenderMode::Preview => ("medium"@, "22"@),
                RenderMode::Final => ("fast"@, "20"@),
            },
    {
        match self {
            RenderMode::Draft => ("ultrafast", "28"),
            RenderMode::Preview => ("medium", "22"),
            RenderMode::Final => ("fast", "20"),
        }
    }
}

/// The scaling step of a segment: the long side to 1280 in a draft, else 1920,
/// the other side following with an even size.
pub open spec fn scale_filter(portrait: bool, draft: bool) -> Seq<char> {
    if draft {
        if portrait {
            "scale=-2:1280"@
        } else {
            "scale=1280:-2"@
        }
    } else if portrait {
        "scale=-2:1920"@
    } else {
        "scale=1920:-2"@
    }
}

/// The video filters of a segment, in order: tone mapping for an HDR source,
/// scaling, then the grade when there is one.
pub open spec fn segment_filter_parts(hdr: bool, portrait: bool, draft: bool, grade: Seq<char>) -> Seq<
    Seq<char>,
> {
    let head = if hdr {
        seq![TONEMAP_CHAIN@]
    } else {
        Seq::empty()
    };
    let body = head.push(scale_filter(portrait, draft));
    if grade.len() > 0 {
        body.push(grade)
    } else {
        body
    }
}

/// The audio filter of an extracted segment: a 30 ms fade in at its start
/// and a 30 ms fade out from `fade_out_start` (seconds, as printed), so that
/// no cut pops.
pub fn segment_audio_filter(fade_out_start: &str) -> (r: String)
    ensures
        r@ == "afade=t=in:st=0:d=0.03,afade=t=out:st="@ + fade_out_start@ + ":d=0.03"@,
{
    let mut s = String::new();
    push_str(&mut s, "afade=t=in:st=0:d=0.03,afade=t=out:st=");
    push_str(&mut s, fade_out_start);
    push_str(&mut s, ":d=0.03");
    s
}

/// A segment's video filter chain: the tone mapping first for an HDR source,
/// then the scaling that bounds the long side (a portrait source's height,
/// a landscape source's width) to 1280 pixels in a draft and 1920 otherwise,
/// the other side following with an even size, then the grade when there is one.
pub proof fn lemma_segment_filter_layout(hdr: bool, portrait: bool, draft: bool, grade: Seq<char>)
    ensures
        join_with(segment_filter_parts(hdr, portrait, draft, grade), seq![',']) == (if hdr {
            TONEMAP_CHAIN@ + seq![',']
        } else {
            Seq::empty()
        }) + (if portrait {
            "scale=-2:"@ + (if draft {
                "1280"@
            } else {
                "1920"@
            })
        } else {
            "scale="@ + (if draft {
                "1280"@
            } else {
                "1920"@
            }) + ":-2"@
        }) + (if grade.len() > 0 {
            seq![','] + grade
        } else {
            Seq::empty()
        }),
{
    reveal_strlit("scale=-2:1280");
    reveal_strlit("scale=1280:-2");
    reveal_strlit("scale=-2:1920");
    reveal_strlit("scale=1920:-2");
    reveal_strlit("scale=-2:");
    reveal_strlit("scale=");
    reveal_strlit(":-2");
    reveal_strlit("1280");
    reveal_strlit("1920");
    let parts = segment_filter_parts(hdr, portrait, draft, grade);
    let sc = scale_filter(portrait, draft);
    let expected_scale = if portrait {
        "scale=-2:"@ + (if draft {
            "1280"@
        } else {
            "1920"@
        })
    } else {
        "scale="@ + (if draft {
            "1280"@
        } else {
            "1920"@
        }) + ":-2"@
    };
    assert(sc =~= expected_scale);
    reveal_with_fuel(join_with, 3);
    if hdr {
        if grade.len() > 0 {
            assert(parts =~= seq![TONEMAP_CHAIN@, sc, grade]);
            assert(parts.drop_last() =~= seq![TONEMAP_CHAIN@, sc]);
            assert(parts.drop_last().drop_last() =~= seq![TONEMAP_CHAIN@]);
        } else {
            assert(parts =~= seq![TONEMAP_CHAIN@, sc]);
            assert(parts.drop_last() =~= seq![TONEMAP_CHAIN@]);
        }
    } else {
        if grade.len() > 0 {
            assert(parts =~= seq![sc, grade]);
            assert(parts.drop_last() =~= seq![sc]);
        } else {
            assert(parts =~= seq![sc]);
        }
    }
    let lhs = join_with(parts, seq![',']);
    let rhs = (if hdr {
        TONEMAP_CHAIN@ + seq![',']
    } else {
        Seq::empty()
    }) + expected_scale + (if grade.len() > 0 {
        seq![','] + grade
    } else {
        Seq::empty()
    });
    assert(lhs =~= rhs);
}

/// The video filter chain of an extracted segment.
pub fn segment_video_filter(hdr: bool, portrait: bool, draft: bool, grade: &str) -> (r: String)
    ensures
        r@ == join_with(segment_filter_parts(hdr, portrait, draft, grade@), seq![',']),
{
    let mut parts = Joiner::new(',');
    if hdr {
        parts.push(TONEMAP_CHAIN);
    }
    let scale = if draft {
        if portrait {
            "scale=-2:1280"
        } else {
            "scale=1280:-2"
        }
    } else if portrait {
        "scale=-2:1920"
    } else {
        "scale=1920:-2"
    };
    parts.push(scale);
    if grade.unicode_len() > 0 {
        parts.push(grade);
    }
    proof {
        let head = if hdr {
            seq![TONEMAP_CHAIN@]
        } else {
            Seq::<Seq<char>>::empty()
        };
        assert(parts.parts() =~= segment_filter_parts(hdr, portrait, draft, grade@));
    }
    parts.finish()
}

/// What an EDL's `grade` field asks for.
pub enum GradeChoice {
    /// No grade (absent or blank).
    NoGrade,
    /// A grade computed per segment from the footage.
    Auto,
    /// A named preset, with its filter.
    Preset(&'static str),
    /// An identifier that names no preset, used as a raw filter.
    UnknownPreset(String),
    /// A raw ffmpeg filter.
    Raw(String),
}

/// Whether a grade field is a bare identifier: letters, digits, `_` and `-`.
pub open spec fn is_grade_identifier(s: Seq<char>) -> bool {
    s.len() > 0 && forall|i: int|
        0 <= i < s.len() ==> {
            let u = (#[trigger] s[i]) as u32;
            ||| 'a' as u32 <= u <= 'z' as u32
            ||| 'A' as u32 <= u <= 'Z' as u32
            ||| '0' as u32 <= u <= '9' as u32
            ||| u == '_' as u32
            ||| u == '-' as u32
        }
}

/// Whether `text` is an identifier, by the pattern `^[a-zA-Z0-9_\-]+$` of
/// the `regex` crate.
#[verifier::external_body]
fn matches_identifier_pattern(text: &str) -> (b: bool)
    ensures
        b == is_grade_identifier(text@),
{
    regex::Regex::new(r"^[a-zA-Z0-9_\-]+$").unwrap().is_match(text)
}

/// The grade a field asks for: nothing when blank, `auto`, a preset by name,
/// else the trimmed text as a raw filter.
pub open spec fn grade_choice_spec(field: Option<Seq<char>>) -> (int, Seq<char>) {
    match field {
        None => (0, Seq::empty()),
        Some(f) => {
            let t = trim(f);
            if t.len() == 0 {
                (0, Seq::empty())
            } else if t == "auto"@ {
                (1, Seq::empty())
            } else if is_grade_identifier(t) {
                match preset_filter(t) {
                    Some(p) => (2, p),
                    None => (3, t),
                }
            } else {
                (4, t)
            }
        },
    }
}

/// Reads an EDL's `grade` field.
pub fn classify_grade_field(grade_field: Option<&str>) -> (r: GradeChoice)
    ensures
        grade_choice_spec(
            match grade_field {
                Some(f) => Some(f@),
                None => None,
            },
        ) == match r {
            GradeChoice::NoGrade => (0int, Seq::<char>::empty()),
            GradeChoice::Auto => (1int, Seq::<char>::empty()),
            GradeChoice::Preset(p) => (2int, p@),
            GradeChoice::UnknownPreset(t) => (3int, t@),
            GradeChoice::Raw(t) => (4int, t@),
        },
{
    let f = match grade_field {
        None => {
            return GradeChoice::NoGrade;
        },
        Some(f) => f,
    };
    let v = chars_of(f);
    let (lo, hi) = trim_bounds(&v);
    if lo == hi {
        return GradeChoice::NoGrade;
    }
    let t = string_of(&v, lo, hi);
    if str_eq(t.as_str(), "auto") {
        return GradeChoice::Auto;
    }
    if matches_identifier_pattern(t.as_str()) {
        match get_preset(t.as_str()) {
            Ok(p) => GradeChoice::Preset(p),
            Err(_) => GradeChoice::UnknownPreset(t),
        }
    } else {
        GradeChoice::Raw(t)
    }
}

/// The filter a grade field resolves to: empty for none, the marker
/// `__AUTO__` for an automatic grade, a preset's filter, or the field as a
/// raw filter.
pub open spec fn resolve_grade_spec(field: Option<Seq<char>>) -> Seq<char> {
    let (kind, text) = grade_choice_spec(field);
    if kind == 0 {
        Seq::empty()
    } else if kind == 1 {
        "__AUTO__"@
    } else {
        text
    }
}

/// Resolves an EDL's `grade` field to a filter string (`__AUTO__` asks for
/// an automatic grade per segment).
pub fn resolve_grade_filter(grade_field: Option<&str>) -> (r: String)
    ensures
        r@ == resolve_grade_spec(
            match grade_field {
                Some(f) => Some(f@),
                None => None,
            },
        ),
{
    match classify_grade_field(grade_field) {
        GradeChoice::NoGrade => String::new(),
        GradeChoice::Auto => "__AUTO__".to_owned(),
        GradeChoice::Preset(p) => p.to_owned(),
        GradeChoice::UnknownPreset(t) => t,
        GradeChoice::Raw(t) => t,
    }
}

/// A path made safe for a filter-graph option: `:` and `'` escaped with `\`.
pub open spec fn escape_filter_path_spec(p: Seq<char>) -> Seq<char> {
    replace_all(replace_all(p, seq![':'], seq!['\\', ':']), seq!['\''], seq!['\\', '\''])
}

/// Escapes `:` and `'` in a path for use inside a filter graph.
pub fn escape_filter_path(p: &str) -> (r: String)
    ensures
        r@ == escape_filter_path_spec(p@),
{
    proof {
        reveal_strlit(":");
        reveal_strlit("\\:");
        reveal_strlit("'");
        reveal_strlit("\\'");
    }
    assert(":"@ =~= seq![':']);
    assert("\\:"@ =~= seq!['\\', ':']);
    assert("'"@ =~= seq!['\'']);
    assert("\\'"@ =~= seq!['\\', '\'']);
    let a = replace_str(p, ":", "\\:");
    replace_str(a.as_str(), "'", "\\'")
}

/// When an overlay shows on the output timeline, its times already formatted.
pub struct OverlayWindow {
    pub start: String,
    pub end: String,
}

/// The label of the video after `i` overlays: `[0:v]` for the base, else `[v<i>]`.
pub open spec fn video_label(i: nat) -> Seq<char> {
    if i == 0 {
        "[0:v]"@
    } else {
        "[v"@ + decimal(i) + "]"@
    }
}

/// Shifts the `i`-th overlay (from 1) so that its first frame lands at its start.
pub open spec fn shift_filter(i: nat, w: OverlayWindow) -> Seq<char> {
    "["@ + decimal(i) + ":v]setpts=PTS-STARTPTS+"@ + w.start@ + "/TB[a"@ + decimal(i) + "]"@
}

/// Lays the `i`-th overlay (from 1) over the video so far, during its window.
pub open spec fn overlay_filter(i: nat, w: OverlayWindow) -> Seq<char> {
    video_label((i - 1) as nat) + "[a"@ + decimal(i) + "]overlay=enable='between(t,"@ + w.start@
        + ","@ + w.end@ + ")'"@ + video_label(i)
}

/// The shifting filters of all overlays, in order.
pub open spec fn shift_filters(ws: Seq<OverlayWindow>) -> Seq<Seq<char>>
    decreases ws.len(),
{
    if ws.len() == 0 {
        Seq::empty()
    } else {
        shift_filters(ws.drop_last()).push(shift_filter(ws.len(), ws.last()))
    }
}

/// The overlaying filters of all overlays, in order.
pub open spec fn overlay_filters(ws: Seq<OverlayWindow>) -> Seq<Seq<char>>
    decreases ws.len(),
{
    if ws.len() == 0 {
        Seq::empty()
    } else {
        overlay_filters(ws.drop_last()).push(overlay_filter(ws.len(), ws.last()))
    }
}

/// Burns the subtitles in, over the video after `n` overlays.
pub open spec fn subtitles_filter(n: nat, escaped_path: Seq<char>) -> Seq<char> {
    video_label(n) + "subtitles='"@ + escaped_path + "':force_style='"@ + SUB_FORCE_STYLE@
        + "'[outv]"@
}

/// The filters of the final composite: every overlay's shift, every overlay
/// in order, then the subtitles (or a pass-through) producing `[outv]`.
pub open spec fn composite_filters(ws: Seq<OverlayWindow>, subtitles: Option<Seq<char>>) -> Seq<
    Seq<char>,
> {
    let last = match subtitles {
        Some(p) => subtitles_filter(ws.len(), escape_filter_path_spec(p)),
        None => video_label(ws.len()) + "null[outv]"@,
    };
    shift_filters(ws) + overlay_filters(ws) + seq![last]
}

/// The output label of the composite filter graph.
pub const COMPOSITE_OUTPUT: &'static str = "[outv]";

/// The `-filter_complex` graph that lays the overlays over the base video and
/// burns in the subtitles last; `None` when there is nothing to composite.
pub fn composite_filter_graph(overlays: &[OverlayWindow], subtitles: Option<&str>) -> (r: Option<
    String,
>)
    ensures
        match r {
            None => overlays@.len() == 0 && subtitles is None,
            Some(g) => (overlays@.len() > 0 || subtitles is Some) && g@ == join_with(
                composite_filters(
                    overlays@,
                    match subtitles {
                        Some(p) => Some(p@),
                        None => None,
                    },
                ),
                seq![';'],
            ),
        },
{
    if overlays.len() == 0 && subtitles.is_none() {
        return None;
    }
    let mut parts = Joiner::new(';');
    let n = overlays.len();
    let mut i: usize = 0;
    assert(overlays@.subrange(0, 0) =~= Seq::<OverlayWindow>::empty());
    while i < n
        invariant
            n == overlays@.len(),
            i <= n,
            parts.wf(),
            parts.sep() == ';',
            parts.parts() == shift_filters(overlays@.subrange(0, i as int)),
        decreases n - i,
    {
        let w = &overlays[i];
        let mut f = String::new();
        push_str(&mut f, "[");
        push_decimal(&mut f, (i as u64) + 1);
        push_str(&mut f, ":v]setpts=PTS-STARTPTS+");
        push_str(&mut f, w.start.as_str());
        push_str(&mut f, "/TB[a");
        push_decimal(&mut f, (i as u64) + 1);
        push_str(&mut f, "]");
        parts.push(f.as_str());
        proof {
            let sub = overlays@.subrange(0, i + 1);
            assert(sub.drop_last() =~= overlays@.subrange(0, i as int));
            assert(sub.last() == overlays@[i as int]);
            assert(f@ =~= shift_filter((i + 1) as nat, overlays@[i as int]));
        }
        i = i + 1;
    }
    assert(overlays@.subrange(0, n as int) =~= overlays@);
    let ghost shifts = parts.parts();
    let mut current = "[0:v]".to_owned();
    proof {
        reveal_strlit("[0:v]");
    }
    let mut j: usize = 0;
    while j < n
        invariant
            n == overlays@.len(),
            j <= n,
            parts.wf(),
            parts.sep() == ';',
            shifts == shift_filters(overlays@),
            parts.parts() == shifts + overlay_filters(overlays@.subrange(0, j as int)),
            current@ == video_label(j as nat),
        decreases n - j,
    {
        let w = &overlays[j];
        let mut f = String::new();
        push_str(&mut f, current.as_str());
        push_str(&mut f, "[a");
        push_decimal(&mut f, (j as u64) + 1);
        push_str(&mut f, "]overlay=enable='between(t,");
        push_str(&mut f, w.start.as_str());
        push_str(&mut f, ",");
        push_str(&mut f, w.end.as_str());
        push_str(&mut f, ")'");
        let mut next = String::new();
        push_str(&mut next, "[v");
        push_decimal(&mut next, (j as u64) + 1);
        push_str(&mut next, "]");
        push_str(&mut f, next.as_str());
        parts.push(f.as_str());
        proof {
            let sub = overlays@.subrange(0, j + 1);
            assert(sub.drop_last() =~= overlays@.subrange(0, j as int));
            assert(sub.last() == overlays@[j as int]);
            assert(next@ =~= video_label((j + 1) as nat));
            assert(f@ =~= overlay_filter((j + 1) as nat, overlays@[j as int]));
            assert(parts.parts() =~= shifts + overlay_filters(sub));
        }
        current = next;
        j = j + 1;
    }
    let mut last = String::new();
    push_str(&mut last, current.as_str());
    match subtitles {
        Some(p) => {
            let escaped = escape_filter_path(p);
            push_str(&mut last, "subtitles='");
            push_str(&mut last, escaped.as_str());
            push_str(&mut last, "':force_style='");
            push_str(&mut last, SUB_FORCE_STYLE);
            push_str(&mut last, "'[outv]");
        },
        None => {
            push_str(&mut last, "null[outv]");
        },
    }
    parts.push(last.as_str());
    proof {
        assert(parts.parts() =~= composite_filters(
            overlays@,
            match subtitles {
                Some(p) => Some(p@),
                None => None,
            },
        ));
    }
    Some(parts.finish())
}

/// Subtitles are burned in last: the final filter of the composite is the
/// subtitles filter, reading the video after every overlay, and every
/// overlay's shift and placement comes before it.
pub proof fn lemma_subtitles_last(ws: Seq<OverlayWindow>, path: Seq<char>)
    ensures
        composite_filters(ws, Some(path)).len() == 2 * ws.len() + 1,
        composite_filters(ws, Some(path)).last() == subtitles_filter(
            ws.len(),
            escape_filter_path_spec(path),
        ),
        forall|i: int|
            0 <= i < ws.len() ==> composite_filters(ws, Some(path))[i] == shift_filter(
                (i + 1) as nat,
                ws[i],
            ) && composite_filters(ws, Some(path))[ws.len() + i] == overlay_filter(
                (i + 1) as nat,
                ws[i],
            ),
{
    lemma_filters_indexed(ws);
}

proof fn lemma_filters_indexed(ws: Seq<OverlayWindow>)
    ensures
        shift_filters(ws).len() == ws.len(),
        overlay_filters(ws).len() == ws.len(),
        forall|i: int|
            0 <= i < ws.len() ==> shift_filters(ws)[i] == shift_filter((i + 1) as nat, ws[i])
                && overlay_filters(ws)[i] == overlay_filter((i + 1) as nat, ws[i]),
    decreases ws.len(),
{
    if ws.len() > 0 {
        lemma_filters_indexed(ws.drop_last());
        assert forall|i: int| 0 <= i < ws.len() implies shift_filters(ws)[i] == shift_filter(
            (i + 1) as nat,
            ws[i],
        ) && overlay_filters(ws)[i] == overlay_filter((i + 1) as nat, ws[i]) by {
            if i < ws.len() - 1 {
                assert(ws.drop_last()[i] == ws[i]);
            }
        }
    }
}

/// The file name of the `i`-th extracted segment, cut from `source`:
/// `seg_<i, two digits at least>_<source>.mp4`.
pub fn segment_file_name(i: usize, source: &str) -> (r: String)
    ensures
        r@ == "seg_"@ + zero_padded(i as nat, 2) + "_"@ + source@ + ".mp4"@,
{
    let mut s = String::new();
    push_str(&mut s, "seg_");
    push_zero_padded(&mut s, i as u64, 2);
    push_str(&mut s, "_");
    push_str(&mut s, source);
    push_str(&mut s, ".mp4");
    s
}

/// The ffmpeg arguments that composite with `graph`: the graph, its
/// `[outv]` video and the base's audio mapped, the video re-encoded and the
/// audio copied.
pub open spec fn composite_args_spec(graph: Seq<char>) -> Seq<Seq<char>> {
    seq![
        "-filter_complex"@,
        graph,
        "-map"@,
        COMPOSITE_OUTPUT@,
        "-map"@,
        "0:a"@,
        "-c:v"@,
        "libx264"@,
        "-preset"@,
        "fast"@,
        "-crf"@,
        "18"@,
        "-pix_fmt"@,
        "yuv420p"@,
        "-c:a"@,
        "copy"@,
        "-movflags"@,
        "+faststart"@,
    ]
}

/// The ffmpeg arguments of the final composite around its filter graph.
pub fn composite_args(graph: &str) -> (r: Vec<String>)
    ensures
        r@.map_values(|a: String| a@) == composite_args_spec(graph@),
{
    let mut r: Vec<String> = Vec::new();
    r.push("-filter_complex".to_owned());
    r.push(graph.to_owned());
    r.push("-map".to_owned());
    r.push(COMPOSITE_OUTPUT.to_owned());
    r.push("-map".to_owned());
    r.push("0:a".to_owned());
    r.push("-c:v".to_owned());
    r.push("libx264".to_owned());
    r.push("-preset".to_owned());
    r.push("fast".to_owned());
    r.push("-crf".to_owned());
    r.push("18".to_owned());
    r.push("-pix_fmt".to_owned());
    r.push("yuv420p".to_owned());
    r.push("-c:a".to_owned());
    r.push("copy".to_owned());
    r.push("-movflags".to_owned());
    r.push("+faststart".to_owned());
    assert(r@.map_values(|a: String| a@) =~= composite_args_spec(graph@));
    r
}

} // verus!
