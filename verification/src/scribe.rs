//! Transcription bookkeeping: where a take's transcript is cached, which
//! files are videos, reading the API key out of a `.env` file, and advice
//! for a silent audio track.
use crate::paths::{file_stem, is_absolute_path, join, join_path, path_file_stem};
use crate::text::{
    Joiner, chars_of, decimal, find_char, first_index, join_with, lemma_decimal_digits,
    lemma_first_index, lemma_split_lines_step, push_char, push_decimal, push_str, range_is,
    split_lines, str_eq, string_of, trim, trim_matches, trim_range,
};
use vstd::prelude::*;

verus! {

/// The speech-to-text endpoint.
pub const SCRIBE_URL: &'static str = "https://api.elevenlabs.io/v1/speech-to-text";

/// The transcript file name of a video and audio track: the video's stem
/// (`video` when it has none), `.track<n>` for any track but the first, and
/// `.json`.
pub open spec fn transcript_file_name(video: Seq<char>, audio_track: nat) -> Seq<char> {
    let stem = match file_stem(video) {
        Some(s) => s,
        None => "video"@,
    };
    let suffix = if audio_track == 0 {
        Seq::<char>::empty()
    } else {
        ".track"@ + decimal(audio_track)
    };
    stem + suffix + ".json"@
}

/// Where the transcript of `video`'s audio track is cached:
/// `<edit_dir>/transcripts/<stem>[.track<n>].json`.
pub fn transcript_path(edit_dir: &str, video: &str, audio_track: usize) -> (r: String)
    ensures
        r@ == join_path(
            join_path(edit_dir@, "transcripts"@),
            transcript_file_name(video@, audio_track as nat),
        ),
{
    let mut name = match path_file_stem(video) {
        Some(s) => s,
        None => "video".to_owned(),
    };
    if audio_track != 0 {
        push_str(&mut name, ".track");
        push_decimal(&mut name, audio_track as u64);
    }
    push_str(&mut name, ".json");
    proof {
        reveal_strlit("");
    }
    let dir = join(edit_dir, "transcripts");
    join(dir.as_str(), name.as_str())
}

/// Different audio tracks of a video are cached at different paths.
pub proof fn lemma_transcript_paths_distinct(edit_dir: Seq<char>, video: Seq<char>, a: nat, b: nat)
    requires
        a != b,
    ensures
        join_path(join_path(edit_dir, "transcripts"@), transcript_file_name(video, a)) != join_path(
            join_path(edit_dir, "transcripts"@),
            transcript_file_name(video, b),
        ),
{
    reveal_strlit(".track");
    reveal_strlit(".json");
    reveal_strlit("video");
    let base = join_path(edit_dir, "transcripts"@);
    let stem = match file_stem(video) {
        Some(s) => s,
        None => "video"@,
    };
    let sa = if a == 0 {
        Seq::<char>::empty()
    } else {
        ".track"@ + decimal(a)
    };
    let sb = if b == 0 {
        Seq::<char>::empty()
    } else {
        ".track"@ + decimal(b)
    };
    let na = transcript_file_name(video, a);
    let nb = transcript_file_name(video, b);
    assert(na == stem + sa + ".json"@);
    assert(nb == stem + sb + ".json"@);
    lemma_decimal_digits(a);
    lemma_decimal_digits(b);
    // The two names differ.
    if na == nb {
        assert(sa.len() == sb.len());
        assert(na.subrange(stem.len() as int, (stem.len() + sa.len()) as int) =~= sa);
        assert(nb.subrange(stem.len() as int, (stem.len() + sb.len()) as int) =~= sb);
        assert(sa == sb);
        if a == 0 || b == 0 {
            assert(false);
        } else {
            assert(sa.subrange(6, sa.len() as int) =~= decimal(a));
            assert(sb.subrange(6, sb.len() as int) =~= decimal(b));
            assert(false);
        }
    }
    // Both names are absolute or neither is: they share their first character.
    assert(na.len() > 0 && nb.len() > 0);
    if stem.len() > 0 {
        assert(na[0] == stem[0] && nb[0] == stem[0]);
    } else {
        assert(na[0] == '.' && nb[0] == '.');
    }
    assert(is_absolute_path(na) == is_absolute_path(nb));
    let pa = join_path(base, na);
    let pb = join_path(base, nb);
    if pa == pb && !is_absolute_path(na) {
        let k = if base.len() == 0 || base.last() == '/' {
            base.len() as int
        } else {
            (base.len() + 1) as int
        };
        assert(pa.subrange(k, pa.len() as int) =~= na);
        assert(pb.subrange(k, pb.len() as int) =~= nb);
    }
}

/// The video extensions are exactly `mp4`, `mov`, `mkv`, `avi` and `m4v`,
/// each in lower or upper case.
pub proof fn lemma_video_extensions_listed(ext: Seq<char>)
    ensures
        video_extensions().contains(ext) <==> (ext == "mp4"@ || ext == "MP4"@ || ext == "mov"@
            || ext == "MOV"@ || ext == "mkv"@ || ext == "MKV"@ || ext == "avi"@ || ext == "AVI"@
            || ext == "m4v"@ || ext == "M4V"@),
{
    let v = video_extensions();
    if ext == "mp4"@ {
        assert(v[0] == ext);
    } else if ext == "MP4"@ {
        assert(v[1] == ext);
    } else if ext == "mov"@ {
        assert(v[2] == ext);
    } else if ext == "MOV"@ {
        assert(v[3] == ext);
    } else if ext == "mkv"@ {
        assert(v[4] == ext);
    } else if ext == "MKV"@ {
        assert(v[5] == ext);
    } else if ext == "avi"@ {
        assert(v[6] == ext);
    } else if ext == "AVI"@ {
        assert(v[7] == ext);
    } else if ext == "m4v"@ {
        assert(v[8] == ext);
    } else if ext == "M4V"@ {
        assert(v[9] == ext);
    }
    if v.contains(ext) {
        let i = choose|i: int| 0 <= i < v.len() && v[i] == ext;
        assert(0 <= i < 10);
    }
}

/// The key found in a `.env` text is that of its first line that sets a
/// non-empty `ELEVENLABS_API_KEY`: that line names the key before its first
/// `=`, no earlier line gives a key, and no key is found when no line does.
pub proof fn lemma_api_key_first_setting_line(lines: Seq<Seq<char>>)
    ensures
        key_from_lines(lines) is None <==> forall|i: int|
            0 <= i < lines.len() ==> key_from_line(#[trigger] lines[i]) is None,
        key_from_lines(lines) matches Some(k) ==> exists|i: int|
            0 <= i < lines.len() && key_from_line(#[trigger] lines[i]) == Some(k) && (forall|j: int|
                0 <= j < i ==> key_from_line(#[trigger] lines[j]) is None) && ({
                let t = trim(lines[i]);
                let e = first_index(t, '=');
                &&& 0 <= e < t.len()
                &&& t[e] == '='
                &&& forall|m: int| 0 <= m < e ==> t[m] != '='
                &&& trim(t.subrange(0, e)) == "ELEVENLABS_API_KEY"@
                &&& t[0] != '#'
            }),
    decreases lines.len(),
{
    if lines.len() > 0 {
        let rest = lines.drop_first();
        lemma_api_key_first_setting_line(rest);
        lemma_first_index(trim(lines[0]), '=');
        assert forall|i: int| 0 < i < lines.len() implies #[trigger] lines[i] == rest[i - 1] by {}
        if key_from_line(lines[0]) is None {
            if key_from_lines(rest) is Some {
                let i = choose|i: int|
                    0 <= i < rest.len() && key_from_line(#[trigger] rest[i]) == key_from_lines(rest)
                        && (forall|j: int| 0 <= j < i ==> key_from_line(#[trigger] rest[j]) is None)
                        && ({
                        let t = trim(rest[i]);
                        let e = first_index(t, '=');
                        &&& 0 <= e < t.len()
                        &&& t[e] == '='
                        &&& forall|m: int| 0 <= m < e ==> t[m] != '='
                        &&& trim(t.subrange(0, e)) == "ELEVENLABS_API_KEY"@
                        &&& t[0] != '#'
                    });
                assert(lines[i + 1] == rest[i]);
                assert forall|j: int| 0 <= j < i + 1 implies key_from_line(#[trigger] lines[j]) is None by {
                    if j > 0 {
                        assert(lines[j] == rest[j - 1]);
                    }
                }
            } else {
                assert forall|i: int| 0 <= i < lines.len() implies key_from_line(
                    #[trigger] lines[i],
                ) is None by {
                    if i > 0 {
                        assert(lines[i] == rest[i - 1]);
                    }
                }
            }
        }
    }
}

/// The extensions of video files.
pub open spec fn video_extensions() -> Seq<Seq<char>> {
    seq![
        "mp4"@,
        "MP4"@,
        "mov"@,
        "MOV"@,
        "mkv"@,
        "MKV"@,
        "avi"@,
        "AVI"@,
        "m4v"@,
        "M4V"@,
    ]
}

/// Whether a file extension marks a video (`mp4`, `mov`, `mkv`, `avi` or
/// `m4v`, in lower or upper case).
pub fn is_video_extension(ext: &str) -> (b: bool)
    ensures
        b == video_extensions().contains(ext@),
{
    let names = ["mp4", "MP4", "mov", "MOV", "mkv", "MKV", "avi", "AVI", "m4v", "M4V"];
    let mut i: usize = 0;
    while i < 10
        invariant
            i <= 10,
            forall|j: int| 0 <= j < 10 ==> (#[trigger] names@[j])@ == video_extensions()[j],
            forall|j: int| 0 <= j < i ==> video_extensions()[j] != ext@,
        decreases 10 - i,
    {
        if str_eq(names[i], ext) {
            assert(video_extensions()[i as int] == ext@);
            return true;
        }
        i = i + 1;
    }
    false
}

/// A value from a `.env` file or the environment, cleaned: trimmed, then
/// stripped of surrounding `"` and then `'` characters.
pub open spec fn clean_value(v: Seq<char>) -> Seq<char> {
    trim_matches(trim_matches(trim(v), '"'), '\'')
}

/// The API key a `.env` line sets: a non-comment `KEY=value` line whose
/// trimmed key is `ELEVENLABS_API_KEY` and whose cleaned value is not empty.
pub open spec fn key_from_line(line: Seq<char>) -> Option<Seq<char>> {
    let t = trim(line);
    let k = first_index(t, '=');
    if t.len() == 0 || t[0] == '#' || k < 0 {
        None
    } else if trim(t.subrange(0, k)) == "ELEVENLABS_API_KEY"@ && clean_value(
        t.subrange(k + 1, t.len() as int),
    ).len() > 0 {
        Some(clean_value(t.subrange(k + 1, t.len() as int)))
    } else {
        None
    }
}

/// The API key set by the first line of `lines` that sets one.
pub open spec fn key_from_lines(lines: Seq<Seq<char>>) -> Option<Seq<char>>
    decreases lines.len(),
{
    if lines.len() == 0 {
        None
    } else {
        match key_from_line(lines[0]) {
            Some(k) => Some(k),
            None => key_from_lines(lines.drop_first()),
        }
    }
}

fn trim_matches_range(v: &[char], lo: usize, hi: usize, c: char) -> (r: (usize, usize))
    requires
        lo <= hi <= v@.len(),
    ensures
        lo <= r.0 <= r.1 <= hi,
        v@.subrange(r.0 as int, r.1 as int) == trim_matches(v@.subrange(lo as int, hi as int), c),
{
    let mut a = lo;
    let mut b = hi;
    while a < b && v[a] == c
        invariant
            lo <= a <= b == hi <= v@.len(),
            trim_matches(v@.subrange(lo as int, hi as int), c) == trim_matches(
                v@.subrange(a as int, b as int),
                c,
            ),
        decreases b - a,
    {
        assert(v@.subrange(a as int, b as int).drop_first() =~= v@.subrange(a + 1, b as int));
        a = a + 1;
    }
    while a < b && v[b - 1] == c
        invariant
            lo <= a <= b <= hi <= v@.len(),
            a == b || v@[a as int] != c,
            trim_matches(v@.subrange(lo as int, hi as int), c) == trim_matches(
                v@.subrange(a as int, b as int),
                c,
            ),
        decreases b - a,
    {
        assert(v@.subrange(a as int, b as int).drop_last() =~= v@.subrange(a as int, b - 1));
        assert(v@.subrange(a as int, b as int)[0] == v@[a as int]);
        b = b - 1;
    }
    proof {
        let s = v@.subrange(a as int, b as int);
        if s.len() > 0 {
            assert(s[0] == v@[a as int]);
            assert(s.last() == v@[b - 1]);
        }
    }
    (a, b)
}

fn clean_range(v: &[char], lo: usize, hi: usize) -> (r: (usize, usize))
    requires
        lo <= hi <= v@.len(),
    ensures
        lo <= r.0 <= r.1 <= hi,
        v@.subrange(r.0 as int, r.1 as int) == clean_value(v@.subrange(lo as int, hi as int)),
{
    let (a, b) = trim_range(v, lo, hi);
    let (c, d) = trim_matches_range(v, a, b, '"');
    trim_matches_range(v, c, d, '\'')
}

/// Cleans an API key value; `None` when nothing is left.
pub fn clean_api_key(value: &str) -> (r: Option<String>)
    ensures
        match r {
            Some(k) => clean_value(value@).len() > 0 && k@ == clean_value(value@),
            None => clean_value(value@).len() == 0,
        },
{
    let v = chars_of(value);
    assert(v@.subrange(0, v@.len() as int) =~= v@);
    let (a, b) = clean_range(&v, 0, v.len());
    if a == b {
        None
    } else {
        Some(string_of(&v, a, b))
    }
}

fn key_from_line_range(v: &[char], lo: usize, hi: usize) -> (r: Option<String>)
    requires
        lo <= hi <= v@.len(),
    ensures
        match r {
            Some(k) => key_from_line(v@.subrange(lo as int, hi as int)) == Some(k@),
            None => key_from_line(v@.subrange(lo as int, hi as int)) is None,
        },
{
    let (a, b) = trim_range(v, lo, hi);
    let ghost t = v@.subrange(a as int, b as int);
    if a == b || v[a] == '#' {
        return None;
    }
    assert(t[0] == v@[a as int]);
    let eq = match find_char(v, a, b, '=') {
        Some(k) => k,
        None => {
            return None;
        },
    };
    proof {
        assert(t.subrange(0, eq - a) =~= v@.subrange(a as int, eq as int));
        assert(t.subrange(eq - a + 1, t.len() as int) =~= v@.subrange(eq + 1, b as int));
    }
    let (ka, kb) = trim_range(v, a, eq);
    if !range_is(v, ka, kb, "ELEVENLABS_API_KEY") {
        return None;
    }
    let (ca, cb) = clean_range(v, eq + 1, b);
    if ca == cb {
        return None;
    }
    Some(string_of(v, ca, cb))
}

/// The API key that a `.env` file's text sets, from its first line that sets
/// a non-empty `ELEVENLABS_API_KEY`; comment lines are skipped.
pub fn api_key_from_env_text(content: &str) -> (r: Option<String>)
    ensures
        match r {
            Some(k) => key_from_lines(split_lines(content@)) == Some(k@),
            None => key_from_lines(split_lines(content@)) is None,
        },
{
    let v = chars_of(content);
    let len = v.len();
    let mut start: usize = 0;
    assert(v@.subrange(0, len as int) =~= v@);
    loop
        invariant
            v@ == content@,
            len == v@.len(),
            start <= len,
            key_from_lines(split_lines(v@.subrange(start as int, len as int))) == key_from_lines(
                split_lines(v@),
            ),
        decreases len - start,
    {
        match find_char(&v, start, len, '\n') {
            Some(k) => {
                proof {
                    lemma_split_lines_step(v@, start as int, len as int, Some(k as int));
                    let lines = split_lines(v@.subrange(start as int, len as int));
                    assert(lines[0] == v@.subrange(start as int, k as int));
                    assert(lines.drop_first() =~= split_lines(v@.subrange(k + 1, len as int)));
                }
                match key_from_line_range(&v, start, k) {
                    Some(key) => {
                        return Some(key);
                    },
                    None => {},
                }
                start = k + 1;
            },
            None => {
                proof {
                    lemma_split_lines_step(v@, start as int, len as int, None);
                    let lines = split_lines(v@.subrange(start as int, len as int));
                    assert(lines.drop_first() =~= Seq::<Seq<char>>::empty());
                    assert(lines[0] == v@.subrange(start as int, len as int));
                    assert(key_from_lines(lines.drop_first()) is None);
                }
                return key_from_line_range(&v, start, len);
            },
        }
    }
}

/// The other tracks among `0..n` than `track`, as numerals.
pub open spec fn other_tracks(n: nat, track: nat) -> Seq<Seq<char>>
    decreases n,
{
    if n == 0 {
        Seq::empty()
    } else if (n - 1) as nat == track {
        other_tracks((n - 1) as nat, track)
    } else {
        other_tracks((n - 1) as nat, track).push(decimal((n - 1) as nat))
    }
}

/// What to suggest when the chosen audio track is silent.
pub open spec fn silent_track_advice_spec(n_tracks: nat, audio_track: nat) -> Seq<char> {
    if n_tracks > 1 {
        "The file has "@ + decimal(n_tracks) + " audio tracks; try --audio-track "@ + join_with(
            other_tracks(n_tracks, audio_track),
            " or "@,
        ) + "."@
    } else {
        "Check the source audio."@
    }
}

/// Suggests what to do when the chosen audio track is silent: with several
/// tracks, try the others.
pub fn silent_track_advice(n_tracks: usize, audio_track: usize) -> (r: String)
    ensures
        r@ == silent_track_advice_spec(n_tracks as nat, audio_track as nat),
{
    if n_tracks <= 1 {
        return "Check the source audio.".to_owned();
    }
    let mut out = String::new();
    push_str(&mut out, "The file has ");
    push_decimal(&mut out, n_tracks as u64);
    push_str(&mut out, " audio tracks; try --audio-track ");
    let ghost head = out@;
    let mut i: usize = 0;
    let mut count: usize = 0;
    proof {
        reveal_strlit(" or ");
    }
    while i < n_tracks
        invariant
            i <= n_tracks,
            count == other_tracks(i as nat, audio_track as nat).len(),
            count <= i,
            out@ == head + join_with(other_tracks(i as nat, audio_track as nat), " or "@),
            " or "@ == seq![' ', 'o', 'r', ' '],
        decreases n_tracks - i,
    {
        let ghost before = other_tracks(i as nat, audio_track as nat);
        if i != audio_track {
            if count > 0 {
                push_str(&mut out, " or ");
            }
            push_decimal(&mut out, i as u64);
            count = count + 1;
            proof {
                let after = before.push(decimal(i as nat));
                assert(other_tracks((i + 1) as nat, audio_track as nat) == after);
                assert(after.drop_last() =~= before);
                if before.len() == 0 {
                    assert(out@ =~= head + join_with(after, " or "@));
                } else {
                    assert(out@ =~= head + join_with(after, " or "@));
                }
            }
        }
        i = i + 1;
    }
    push_str(&mut out, ".");
    out
}

} // verus!
