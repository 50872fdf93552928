//! What the library reads from ffprobe and decoded audio: audio track counts,
//! HDR transfer functions, displayed orientation and sample peaks.
use crate::json::{JsonValue, member_i64, member_items, spec_array_items, spec_get, spec_nearest_i64};
use crate::text::{
    chars_of, find_char, is_blank, lemma_split_lines_step, split_lines, str_eq, trim, trim_range,
    trim_str,
};
use vstd::prelude::*;

verus! {

/// Filter chain that tone-maps an HDR (PQ or HLG) source to SDR BT.709.
pub const TONEMAP_CHAIN: &'static str = "zscale=t=linear:npl=100,format=gbrpf32le,zscale=p=bt709,tonemap=tonemap=hable:desat=0,zscale=t=bt709:m=bt709:r=tv,format=yuv420p";

/// Number of lines that hold more than white space.
pub open spec fn count_nonblank(lines: Seq<Seq<char>>) -> nat
    decreases lines.len(),
{
    if lines.len() == 0 {
        0
    } else {
        count_nonblank(lines.drop_first()) + if is_blank(lines[0]) {
            0nat
        } else {
            1nat
        }
    }
}

proof fn lemma_count_nonblank_cons(x: Seq<char>, rest: Seq<Seq<char>>)
    ensures
        count_nonblank(seq![x] + rest) == count_nonblank(rest) + if is_blank(x) {
            0nat
        } else {
            1nat
        },
{
    assert((seq![x] + rest).drop_first() =~= rest);
}

/// Counts the lines of ffprobe's output that are not blank: one per audio stream.
pub fn count_nonblank_lines(text: &str) -> (n: usize)
    ensures
        n == count_nonblank(split_lines(text@)),
{
    let v = chars_of(text);
    let len = v.len();
    let mut start: usize = 0;
    let mut count: usize = 0;
    assert(v@.subrange(0, len as int) =~= v@);
    loop
        invariant
            v@ == text@,
            len == v@.len(),
            start <= len,
            count <= start / 2,
            count + count_nonblank(split_lines(v@.subrange(start as int, len as int)))
                == count_nonblank(split_lines(v@)),
        decreases len - start,
    {
        let next = find_char(&v, start, len, '\n');
        match next {
            Some(k) => {
                proof {
                    lemma_split_lines_step(v@, start as int, len as int, Some(k as int));
                    lemma_count_nonblank_cons(
                        v@.subrange(start as int, k as int),
                        split_lines(v@.subrange(k + 1, len as int)),
                    );
                }
                let (a, b) = trim_range(&v, start, k);
                if a < b {
                    count = count + 1;
                }
                start = k + 1;
            },
            None => {
                proof {
                    lemma_split_lines_step(v@, start as int, len as int, None);
                    lemma_count_nonblank_cons(v@.subrange(start as int, len as int), seq![]);
                    assert(count_nonblank(Seq::<Seq<char>>::empty()) == 0);
                }
                let (a, b) = trim_range(&v, start, len);
                if a < b {
                    count = count + 1;
                }
                return count;
            },
        }
    }
}

/// Whether ffprobe's `color_transfer` output names a PQ (`smpte2084`) or
/// HLG (`arib-std-b67`) transfer function.
pub fn is_hdr_transfer(output: &str) -> (b: bool)
    ensures
        b == (trim(output@) == "smpte2084"@ || trim(output@) == "arib-std-b67"@),
{
    let t = trim_str(output);
    str_eq(t.as_str(), "smpte2084") || str_eq(t.as_str(), "arib-std-b67")
}

/// The rotation (in whole degrees) of the first side-data entry that has a
/// numeric `rotation`, among `items[i..]`; 0 when none has.
pub open spec fn rotation_from(items: Seq<JsonValue>, i: int) -> int
    decreases items.len() - i,
{
    if i < 0 || i >= items.len() {
        0
    } else {
        match spec_get(items[i], "rotation"@) {
            Some(r) => match spec_nearest_i64(r) {
                Some(deg) => deg as int,
                None => rotation_from(items, i + 1),
            },
            None => rotation_from(items, i + 1),
        }
    }
}

/// Whether the first stream of ffprobe's JSON output is displayed taller
/// than wide: its coded width and height, swapped when the display-matrix
/// rotation is a quarter turn (90 or 270 degrees). Anything unreadable is
/// taken as landscape.
pub open spec fn portrait_spec(parsed: JsonValue) -> bool {
    match spec_get(parsed, "streams"@) {
        Some(s) => match spec_array_items(s) {
            Some(streams) => if streams.len() == 0 {
                false
            } else {
                let stream = streams[0];
                match (member_i64(stream, "width"@), member_i64(stream, "height"@)) {
                    (Some(w), Some(h)) => {
                        let rot = match member_items(stream, "side_data_list"@) {
                            Some(items) => rotation_from(items, 0),
                            None => 0,
                        };
                        let deg = rot % 360;
                        if deg == 90 || deg == 270 {
                            w > h
                        } else {
                            h > w
                        }
                    },
                    _ => false,
                }
            },
            None => false,
        },
        None => false,
    }
}

fn first_rotation(items: &Vec<JsonValue>) -> (r: i64)
    ensures
        r == rotation_from(items@, 0),
{
    let mut i: usize = 0;
    while i < items.len()
        invariant
            i <= items@.len(),
            rotation_from(items@, 0) == rotation_from(items@, i as int),
        decreases items.len() - i,
    {
        match items[i].get("rotation") {
            Some(r) => match r.nearest_i64() {
                Some(deg) => {
                    return deg;
                },
                None => {},
            },
            None => {},
        }
        i = i + 1;
    }
    0
}

/// Determines from ffprobe's JSON `streams` output whether the displayed
/// video is portrait, taking display-matrix rotation into account.
pub fn is_portrait_from_probe_json(parsed: &JsonValue) -> (b: bool)
    ensures
        b == portrait_spec(*parsed),
{
    let streams = match parsed.get("streams") {
        Some(s) => match s.as_array() {
            Some(a) => a,
            None => {
                return false;
            },
        },
        None => {
            return false;
        },
    };
    if streams.len() == 0 {
        return false;
    }
    let stream = &streams[0];
    let w = match stream.get("width") {
        Some(v) => match v.as_i64() {
            Some(w) => w,
            None => {
                return false;
            },
        },
        None => {
            return false;
        },
    };
    let h = match stream.get("height") {
        Some(v) => match v.as_i64() {
            Some(h) => h,
            None => {
                return false;
            },
        },
        None => {
            return false;
        },
    };
    let rot: i64 = match stream.get("side_data_list") {
        Some(v) => match v.as_array() {
            Some(items) => first_rotation(items),
            None => 0,
        },
        None => 0,
    };
    let deg = match rot.checked_rem_euclid(360) {
        Some(d) => d,
        None => 0,
    };
    if deg == 90 || deg == 270 {
        w > h
    } else {
        h > w
    }
}

/// Largest magnitude among the samples (0 for none).
pub open spec fn peak_of(samples: Seq<i16>) -> int
    decreases samples.len(),
{
    if samples.len() == 0 {
        0
    } else {
        let rest = peak_of(samples.drop_last());
        let x = samples.last() as int;
        let m = if x < 0 {
            -x
        } else {
            x
        };
        if m > rest {
            m
        } else {
            rest
        }
    }
}

/// Peak sample magnitude of 16-bit PCM audio (0 means digital silence).
pub fn peak_magnitude(samples: &[i16]) -> (p: i32)
    ensures
        p == peak_of(samples@),
        0 <= p <= 32768,
{
    let mut peak: i32 = 0;
    let mut i: usize = 0;
    assert(samples@.subrange(0, 0) =~= Seq::<i16>::empty());
    while i < samples.len()
        invariant
            i <= samples@.len(),
            peak == peak_of(samples@.subrange(0, i as int)),
            0 <= peak <= 32768,
        decreases samples.len() - i,
    {
        let s = samples[i] as i32;
        let m = if s < 0 {
            -s
        } else {
            s
        };
        assert(samples@.subrange(0, i + 1).drop_last() =~= samples@.subrange(0, i as int));
        if m > peak {
            peak = m;
        }
        i = i + 1;
    }
    assert(samples@.subrange(0, samples@.len() as int) =~= samples@);
    peak
}

/// The magnitude of a sample.
pub open spec fn magnitude(x: i16) -> int {
    if x < 0 {
        -(x as int)
    } else {
        x as int
    }
}

/// The peak is the largest sample magnitude: no sample exceeds it, some
/// sample reaches it, and silence (no samples) has peak 0.
pub proof fn lemma_peak_is_largest_magnitude(samples: Seq<i16>)
    ensures
        forall|i: int| 0 <= i < samples.len() ==> magnitude(#[trigger] samples[i]) <= peak_of(samples),
        samples.len() == 0 ==> peak_of(samples) == 0,
        samples.len() > 0 ==> exists|i: int|
            0 <= i < samples.len() && magnitude(#[trigger] samples[i]) == peak_of(samples),
    decreases samples.len(),
{
    if samples.len() > 0 {
        let d = samples.drop_last();
        lemma_peak_is_largest_magnitude(d);
        assert forall|i: int| 0 <= i < samples.len() implies magnitude(#[trigger] samples[i])
            <= peak_of(samples) by {
            if i < d.len() {
                assert(samples[i] == d[i]);
            }
        }
        let last = samples.len() - 1;
        if magnitude(samples[last]) > peak_of(d) {
            assert(magnitude(samples[last]) == peak_of(samples));
        } else if d.len() > 0 {
            let i = choose|i: int| 0 <= i < d.len() && magnitude(#[trigger] d[i]) == peak_of(d);
            assert(samples[i] == d[i]);
            assert(magnitude(samples[i]) == peak_of(samples));
        } else {
            assert(magnitude(samples[last]) == peak_of(samples));
        }
    }
}

/// Whether a rotation is a quarter turn: an odd multiple of 90 degrees.
pub open spec fn is_quarter_turn(rot: int) -> bool {
    rot % 180 == 90
}

/// A stream with a readable width `w` and height `h` is portrait exactly when
/// it is displayed taller than wide: a quarter-turn display rotation (90,
/// 270, -90, 450, ... degrees) swaps its coded sides, any other keeps them.
pub proof fn lemma_portrait_quarter_turns(parsed: JsonValue, w: i64, h: i64)
    requires
        spec_get(parsed, "streams"@) is Some,
        spec_array_items(spec_get(parsed, "streams"@)->Some_0) is Some,
        spec_array_items(spec_get(parsed, "streams"@)->Some_0)->Some_0.len() > 0,
        member_i64(spec_array_items(spec_get(parsed, "streams"@)->Some_0)->Some_0[0], "width"@)
            == Some(w),
        member_i64(spec_array_items(spec_get(parsed, "streams"@)->Some_0)->Some_0[0], "height"@)
            == Some(h),
    ensures
        ({
            let stream = spec_array_items(spec_get(parsed, "streams"@)->Some_0)->Some_0[0];
            let rot = match member_items(stream, "side_data_list"@) {
                Some(items) => rotation_from(items, 0),
                None => 0,
            };
            portrait_spec(parsed) == if is_quarter_turn(rot) {
                w > h
            } else {
                h > w
            }
        }),
{
    let stream = spec_array_items(spec_get(parsed, "streams"@)->Some_0)->Some_0[0];
    let rot = match member_items(stream, "side_data_list"@) {
        Some(items) => rotation_from(items, 0),
        None => 0,
    };
    let deg = rot % 360;
    assert(is_quarter_turn(rot) <==> (deg == 90 || deg == 270)) by (nonlinear_arith)
        requires
            deg == rot % 360,
    ;
}

} // verus!
