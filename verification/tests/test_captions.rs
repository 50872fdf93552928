use video_use::subtitles::{caption_chunks, srt_timestamp_ms, CaptionWord, CHUNK_MAX_WORDS};
use video_use::text::is_blank_str;

const CHUNK_MIN_S: f64 = 0.35;
const CHUNK_PAUSE_S: f64 = 0.3;

#[derive(Clone)]
struct W {
    text: &'static str,
    start: f64,
    end: f64,
}

fn w(text: &'static str, start: f64, end: f64) -> W {
    W { text, start, end }
}

/// Cuts timed words into captions the way the renderer does: blank words are
/// dropped, and the timing facts are measured in seconds.
fn chunk(words: &[W]) -> Vec<Vec<W>> {
    let kept: Vec<W> = words.iter().filter(|x| !is_blank_str(x.text)).cloned().collect();
    let cws: Vec<CaptionWord> = kept
        .iter()
        .enumerate()
        .map(|(i, x)| CaptionWord {
            text: x.text.to_string(),
            pause_after: kept.get(i + 1).map(|n| n.start - x.end >= CHUNK_PAUSE_S).unwrap_or(false),
            lasts_with_prev: i > 0 && x.end - kept[i - 1].start >= CHUNK_MIN_S,
        })
        .collect();
    caption_chunks(&cws)
        .into_iter()
        .map(|(a, b)| kept[a..b].to_vec())
        .collect()
}

fn texts(chunks: &[Vec<W>]) -> Vec<String> {
    chunks
        .iter()
        .map(|c| c.iter().map(|x| x.text.trim()).collect::<Vec<_>>().join(" "))
        .collect()
}

fn real_take() -> Vec<W> {
    vec![
        w("90%", 2.64, 3.04),
        w("of", 3.06, 3.14),
        w("what", 3.16, 3.26),
        w("a", 3.30, 3.34),
        w("web", 3.36, 3.50),
        w("agent", 3.54, 3.82),
        w("does", 3.86, 4.14),
        w("is", 4.48, 4.56),
        w("completely", 4.58, 4.90),
        w("wasted.", 4.94, 5.34),
        w("We", 6.08, 6.18),
        w("fix", 6.24, 6.42),
        w("this.", 6.48, 6.70),
    ]
}

#[test]
fn test_chunk_words_real_take() {
    let take = real_take();
    let chunks = chunk(&take);
    assert_eq!(
        texts(&chunks),
        vec!["90% of", "what a web", "agent does", "is completely", "wasted.", "We fix this."]
    );
}

#[test]
fn test_pause_splits_across_words() {
    let take = real_take();
    let chunks = texts(&chunk(&take));
    for c in &chunks {
        assert!(!c.to_lowercase().contains("does is"));
    }
}

#[test]
fn test_no_multiword_cue_flashes() {
    let take = real_take();
    for c in chunk(&take) {
        if c.len() > 1 && c.len() < CHUNK_MAX_WORDS {
            let dur = c.last().unwrap().end - c.first().unwrap().start;
            assert!(dur >= CHUNK_MIN_S, "Duration {:.3} < {:.3}", dur, CHUNK_MIN_S);
        }
    }
}

#[test]
fn test_punctuation_still_breaks() {
    let words = vec![w("Hi,", 0.0, 0.1), w("there", 0.12, 0.2)];
    assert_eq!(texts(&chunk(&words)), vec!["Hi,", "there"]);
}

#[test]
fn test_caps_at_max_words() {
    let names = ["w0", "w1", "w2", "w3", "w4", "w5", "w6"];
    let mut fast = Vec::new();
    for (i, name) in names.iter().enumerate() {
        fast.push(w(name, i as f64 * 0.05, i as f64 * 0.05 + 0.04));
    }
    let chunks = chunk(&fast);
    for c in chunks {
        assert!(c.len() <= CHUNK_MAX_WORDS);
    }
}

#[test]
fn test_skips_empty_words() {
    let words = vec![w(" ", 0.0, 0.1), w("ok", 0.1, 0.5)];
    assert_eq!(texts(&chunk(&words)), vec!["ok"]);
}

fn srt_timestamp(seconds: f64) -> String {
    srt_timestamp_ms((seconds * 1000.0).round() as i64)
}

#[test]
fn test_srt_timestamp_format() {
    assert_eq!(srt_timestamp(0.090), "00:00:00,090");
    assert_eq!(srt_timestamp(0.590), "00:00:00,590");
    assert_eq!(srt_timestamp(65.123), "00:01:05,123");
    assert_eq!(srt_timestamp(3665.456), "01:01:05,456");
}

fn cw(text: &str, pause_after: bool, lasts_with_prev: bool) -> CaptionWord {
    CaptionWord { text: text.to_string(), pause_after, lasts_with_prev }
}

#[test]
fn test_caption_chunks_cover_words_in_order() {
    let words = vec![
        cw("a", false, false),
        cw("b", false, false),
        cw("c", false, false),
        cw("d", false, false),
        cw("e", true, false),
        cw("f", false, false),
        cw("g", false, true),
        cw("h;", false, false),
        cw("i", false, false),
    ];
    let chunks = caption_chunks(&words);
    assert_eq!(chunks, vec![(0, 3), (3, 5), (5, 7), (7, 8), (8, 9)]);
    assert!(caption_chunks(&[]).is_empty());
    assert_eq!(caption_chunks(&[cw("solo", false, false)]), vec![(0, 1)]);
}
