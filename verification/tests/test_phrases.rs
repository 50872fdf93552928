use video_use::phrases::{group_phrases, PhraseGroup, TranscriptEntry};
use video_use::transcript::WordToken;

struct Raw {
    word_type: &'static str,
    text: Option<&'static str>,
    start: Option<f64>,
    end: Option<f64>,
    speaker: Option<&'static str>,
}

fn raw(word_type: &'static str, text: &'static str, start: f64, end: f64, speaker: Option<&'static str>) -> Raw {
    Raw { word_type, text: Some(text), start: Some(start), end: Some(end), speaker }
}

/// The entries phrase grouping sees, with the threshold comparisons made in seconds.
fn entries(words: &[Raw], threshold: f64) -> Vec<TranscriptEntry> {
    let mut out = Vec::new();
    let mut prev_end: Option<f64> = None;
    for w in words {
        if w.word_type == "spacing" {
            let long = match (w.start, w.end) {
                (Some(s), Some(e)) => e - s >= threshold,
                _ => false,
            };
            out.push(TranscriptEntry::Spacing { long });
            continue;
        }
        let start = match w.start {
            Some(s) => s,
            None => {
                out.push(TranscriptEntry::Untimed);
                continue;
            }
        };
        let pause_before = prev_end.map(|p| start - p >= threshold).unwrap_or(false);
        prev_end = Some(w.end.unwrap_or(start));
        out.push(TranscriptEntry::Word {
            token: WordToken {
                word_type: w.word_type.to_string(),
                text: w.text.map(|t| t.to_string()),
            },
            speaker: w.speaker.map(|s| s.to_string()),
            pause_before,
        });
    }
    out
}

fn summary(groups: &[PhraseGroup]) -> Vec<(usize, usize, String, Option<String>)> {
    groups
        .iter()
        .map(|g| (g.first, g.last, g.text.clone(), g.speaker.clone()))
        .collect()
}

#[test]
fn test_group_into_phrases_silence_and_speakers() {
    let words = vec![
        raw("word", "Hello", 1.0, 1.5, Some("speaker_0")),
        raw("word", "world", 1.6, 2.0, Some("speaker_0")),
        raw("spacing", " ", 2.0, 3.0, None),
        raw("word", "How", 3.0, 3.3, Some("speaker_1")),
        raw("word", "are you ?", 3.4, 3.8, Some("speaker_1")),
    ];
    let phrases = group_phrases(&entries(&words, 0.5));
    assert_eq!(phrases.len(), 2);
    assert_eq!(phrases[0].text, "Hello world");
    assert_eq!(words[phrases[0].first].start, Some(1.0));
    assert_eq!(words[phrases[0].last].end, Some(2.0));
    assert_eq!(phrases[0].speaker, Some("speaker_0".to_string()));

    assert_eq!(phrases[1].text, "How are you?");
    assert_eq!(words[phrases[1].first].start, Some(3.0));
    assert_eq!(words[phrases[1].last].end, Some(3.8));
    assert_eq!(phrases[1].speaker, Some("speaker_1".to_string()));
}

#[test]
fn test_speaker_change_and_pause_split_phrases() {
    let words = vec![
        raw("word", "One", 0.0, 0.2, Some("a")),
        raw("word", "two", 0.3, 0.5, None),
        raw("word", "three", 0.6, 0.8, Some("b")),
        raw("word", "four", 2.0, 2.2, Some("b")),
        Raw { word_type: "word", text: Some("lost"), start: None, end: None, speaker: Some("a") },
        raw("word", "five", 2.3, 2.4, Some("b")),
        raw("spacing", " ", 2.4, 2.5, None),
        raw("word", "  ", 2.5, 2.6, Some("c")),
    ];
    let phrases = group_phrases(&entries(&words, 0.5));
    assert_eq!(
        summary(&phrases),
        vec![
            (0, 1, "One two".to_string(), Some("a".to_string())),
            (2, 2, "three".to_string(), Some("b".to_string())),
            (3, 5, "four five".to_string(), Some("b".to_string())),
        ]
    );
}

#[test]
fn test_phrase_without_speaker_takes_later_speakers() {
    let words = vec![
        raw("word", "Hey", 0.0, 0.2, None),
        raw("word", "you", 0.3, 0.4, Some("x")),
        raw("audio_event", "laughter", 0.5, 0.6, Some("y")),
    ];
    let phrases = group_phrases(&entries(&words, 0.5));
    assert_eq!(summary(&phrases), vec![(0, 2, "Hey you (laughter)".to_string(), None)]);
    assert!(group_phrases(&[]).is_empty());
}

#[test]
fn test_phrase_texts_tidy_and_counted() {
    let words = vec![
        raw("word", "  Hello ", 0.0, 0.2, None),
        raw("spacing", " ", 0.2, 1.5, None),
        raw("audio_event", " laughter", 1.5, 1.6, None),
        raw("word", "ok ?", 1.7, 1.8, None),
        raw("word", " ", 3.0, 3.1, None),
    ];
    let phrases = group_phrases(&entries(&words, 0.5));
    assert_eq!(summary(&phrases).len(), 2);
    for p in &phrases {
        assert!(!p.text.is_empty());
        assert_eq!(p.text.trim(), p.text);
    }
    assert_eq!(phrases[0].text, "Hello");
    assert_eq!(phrases[1].text, "(laughter) ok?");
    assert!(phrases.len() <= 4);
}
