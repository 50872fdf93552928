use video_use::subtitles::{
    visible_word_indices,
    caption_words, cue_text, ends_with_break_punct, render_srt, srt_timestamp_ms, TimedCue,
    CHUNK_MAX_WORDS, CHUNK_WORDS,
};

#[test]
fn test_srt_timestamp_from_millis() {
    assert_eq!(srt_timestamp_ms(90), "00:00:00,090");
    assert_eq!(srt_timestamp_ms(590), "00:00:00,590");
    assert_eq!(srt_timestamp_ms(65123), "00:01:05,123");
    assert_eq!(srt_timestamp_ms(3665456), "01:01:05,456");
    assert_eq!(srt_timestamp_ms(-5), "00:00:00,000");
    assert_eq!(srt_timestamp_ms(360000000), "100:00:00,000");
}

#[test]
fn test_break_punctuation() {
    assert!(ends_with_break_punct("Hi,"));
    assert!(ends_with_break_punct("wasted. "));
    assert!(ends_with_break_punct("what?"));
    assert!(!ends_with_break_punct("there"));
    assert!(!ends_with_break_punct("  "));
    assert!(!ends_with_break_punct("90%"));
    assert_eq!(CHUNK_WORDS, 2);
    assert_eq!(CHUNK_MAX_WORDS, 3);
}

#[test]
fn test_cue_text_shaping() {
    let words = vec![Some(" 90% ".to_string()), None, Some("of".to_string())];
    assert_eq!(caption_words(&words), "90% of");
    assert_eq!(cue_text(&words), "90% OF");
    let trailing = vec![Some("Hi,".to_string())];
    assert_eq!(cue_text(&trailing), "HI");
    let stacked = vec![Some("well".to_string()), Some("then:;,".to_string())];
    assert_eq!(cue_text(&stacked), "WELL THEN");
    let inner = vec![Some("a\t\u{3000} b".to_string()), Some(" ".to_string()), Some("c.".to_string())];
    assert_eq!(cue_text(&inner), "A B C.");
    let empty: Vec<Option<String>> = vec![Some(" ".to_string())];
    assert_eq!(cue_text(&empty), "");
    let german = vec![Some("straße".to_string())];
    assert_eq!(cue_text(&german), "STRASSE");
}

#[test]
fn test_srt_document() {
    let cues = vec![
        TimedCue { start_ms: 90, end_ms: 590, text: "90% OF".to_string() },
        TimedCue { start_ms: 610, end_ms: 1270, text: "WHAT A WEB".to_string() },
    ];
    assert_eq!(
        render_srt(&cues),
        "1\n00:00:00,090 --> 00:00:00,590\n90% OF\n\n2\n00:00:00,610 --> 00:00:01,270\nWHAT A WEB\n"
    );
    assert_eq!(render_srt(&[]), "");
}

#[test]
fn test_visible_word_indices() {
    let texts = vec![Some(" ".to_string()), Some("ok".to_string()), None, Some("\t".to_string()), Some("go".to_string())];
    assert_eq!(visible_word_indices(&texts), vec![1, 4]);
    assert!(visible_word_indices(&[]).is_empty());
}
