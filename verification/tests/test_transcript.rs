use video_use::transcript::{
    default_word_type, phrase_text, render_markdown_document, speaker_tag, PhraseLine,
    TakeSection, WordToken,
};

fn word(t: &str, text: &str) -> WordToken {
    WordToken { word_type: t.to_string(), text: Some(text.to_string()) }
}

#[test]
fn test_default_word_type() {
    assert_eq!(default_word_type(), "word");
}

#[test]
fn test_phrase_text_joins_and_tidies() {
    assert_eq!(
        phrase_text(&[word("word", "Hello"), word("word", "world")]),
        Some("Hello world".to_string())
    );
    assert_eq!(
        phrase_text(&[word("word", "How"), word("word", "are you ?")]),
        Some("How are you?".to_string())
    );
    assert_eq!(
        phrase_text(&[word("word", "Well"), word("word", ","), word("word", "yes"), word("word", "!")]),
        Some("Well, yes!".to_string())
    );
    assert_eq!(
        phrase_text(&[word("audio_event", "laughter"), word("audio_event", "(sighs)"), word("word", "ok .")]),
        Some("(laughter) (sighs) ok.".to_string())
    );
    assert_eq!(phrase_text(&[word("word", "  "), WordToken { word_type: "word".to_string(), text: None }]), None);
    assert_eq!(phrase_text(&[]), None);
}

#[test]
fn test_speaker_tags() {
    assert_eq!(speaker_tag(Some("speaker_0")), " S0");
    assert_eq!(speaker_tag(Some("0")), " S0");
    assert_eq!(speaker_tag(Some("speaker_")), " S");
    assert_eq!(speaker_tag(Some("guest")), " Sguest");
    assert_eq!(speaker_tag(None), "");
}

#[test]
fn test_markdown_document_layout() {
    let entries = vec![
        TakeSection {
            name: "C0103".to_string(),
            duration: "43.0s".to_string(),
            phrases: vec![
                PhraseLine {
                    start: "002.52".to_string(),
                    end: "005.36".to_string(),
                    text: "Ninety percent of what a web agent does is completely wasted.".to_string(),
                    speaker_id: Some("speaker_0".to_string()),
                },
                PhraseLine {
                    start: "006.08".to_string(),
                    end: "006.74".to_string(),
                    text: "We fixed this.".to_string(),
                    speaker_id: Some("0".to_string()),
                },
            ],
        },
        TakeSection { name: "C0104".to_string(), duration: "0.0s".to_string(), phrases: vec![] },
    ];

    let md = render_markdown_document("0.5", &entries);
    assert!(md.contains("# Packed transcripts"));
    assert!(md.contains("## C0103  (duration: 43.0s, 2 phrases)"));
    assert!(md.contains("  [002.52-005.36] S0 Ninety percent of what a web agent does is completely wasted."));
    assert!(md.contains("  [006.08-006.74] S0 We fixed this."));
    assert!(md.contains("## C0104  (duration: 0.0s, 0 phrases)"));
    assert!(md.contains("  _no speech detected_"));
    assert_eq!(
        md,
        "# Packed transcripts\n\nPhrase-level, grouped on silences ≥ 0.5s or speaker change.\nUse `[start-end]` ranges to address cuts in the EDL.\n\n## C0103  (duration: 43.0s, 2 phrases)\n  [002.52-005.36] S0 Ninety percent of what a web agent does is completely wasted.\n  [006.08-006.74] S0 We fixed this.\n\n## C0104  (duration: 0.0s, 0 phrases)\n  _no speech detected_\n"
    );
}

/// Builds the markdown view from phrases timed in seconds, printing times as
/// the packer does.
fn render_markdown(entries: &[(String, f64, Vec<(f64, f64, &str, Option<&str>)>)], threshold: f64) -> String {
    let duration = |s: f64| {
        if s < 60.0 {
            format!("{:.1}s", s)
        } else {
            let m = (s / 60.0).floor() as u64;
            format!("{}m {:04.1}s", m, s - (m as f64 * 60.0))
        }
    };
    let sections: Vec<TakeSection> = entries
        .iter()
        .map(|(name, d, phrases)| TakeSection {
            name: name.clone(),
            duration: duration(*d),
            phrases: phrases
                .iter()
                .map(|(a, b, text, spk)| PhraseLine {
                    start: format!("{:06.2}", a),
                    end: format!("{:06.2}", b),
                    text: text.to_string(),
                    speaker_id: spk.map(|s| s.to_string()),
                })
                .collect(),
        })
        .collect();
    render_markdown_document(&format!("{:.1}", threshold), &sections)
}

#[test]
fn test_render_markdown_format() {
    let entries = vec![
        (
            "C0103".to_string(),
            43.0,
            vec![
                (
                    2.52,
                    5.36,
                    "Ninety percent of what a web agent does is completely wasted.",
                    Some("speaker_0"),
                ),
                (6.08, 6.74, "We fixed this.", Some("0")),
            ],
        ),
        ("C0104".to_string(), 0.0, vec![]),
    ];

    let md = render_markdown(&entries, 0.5);
    assert!(md.contains("# Packed transcripts"));
    assert!(md.contains("## C0103  (duration: 43.0s, 2 phrases)"));
    assert!(md.contains("  [002.52-005.36] S0 Ninety percent of what a web agent does is completely wasted."));
    assert!(md.contains("  [006.08-006.74] S0 We fixed this."));
    assert!(md.contains("## C0104  (duration: 0.0s, 0 phrases)"));
    assert!(md.contains("  _no speech detected_"));
}
