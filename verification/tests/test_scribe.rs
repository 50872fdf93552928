use video_use::scribe::{
    api_key_from_env_text, clean_api_key, is_video_extension, silent_track_advice, transcript_path,
};

#[test]
fn test_transcript_path_suffixes() {
    let edit = "/videos/edit";
    let video = "/videos/takes/C0103.MP4";

    let track0 = transcript_path(edit, video, 0);
    assert_eq!(track0, "/videos/edit/transcripts/C0103.json");

    let track1 = transcript_path(edit, video, 1);
    assert_eq!(track1, "/videos/edit/transcripts/C0103.track1.json");

    let track2 = transcript_path(edit, video, 2);
    assert_eq!(track2, "/videos/edit/transcripts/C0103.track2.json");
}

#[test]
fn test_transcript_path_stems() {
    assert_eq!(transcript_path("edit/", "a/b.tar.gz", 12), "edit/transcripts/b.tar.track12.json");
    assert_eq!(transcript_path("edit", ".hidden", 0), "edit/transcripts/.hidden.json");
    assert_eq!(transcript_path("edit", "/", 0), "edit/transcripts/video.json");
    assert_eq!(transcript_path("edit", "clips/..", 0), "edit/transcripts/video.json");
    assert_eq!(transcript_path("edit", "clips/take./", 0), "edit/transcripts/take.json");
}

#[test]
fn test_video_extensions() {
    for ext in ["mp4", "MOV", "mkv", "avi", "m4v", "MP4", "M4V"] {
        assert!(is_video_extension(ext));
    }
    for ext in ["txt", "jpg", "Mp4", "", "mp44"] {
        assert!(!is_video_extension(ext));
    }
}

#[test]
fn test_api_key_from_env_content() {
    let content = "# Comment line\n\nELEVENLABS_API_KEY=\"sk_test_1234567890\"\nOTHER_VAR=abc";
    assert_eq!(api_key_from_env_text(content), Some("sk_test_1234567890".to_string()));
    assert_eq!(api_key_from_env_text("# ELEVENLABS_API_KEY=x\nOTHER=1"), None);
    assert_eq!(
        api_key_from_env_text("ELEVENLABS_API_KEY=''\r\n  ELEVENLABS_API_KEY = 'abc' \r\n"),
        Some("abc".to_string())
    );
    assert_eq!(api_key_from_env_text("ELEVENLABS_API_KEY=a=b"), Some("a=b".to_string()));
    assert_eq!(clean_api_key("  \"key\"  "), Some("key".to_string()));
    assert_eq!(clean_api_key(" '\"' "), Some("\"".to_string()));
    assert_eq!(clean_api_key(" '' "), None);
}

#[test]
fn test_silent_track_advice() {
    assert_eq!(silent_track_advice(1, 0), "Check the source audio.");
    assert_eq!(silent_track_advice(2, 0), "The file has 2 audio tracks; try --audio-track 1.");
    assert_eq!(
        silent_track_advice(4, 1),
        "The file has 4 audio tracks; try --audio-track 0 or 2 or 3."
    );
}

#[test]
fn test_transcript_paths_differ_by_track() {
    let paths: Vec<String> = (0..12).map(|t| transcript_path("/e", "/v/a.mp4", t)).collect();
    for a in 0..paths.len() {
        for b in 0..paths.len() {
            assert_eq!(a == b, paths[a] == paths[b]);
        }
    }
    assert_ne!(transcript_path("/e", "/v/track1", 0), transcript_path("/e", "/v/track1", 1));
}
