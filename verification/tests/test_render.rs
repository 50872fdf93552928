use video_use::media::TONEMAP_CHAIN;
use video_use::render::{
    composite_args, composite_filter_graph, escape_filter_path, segment_audio_filter,
    segment_file_name, segment_video_filter, OverlayWindow, RenderMode,
};
use video_use::subtitles::SUB_FORCE_STYLE;

#[test]
fn test_render_modes() {
    assert_eq!(RenderMode::from_flags(true, true), RenderMode::Draft);
    assert_eq!(RenderMode::from_flags(true, false), RenderMode::Preview);
    assert_eq!(RenderMode::from_flags(false, false), RenderMode::Final);
    assert_eq!(RenderMode::Draft.clips_dir(), "clips_draft");
    assert_eq!(RenderMode::Preview.base_name(), "base_preview.mp4");
    assert_eq!(RenderMode::Final.base_name(), "base.mp4");
    assert_eq!(RenderMode::Final.encoder(), ("fast", "20"));
    assert_eq!(RenderMode::Draft.encoder(), ("ultrafast", "28"));
}

#[test]
fn test_segment_video_filter() {
    assert_eq!(segment_video_filter(false, false, false, ""), "scale=1920:-2");
    assert_eq!(segment_video_filter(false, true, true, "eq=gamma=1.1"), "scale=-2:1280,eq=gamma=1.1");
    assert_eq!(
        segment_video_filter(true, false, false, "eq=contrast=1.03"),
        format!("{},scale=1920:-2,eq=contrast=1.03", TONEMAP_CHAIN)
    );
}

#[test]
fn test_escape_filter_path() {
    assert_eq!(escape_filter_path("/tmp/a:b's.srt"), "/tmp/a\\:b\\'s.srt");
}

#[test]
fn test_composite_subtitles_last() {
    let overlays = vec![
        OverlayWindow { start: "3.500".to_string(), end: "5.500".to_string() },
        OverlayWindow { start: "8.000".to_string(), end: "9.250".to_string() },
    ];
    let graph = composite_filter_graph(&overlays, Some("/e/master.srt")).unwrap();
    assert_eq!(
        graph,
        format!(
            "[1:v]setpts=PTS-STARTPTS+3.500/TB[a1];[2:v]setpts=PTS-STARTPTS+8.000/TB[a2];[0:v][a1]overlay=enable='between(t,3.500,5.500)'[v1];[v1][a2]overlay=enable='between(t,8.000,9.250)'[v2];[v2]subtitles='/e/master.srt':force_style='{}'[outv]",
            SUB_FORCE_STYLE
        )
    );
    assert_eq!(composite_filter_graph(&[], None), None);
    assert_eq!(
        composite_filter_graph(&[], Some("s.srt")).unwrap(),
        format!("[0:v]subtitles='s.srt':force_style='{}'[outv]", SUB_FORCE_STYLE)
    );
    assert_eq!(
        composite_filter_graph(&overlays[..1], None).unwrap(),
        "[1:v]setpts=PTS-STARTPTS+3.500/TB[a1];[0:v][a1]overlay=enable='between(t,3.500,5.500)'[v1];[v1]null[outv]"
    );
}

#[test]
fn test_segment_audio_fades() {
    assert_eq!(
        segment_audio_filter("4.970"),
        "afade=t=in:st=0:d=0.03,afade=t=out:st=4.970:d=0.03"
    );
}

#[test]
fn test_segment_file_names() {
    assert_eq!(segment_file_name(0, "C0103"), "seg_00_C0103.mp4");
    assert_eq!(segment_file_name(7, "take"), "seg_07_take.mp4");
    assert_eq!(segment_file_name(123, "x"), "seg_123_x.mp4");
}

#[test]
fn test_composite_args_map_output_and_audio() {
    let args = composite_args("[0:v]null[outv]");
    assert_eq!(
        args,
        vec![
            "-filter_complex", "[0:v]null[outv]", "-map", "[outv]", "-map", "0:a", "-c:v", "libx264",
            "-preset", "fast", "-crf", "18", "-pix_fmt", "yuv420p", "-c:a", "copy", "-movflags",
            "+faststart",
        ]
    );
}
