use video_use::grade::{
    get_preset, grade_args, metadata_value, presets, signalstat_key, SignalStat,
    PRESET_NEUTRAL_PUNCH, PRESET_SUBTLE, PRESET_WARM_CINEMATIC,
};
use video_use::render::{classify_grade_field, resolve_grade_filter, GradeChoice};

fn has_preset(name: &str) -> bool {
    presets().iter().any(|(k, _)| *k == name)
}

#[test]
fn test_presets_exist() {
    assert!(has_preset("subtle"));
    assert!(has_preset("neutral_punch"));
    assert!(has_preset("warm_cinematic"));
    assert!(has_preset("none"));

    assert_eq!(get_preset("subtle").unwrap(), PRESET_SUBTLE);
    assert_eq!(get_preset("neutral_punch").unwrap(), PRESET_NEUTRAL_PUNCH);
    assert_eq!(get_preset("warm_cinematic").unwrap(), PRESET_WARM_CINEMATIC);
    assert_eq!(get_preset("none").unwrap(), "");
    assert!(get_preset("non_existent").is_err());
}

#[test]
fn test_resolve_grade_filter() {
    assert_eq!(resolve_grade_filter(None), "");
    assert_eq!(resolve_grade_filter(Some("")), "");
    assert_eq!(resolve_grade_filter(Some("auto")), "__AUTO__");
    assert_eq!(resolve_grade_filter(Some("subtle")), PRESET_SUBTLE);
    assert_eq!(
        resolve_grade_filter(Some("eq=contrast=1.1")),
        "eq=contrast=1.1"
    );
}

#[test]
fn test_presets_listed_in_name_order_and_agree_with_lookup() {
    let names: Vec<&str> = presets().iter().map(|(k, _)| *k).collect();
    assert_eq!(names, vec!["neutral_punch", "none", "subtle", "warm_cinematic"]);
    for (name, filter) in presets() {
        assert_eq!(get_preset(name).unwrap(), filter);
    }
    assert_eq!(get_preset("Subtle").unwrap_err().name, "Subtle");
}

#[test]
fn test_grade_field_classification() {
    assert!(matches!(classify_grade_field(Some("   ")), GradeChoice::NoGrade));
    assert!(matches!(classify_grade_field(Some(" auto ")), GradeChoice::Auto));
    assert!(matches!(classify_grade_field(Some("warm_cinematic")), GradeChoice::Preset(p) if p == PRESET_WARM_CINEMATIC));
    assert!(matches!(classify_grade_field(Some("my-look")), GradeChoice::UnknownPreset(t) if t == "my-look"));
    assert!(matches!(classify_grade_field(Some(" eq=gamma=1.1 ")), GradeChoice::Raw(t) if t == "eq=gamma=1.1"));
    assert_eq!(resolve_grade_filter(Some("my-look")), "my-look");
    assert_eq!(resolve_grade_filter(Some("  none  ")), "");
}

#[test]
fn test_signalstats_lines() {
    assert_eq!(signalstat_key("lavfi.signalstats.YBITDEPTH=10"), Some(SignalStat::BitDepth));
    assert_eq!(signalstat_key("  lavfi.signalstats.YAVG=123.5"), Some(SignalStat::YAvg));
    assert_eq!(signalstat_key("lavfi.signalstats.YMIN=16"), Some(SignalStat::YMin));
    assert_eq!(signalstat_key("lavfi.signalstats.YMAX=235"), Some(SignalStat::YMax));
    assert_eq!(signalstat_key("lavfi.signalstats.SATAVG=40.1"), Some(SignalStat::SatAvg));
    assert_eq!(signalstat_key("frame:0 pts:0 pts_time:0"), None);
    assert_eq!(metadata_value("lavfi.signalstats.YAVG= 123.5 "), Some("123.5".to_string()));
    assert_eq!(metadata_value("a=b=c"), Some("c".to_string()));
    assert_eq!(metadata_value("no equals"), None);
}

#[test]
fn test_grade_args_copy_or_encode() {
    assert_eq!(grade_args(""), vec!["-c", "copy"]);
    let args = grade_args("eq=contrast=1.03");
    assert_eq!(args[0], "-vf");
    assert_eq!(args[1], "eq=contrast=1.03");
    assert_eq!(args.len(), 14);
    assert_eq!(args[13], "+faststart");
}

#[test]
fn test_unknown_preset_message() {
    assert_eq!(
        get_preset("non_existent").unwrap_err().message(),
        "unknown preset 'non_existent'. Available: neutral_punch, none, subtle, warm_cinematic"
    );
}
