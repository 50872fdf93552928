use video_use::edl::{resolve_path, resolve_source_path};
use video_use::paths::{join, path_file_name, path_file_stem};

#[test]
fn test_resolve_path_relative_and_absolute() {
    let edit_dir = "/project/edit";
    assert_eq!(resolve_path("takes/take1.mp4", edit_dir), "/project/edit/takes/take1.mp4");
    assert_eq!(resolve_path("/absolute/path/take2.mp4", edit_dir), "/absolute/path/take2.mp4");
    assert_eq!(resolve_path("sub.srt", edit_dir), "/project/edit/sub.srt");
    assert_eq!(resolve_path("/root/sub.srt", edit_dir), "/root/sub.srt");
    assert_eq!(resolve_path("sub.srt", "/project/edit/"), "/project/edit/sub.srt");
    assert_eq!(resolve_path("sub.srt", ""), "sub.srt");
}

#[test]
fn test_file_names_and_stems() {
    assert_eq!(path_file_name("/a/b/c.mp4"), Some("c.mp4".to_string()));
    assert_eq!(path_file_name("/a/b/"), Some("b".to_string()));
    assert_eq!(path_file_name("a/."), Some("a".to_string()));
    assert_eq!(path_file_name("a/.."), None);
    assert_eq!(path_file_name("/"), None);
    assert_eq!(path_file_stem("clip.final.mov"), Some("clip.final".to_string()));
    assert_eq!(path_file_stem(".env"), Some(".env".to_string()));
    assert_eq!(path_file_stem("noext"), Some("noext".to_string()));
    assert_eq!(join("a", ""), "a/");
}

#[test]
fn test_resolve_source_path_from_table() {
    let table = vec![
        ("take1".to_string(), "takes/take1.mp4".to_string()),
        ("take2".to_string(), "/absolute/path/take2.mp4".to_string()),
    ];
    assert_eq!(
        resolve_source_path(&table, "take1", "/project/edit"),
        Some("/project/edit/takes/take1.mp4".to_string())
    );
    assert_eq!(
        resolve_source_path(&table, "take2", "/project/edit"),
        Some("/absolute/path/take2.mp4".to_string())
    );
    assert_eq!(resolve_source_path(&table, "non_existent", "/project/edit"), None);
}
