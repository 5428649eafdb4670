use mytube::metadata::{
    info_json_name, is_video_file, parse_upload_date, path_hash, resolve_from_sidecars, sidecar_image_names, SidecarInfo,
};
use mytube::pathutil::{first_segment_under, PathFacts};
use rusqlite::types::Value;

fn info() -> SidecarInfo {
    SidecarInfo {
        title: None,
        channel: None,
        uploader: None,
        description: None,
        duration: None,
        upload_date: None,
        thumbnail_candidates: vec![],
    }
}

fn present(p: &str) -> PathFacts {
    PathFacts { raw: p.into(), exists: true, canonical: Ok(p.into()), cwd: Ok("/".into()) }
}

fn images(present: &[&str], stem: &str) -> Vec<(String, bool)> {
    sidecar_image_names(stem).into_iter().map(|n| {
        let here = present.contains(&n.as_str());
        (format!("/lib/{n}"), here)
    }).collect()
}

#[test]
fn is_video_filters_extensions() {
    assert!(is_video_file("x.MP4"));
    assert!(is_video_file("x.mov"));
    assert!(!is_video_file("x.info.json"));
    assert!(!is_video_file("x.txt"));
}

#[test]
fn every_supported_extension_counts() {
    for name in ["a.mp4", "a.webm", "a.mkv", "a.m4v", "a.mov", r"C:\x\A.MKV", "/x/y.WebM", "/x/y.mp4/"] {
        assert!(is_video_file(name), "{name}");
    }
    for name in ["a", ".mp4", "a.mp3", "mp4", "a.mp4.part"] {
        assert!(!is_video_file(name), "{name}");
    }
}

#[test]
fn full_sidecar_wins() {
    let mut i = info();
    i.title = Some("Real Title".into());
    i.channel = Some("Veritasium".into());
    i.description = Some("Desc".into());
    i.duration = Some(Value::Real(123.5));
    i.upload_date = Some("20240115".into());
    i.thumbnail_candidates = vec![("ignore-remote".into(), false)];
    let imgs = images(&["Lesson [abc].webp"], "Lesson [abc]");
    let m = resolve_from_sidecars("Lesson [abc]", Some(i), &imgs, Some("Folder".into()));
    assert_eq!(m.title, "Real Title");
    assert_eq!(m.channel_name.as_deref(), Some("Veritasium"));
    assert_eq!(m.description.as_deref(), Some("Desc"));
    assert_eq!(m.duration_sec, Some(Value::Real(123.5)));
    assert_eq!(m.upload_date.as_deref(), Some("2024-01-15"));
    assert_eq!(m.thumbnail_path.as_deref(), Some("/lib/Lesson [abc].webp"));
}

#[test]
fn broken_json_falls_back_to_filename_and_folder() {
    let m = resolve_from_sidecars("My Video", None, &images(&[], "My Video"), Some("Veritasium".into()));
    assert_eq!(m.title, "My Video");
    assert_eq!(m.channel_name.as_deref(), Some("Veritasium"));
}

#[test]
fn root_file_has_no_folder_channel() {
    let m = resolve_from_sidecars("lone", None, &images(&[], "lone"), None);
    assert_eq!(m.title, "lone");
    assert_eq!(m.channel_name, None);
}

#[test]
fn image_prefers_webp_then_jpg_then_png() {
    let m = resolve_from_sidecars("a", None, &images(&["a.png", "a.jpg", "a.webp"], "a"), None);
    assert_eq!(m.thumbnail_path.as_deref(), Some("/lib/a.webp"));
    let m = resolve_from_sidecars("a", None, &images(&["a.png", "a.jpg"], "a"), None);
    assert_eq!(m.thumbnail_path.as_deref(), Some("/lib/a.jpg"));
    let m = resolve_from_sidecars("a", None, &images(&["a.png"], "a"), None);
    assert_eq!(m.thumbnail_path.as_deref(), Some("/lib/a.png"));
}

#[test]
fn prefers_uploader_if_no_channel() {
    let mut i = info();
    i.title = Some("T".into());
    i.uploader = Some("U".into());
    let m = resolve_from_sidecars("a", Some(i), &images(&[], "a"), None);
    assert_eq!(m.channel_name.as_deref(), Some("U"));
    assert_eq!(m.title, "T");
}

#[test]
fn empty_sidecar_fields_fall_through() {
    let mut i = info();
    i.title = Some(String::new());
    i.channel = Some(String::new());
    i.uploader = Some(String::new());
    i.thumbnail_candidates = vec![("/lib/gone.jpg".into(), false), ("/lib/here.jpg".into(), true)];
    let m = resolve_from_sidecars("stem", Some(i), &images(&["stem.webp"], "stem"), Some("Folder".into()));
    assert_eq!(m.title, "stem");
    assert_eq!(m.channel_name.as_deref(), Some("Folder"));
    assert_eq!(m.thumbnail_path.as_deref(), Some("/lib/here.jpg"));
}

#[test]
fn upload_dates_need_eight_digits() {
    assert_eq!(parse_upload_date(" 20240115 ").as_deref(), Some("2024-01-15"));
    assert_eq!(parse_upload_date("2024011"), None);
    assert_eq!(parse_upload_date("2024-01-15"), None);
    assert_eq!(parse_upload_date("2024O115"), None);
}

#[test]
fn sidecar_names_follow_the_stem() {
    assert_eq!(info_json_name("Lesson [abc]"), "Lesson [abc].info.json");
    assert_eq!(sidecar_image_names("a"), vec!["a.webp".to_string(), "a.jpg".to_string(), "a.png".to_string()]);
}

#[test]
fn path_hash_is_hex_sha256() {
    assert_eq!(path_hash(""), "e3b0c44298fc1c149afbf4c8996fb92427ae41e4649b934ca495991b7852b855");
    assert_eq!(path_hash("abc"), "ba7816bf8f01cfea414140de5dae2223b00361a396177a9cb410ff61f20015ad");
    assert_eq!(path_hash("abc").len(), 64);
}

#[test]
fn nested_year_uses_first_segment() {
    let folder = first_segment_under(&present("/lib"), &present("/lib/Channel/2024"));
    let m = resolve_from_sidecars("x", None, &images(&[], "x"), folder);
    assert_eq!(m.channel_name.as_deref(), Some("Channel"));
}
