use mytube::pathutil::{
    display_path, first_segment_under, is_path_prefix, key, lex_normalize, normalize_path, paths_equal, source_overlap,
    strip_verbatim_prefix, OverlapKind, PathFacts,
};

/// Facts of a path that does not exist.
fn missing(p: &str) -> PathFacts {
    PathFacts {
        raw: p.to_string(),
        exists: false,
        canonical: Err("The system cannot find the path specified.".to_string()),
        cwd: Ok("/work".to_string()),
    }
}

/// Facts of an existing path that is its own canonical form.
fn present(p: &str) -> PathFacts {
    PathFacts { raw: p.to_string(), exists: true, canonical: Ok(p.to_string()), cwd: Ok("/work".to_string()) }
}

#[test]
fn paths_equal_is_case_insensitive() {
    let a = missing(r"C:\Videos\Foo.mp4");
    let b = missing(r"c:\videos\foo.mp4");
    assert!(paths_equal(&a, &b));
}

#[test]
fn key_and_prefix_strip_verbatim() {
    let prefix = missing(r"\\?\C:\Videos");
    let nested = missing(r"C:\Videos\foo.mp4");
    assert_eq!(key(&prefix), r"c:\videos");
    assert!(is_path_prefix(&prefix, &nested));
    let unc = missing(r"\\?\UNC\server\share\Videos");
    assert_eq!(key(&unc), r"\\server\share\videos");
    assert_eq!(display_path(r"\\?\C:\Videos\a.mp4"), r"C:\Videos\a.mp4");
}

#[test]
fn overlap_same_and_nested() {
    let a = present("/tmp/lib/Videos");
    let b = present("/tmp/lib/Videos/Nested");
    assert!(matches!(source_overlap(&a, &a), Some(OverlapKind::Same)));
    assert!(matches!(source_overlap(&a, &b), Some(OverlapKind::CandidateInsideExisting)));
    assert!(matches!(source_overlap(&b, &a), Some(OverlapKind::ExistingInsideCandidate)));
    let other = present("/tmp/lib/Other");
    assert!(source_overlap(&a, &other).is_none());
}

#[test]
fn first_segment_skips_year_folder() {
    let root = present("/tmp/lib/Videos");
    let parent = present("/tmp/lib/Videos/Veritasium/2024");
    assert_eq!(first_segment_under(&root, &parent).as_deref(), Some("Veritasium"));
    let flat_parent = present("/tmp/lib/Videos");
    assert_eq!(first_segment_under(&root, &flat_parent), None);
}

#[test]
fn first_segment_of_windows_paths() {
    let root = missing(r"D:\Videos");
    let parent = missing(r"D:\Videos\Veritasium\2024");
    assert_eq!(first_segment_under(&root, &parent).as_deref(), Some("Veritasium"));
    let flat = missing(r"D:\Videos");
    assert_eq!(first_segment_under(&root, &flat), None);
    let outside = missing(r"E:\Other\Folder");
    assert_eq!(first_segment_under(&root, &outside), None);
}

#[test]
fn overlap_reasons_are_worded() {
    assert_eq!(OverlapKind::Same.reason(), "This folder is already a library source");
    assert_eq!(OverlapKind::CandidateInsideExisting.reason(), "This folder is inside an existing library source");
    assert_eq!(OverlapKind::ExistingInsideCandidate.reason(), "This folder contains an existing library source");
}

#[test]
fn prefix_is_component_wise() {
    let a = missing(r"C:\Videos");
    let b = missing(r"C:\VideosExtra\x.mp4");
    assert!(!is_path_prefix(&a, &b));
    let c = missing("/media/films/");
    let d = missing("/media/films/a/b.mkv");
    assert!(is_path_prefix(&c, &d));
    assert!(is_path_prefix(&a, &a));
}

#[test]
fn verbatim_prefixes_are_stripped() {
    assert_eq!(strip_verbatim_prefix(r"\\?\UNC\srv\share\x"), r"\\srv\share\x");
    assert_eq!(strip_verbatim_prefix(r"\\?\D:\x"), r"D:\x");
    assert_eq!(strip_verbatim_prefix("/plain/path"), "/plain/path");
    assert_eq!(display_path(r"\\?\UNC\srv\share"), r"\\srv\share");
}

#[test]
fn lexical_normalization_resolves_dots() {
    assert_eq!(lex_normalize("/a/./b/../c"), "/a/c");
    assert_eq!(lex_normalize(r"C:\a\..\b\.\c.mp4"), r"C:\b\c.mp4");
    assert_eq!(lex_normalize("/.."), "/");
}

#[test]
fn normalization_uses_the_file_system_facts() {
    let existing = PathFacts {
        raw: "videos/../videos/a.mp4".to_string(),
        exists: true,
        canonical: Ok("/home/u/videos/a.mp4".to_string()),
        cwd: Ok("/home/u".to_string()),
    };
    assert_eq!(normalize_path(&existing).unwrap(), "/home/u/videos/a.mp4");
    let relative = PathFacts {
        raw: "videos/./new/../b.mp4".to_string(),
        exists: false,
        canonical: Err("missing".to_string()),
        cwd: Ok("/home/u".to_string()),
    };
    assert_eq!(normalize_path(&relative).unwrap(), "/home/u/videos/b.mp4");
    let no_cwd = PathFacts {
        raw: "rel".to_string(),
        exists: false,
        canonical: Err("missing".to_string()),
        cwd: Err("no working directory".to_string()),
    };
    assert!(matches!(normalize_path(&no_cwd), Err(mytube::error::AppError::Io(m)) if m == "no working directory"));
}

#[test]
fn canonical_forms_compare_ignoring_ascii_case() {
    let a = present("/Media/Film.MP4");
    let b = present("/media/film.mp4");
    assert!(paths_equal(&a, &b));
    let c = present("/media/other.mp4");
    assert!(!paths_equal(&a, &c));
}

#[test]
fn canonical_forms_compare_ignoring_unicode_case() {
    let a = present("/t/É");
    let b = present("/t/é");
    assert!(paths_equal(&a, &b));
}

#[test]
fn containment_reads_both_ways() {
    let outer = present("/media/lib");
    let inner = present("/media/lib/sub");
    assert!(matches!(source_overlap(&outer, &inner), Some(OverlapKind::CandidateInsideExisting)));
    assert!(matches!(source_overlap(&inner, &outer), Some(OverlapKind::ExistingInsideCandidate)));
}
