use mytube::catalog::{get_source, list_channels, list_home, list_sources};
use mytube::error::AppError;
use mytube::metadata::{resolve_from_sidecars, sidecar_image_names, SidecarInfo};
use mytube::models::{ScanStats, UpsertOutcome};
use mytube::pathutil::PathFacts;
use mytube::rows::load_videos;
use mytube::scan::{add_stats, count_outcome, entry_action, finish_scan, scan_unavailable, store_files, EntryAction, ScannedFile, WalkEntry};
use mytube::store::migrate;
use mytube::upkeep::add_source;
use rusqlite::Connection;

fn mem() -> Connection {
    let mut c = Connection::open_in_memory().unwrap();
    migrate(&mut c).unwrap();
    c
}

fn here(p: &str) -> PathFacts {
    PathFacts { raw: p.to_string(), exists: true, canonical: Ok(p.to_string()), cwd: Ok("/".to_string()) }
}

fn stored(conn: &Connection) -> Vec<PathFacts> {
    load_videos(conn).unwrap().iter().map(|v| here(&v.path)).collect()
}

/// What a walk of the test library finds: `Channel/a.mp4` with a sidecar,
/// `flat.webm` at the root, and `skip.txt`.
fn walk(with_a: bool) -> Vec<WalkEntry> {
    let mut w = vec![WalkEntry::NotAFile, WalkEntry::NotAFile];
    if with_a {
        w.push(WalkEntry::File("/lib/Channel/a.mp4".into()));
        w.push(WalkEntry::File("/lib/Channel/a.info.json".into()));
    }
    w.push(WalkEntry::File("/lib/skip.txt".into()));
    w.push(WalkEntry::File("/lib/flat.webm".into()));
    w
}

fn scanned(path: &str) -> ScannedFile {
    let (stem, parent, folder, info) = if path.ends_with("a.mp4") {
        let info = SidecarInfo {
            title: Some("Sidecar Title".into()),
            channel: Some("Channel".into()),
            uploader: None,
            description: None,
            duration: None,
            upload_date: None,
            thumbnail_candidates: vec![],
        };
        ("a", "/lib/Channel", Some("Channel".to_string()), Some(info))
    } else {
        ("flat", "/lib", None, None)
    };
    let images: Vec<(String, bool)> = sidecar_image_names(stem).into_iter().map(|n| (n, false)).collect();
    ScannedFile {
        norm: here(path),
        meta: resolve_from_sidecars(stem, info, &images, folder),
        parent_dir: parent.into(),
        mtime: 1,
        size: 1,
    }
}

fn scan(conn: &mut Connection, sid: i64, entries: &[WalkEntry]) -> ScanStats {
    let mut files = Vec::new();
    let mut unreadable = 0;
    for e in entries {
        match entry_action(e) {
            EntryAction::CountSkipped => unreadable += 1,
            EntryAction::Ignore => {}
            EntryAction::Import => {
                if let WalkEntry::File(p) = e {
                    files.push(scanned(p));
                }
            }
        }
    }
    let st = stored(conn);
    let stats = store_files(conn, sid, &files, unreadable, st);
    let keep: Vec<PathFacts> = files.iter().map(|f| here(&f.norm.raw)).collect();
    let st = stored(conn);
    finish_scan(conn, sid, stats, &keep, &st).unwrap()
}

fn add_lib(conn: &mut Connection) -> i64 {
    let f = here("/lib");
    add_source(conn, &f, &f, true, &vec![]).unwrap().id
}

#[test]
fn scan_imports_sidecars_and_ignores_txt() {
    let mut conn = mem();
    let sid = add_lib(&mut conn);
    let stats = scan(&mut conn, sid, &walk(true));
    assert_eq!(stats.imported, 2);
    let home = list_home(&conn, 0).unwrap();
    assert_eq!(home.total, 2);
    assert!(home.items.iter().any(|v| v.title == "Sidecar Title"));
    assert!(home.items.iter().any(|v| v.title == "flat"));
    let ch = list_channels(&conn).unwrap();
    assert_eq!(ch.len(), 1);
    assert_eq!(ch[0].name, "Channel");
    assert!(home.items.iter().find(|v| v.title == "flat").unwrap().channel_name.is_none());
}

#[test]
fn rescan_deletes_missing_file() {
    let mut conn = mem();
    let sid = add_lib(&mut conn);
    scan(&mut conn, sid, &walk(true));
    let stats = scan(&mut conn, sid, &walk(false));
    assert_eq!(stats.removed, 1);
    assert_eq!(stats.updated, 1);
    assert_eq!(list_home(&conn, 0).unwrap().total, 1);
    assert_eq!(list_home(&conn, 0).unwrap().items[0].title, "flat");
    assert!(list_channels(&conn).unwrap().is_empty());
}

#[test]
fn missing_folder_marks_unavailable_keeps_rows() {
    let mut conn = mem();
    let sid = add_lib(&mut conn);
    scan(&mut conn, sid, &walk(true));
    let stats = scan_unavailable(&mut conn, sid).unwrap();
    assert_eq!(stats, ScanStats::zero());
    assert_eq!(list_home(&conn, 0).unwrap().total, 0);
    let n: i64 = conn.query_row("SELECT COUNT(*) FROM videos", [], |r| r.get(0)).unwrap();
    assert_eq!(n, 2);
    let avail: i64 = conn.query_row("SELECT available FROM sources WHERE id = ?1", [sid], |r| r.get(0)).unwrap();
    assert_eq!(avail, 0);
}

#[test]
fn finished_scan_marks_source_scanned() {
    let mut conn = mem();
    let sid = add_lib(&mut conn);
    scan(&mut conn, sid, &walk(true));
    let s = get_source(&conn, sid).unwrap();
    assert!(s.available);
    assert_eq!(s.last_scanned_at.unwrap().len(), 20);
    assert_eq!(list_sources(&conn).unwrap().len(), 1);
}

#[test]
fn walk_entries_are_classified() {
    assert_eq!(entry_action(&WalkEntry::Unreadable), EntryAction::CountSkipped);
    assert_eq!(entry_action(&WalkEntry::NotAFile), EntryAction::Ignore);
    assert_eq!(entry_action(&WalkEntry::File("a.MKV".into())), EntryAction::Import);
    assert_eq!(entry_action(&WalkEntry::File("a.srt".into())), EntryAction::Ignore);
}

#[test]
fn unreadable_entries_and_failures_count_as_skipped() {
    let mut conn = mem();
    let sid = add_lib(&mut conn);
    let stats = scan(&mut conn, sid, &[WalkEntry::Unreadable, WalkEntry::File("/lib/x.mp4".into())]);
    assert_eq!(stats.skipped_dirs, 1);
    assert_eq!(stats.imported, 1);
    let s = count_outcome(ScanStats::zero(), &Err(AppError::Db("locked".into())));
    assert_eq!(s.skipped_dirs, 1);
    let s = count_outcome(s, &Ok(UpsertOutcome { id: 1, created: true }));
    let s = count_outcome(s, &Ok(UpsertOutcome { id: 1, created: false }));
    assert_eq!((s.imported, s.updated, s.skipped_dirs), (1, 1, 1));
}

#[test]
fn stats_add_field_by_field() {
    let a = ScanStats { imported: 1, updated: 2, removed: 3, skipped_dirs: 4 };
    let b = ScanStats { imported: 10, updated: 20, removed: 30, skipped_dirs: 40 };
    assert_eq!(add_stats(a, b), ScanStats { imported: 11, updated: 22, removed: 33, skipped_dirs: 44 });
}
