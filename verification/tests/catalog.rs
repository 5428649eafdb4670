use mytube::catalog::{
    get_channel, get_source, get_video, like_pattern, list_channels, list_history, list_home, list_more, list_sources,
    search, set_progress, set_source_available, start_watch,
};
use mytube::error::AppError;
use mytube::metadata::ResolvedMeta;
use mytube::models::{Source, UpsertOutcome};
use mytube::pathutil::PathFacts;
use mytube::rows::load_videos;
use mytube::store::migrate;
use mytube::upkeep::{add_source, delete_videos_not_in, prune_empty_channels, remove_source, upsert_video};
use rusqlite::types::Value;
use rusqlite::Connection;

fn mem() -> Connection {
    let mut c = Connection::open_in_memory().unwrap();
    migrate(&mut c).unwrap();
    c
}

/// Facts of an existing path that is its own canonical form.
fn here(p: &str) -> PathFacts {
    PathFacts { raw: p.to_string(), exists: true, canonical: Ok(p.to_string()), cwd: Ok("/".to_string()) }
}

fn existing(conn: &Connection) -> Vec<PathFacts> {
    list_sources(conn).unwrap().iter().map(|s| here(&s.path)).collect()
}

fn stored(conn: &Connection) -> Vec<PathFacts> {
    load_videos(conn).unwrap().iter().map(|v| here(&v.path)).collect()
}

fn add(conn: &mut Connection, p: &str) -> Result<Source, AppError> {
    let f = here(p);
    let ex = existing(conn);
    add_source(conn, &f, &f, true, &ex)
}

fn meta(title: &str, channel: Option<&str>, upload: Option<&str>) -> ResolvedMeta {
    ResolvedMeta {
        title: title.into(),
        channel_name: channel.map(|s| s.into()),
        description: Some("d".into()),
        duration_sec: Some(Value::Real(60.0)),
        thumbnail_path: None,
        upload_date: upload.map(|s| s.into()),
    }
}

fn put(conn: &mut Connection, sid: i64, path: &str, m: &ResolvedMeta, parent: &str, mtime: i64, size: i64) -> UpsertOutcome {
    let mut st = stored(conn);
    upsert_video(conn, sid, &here(path), &mut st, m, parent, mtime, size).unwrap()
}

fn seed_one(conn: &mut Connection) -> (i64, i64) {
    let src = add(conn, "/lib/seed").unwrap();
    let out = put(conn, src.id, "/lib/seed/a.mp4", &meta("Alpha", Some("Veritasium"), Some("2024-01-01")), "/lib/seed", 100, 1);
    (src.id, out.id)
}

fn count(conn: &Connection, sql: &str) -> i64 {
    conn.query_row(sql, [], |r| r.get(0)).unwrap()
}

#[test]
fn rejects_overlapping_sources() {
    let mut conn = mem();
    add(&mut conn, "/lib/A").unwrap();
    let err = add(&mut conn, "/lib/A/N").unwrap_err();
    assert!(matches!(err, AppError::Overlap { .. }));
    let err = add(&mut conn, "/lib/A").unwrap_err();
    assert!(matches!(err, AppError::Overlap { .. }));
    assert_eq!(list_sources(&conn).unwrap().len(), 1);
}

#[test]
fn overlap_reasons_name_the_relation() {
    let mut conn = mem();
    add(&mut conn, "/lib/A/N").unwrap();
    match add(&mut conn, "/lib/A").unwrap_err() {
        AppError::Overlap { reason } => assert_eq!(reason, "This folder contains an existing library source"),
        e => panic!("unexpected {e:?}"),
    }
    match add(&mut conn, "/lib/A/N/deeper").unwrap_err() {
        AppError::Overlap { reason } => assert_eq!(reason, "This folder is inside an existing library source"),
        e => panic!("unexpected {e:?}"),
    }
    match add(&mut conn, "/lib/a/n").unwrap_err() {
        AppError::Overlap { reason } => assert_eq!(reason, "This folder is already a library source"),
        e => panic!("unexpected {e:?}"),
    }
}

#[test]
fn missing_folder_is_not_added() {
    let mut conn = mem();
    let f = here("/lib/file.txt");
    let err = add_source(&mut conn, &f, &f, false, &vec![]).unwrap_err();
    assert!(matches!(err, AppError::Invalid(ref m) if m == "Folder does not exist"));
    let bad = PathFacts { raw: "rel".into(), exists: false, canonical: Err("gone".into()), cwd: Err("no cwd".into()) };
    let err = add_source(&mut conn, &bad, &bad, true, &vec![]).unwrap_err();
    assert!(matches!(err, AppError::Io(ref m) if m == "no cwd"));
    assert!(list_sources(&conn).unwrap().is_empty());
}

#[test]
fn added_sources_get_increasing_ids() {
    let mut conn = mem();
    let a = add(&mut conn, "/lib/one").unwrap();
    let b = add(&mut conn, "/lib/two").unwrap();
    assert_eq!(a.id, 1);
    assert_eq!(b.id, 2);
    assert!(a.available && a.last_scanned_at.is_none());
    assert_eq!(a.path, "/lib/one");
    assert_eq!(get_source(&conn, 2).unwrap().path, "/lib/two");
    assert!(matches!(get_source(&conn, 9), Err(AppError::NotFound(ref m)) if m == "source 9"));
}

#[test]
fn upsert_updates_same_path() {
    let mut conn = mem();
    let src = add(&mut conn, "/lib/u").unwrap();
    let first = put(&mut conn, src.id, "/lib/u/a.mp4", &meta("Old", None, None), "p", 1, 1);
    let second = put(&mut conn, src.id, "/lib/u/a.mp4", &meta("New", None, None), "p", 2, 2);
    assert!(first.created);
    assert!(!second.created);
    assert_eq!(first.id, second.id);
    let home = list_home(&conn, 0).unwrap();
    assert_eq!(home.total, 1);
    assert_eq!(home.items[0].title, "New");
}

#[test]
fn upsert_matches_same_place_ignoring_case() {
    let mut conn = mem();
    let src = add(&mut conn, "/lib/c").unwrap();
    let first = put(&mut conn, src.id, "/lib/c/Clip.MP4", &meta("One", None, None), "p", 1, 1);
    let second = put(&mut conn, src.id, "/lib/c/clip.mp4", &meta("Two", None, None), "p", 1, 1);
    assert_eq!(first.id, second.id);
    assert!(!second.created);
    assert_eq!(list_home(&conn, 0).unwrap().total, 1);
}

#[test]
fn delete_videos_not_in_removes_missing() {
    let mut conn = mem();
    let (sid, vid) = seed_one(&mut conn);
    let st = stored(&conn);
    let n = delete_videos_not_in(&mut conn, sid, &vec![], &st).unwrap();
    assert_eq!(n, 1);
    assert!(get_video(&conn, vid).is_err());
}

#[test]
fn delete_videos_not_in_keeps_found_files() {
    let mut conn = mem();
    let src = add(&mut conn, "/lib/k").unwrap();
    put(&mut conn, src.id, "/lib/k/a.mp4", &meta("A", Some("Chan"), None), "/lib/k", 1, 1);
    let b = put(&mut conn, src.id, "/lib/k/b.mp4", &meta("B", Some("Gone"), None), "/lib/k", 1, 1);
    let st = stored(&conn);
    let n = delete_videos_not_in(&mut conn, src.id, &vec![here("/lib/K/A.mp4")], &st).unwrap();
    assert_eq!(n, 1);
    assert!(get_video(&conn, b.id).is_err());
    let names: Vec<String> = list_channels(&conn).unwrap().into_iter().map(|c| c.name).collect();
    assert_eq!(names, vec!["Chan".to_string()]);
}

#[test]
fn remove_source_cascades_and_prunes_channel() {
    let mut conn = mem();
    let (sid, _vid) = seed_one(&mut conn);
    assert_eq!(list_channels(&conn).unwrap().len(), 1);
    remove_source(&mut conn, sid).unwrap();
    assert!(list_sources(&conn).unwrap().is_empty());
    assert_eq!(list_channels(&conn).unwrap().len(), 0);
}

#[test]
fn remove_source_drops_progress_and_history() {
    let mut conn = mem();
    let (sid, vid) = seed_one(&mut conn);
    set_progress(&mut conn, vid, Value::Real(42.0)).unwrap();
    start_watch(&mut conn, vid).unwrap();
    assert_eq!(count(&conn, "SELECT COUNT(*) FROM watch_progress"), 1);
    remove_source(&mut conn, sid).unwrap();
    assert_eq!(count(&conn, "SELECT COUNT(*) FROM videos"), 0);
    assert_eq!(count(&conn, "SELECT COUNT(*) FROM watch_progress"), 0);
    assert_eq!(count(&conn, "SELECT COUNT(*) FROM watch_history"), 0);
    assert_eq!(count(&conn, "SELECT COUNT(*) FROM channels"), 0);
}

#[test]
fn removing_unknown_source_is_not_found() {
    let mut conn = mem();
    assert!(matches!(remove_source(&mut conn, 7), Err(AppError::NotFound(ref m)) if m == "source 7"));
}

#[test]
fn first_source_wins_on_duplicate_path() {
    let mut conn = mem();
    let sa = add(&mut conn, "/lib/first").unwrap();
    let sb = add(&mut conn, "/lib/second").unwrap();
    let file = "/lib/first/x.mp4";
    let first = put(&mut conn, sa.id, file, &meta("A", None, None), "p", 1, 1);
    let second = put(&mut conn, sb.id, file, &meta("B", None, None), "p", 1, 1);
    assert_eq!(first.id, second.id);
    assert!(!second.created);
    assert_eq!(get_video(&conn, first.id).unwrap().title, "A");
}

#[test]
fn unavailable_hides_but_keeps_rows() {
    let mut conn = mem();
    let (sid, vid) = seed_one(&mut conn);
    set_source_available(&mut conn, sid, false, None).unwrap();
    assert_eq!(list_home(&conn, 0).unwrap().total, 0);
    assert_eq!(search(&conn, "Alpha", 0).unwrap().total, 0);
    assert!(list_channels(&conn).unwrap().is_empty());
    assert!(get_video(&conn, vid).is_ok());
    assert_eq!(count(&conn, "SELECT COUNT(*) FROM videos"), 1);
}

#[test]
fn availability_and_scan_time_are_recorded() {
    let mut conn = mem();
    let (sid, _) = seed_one(&mut conn);
    set_source_available(&mut conn, sid, true, Some("2024-01-02T03:04:05Z")).unwrap();
    set_source_available(&mut conn, sid, false, None).unwrap();
    let s = get_source(&conn, sid).unwrap();
    assert!(!s.available);
    assert_eq!(s.last_scanned_at.as_deref(), Some("2024-01-02T03:04:05Z"));
}

#[test]
fn home_orders_upload_date_then_mtime() {
    let mut conn = mem();
    let src = add(&mut conn, "/lib/h").unwrap();
    put(&mut conn, src.id, "/lib/h/old.mp4", &meta("DatedOld", None, Some("2020-01-01")), "p", 999, 1);
    put(&mut conn, src.id, "/lib/h/new.mp4", &meta("DatedNew", None, Some("2024-01-01")), "p", 1, 1);
    put(&mut conn, src.id, "/lib/h/nodate.mp4", &meta("NoDate", None, None), "p", 5000, 1);
    let home = list_home(&conn, 0).unwrap();
    assert_eq!(home.items[0].title, "DatedNew");
    assert_eq!(home.items[1].title, "DatedOld");
    assert_eq!(home.items[2].title, "NoDate");
    assert_eq!(home.page_size, 24);
}

#[test]
fn home_pages_hold_twenty_four() {
    let mut conn = mem();
    let src = add(&mut conn, "/lib/p").unwrap();
    for i in 0..30 {
        put(&mut conn, src.id, &format!("/lib/p/{i:02}.mp4"), &meta(&format!("V{i:02}"), None, None), "p", i, 1);
    }
    let first = list_home(&conn, 0).unwrap();
    assert_eq!(first.total, 30);
    assert_eq!(first.items.len(), 24);
    assert_eq!(first.items[0].title, "V29");
    let second = list_home(&conn, 1).unwrap();
    assert_eq!(second.items.len(), 6);
    assert_eq!(second.items[5].title, "V00");
    assert_eq!(list_home(&conn, 2).unwrap().items.len(), 0);
    assert_eq!(list_home(&conn, -1).unwrap().items.len(), 24);
}

#[test]
fn search_matches_title_description_and_channel() {
    let mut conn = mem();
    let src = add(&mut conn, "/lib/s").unwrap();
    put(&mut conn, src.id, "/lib/s/1.mp4", &meta("Rust Basics", None, None), "p", 3, 1);
    put(&mut conn, src.id, "/lib/s/2.mp4", &meta("Other", Some("RustConf"), None), "p", 2, 1);
    put(&mut conn, src.id, "/lib/s/3.mp4", &meta("Cooking", None, None), "p", 1, 1);
    let r = search(&conn, "  rust ", 0).unwrap();
    assert_eq!(r.total, 2);
    assert_eq!(r.items[0].title, "Rust Basics");
    assert_eq!(r.items[1].channel_name.as_deref(), Some("RustConf"));
    assert_eq!(search(&conn, "d", 0).unwrap().total, 3);
    assert_eq!(search(&conn, "100%", 0).unwrap().total, 0);
}

#[test]
fn like_pattern_escapes_wildcards() {
    assert_eq!(like_pattern("a%b_c\\d"), "%a\\%b\\_c\\\\d%");
    assert_eq!(like_pattern(""), "%%");
}

#[test]
fn channels_list_and_page() {
    let mut conn = mem();
    let src = add(&mut conn, "/lib/ch").unwrap();
    put(&mut conn, src.id, "/lib/ch/1.mp4", &meta("One", Some("zeta"), None), "p", 1, 1);
    put(&mut conn, src.id, "/lib/ch/2.mp4", &meta("Two", Some("Alpha"), None), "p", 2, 1);
    put(&mut conn, src.id, "/lib/ch/3.mp4", &meta("Three", Some("alpha"), None), "p", 3, 1);
    let chans = list_channels(&conn).unwrap();
    assert_eq!(chans.len(), 2);
    assert_eq!(chans[0].slug, "alpha");
    assert_eq!(chans[0].name, "Alpha");
    assert_eq!(chans[0].video_count, 2);
    assert_eq!(chans[1].slug, "zeta");
    let (ch, page) = get_channel(&conn, "alpha", 0).unwrap();
    assert_eq!(ch.video_count, 2);
    assert_eq!(page.total, 2);
    assert_eq!(page.items[0].title, "Three");
    assert!(matches!(get_channel(&conn, "nope", 0), Err(AppError::NotFound(ref m)) if m == "channel nope"));
}

#[test]
fn video_detail_carries_channel_and_progress() {
    let mut conn = mem();
    let (_, vid) = seed_one(&mut conn);
    let v = get_video(&conn, vid).unwrap();
    assert_eq!(v.channel_name.as_deref(), Some("Veritasium"));
    assert_eq!(v.channel_slug.as_deref(), Some("veritasium"));
    assert_eq!(v.path, "/lib/seed/a.mp4");
    assert_eq!(v.progress_sec, None);
    set_progress(&mut conn, vid, Value::Real(12.5)).unwrap();
    set_progress(&mut conn, vid, Value::Real(30.0)).unwrap();
    assert_eq!(get_video(&conn, vid).unwrap().progress_sec, Some(Value::Real(30.0)));
    assert!(matches!(get_video(&conn, 99), Err(AppError::NotFound(ref m)) if m == "video 99"));
}

#[test]
fn more_from_channel_or_folder() {
    let mut conn = mem();
    let src = add(&mut conn, "/lib/m").unwrap();
    let a = put(&mut conn, src.id, "/lib/m/c/a.mp4", &meta("A", Some("C"), None), "/lib/m/c", 1, 1);
    put(&mut conn, src.id, "/lib/m/c/b.mp4", &meta("B", Some("C"), None), "/lib/m/c", 2, 1);
    put(&mut conn, src.id, "/lib/m/c/x.mp4", &meta("X", Some("D"), None), "/lib/m/c", 3, 1);
    let f = put(&mut conn, src.id, "/lib/m/f/a.mp4", &meta("FA", None, None), "/lib/m/f", 1, 1);
    put(&mut conn, src.id, "/lib/m/f/b.mp4", &meta("FB", None, None), "/lib/m/f", 2, 1);
    let more: Vec<String> = list_more(&conn, a.id).unwrap().into_iter().map(|c| c.title).collect();
    assert_eq!(more, vec!["B".to_string()]);
    let more: Vec<String> = list_more(&conn, f.id).unwrap().into_iter().map(|c| c.title).collect();
    assert_eq!(more, vec!["FB".to_string()]);
    assert!(matches!(list_more(&conn, 1234), Err(AppError::NotFound(ref m)) if m == "video 1234"));
}

#[test]
fn history_is_most_recent_first() {
    let mut conn = mem();
    let src = add(&mut conn, "/lib/w").unwrap();
    let a = put(&mut conn, src.id, "/lib/w/a.mp4", &meta("A", None, None), "p", 1, 1);
    let b = put(&mut conn, src.id, "/lib/w/b.mp4", &meta("B", None, None), "p", 2, 1);
    conn.execute("INSERT INTO watch_history (video_id, watched_at) VALUES (?1, '2024-01-01T00:00:00Z')", [a.id]).unwrap();
    conn.execute("INSERT INTO watch_history (video_id, watched_at) VALUES (?1, '2024-02-01T00:00:00Z')", [b.id]).unwrap();
    let h = list_history(&conn, 0).unwrap();
    assert_eq!(h.total, 2);
    assert_eq!(h.items[0].title, "B");
    start_watch(&mut conn, a.id).unwrap();
    let h = list_history(&conn, 0).unwrap();
    assert_eq!(h.items[0].title, "A");
}

#[test]
fn pruning_keeps_used_channels() {
    let mut conn = mem();
    let (_, _) = seed_one(&mut conn);
    conn.execute("INSERT INTO channels (slug, name) VALUES ('lonely', 'Lonely')", []).unwrap();
    assert_eq!(count(&conn, "SELECT COUNT(*) FROM channels"), 2);
    prune_empty_channels(&mut conn).unwrap();
    assert_eq!(count(&conn, "SELECT COUNT(*) FROM channels"), 1);
}

#[test]
fn a_source_after_the_largest_key_takes_the_smallest_free_one() {
    let mut conn = mem();
    conn.execute("INSERT INTO sources (id, path, added_at) VALUES (9223372036854775807, '/lib/last', 't')", []).unwrap();
    conn.execute("INSERT INTO sources (id, path, added_at) VALUES (1, '/lib/first', 't')", []).unwrap();
    let s = add(&mut conn, "/elsewhere").unwrap();
    assert_eq!(s.id, 2);
    let ids: Vec<i64> = list_sources(&conn).unwrap().iter().map(|s| s.id).collect();
    assert_eq!(ids.len(), 3);
    assert!(ids.contains(&2) && ids.contains(&9223372036854775807));
}

#[test]
fn a_video_after_the_largest_key_takes_the_smallest_free_one() {
    let mut conn = mem();
    let src = add(&mut conn, "/lib/full").unwrap();
    conn.execute(
        "INSERT INTO videos (id, path, source_id, title, parent_dir, mtime, size_bytes, added_at)
         VALUES (9223372036854775807, '/lib/full/a.mp4', ?1, 'A', '/lib/full', 1, 1, 't')",
        [src.id],
    )
    .unwrap();
    let mut st = stored(&conn);
    let b = upsert_video(&mut conn, src.id, &here("/lib/full/b.mp4"), &mut st, &meta("B", None, None), "p", 1, 1).unwrap();
    assert!(b.created);
    assert_eq!(b.id, 1);
    // The stored facts follow the table: the new row comes first in key order.
    assert_eq!(st.len(), 2);
    assert_eq!(st[0].raw, "/lib/full/b.mp4");
    assert_eq!(st[1].raw, "/lib/full/a.mp4");
    let again = upsert_video(&mut conn, src.id, &here("/lib/full/a.mp4"), &mut st, &meta("A2", None, None), "p", 1, 1).unwrap();
    assert!(!again.created);
    assert_eq!(again.id, 9223372036854775807);
}

#[test]
fn rows_sharing_a_key_are_refused_on_load() {
    let conn = Connection::open_in_memory().unwrap();
    conn.execute_batch(
        "CREATE TABLE sources (id INTEGER, path TEXT, added_at TEXT, last_scanned_at TEXT, available INTEGER);
         INSERT INTO sources VALUES (1, '/a', 't', NULL, 1);
         INSERT INTO sources VALUES (1, '/b', 't', NULL, 1);",
    )
    .unwrap();
    let err = list_sources(&conn).unwrap_err();
    assert!(matches!(err, AppError::Db(ref m) if m == "a table holds two rows with the same key"));
}

#[test]
fn progress_reads_back_as_the_real_column_holds_it() {
    let mut conn = mem();
    let (_, vid) = seed_one(&mut conn);
    set_progress(&mut conn, vid, Value::Integer(30)).unwrap();
    assert_eq!(get_video(&conn, vid).unwrap().progress_sec, Some(Value::Real(30.0)));
    assert!(set_progress(&mut conn, vid, Value::Real(f64::NAN)).is_err());
    assert!(set_progress(&mut conn, vid, Value::Null).is_err());
    assert_eq!(get_video(&conn, vid).unwrap().progress_sec, Some(Value::Real(30.0)));
}
