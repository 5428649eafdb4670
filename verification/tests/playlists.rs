use mytube::error::AppError;
use mytube::playlists::{add_to_playlist, create_playlist, delete_playlist, get_playlist, list_playlists, remove_from_playlist};
use mytube::store::migrate;
use rusqlite::Connection;

fn mem() -> Connection {
    let mut c = Connection::open_in_memory().unwrap();
    migrate(&mut c).unwrap();
    c.execute("INSERT INTO sources (path, added_at) VALUES ('C:\\v', 't')", []).unwrap();
    c.execute(
        "INSERT INTO videos (path, source_id, title, parent_dir, mtime, size_bytes, added_at)
         VALUES ('C:\\v\\a.mp4', 1, 'A', 'C:\\v', 1, 1, 't')",
        [],
    )
    .unwrap();
    c.execute(
        "INSERT INTO videos (path, source_id, title, parent_dir, mtime, size_bytes, added_at)
         VALUES ('C:\\v\\b.mp4', 1, 'B', 'C:\\v', 1, 1, 't')",
        [],
    )
    .unwrap();
    c
}

#[test]
fn create_and_add() {
    let mut conn = mem();
    let p = create_playlist(&mut conn, "  Mix  ").unwrap();
    assert_eq!(p.name, "Mix");
    assert_eq!(p.video_count, 0);
    add_to_playlist(&mut conn, p.id, 1).unwrap();
    add_to_playlist(&mut conn, p.id, 2).unwrap();
    add_to_playlist(&mut conn, p.id, 1).unwrap();
    let (pl, page) = get_playlist(&conn, p.id, 0).unwrap();
    assert_eq!(pl.video_count, 2);
    assert_eq!(page.items.len(), 2);
    assert_eq!(page.items[0].title, "A");
    assert_eq!(page.items[1].title, "B");
}

#[test]
fn empty_name_rejected() {
    let mut conn = mem();
    let err = create_playlist(&mut conn, "   ").unwrap_err();
    assert!(matches!(err, AppError::Invalid(_)));
}

#[test]
fn remove_and_delete() {
    let mut conn = mem();
    let p = create_playlist(&mut conn, "Mix").unwrap();
    add_to_playlist(&mut conn, p.id, 1).unwrap();
    remove_from_playlist(&mut conn, p.id, 1).unwrap();
    let (pl, page) = get_playlist(&conn, p.id, 0).unwrap();
    assert_eq!(pl.video_count, 0);
    assert!(page.items.is_empty());
    delete_playlist(&mut conn, p.id).unwrap();
    assert!(list_playlists(&conn).unwrap().is_empty());
}

#[test]
fn playlist_errors_name_what_is_missing() {
    let mut conn = mem();
    let p = create_playlist(&mut conn, "Mix").unwrap();
    assert!(matches!(add_to_playlist(&mut conn, 99, 1), Err(AppError::NotFound(ref m)) if m == "playlist 99"));
    assert!(matches!(add_to_playlist(&mut conn, p.id, 99), Err(AppError::NotFound(ref m)) if m == "video 99"));
    assert!(matches!(remove_from_playlist(&mut conn, p.id, 2), Err(AppError::NotFound(ref m)) if m == "video not in playlist"));
    assert!(matches!(delete_playlist(&mut conn, 99), Err(AppError::NotFound(ref m)) if m == "playlist 99"));
    assert!(matches!(get_playlist(&conn, 99, 0), Err(AppError::NotFound(ref m)) if m == "playlist 99"));
}

#[test]
fn entries_keep_the_order_they_were_added() {
    let mut conn = mem();
    let p = create_playlist(&mut conn, "Order").unwrap();
    add_to_playlist(&mut conn, p.id, 2).unwrap();
    let after = add_to_playlist(&mut conn, p.id, 1).unwrap();
    assert_eq!(after.video_count, 2);
    let (_, page) = get_playlist(&conn, p.id, 0).unwrap();
    assert_eq!(page.items[0].title, "B");
    assert_eq!(page.items[1].title, "A");
    let positions: Vec<i64> = {
        let mut st = conn.prepare("SELECT position FROM playlist_items ORDER BY position").unwrap();
        let rows = st.query_map([], |r| r.get(0)).unwrap();
        rows.map(|r| r.unwrap()).collect()
    };
    assert_eq!(positions, vec![0, 1]);
}

#[test]
fn deleting_a_playlist_drops_its_entries() {
    let mut conn = mem();
    let keep = create_playlist(&mut conn, "Keep").unwrap();
    let gone = create_playlist(&mut conn, "Gone").unwrap();
    add_to_playlist(&mut conn, keep.id, 1).unwrap();
    add_to_playlist(&mut conn, gone.id, 1).unwrap();
    add_to_playlist(&mut conn, gone.id, 2).unwrap();
    delete_playlist(&mut conn, gone.id).unwrap();
    let n: i64 = conn.query_row("SELECT COUNT(*) FROM playlist_items", [], |r| r.get(0)).unwrap();
    assert_eq!(n, 1);
    let all = list_playlists(&conn).unwrap();
    assert_eq!(all.len(), 1);
    assert_eq!(all[0].name, "Keep");
    assert_eq!(all[0].video_count, 1);
}

#[test]
fn a_playlist_after_the_largest_key_takes_the_smallest_free_one() {
    let mut conn = mem();
    conn.execute("INSERT INTO playlists (id, name, created_at) VALUES (9223372036854775807, 'Last', 't')", []).unwrap();
    let p = create_playlist(&mut conn, "Next").unwrap();
    assert_eq!(p.id, 1);
    assert_eq!(p.name, "Next");
    assert_eq!(list_playlists(&conn).unwrap().len(), 2);
}

#[test]
fn a_position_past_the_largest_integer_is_refused() {
    let mut conn = mem();
    let p = create_playlist(&mut conn, "Full").unwrap();
    conn.execute(
        "INSERT INTO playlist_items (playlist_id, video_id, position, added_at) VALUES (?1, 1, 9223372036854775807, 't')",
        [p.id],
    )
    .unwrap();
    let err = add_to_playlist(&mut conn, p.id, 2).unwrap_err();
    assert!(matches!(err, AppError::Db(ref m) if m == "integer overflow"));
    assert!(add_to_playlist(&mut conn, p.id, 1).is_err());
    assert_eq!(get_playlist(&conn, p.id, 0).unwrap().0.video_count, 1);
}
