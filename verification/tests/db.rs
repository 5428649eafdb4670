use mytube::error::{db_error, AppError};
use mytube::store::migrate;
use rusqlite::Connection;

#[test]
fn migrate_creates_tables_and_fk() {
    let mut conn = Connection::open_in_memory().unwrap();
    migrate(&mut conn).unwrap();
    let n: i64 = conn
        .query_row(
            "SELECT COUNT(*) FROM sqlite_master WHERE type='table' AND name IN ('sources','channels','videos','watch_progress','watch_history')",
            [],
            |r| r.get(0),
        )
        .unwrap();
    assert_eq!(n, 5);

    conn.execute("INSERT INTO sources (path, added_at) VALUES ('C:\\v', 't')", []).unwrap();
    conn.execute(
        "INSERT INTO videos (path, source_id, title, parent_dir, mtime, size_bytes, added_at)
         VALUES ('C:\\v\\a.mp4', 1, 'A', 'C:\\v', 1, 1, 't')",
        [],
    )
    .unwrap();
    conn.execute("DELETE FROM sources WHERE id = 1", []).unwrap();
    let left: i64 = conn.query_row("SELECT COUNT(*) FROM videos", [], |r| r.get(0)).unwrap();
    assert_eq!(left, 0, "videos must cascade when source is deleted");
}

#[test]
fn migrate_twice_keeps_rows() {
    let mut conn = Connection::open_in_memory().unwrap();
    migrate(&mut conn).unwrap();
    conn.execute("INSERT INTO playlists (name, created_at) VALUES ('p', 't')", []).unwrap();
    migrate(&mut conn).unwrap();
    let n: i64 = conn.query_row("SELECT COUNT(*) FROM playlists", [], |r| r.get(0)).unwrap();
    assert_eq!(n, 1);
}

#[test]
fn migrate_turns_foreign_keys_on() {
    let mut conn = Connection::open_in_memory().unwrap();
    conn.pragma_update(None, "foreign_keys", 0).unwrap();
    migrate(&mut conn).unwrap();
    let on: i64 = conn.query_row("PRAGMA foreign_keys", [], |r| r.get(0)).unwrap();
    assert_eq!(on, 1);
}

#[test]
fn sqlite_errors_keep_their_message() {
    match db_error(rusqlite::Error::QueryReturnedNoRows) {
        AppError::Db(m) => assert_eq!(m, "Query returned no rows"),
        e => panic!("unexpected {e:?}"),
    }
}
