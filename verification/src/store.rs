//! The SQLite store behind the catalog.
//!
//! Each table is seen as the sequence of its rows in key order. The functions
//! here each run one SQL statement through `rusqlite`; their contracts state
//! what that statement does to the tables (as SQLite documents it). All
//! decisions (which rows to write, joins, filters, ordering, paging) are made by
//! the verified catalog code on top of these.
use crate::error::{db_error, from_sqlite, AppResult};
use crate::models::SourceV;
use rusqlite::types::Value;
use rusqlite::Connection;
use vstd::prelude::*;

verus! {

/// An open SQLite database (`rusqlite::Connection`).
#[verifier::external_type_specification]
#[verifier::external_body]
pub struct ExConnection(rusqlite::Connection);

// ---------------------------------------------------------------------------
// Row views

pub struct ChannelV {
    pub id: int,
    pub slug: Seq<char>,
    pub name: Seq<char>,
}

pub struct VideoV {
    pub id: int,
    pub path: Seq<char>,
    pub source_id: int,
    pub channel_id: Option<int>,
    pub title: Seq<char>,
    pub description: Option<Seq<char>>,
    pub duration_sec: Option<Value>,
    pub thumbnail_path: Option<Seq<char>>,
    pub upload_date: Option<Seq<char>>,
    pub parent_dir: Seq<char>,
    pub mtime: int,
    pub size_bytes: int,
    pub added_at: Seq<char>,
}

pub struct ProgressV {
    pub video_id: int,
    pub position_sec: Value,
    pub updated_at: Seq<char>,
}

pub struct HistoryV {
    pub video_id: int,
    pub watched_at: Seq<char>,
}

pub struct PlaylistV {
    pub id: int,
    pub name: Seq<char>,
    pub created_at: Seq<char>,
}

pub struct ItemV {
    pub playlist_id: int,
    pub video_id: int,
    pub position: int,
    pub added_at: Seq<char>,
}

// ---------------------------------------------------------------------------
// What the tables hold (rows in ascending key order)

/// Rows of `sources`, by ascending `id`.
pub uninterp spec fn sources_table(c: Connection) -> Seq<SourceV>;

/// Rows of `channels`, by ascending `id`.
pub uninterp spec fn channels_table(c: Connection) -> Seq<ChannelV>;

/// Rows of `videos`, by ascending `id`.
pub uninterp spec fn videos_table(c: Connection) -> Seq<VideoV>;

/// Rows of `watch_progress`, by ascending `video_id`.
pub uninterp spec fn progress_table(c: Connection) -> Seq<ProgressV>;

/// Rows of `watch_history`, by ascending `video_id`.
pub uninterp spec fn history_table(c: Connection) -> Seq<HistoryV>;

/// Rows of `playlists`, by ascending `id`.
pub uninterp spec fn playlists_table(c: Connection) -> Seq<PlaylistV>;

/// Rows of `playlist_items`, by ascending (`playlist_id`, `video_id`).
pub uninterp spec fn items_table(c: Connection) -> Seq<ItemV>;

/// Whether SQLite's `LIKE` operator with `ESCAPE '\'`, on connection `c`,
/// matches `text` against `pattern` (`%` and `_` wildcards). What it matches
/// depends on the connection's settings, such as `PRAGMA case_sensitive_like`.
pub uninterp spec fn sqlite_like(c: Connection, pattern: Seq<char>, text: Seq<char>) -> bool;

/// What a `REAL` column holds after `v` is written to it, or `None` for NULL:
/// SQLite converts a value on the way in by the column's affinity (an integer
/// becomes a real, a NaN is stored as NULL, text that is no number stays text).
pub uninterp spec fn real_column(v: Value) -> Option<Value>;

/// What an optional value written to a `REAL` column reads back as.
pub open spec fn stored_real(o: Option<Value>) -> Option<Value> {
    match o {
        Some(v) => real_column(v),
        None => None,
    }
}

/// All tables of a database.
pub struct Db {
    pub sources: Seq<SourceV>,
    pub channels: Seq<ChannelV>,
    pub videos: Seq<VideoV>,
    pub progress: Seq<ProgressV>,
    pub history: Seq<HistoryV>,
    pub playlists: Seq<PlaylistV>,
    pub items: Seq<ItemV>,
}

pub open spec fn db(c: Connection) -> Db {
    Db {
        sources: sources_table(c),
        channels: channels_table(c),
        videos: videos_table(c),
        progress: progress_table(c),
        history: history_table(c),
        playlists: playlists_table(c),
        items: items_table(c),
    }
}

/// Strictly increasing integers.
pub open spec fn increasing(k: Seq<int>) -> bool {
    forall|i: int, j: int| 0 <= i < j < k.len() ==> k[i] < k[j]
}

pub open spec fn source_ids(t: Seq<SourceV>) -> Seq<int> {
    t.map_values(|r: SourceV| r.id)
}

pub open spec fn channel_ids(t: Seq<ChannelV>) -> Seq<int> {
    t.map_values(|r: ChannelV| r.id)
}

pub open spec fn video_ids(t: Seq<VideoV>) -> Seq<int> {
    t.map_values(|r: VideoV| r.id)
}

pub open spec fn progress_ids(t: Seq<ProgressV>) -> Seq<int> {
    t.map_values(|r: ProgressV| r.video_id)
}

pub open spec fn history_ids(t: Seq<HistoryV>) -> Seq<int> {
    t.map_values(|r: HistoryV| r.video_id)
}

pub open spec fn playlist_ids(t: Seq<PlaylistV>) -> Seq<int> {
    t.map_values(|r: PlaylistV| r.id)
}

/// (`playlist_id`, `video_id`) of `a` is before that of `b`.
pub open spec fn item_key_lt(a: ItemV, b: ItemV) -> bool {
    a.playlist_id < b.playlist_id || (a.playlist_id == b.playlist_id && a.video_id < b.video_id)
}

pub open spec fn items_increasing(t: Seq<ItemV>) -> bool {
    forall|i: int, j: int| 0 <= i < j < t.len() ==> item_key_lt(t[i], t[j])
}

/// Where a row with key `id` goes in a table with these keys (in key order):
/// after every smaller key.
pub open spec fn key_position(keys: Seq<int>, id: int) -> int
    decreases keys.len(),
{
    if keys.len() == 0 {
        0
    } else if keys.last() < id {
        keys.len() as int
    } else {
        key_position(keys.drop_last(), id)
    }
}

/// Every table holds each key once (its keys strictly increase in key order).
pub open spec fn well_ordered(d: Db) -> bool {
    &&& increasing(source_ids(d.sources))
    &&& increasing(channel_ids(d.channels))
    &&& increasing(video_ids(d.videos))
    &&& increasing(progress_ids(d.progress))
    &&& increasing(history_ids(d.history))
    &&& increasing(playlist_ids(d.playlists))
    &&& items_increasing(d.items)
}

// ---------------------------------------------------------------------------
// Column tuples as read from SQLite

pub type ChannelCols = (i64, String, String);

pub type VideoCols = (
    i64,
    String,
    i64,
    Option<i64>,
    String,
    Option<String>,
    Option<Value>,
    Option<String>,
    Option<String>,
    String,
    i64,
    i64,
    String,
);

pub type ProgressCols = (i64, Value, String);

pub type HistoryCols = (i64, String);

pub type PlaylistCols = (i64, String, String);

pub type ItemCols = (i64, i64, i64, String);

pub open spec fn ov(o: Option<String>) -> Option<Seq<char>> {
    crate::models::opt_view(o)
}

pub open spec fn oi(o: Option<i64>) -> Option<int> {
    match o {
        Some(x) => Some(x as int),
        None => None,
    }
}

pub open spec fn channel_cols_v(t: ChannelCols) -> ChannelV {
    ChannelV { id: t.0 as int, slug: t.1@, name: t.2@ }
}

pub open spec fn video_cols_v(t: VideoCols) -> VideoV {
    VideoV {
        id: t.0 as int,
        path: t.1@,
        source_id: t.2 as int,
        channel_id: oi(t.3),
        title: t.4@,
        description: ov(t.5),
        duration_sec: t.6,
        thumbnail_path: ov(t.7),
        upload_date: ov(t.8),
        parent_dir: t.9@,
        mtime: t.10 as int,
        size_bytes: t.11 as int,
        added_at: t.12@,
    }
}

pub open spec fn progress_cols_v(t: ProgressCols) -> ProgressV {
    ProgressV { video_id: t.0 as int, position_sec: t.1, updated_at: t.2@ }
}

pub open spec fn history_cols_v(t: HistoryCols) -> HistoryV {
    HistoryV { video_id: t.0 as int, watched_at: t.1@ }
}

pub open spec fn playlist_cols_v(t: PlaylistCols) -> PlaylistV {
    PlaylistV { id: t.0 as int, name: t.1@, created_at: t.2@ }
}

pub open spec fn item_cols_v(t: ItemCols) -> ItemV {
    ItemV { playlist_id: t.0 as int, video_id: t.1 as int, position: t.2 as int, added_at: t.3@ }
}

// ---------------------------------------------------------------------------
// Schema

/// Whether foreign-key enforcement is on for the connection
/// (`PRAGMA foreign_keys` reads 1).
pub uninterp spec fn foreign_keys_on(c: Connection) -> bool;

/// Whether a `BEGIN` or `SAVEPOINT` is pending on the connection (it is not in
/// autocommit mode).
pub uninterp spec fn in_transaction(c: Connection) -> bool;

/// Whether every table and index of [`SCHEMA`] exists in the database.
pub uninterp spec fn catalog_schema(c: Connection) -> bool;

/// Turns on foreign-key enforcement for the connection (`PRAGMA foreign_keys = 1`).
/// The pragma changes no row and no transaction state; SQLite documents it
/// as doing nothing while a transaction is pending, so enforcement is only
/// promised when none is.
#[verifier::external_body]
pub(crate) fn enable_foreign_keys(conn: &mut Connection) -> (r: Result<(), rusqlite::Error>)
    ensures
        db(*final(conn)) == db(*old(conn)),
        in_transaction(*final(conn)) == in_transaction(*old(conn)),
        catalog_schema(*final(conn)) == catalog_schema(*old(conn)),
        r is Ok && !in_transaction(*old(conn)) ==> foreign_keys_on(*final(conn)),
{
    conn.pragma_update(None, "foreign_keys", 1)
}

/// Creates the tables and indexes that do not exist yet (`CREATE ... IF NOT
/// EXISTS`); existing rows are left as they are, and so is the foreign-key
/// setting. When every statement ran, the whole schema exists.
#[verifier::external_body]
pub(crate) fn create_schema(conn: &mut Connection) -> (r: Result<(), rusqlite::Error>)
    ensures
        db(*final(conn)) == db(*old(conn)),
        foreign_keys_on(*final(conn)) == foreign_keys_on(*old(conn)),
        r is Ok ==> catalog_schema(*final(conn)),
{
    conn.execute_batch(SCHEMA)
}

/// Prepares a database for the catalog: foreign keys on (when no transaction
/// is pending), and the tables and indexes created where they are missing.
/// Stored rows are kept.
pub fn migrate(conn: &mut Connection) -> (r: AppResult<()>)
    ensures
        db(*final(conn)) == db(*old(conn)),
        r is Ok ==> catalog_schema(*final(conn)),
        r is Ok && !in_transaction(*old(conn)) ==> foreign_keys_on(*final(conn)),
        r matches Err(e) ==> e is Db && from_sqlite(e),
{
    if let Err(e) = enable_foreign_keys(conn) {
        return Err(db_error(e));
    }
    if let Err(e) = create_schema(conn) {
        return Err(db_error(e));
    }
    Ok(())
}

pub const SCHEMA: &'static str =
    "CREATE TABLE IF NOT EXISTS sources (
        id INTEGER PRIMARY KEY,
        path TEXT UNIQUE NOT NULL,
        added_at TEXT NOT NULL,
        last_scanned_at TEXT,
        available INTEGER NOT NULL DEFAULT 1
    );
    CREATE TABLE IF NOT EXISTS channels (
        id INTEGER PRIMARY KEY,
        slug TEXT UNIQUE NOT NULL,
        name TEXT NOT NULL
    );
    CREATE TABLE IF NOT EXISTS videos (
        id INTEGER PRIMARY KEY,
        path TEXT UNIQUE NOT NULL,
        source_id INTEGER NOT NULL REFERENCES sources(id) ON DELETE CASCADE,
        channel_id INTEGER REFERENCES channels(id),
        title TEXT NOT NULL,
        description TEXT,
        duration_sec REAL,
        thumbnail_path TEXT,
        upload_date TEXT,
        parent_dir TEXT NOT NULL,
        mtime INTEGER NOT NULL,
        size_bytes INTEGER NOT NULL,
        added_at TEXT NOT NULL
    );
    CREATE TABLE IF NOT EXISTS watch_progress (
        video_id INTEGER PRIMARY KEY REFERENCES videos(id) ON DELETE CASCADE,
        position_sec REAL NOT NULL,
        updated_at TEXT NOT NULL
    );
    CREATE TABLE IF NOT EXISTS watch_history (
        video_id INTEGER PRIMARY KEY REFERENCES videos(id) ON DELETE CASCADE,
        watched_at TEXT NOT NULL
    );
    CREATE TABLE IF NOT EXISTS playlists (
        id INTEGER PRIMARY KEY,
        name TEXT NOT NULL,
        created_at TEXT NOT NULL
    );
    CREATE TABLE IF NOT EXISTS playlist_items (
        playlist_id INTEGER NOT NULL REFERENCES playlists(id) ON DELETE CASCADE,
        video_id INTEGER NOT NULL REFERENCES videos(id) ON DELETE CASCADE,
        position INTEGER NOT NULL,
        added_at TEXT NOT NULL,
        PRIMARY KEY (playlist_id, video_id)
    );
    CREATE INDEX IF NOT EXISTS idx_videos_source ON videos(source_id);
    CREATE INDEX IF NOT EXISTS idx_videos_channel ON videos(channel_id);
    CREATE INDEX IF NOT EXISTS idx_videos_dates ON videos(upload_date, mtime);
    CREATE INDEX IF NOT EXISTS idx_videos_title ON videos(title);
    CREATE INDEX IF NOT EXISTS idx_history_watched ON watch_history(watched_at);
    CREATE INDEX IF NOT EXISTS idx_items_video ON playlist_items(video_id);";

// ---------------------------------------------------------------------------
// Reads: whole tables in key order

/// `SELECT ... FROM sources ORDER BY id`: every row, in key order.
#[verifier::external_body]
pub(crate) fn read_sources(conn: &Connection) -> (r: Result<Vec<(i64, String, String, Option<String>, bool)>, rusqlite::Error>)
    ensures
        r matches Ok(v) ==> v@.map_values(|t: (i64, String, String, Option<String>, bool)| SourceV {
            id: t.0 as int,
            path: t.1@,
            added_at: t.2@,
            last_scanned_at: ov(t.3),
            available: t.4,
        }) == sources_table(*conn),
{
    let mut st = conn.prepare("SELECT id, path, added_at, last_scanned_at, available FROM sources ORDER BY id")?;
    let rows = st.query_map((), |row| row.try_into())?;
    rows.collect()
}

/// `SELECT ... FROM channels ORDER BY id`.
#[verifier::external_body]
pub(crate) fn read_channels(conn: &Connection) -> (r: Result<Vec<ChannelCols>, rusqlite::Error>)
    ensures
        r matches Ok(v) ==> v@.map_values(|t: ChannelCols| channel_cols_v(t)) == channels_table(*conn),
{
    let mut st = conn.prepare("SELECT id, slug, name FROM channels ORDER BY id")?;
    let rows = st.query_map((), |row| row.try_into())?;
    rows.collect()
}

/// `SELECT ... FROM videos ORDER BY id`.
#[verifier::external_body]
pub(crate) fn read_videos(conn: &Connection) -> (r: Result<Vec<VideoCols>, rusqlite::Error>)
    ensures
        r matches Ok(v) ==> v@.map_values(|t: VideoCols| video_cols_v(t)) == videos_table(*conn),
{
    let mut st = conn.prepare(
        "SELECT id, path, source_id, channel_id, title, description, duration_sec, thumbnail_path,
         upload_date, parent_dir, mtime, size_bytes, added_at FROM videos ORDER BY id",
    )?;
    let rows = st.query_map((), |row| row.try_into())?;
    rows.collect()
}

/// `SELECT ... FROM watch_progress ORDER BY video_id`.
#[verifier::external_body]
pub(crate) fn read_progress(conn: &Connection) -> (r: Result<Vec<ProgressCols>, rusqlite::Error>)
    ensures
        r matches Ok(v) ==> v@.map_values(|t: ProgressCols| progress_cols_v(t)) == progress_table(*conn),
{
    let mut st = conn.prepare("SELECT video_id, position_sec, updated_at FROM watch_progress ORDER BY video_id")?;
    let rows = st.query_map((), |row| row.try_into())?;
    rows.collect()
}

/// `SELECT ... FROM watch_history ORDER BY video_id`.
#[verifier::external_body]
pub(crate) fn read_history(conn: &Connection) -> (r: Result<Vec<HistoryCols>, rusqlite::Error>)
    ensures
        r matches Ok(v) ==> v@.map_values(|t: HistoryCols| history_cols_v(t)) == history_table(*conn),
{
    let mut st = conn.prepare("SELECT video_id, watched_at FROM watch_history ORDER BY video_id")?;
    let rows = st.query_map((), |row| row.try_into())?;
    rows.collect()
}

/// `SELECT ... FROM playlists ORDER BY id`.
#[verifier::external_body]
pub(crate) fn read_playlists(conn: &Connection) -> (r: Result<Vec<PlaylistCols>, rusqlite::Error>)
    ensures
        r matches Ok(v) ==> v@.map_values(|t: PlaylistCols| playlist_cols_v(t)) == playlists_table(*conn),
{
    let mut st = conn.prepare("SELECT id, name, created_at FROM playlists ORDER BY id")?;
    let rows = st.query_map((), |row| row.try_into())?;
    rows.collect()
}

/// `SELECT ... FROM playlist_items ORDER BY playlist_id, video_id`.
#[verifier::external_body]
pub(crate) fn read_items(conn: &Connection) -> (r: Result<Vec<ItemCols>, rusqlite::Error>)
    ensures
        r matches Ok(v) ==> v@.map_values(|t: ItemCols| item_cols_v(t)) == items_table(*conn),
{
    let mut st = conn.prepare(
        "SELECT playlist_id, video_id, position, added_at FROM playlist_items ORDER BY playlist_id, video_id",
    )?;
    let rows = st.query_map((), |row| row.try_into())?;
    rows.collect()
}

/// `SELECT ?2 LIKE ?1 ESCAPE '\'`: SQLite's `LIKE` of a text against a pattern.
#[verifier::external_body]
pub(crate) fn like(conn: &Connection, pattern: &str, text: &str) -> (r: Result<bool, rusqlite::Error>)
    ensures
        r matches Ok(b) ==> b == sqlite_like(*conn, pattern@, text@),
{
    conn.query_row("SELECT ?2 LIKE ?1 ESCAPE '\\'", (pattern, text), |r| r.get(0))
}


// ---------------------------------------------------------------------------
// Writes: one statement each

/// No stored source has key `id`, and the stored keys are distinct.
pub open spec fn source_id_is_new(t: Seq<SourceV>, id: int) -> bool {
    increasing(source_ids(t)) && !source_ids(t).contains(id)
}

/// `INSERT INTO sources (id, path, added_at, available) VALUES (?, ?, ?, 1)`.
/// On success the row is added (never scanned, available); on failure (such
/// as a path that is already stored) nothing changes. The row goes to its key
/// position.
#[verifier::external_body]
pub(crate) fn insert_source(conn: &mut Connection, id: i64, path: &str, added_at: &str) -> (r: Result<usize, rusqlite::Error>)
    requires
        source_id_is_new(sources_table(*old(conn)), id as int),
    ensures
        r is Ok ==> db(*final(conn)) == (Db {
            sources: sources_table(*old(conn)).insert(
                key_position(source_ids(sources_table(*old(conn))), id as int),
                SourceV { id: id as int, path: path@, added_at: added_at@, last_scanned_at: None, available: true },
            ),
            ..db(*old(conn))
        }),
        r is Err ==> db(*final(conn)) == db(*old(conn)),
{
    conn.execute("INSERT INTO sources (id, path, added_at, available) VALUES (?1, ?2, ?3, 1)", (id, path, added_at))
}

/// The `sources` table after setting `available` and, when given, `last_scanned_at` of row `id`.
pub open spec fn with_source_status(t: Seq<SourceV>, id: int, available: bool, scanned: Option<Seq<char>>) -> Seq<SourceV> {
    t.map_values(|r: SourceV| if r.id == id {
        SourceV {
            available,
            last_scanned_at: if scanned is Some { scanned } else { r.last_scanned_at },
            ..r
        }
    } else {
        r
    })
}

/// `UPDATE sources SET available = ?, last_scanned_at = COALESCE(?, last_scanned_at) WHERE id = ?`.
#[verifier::external_body]
pub(crate) fn update_source_status(conn: &mut Connection, id: i64, available: bool, scanned: Option<&str>) -> (r: Result<usize, rusqlite::Error>)
    ensures
        r is Ok ==> db(*final(conn)) == (Db {
            sources: with_source_status(
                sources_table(*old(conn)),
                id as int,
                available,
                match scanned { Some(s) => Some(s@), None => None },
            ),
            ..db(*old(conn))
        }),
        r is Err ==> db(*final(conn)) == db(*old(conn)),
{
    conn.execute(
        "UPDATE sources SET available = ?1, last_scanned_at = COALESCE(?2, last_scanned_at) WHERE id = ?3",
        (available, scanned, id),
    )
}

/// `DELETE FROM sources WHERE id = ?`. No video may still belong to the
/// source, so the cascade to `videos` has nothing to remove.
#[verifier::external_body]
pub(crate) fn delete_source(conn: &mut Connection, id: i64) -> (r: Result<usize, rusqlite::Error>)
    requires
        forall|i: int| 0 <= i < videos_table(*old(conn)).len() ==> #[trigger] videos_table(*old(conn))[i].source_id != id,
    ensures
        r is Ok ==> db(*final(conn)) == (Db {
            sources: sources_table(*old(conn)).filter(|x: SourceV| x.id != id),
            ..db(*old(conn))
        }),
        r is Err ==> db(*final(conn)) == db(*old(conn)),
{
    conn.execute("DELETE FROM sources WHERE id = ?1", (id,))
}

/// `INSERT INTO channels (id, slug, name) VALUES (?, ?, ?)`; fails without
/// change when the slug is already stored. The row goes to its key position.
#[verifier::external_body]
pub(crate) fn insert_channel(conn: &mut Connection, id: i64, slug: &str, name: &str) -> (r: Result<usize, rusqlite::Error>)
    requires
        increasing(channel_ids(channels_table(*old(conn)))),
        !channel_ids(channels_table(*old(conn))).contains(id as int),
    ensures
        r is Ok ==> db(*final(conn)) == (Db {
            channels: channels_table(*old(conn)).insert(
                key_position(channel_ids(channels_table(*old(conn))), id as int),
                ChannelV { id: id as int, slug: slug@, name: name@ },
            ),
            ..db(*old(conn))
        }),
        r is Err ==> db(*final(conn)) == db(*old(conn)),
{
    conn.execute("INSERT INTO channels (id, slug, name) VALUES (?1, ?2, ?3)", (id, slug, name))
}

/// `DELETE FROM channels WHERE id = ?`; fails without change while a video
/// still refers to the channel.
#[verifier::external_body]
pub(crate) fn delete_channel(conn: &mut Connection, id: i64) -> (r: Result<usize, rusqlite::Error>)
    ensures
        r is Ok ==> db(*final(conn)) == (Db {
            channels: channels_table(*old(conn)).filter(|x: ChannelV| x.id != id),
            ..db(*old(conn))
        }),
        r is Err ==> db(*final(conn)) == db(*old(conn)),
{
    conn.execute("DELETE FROM channels WHERE id = ?1", (id,))
}

/// `INSERT INTO videos (...) VALUES (...)` with every column given; fails
/// without change on a stored path or a missing source or channel. The row
/// goes to its key position.
#[verifier::external_body]
pub(crate) fn insert_video(conn: &mut Connection, row: &VideoCols) -> (r: Result<usize, rusqlite::Error>)
    requires
        increasing(video_ids(videos_table(*old(conn)))),
        !video_ids(videos_table(*old(conn))).contains(row.0 as int),
    ensures
        r is Ok ==> db(*final(conn)) == (Db {
            videos: videos_table(*old(conn)).insert(
                key_position(video_ids(videos_table(*old(conn))), row.0 as int),
                written_video(*row),
            ),
            ..db(*old(conn))
        }),
        r is Err ==> db(*final(conn)) == db(*old(conn)),
{
    conn.execute(
        "INSERT INTO videos (id, path, source_id, channel_id, title, description, duration_sec,
         thumbnail_path, upload_date, parent_dir, mtime, size_bytes, added_at)
         VALUES (?1, ?2, ?3, ?4, ?5, ?6, ?7, ?8, ?9, ?10, ?11, ?12, ?13)",
        row.clone(),
    )
}

/// The fields that a rescan refreshes on a stored video.
pub struct VideoFields {
    pub channel_id: Option<i64>,
    pub title: String,
    pub description: Option<String>,
    pub duration_sec: Option<Value>,
    pub thumbnail_path: Option<String>,
    pub upload_date: Option<String>,
    pub parent_dir: String,
    pub mtime: i64,
    pub size_bytes: i64,
}

/// The row that reads back after `t` is inserted: its duration as the `REAL`
/// column holds it.
pub open spec fn written_video(t: VideoCols) -> VideoV {
    VideoV { duration_sec: stored_real(t.6), ..video_cols_v(t) }
}

/// Row `r` with the refreshed fields (the duration as the `REAL` column holds it).
pub open spec fn refreshed(r: VideoV, f: VideoFields) -> VideoV {
    VideoV {
        channel_id: oi(f.channel_id),
        title: f.title@,
        description: ov(f.description),
        duration_sec: stored_real(f.duration_sec),
        thumbnail_path: ov(f.thumbnail_path),
        upload_date: ov(f.upload_date),
        parent_dir: f.parent_dir@,
        mtime: f.mtime as int,
        size_bytes: f.size_bytes as int,
        ..r
    }
}

/// `UPDATE videos SET title = ?, channel_id = ?, ... WHERE id = ?`; fails
/// without change on a missing channel.
#[verifier::external_body]
pub(crate) fn update_video(conn: &mut Connection, id: i64, f: &VideoFields) -> (r: Result<usize, rusqlite::Error>)
    ensures
        r is Ok ==> db(*final(conn)) == (Db {
            videos: videos_table(*old(conn)).map_values(|x: VideoV| if x.id == id { refreshed(x, *f) } else { x }),
            ..db(*old(conn))
        }),
        r is Err ==> db(*final(conn)) == db(*old(conn)),
{
    conn.execute(
        "UPDATE videos SET title=?1, channel_id=?2, description=?3, duration_sec=?4,
         thumbnail_path=?5, upload_date=?6, parent_dir=?7, mtime=?8, size_bytes=?9 WHERE id=?10",
        (&f.title, f.channel_id, &f.description, &f.duration_sec, &f.thumbnail_path, &f.upload_date,
         &f.parent_dir, f.mtime, f.size_bytes, id),
    )
}

/// No progress, history or playlist row refers to video `id`.
pub open spec fn video_unreferenced(d: Db, id: int) -> bool {
    &&& forall|i: int| 0 <= i < d.progress.len() ==> #[trigger] d.progress[i].video_id != id
    &&& forall|i: int| 0 <= i < d.history.len() ==> #[trigger] d.history[i].video_id != id
    &&& forall|i: int| 0 <= i < d.items.len() ==> #[trigger] d.items[i].video_id != id
}

/// `DELETE FROM videos WHERE id = ?`, once nothing refers to the video.
#[verifier::external_body]
pub(crate) fn delete_video(conn: &mut Connection, id: i64) -> (r: Result<usize, rusqlite::Error>)
    requires
        video_unreferenced(db(*old(conn)), id as int),
    ensures
        r is Ok ==> db(*final(conn)) == (Db {
            videos: videos_table(*old(conn)).filter(|x: VideoV| x.id != id),
            ..db(*old(conn))
        }),
        r is Err ==> db(*final(conn)) == db(*old(conn)),
{
    conn.execute("DELETE FROM videos WHERE id = ?1", (id,))
}

/// `INSERT ... ON CONFLICT(video_id) DO UPDATE`: the progress row of the video,
/// inserted in key order or replaced, its position as the `REAL` column holds
/// it; a position that the column would hold as NULL fails the `NOT NULL`
/// constraint. Fails without change on a missing video.
#[verifier::external_body]
pub(crate) fn put_progress(conn: &mut Connection, video_id: i64, position: &Value, updated_at: &str) -> (r: Result<usize, rusqlite::Error>)
    ensures
        r is Ok ==> real_column(*position) is Some,
        r is Ok ==> db(*final(conn)) == (Db {
            progress: progress_table(*old(conn)).filter(|x: ProgressV| x.video_id < video_id).push(
                ProgressV { video_id: video_id as int, position_sec: real_column(*position)->0, updated_at: updated_at@ },
            ) + progress_table(*old(conn)).filter(|x: ProgressV| x.video_id > video_id),
            ..db(*old(conn))
        }),
        r is Err ==> db(*final(conn)) == db(*old(conn)),
{
    conn.execute(
        "INSERT INTO watch_progress (video_id, position_sec, updated_at) VALUES (?1, ?2, ?3)
         ON CONFLICT(video_id) DO UPDATE SET position_sec=excluded.position_sec, updated_at=excluded.updated_at",
        (video_id, position, updated_at),
    )
}

/// `DELETE FROM watch_progress WHERE video_id = ?`.
#[verifier::external_body]
pub(crate) fn delete_progress(conn: &mut Connection, video_id: i64) -> (r: Result<usize, rusqlite::Error>)
    ensures
        r is Ok ==> db(*final(conn)) == (Db {
            progress: progress_table(*old(conn)).filter(|x: ProgressV| x.video_id != video_id),
            ..db(*old(conn))
        }),
        r is Err ==> db(*final(conn)) == db(*old(conn)),
{
    conn.execute("DELETE FROM watch_progress WHERE video_id = ?1", (video_id,))
}

/// `INSERT ... ON CONFLICT(video_id) DO UPDATE SET watched_at = ...`: the history
/// row of the video, inserted in key order or replaced.
#[verifier::external_body]
pub(crate) fn put_history(conn: &mut Connection, video_id: i64, watched_at: &str) -> (r: Result<usize, rusqlite::Error>)
    ensures
        r is Ok ==> db(*final(conn)) == (Db {
            history: history_table(*old(conn)).filter(|x: HistoryV| x.video_id < video_id).push(
                HistoryV { video_id: video_id as int, watched_at: watched_at@ },
            ) + history_table(*old(conn)).filter(|x: HistoryV| x.video_id > video_id),
            ..db(*old(conn))
        }),
        r is Err ==> db(*final(conn)) == db(*old(conn)),
{
    conn.execute(
        "INSERT INTO watch_history (video_id, watched_at) VALUES (?1, ?2)
         ON CONFLICT(video_id) DO UPDATE SET watched_at=excluded.watched_at",
        (video_id, watched_at),
    )
}

/// `DELETE FROM watch_history WHERE video_id = ?`.
#[verifier::external_body]
pub(crate) fn delete_history(conn: &mut Connection, video_id: i64) -> (r: Result<usize, rusqlite::Error>)
    ensures
        r is Ok ==> db(*final(conn)) == (Db {
            history: history_table(*old(conn)).filter(|x: HistoryV| x.video_id != video_id),
            ..db(*old(conn))
        }),
        r is Err ==> db(*final(conn)) == db(*old(conn)),
{
    conn.execute("DELETE FROM watch_history WHERE video_id = ?1", (video_id,))
}

/// `INSERT INTO playlists (id, name, created_at) VALUES (?, ?, ?)`; the row
/// goes to its key position.
#[verifier::external_body]
pub(crate) fn insert_playlist(conn: &mut Connection, id: i64, name: &str, created_at: &str) -> (r: Result<usize, rusqlite::Error>)
    requires
        increasing(playlist_ids(playlists_table(*old(conn)))),
        !playlist_ids(playlists_table(*old(conn))).contains(id as int),
    ensures
        r is Ok ==> db(*final(conn)) == (Db {
            playlists: playlists_table(*old(conn)).insert(
                key_position(playlist_ids(playlists_table(*old(conn))), id as int),
                PlaylistV { id: id as int, name: name@, created_at: created_at@ },
            ),
            ..db(*old(conn))
        }),
        r is Err ==> db(*final(conn)) == db(*old(conn)),
{
    conn.execute("INSERT INTO playlists (id, name, created_at) VALUES (?1, ?2, ?3)", (id, name, created_at))
}

/// `DELETE FROM playlists WHERE id = ?`, once the playlist holds no entry.
#[verifier::external_body]
pub(crate) fn delete_playlist_row(conn: &mut Connection, id: i64) -> (r: Result<usize, rusqlite::Error>)
    requires
        forall|i: int| 0 <= i < items_table(*old(conn)).len() ==> #[trigger] items_table(*old(conn))[i].playlist_id != id,
    ensures
        r is Ok ==> db(*final(conn)) == (Db {
            playlists: playlists_table(*old(conn)).filter(|x: PlaylistV| x.id != id),
            ..db(*old(conn))
        }),
        r is Ok ==> r->Ok_0 == playlists_table(*old(conn)).len() - playlists_table(*final(conn)).len(),
        r is Err ==> db(*final(conn)) == db(*old(conn)),
{
    conn.execute("DELETE FROM playlists WHERE id = ?1", (id,))
}

/// `INSERT INTO playlist_items (...) VALUES (...)` of an entry not yet stored;
/// the row goes to its key position. Fails without change on a missing
/// playlist or video.
#[verifier::external_body]
pub(crate) fn insert_item(conn: &mut Connection, playlist_id: i64, video_id: i64, position: i64, added_at: &str) -> (r: Result<usize, rusqlite::Error>)
    ensures
        r is Ok ==> db(*final(conn)) == (Db {
            items: items_table(*old(conn)).filter(|x: ItemV| item_key_lt(x, ItemV { playlist_id: playlist_id as int, video_id: video_id as int, position: position as int, added_at: added_at@ })).push(
                ItemV { playlist_id: playlist_id as int, video_id: video_id as int, position: position as int, added_at: added_at@ },
            ) + items_table(*old(conn)).filter(|x: ItemV| item_key_lt(ItemV { playlist_id: playlist_id as int, video_id: video_id as int, position: position as int, added_at: added_at@ }, x)),
            ..db(*old(conn))
        }),
        r is Err ==> db(*final(conn)) == db(*old(conn)),
{
    conn.execute(
        "INSERT INTO playlist_items (playlist_id, video_id, position, added_at) VALUES (?1, ?2, ?3, ?4)",
        (playlist_id, video_id, position, added_at),
    )
}

/// `DELETE FROM playlist_items WHERE playlist_id = ? AND video_id = ?`; the
/// count is the number of rows removed.
#[verifier::external_body]
pub(crate) fn delete_item(conn: &mut Connection, playlist_id: i64, video_id: i64) -> (r: Result<usize, rusqlite::Error>)
    ensures
        r is Ok ==> db(*final(conn)) == (Db {
            items: items_table(*old(conn)).filter(|x: ItemV| !(x.playlist_id == playlist_id && x.video_id == video_id)),
            ..db(*old(conn))
        }),
        r is Ok ==> r->Ok_0 == items_table(*old(conn)).len() - items_table(*final(conn)).len(),
        r is Err ==> db(*final(conn)) == db(*old(conn)),
{
    conn.execute("DELETE FROM playlist_items WHERE playlist_id = ?1 AND video_id = ?2", (playlist_id, video_id))
}

/// `DELETE FROM playlist_items WHERE video_id = ?`: the video leaves every playlist.
#[verifier::external_body]
pub(crate) fn delete_items_of_video(conn: &mut Connection, video_id: i64) -> (r: Result<usize, rusqlite::Error>)
    ensures
        r is Ok ==> db(*final(conn)) == (Db {
            items: items_table(*old(conn)).filter(|x: ItemV| x.video_id != video_id),
            ..db(*old(conn))
        }),
        r is Err ==> db(*final(conn)) == db(*old(conn)),
{
    conn.execute("DELETE FROM playlist_items WHERE video_id = ?1", (video_id,))
}

/// `DELETE FROM playlist_items WHERE playlist_id = ?`: the playlist is emptied.
#[verifier::external_body]
pub(crate) fn delete_items_of_playlist(conn: &mut Connection, playlist_id: i64) -> (r: Result<usize, rusqlite::Error>)
    ensures
        r is Ok ==> db(*final(conn)) == (Db {
            items: items_table(*old(conn)).filter(|x: ItemV| x.playlist_id != playlist_id),
            ..db(*old(conn))
        }),
        r is Err ==> db(*final(conn)) == db(*old(conn)),
{
    conn.execute("DELETE FROM playlist_items WHERE playlist_id = ?1", (playlist_id,))
}

} // verus!
