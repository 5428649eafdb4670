//! Rows of the catalog tables as read into memory, and the order in which
//! each kind of row is listed.
use crate::error::{db_error, from_sqlite, AppError, AppResult};
use crate::models::{Source, SourceV};
use crate::order::{reversed, strict_order, views, Ranked};
use crate::store::{
    channel_cols_v, channels_table, db, history_cols_v, history_table, item_cols_v, items_table, oi, ov,
    playlist_cols_v, playlists_table, progress_cols_v, progress_table, read_channels, read_history, read_items,
    read_playlists, read_progress, read_sources, read_videos, sources_table, video_cols_v, videos_table,
    well_ordered, Db, increasing, item_key_lt, items_increasing, source_ids, channel_ids, video_ids, progress_ids, history_ids,
    playlist_ids, ChannelCols, ChannelV, HistoryCols, HistoryV, ItemCols, ItemV, PlaylistCols, PlaylistV,
    ProgressCols, ProgressV, VideoCols, VideoV,
};
use crate::text::{
    fold_ascii, lemma_seq_lt_asymmetric, lemma_seq_lt_irreflexive, lemma_seq_lt_transitive, seq_lt, str_eq, str_lt,
    str_lt_nocase,
};
use rusqlite::types::Value;
use rusqlite::Connection;
use vstd::prelude::*;

verus! {

pub struct ChannelRow {
    pub id: i64,
    pub slug: String,
    pub name: String,
}

impl View for ChannelRow {
    type V = ChannelV;

    open spec fn view(&self) -> ChannelV {
        ChannelV { id: self.id as int, slug: self.slug@, name: self.name@ }
    }
}

pub struct VideoRow {
    pub id: i64,
    pub path: String,
    pub source_id: i64,
    pub channel_id: Option<i64>,
    pub title: String,
    pub description: Option<String>,
    pub duration_sec: Option<Value>,
    pub thumbnail_path: Option<String>,
    pub upload_date: Option<String>,
    pub parent_dir: String,
    pub mtime: i64,
    pub size_bytes: i64,
    pub added_at: String,
}

impl View for VideoRow {
    type V = VideoV;

    open spec fn view(&self) -> VideoV {
        VideoV {
            id: self.id as int,
            path: self.path@,
            source_id: self.source_id as int,
            channel_id: oi(self.channel_id),
            title: self.title@,
            description: ov(self.description),
            duration_sec: self.duration_sec,
            thumbnail_path: ov(self.thumbnail_path),
            upload_date: ov(self.upload_date),
            parent_dir: self.parent_dir@,
            mtime: self.mtime as int,
            size_bytes: self.size_bytes as int,
            added_at: self.added_at@,
        }
    }
}

pub struct ProgressRow {
    pub video_id: i64,
    pub position_sec: Value,
    pub updated_at: String,
}

impl View for ProgressRow {
    type V = ProgressV;

    open spec fn view(&self) -> ProgressV {
        ProgressV { video_id: self.video_id as int, position_sec: self.position_sec, updated_at: self.updated_at@ }
    }
}

pub struct HistoryRow {
    pub video_id: i64,
    pub watched_at: String,
}

impl View for HistoryRow {
    type V = HistoryV;

    open spec fn view(&self) -> HistoryV {
        HistoryV { video_id: self.video_id as int, watched_at: self.watched_at@ }
    }
}

pub struct PlaylistRow {
    pub id: i64,
    pub name: String,
    pub created_at: String,
}

impl View for PlaylistRow {
    type V = PlaylistV;

    open spec fn view(&self) -> PlaylistV {
        PlaylistV { id: self.id as int, name: self.name@, created_at: self.created_at@ }
    }
}

pub struct ItemRow {
    pub playlist_id: i64,
    pub video_id: i64,
    pub position: i64,
    pub added_at: String,
}

impl View for ItemRow {
    type V = ItemV;

    open spec fn view(&self) -> ItemV {
        ItemV {
            playlist_id: self.playlist_id as int,
            video_id: self.video_id as int,
            position: self.position as int,
            added_at: self.added_at@,
        }
    }
}

// ---------------------------------------------------------------------------
// Key order of loaded tables

/// The message of a table whose rows do not all have distinct keys.
pub open spec fn key_clash_message() -> Seq<char> {
    "a table holds two rows with the same key"@
}

/// The error of a table whose rows do not all have distinct keys.
pub open spec fn is_key_clash(e: AppError) -> bool {
    e matches AppError::Db(m) && m@ == key_clash_message()
}

/// An error of reading the catalog `d`: a failure SQLite reported, or a
/// table of `d` whose keys are not distinct.
pub open spec fn db_failure(e: AppError, d: Db) -> bool {
    from_sqlite(e) || (is_key_clash(e) && !well_ordered(d))
}

fn key_clash() -> (r: AppError)
    ensures
        is_key_clash(r),
{
    AppError::Db(String::from_str("a table holds two rows with the same key"))
}

proof fn lemma_increasing_step(k: Seq<int>, i: int)
    requires
        0 < i < k.len(),
        increasing(k.subrange(0, i)),
        k[i - 1] < k[i],
    ensures
        increasing(k.subrange(0, i + 1)),
{
    let a0 = k.subrange(0, i);
    let a1 = k.subrange(0, i + 1);
    assert forall|a: int, b: int| 0 <= a < b < a1.len() implies a1[a] < a1[b] by {
        if b < i {
            assert(a0[a] == k[a] && a0[b] == k[b]);
        } else if a < i - 1 {
            assert(a0[a] == k[a] && a0[i - 1] == k[i - 1]);
        }
    }
}

/// Whether the keys of the loaded rows strictly increase.
fn source_keys_increase(v: &Vec<Source>) -> (r: bool)
    ensures
        r == increasing(source_ids(views(v@))),
{
    let ghost k = source_ids(views(v@));
    if v.len() == 0 {
        return true;
    }
    assert(increasing(k.subrange(0, 1)));
    let mut i: usize = 1;
    while i < v.len()
        invariant
            1 <= i <= v.len(),
            k == source_ids(views(v@)),
            increasing(k.subrange(0, i as int)),
        decreases v.len() - i,
    {
        assert(k[i - 1] == v@[i - 1].id);
        assert(k[i as int] == v@[i as int].id);
        if v[i - 1].id >= v[i].id {
            assert(!increasing(k));
            return false;
        }
        proof {
            lemma_increasing_step(k, i as int);
        }
        i += 1;
    }
    assert(k.subrange(0, v.len() as int) =~= k);
    true
}

/// Whether the keys of the loaded rows strictly increase.
fn channel_keys_increase(v: &Vec<ChannelRow>) -> (r: bool)
    ensures
        r == increasing(channel_ids(views(v@))),
{
    let ghost k = channel_ids(views(v@));
    if v.len() == 0 {
        return true;
    }
    assert(increasing(k.subrange(0, 1)));
    let mut i: usize = 1;
    while i < v.len()
        invariant
            1 <= i <= v.len(),
            k == channel_ids(views(v@)),
            increasing(k.subrange(0, i as int)),
        decreases v.len() - i,
    {
        assert(k[i - 1] == v@[i - 1].id);
        assert(k[i as int] == v@[i as int].id);
        if v[i - 1].id >= v[i].id {
            assert(!increasing(k));
            return false;
        }
        proof {
            lemma_increasing_step(k, i as int);
        }
        i += 1;
    }
    assert(k.subrange(0, v.len() as int) =~= k);
    true
}

/// Whether the keys of the loaded rows strictly increase.
fn video_keys_increase(v: &Vec<VideoRow>) -> (r: bool)
    ensures
        r == increasing(video_ids(views(v@))),
{
    let ghost k = video_ids(views(v@));
    if v.len() == 0 {
        return true;
    }
    assert(increasing(k.subrange(0, 1)));
    let mut i: usize = 1;
    while i < v.len()
        invariant
            1 <= i <= v.len(),
            k == video_ids(views(v@)),
            increasing(k.subrange(0, i as int)),
        decreases v.len() - i,
    {
        assert(k[i - 1] == v@[i - 1].id);
        assert(k[i as int] == v@[i as int].id);
        if v[i - 1].id >= v[i].id {
            assert(!increasing(k));
            return false;
        }
        proof {
            lemma_increasing_step(k, i as int);
        }
        i += 1;
    }
    assert(k.subrange(0, v.len() as int) =~= k);
    true
}

/// Whether the keys of the loaded rows strictly increase.
fn progress_keys_increase(v: &Vec<ProgressRow>) -> (r: bool)
    ensures
        r == increasing(progress_ids(views(v@))),
{
    let ghost k = progress_ids(views(v@));
    if v.len() == 0 {
        return true;
    }
    assert(increasing(k.subrange(0, 1)));
    let mut i: usize = 1;
    while i < v.len()
        invariant
            1 <= i <= v.len(),
            k == progress_ids(views(v@)),
            increasing(k.subrange(0, i as int)),
        decreases v.len() - i,
    {
        assert(k[i - 1] == v@[i - 1].video_id);
        assert(k[i as int] == v@[i as int].video_id);
        if v[i - 1].video_id >= v[i].video_id {
            assert(!increasing(k));
            return false;
        }
        proof {
            lemma_increasing_step(k, i as int);
        }
        i += 1;
    }
    assert(k.subrange(0, v.len() as int) =~= k);
    true
}

/// Whether the keys of the loaded rows strictly increase.
fn history_keys_increase(v: &Vec<HistoryRow>) -> (r: bool)
    ensures
        r == increasing(history_ids(views(v@))),
{
    let ghost k = history_ids(views(v@));
    if v.len() == 0 {
        return true;
    }
    assert(increasing(k.subrange(0, 1)));
    let mut i: usize = 1;
    while i < v.len()
        invariant
            1 <= i <= v.len(),
            k == history_ids(views(v@)),
            increasing(k.subrange(0, i as int)),
        decreases v.len() - i,
    {
        assert(k[i - 1] == v@[i - 1].video_id);
        assert(k[i as int] == v@[i as int].video_id);
        if v[i - 1].video_id >= v[i].video_id {
            assert(!increasing(k));
            return false;
        }
        proof {
            lemma_increasing_step(k, i as int);
        }
        i += 1;
    }
    assert(k.subrange(0, v.len() as int) =~= k);
    true
}

/// Whether the keys of the loaded rows strictly increase.
fn playlist_keys_increase(v: &Vec<PlaylistRow>) -> (r: bool)
    ensures
        r == increasing(playlist_ids(views(v@))),
{
    let ghost k = playlist_ids(views(v@));
    if v.len() == 0 {
        return true;
    }
    assert(increasing(k.subrange(0, 1)));
    let mut i: usize = 1;
    while i < v.len()
        invariant
            1 <= i <= v.len(),
            k == playlist_ids(views(v@)),
            increasing(k.subrange(0, i as int)),
        decreases v.len() - i,
    {
        assert(k[i - 1] == v@[i - 1].id);
        assert(k[i as int] == v@[i as int].id);
        if v[i - 1].id >= v[i].id {
            assert(!increasing(k));
            return false;
        }
        proof {
            lemma_increasing_step(k, i as int);
        }
        i += 1;
    }
    assert(k.subrange(0, v.len() as int) =~= k);
    true
}

/// Whether the (playlist, video) keys of the loaded entries strictly increase.
fn item_keys_increase(v: &Vec<ItemRow>) -> (r: bool)
    ensures
        r == items_increasing(views(v@)),
{
    let ghost k = views(v@);
    if v.len() == 0 {
        return true;
    }
    let mut i: usize = 1;
    while i < v.len()
        invariant
            1 <= i <= v.len(),
            k == views(v@),
            items_increasing(k.subrange(0, i as int)),
        decreases v.len() - i,
    {
        assert(k[i - 1] == v@[i - 1]@);
        assert(k[i as int] == v@[i as int]@);
        let a = &v[i - 1];
        let b = &v[i];
        if !(a.playlist_id < b.playlist_id || (a.playlist_id == b.playlist_id && a.video_id < b.video_id)) {
            assert(!item_key_lt(k[i - 1], k[i as int]));
            assert(!items_increasing(k));
            return false;
        }
        proof {
            let a0 = k.subrange(0, i as int);
            let a1 = k.subrange(0, i + 1);
            assert forall|x: int, y: int| 0 <= x < y < a1.len() implies item_key_lt(a1[x], a1[y]) by {
                if y < i {
                    assert(a0[x] == k[x] && a0[y] == k[y]);
                } else {
                    assert(a1[x] == k[x] && a1[y] == k[i as int]);
                    assert(item_key_lt(k[i - 1], k[i as int]));
                    if x < i - 1 {
                        assert(a0[x] == k[x] && a0[i - 1] == k[i - 1]);
                        assert(item_key_lt(a0[x], a0[i - 1]));
                    }
                }
            }
        }
        i += 1;
    }
    assert(k.subrange(0, v.len() as int) =~= k);
    true
}

// ---------------------------------------------------------------------------
// Loading whole tables

/// The `sources` table. A table with two rows under one key is refused
/// with the key-clash error.
pub fn load_sources(conn: &Connection) -> (r: AppResult<Vec<Source>>)
    ensures
        r matches Ok(v) ==> views(v@) == sources_table(*conn) && increasing(source_ids(sources_table(*conn))),
        r matches Err(e) ==> e is Db && (from_sqlite(e) || (is_key_clash(e) && !increasing(source_ids(sources_table(*conn))))),
{
    let raw = match read_sources(conn) {
        Ok(v) => v,
        Err(e) => return Err(db_error(e)),
    };
    let ghost t = raw@;
    let n = raw.len();
    let mut raw = reversed(raw);
    let mut out: Vec<Source> = Vec::new();
    let mut i: usize = 0;
    while i < n
        invariant
            i <= n == t.len(),
            raw@.len() == n - i,
            forall|j: int| 0 <= j < n - i ==> raw@[j] == t[n - 1 - j],
            views(out@) == sources_table(*conn).subrange(0, i as int),
            t.map_values(|t: (i64, String, String, Option<String>, bool)| SourceV {
                id: t.0 as int,
                path: t.1@,
                added_at: t.2@,
                last_scanned_at: ov(t.3),
                available: t.4,
            }) == sources_table(*conn),
        decreases n - i,
    {
        let ghost before = views(out@);
        let c = raw.pop().unwrap();
        assert(c == t[i as int]);
        out.push(Source { id: c.0, path: c.1, added_at: c.2, last_scanned_at: c.3, available: c.4 });
        assert(views(out@) =~= before.push(sources_table(*conn)[i as int]));
        assert(sources_table(*conn).subrange(0, i + 1) =~= sources_table(*conn).subrange(0, i as int).push(
            sources_table(*conn)[i as int],
        ));
        i += 1;
    }
    assert(sources_table(*conn).subrange(0, n as int) =~= sources_table(*conn));
    if !source_keys_increase(&out) {
        return Err(key_clash());
    }
    Ok(out)
}


/// The `channels` table. A table with two rows under one key is refused
/// with the key-clash error.
pub fn load_channels(conn: &Connection) -> (r: AppResult<Vec<ChannelRow>>)
    ensures
        r matches Ok(v) ==> views(v@) == channels_table(*conn) && increasing(channel_ids(channels_table(*conn))),
        r matches Err(e) ==> e is Db && (from_sqlite(e) || (is_key_clash(e) && !increasing(channel_ids(channels_table(*conn))))),
{
    let raw = match read_channels(conn) {
        Ok(v) => v,
        Err(e) => return Err(db_error(e)),
    };
    let ghost t = raw@;
    let n = raw.len();
    let mut raw = reversed(raw);
    let mut out: Vec<ChannelRow> = Vec::new();
    let mut i: usize = 0;
    while i < n
        invariant
            i <= n == t.len(),
            raw@.len() == n - i,
            forall|j: int| 0 <= j < n - i ==> raw@[j] == t[n - 1 - j],
            views(out@) == channels_table(*conn).subrange(0, i as int),
            t.map_values(|t: ChannelCols| channel_cols_v(t)) == channels_table(*conn),
        decreases n - i,
    {
        let ghost before = views(out@);
        let c = raw.pop().unwrap();
        assert(c == t[i as int]);
        out.push(ChannelRow { id: c.0, slug: c.1, name: c.2 });
        assert(views(out@) =~= before.push(channels_table(*conn)[i as int]));
        assert(channels_table(*conn).subrange(0, i + 1) =~= channels_table(*conn).subrange(0, i as int).push(
            channels_table(*conn)[i as int],
        ));
        i += 1;
    }
    assert(channels_table(*conn).subrange(0, n as int) =~= channels_table(*conn));
    if !channel_keys_increase(&out) {
        return Err(key_clash());
    }
    Ok(out)
}

/// The `videos` table. A table with two rows under one key is refused
/// with the key-clash error.
pub fn load_videos(conn: &Connection) -> (r: AppResult<Vec<VideoRow>>)
    ensures
        r matches Ok(v) ==> views(v@) == videos_table(*conn) && increasing(video_ids(videos_table(*conn))),
        r matches Err(e) ==> e is Db && (from_sqlite(e) || (is_key_clash(e) && !increasing(video_ids(videos_table(*conn))))),
{
    let raw = match read_videos(conn) {
        Ok(v) => v,
        Err(e) => return Err(db_error(e)),
    };
    let ghost t = raw@;
    let n = raw.len();
    let mut raw = reversed(raw);
    let mut out: Vec<VideoRow> = Vec::new();
    let mut i: usize = 0;
    while i < n
        invariant
            i <= n == t.len(),
            raw@.len() == n - i,
            forall|j: int| 0 <= j < n - i ==> raw@[j] == t[n - 1 - j],
            views(out@) == videos_table(*conn).subrange(0, i as int),
            t.map_values(|t: VideoCols| video_cols_v(t)) == videos_table(*conn),
        decreases n - i,
    {
        let ghost before = views(out@);
        let c = raw.pop().unwrap();
        assert(c == t[i as int]);
        out.push(VideoRow { id: c.0, path: c.1, source_id: c.2, channel_id: c.3, title: c.4, description: c.5, duration_sec: c.6, thumbnail_path: c.7, upload_date: c.8, parent_dir: c.9, mtime: c.10, size_bytes: c.11, added_at: c.12 });
        assert(views(out@) =~= before.push(videos_table(*conn)[i as int]));
        assert(videos_table(*conn).subrange(0, i + 1) =~= videos_table(*conn).subrange(0, i as int).push(
            videos_table(*conn)[i as int],
        ));
        i += 1;
    }
    assert(videos_table(*conn).subrange(0, n as int) =~= videos_table(*conn));
    if !video_keys_increase(&out) {
        return Err(key_clash());
    }
    Ok(out)
}

/// The `progress` table. A table with two rows under one key is refused
/// with the key-clash error.
pub fn load_progress(conn: &Connection) -> (r: AppResult<Vec<ProgressRow>>)
    ensures
        r matches Ok(v) ==> views(v@) == progress_table(*conn) && increasing(progress_ids(progress_table(*conn))),
        r matches Err(e) ==> e is Db && (from_sqlite(e) || (is_key_clash(e) && !increasing(progress_ids(progress_table(*conn))))),
{
    let raw = match read_progress(conn) {
        Ok(v) => v,
        Err(e) => return Err(db_error(e)),
    };
    let ghost t = raw@;
    let n = raw.len();
    let mut raw = reversed(raw);
    let mut out: Vec<ProgressRow> = Vec::new();
    let mut i: usize = 0;
    while i < n
        invariant
            i <= n == t.len(),
            raw@.len() == n - i,
            forall|j: int| 0 <= j < n - i ==> raw@[j] == t[n - 1 - j],
            views(out@) == progress_table(*conn).subrange(0, i as int),
            t.map_values(|t: ProgressCols| progress_cols_v(t)) == progress_table(*conn),
        decreases n - i,
    {
        let ghost before = views(out@);
        let c = raw.pop().unwrap();
        assert(c == t[i as int]);
        out.push(ProgressRow { video_id: c.0, position_sec: c.1, updated_at: c.2 });
        assert(views(out@) =~= before.push(progress_table(*conn)[i as int]));
        assert(progress_table(*conn).subrange(0, i + 1) =~= progress_table(*conn).subrange(0, i as int).push(
            progress_table(*conn)[i as int],
        ));
        i += 1;
    }
    assert(progress_table(*conn).subrange(0, n as int) =~= progress_table(*conn));
    if !progress_keys_increase(&out) {
        return Err(key_clash());
    }
    Ok(out)
}

/// The `history` table. A table with two rows under one key is refused
/// with the key-clash error.
pub fn load_history(conn: &Connection) -> (r: AppResult<Vec<HistoryRow>>)
    ensures
        r matches Ok(v) ==> views(v@) == history_table(*conn) && increasing(history_ids(history_table(*conn))),
        r matches Err(e) ==> e is Db && (from_sqlite(e) || (is_key_clash(e) && !increasing(history_ids(history_table(*conn))))),
{
    let raw = match read_history(conn) {
        Ok(v) => v,
        Err(e) => return Err(db_error(e)),
    };
    let ghost t = raw@;
    let n = raw.len();
    let mut raw = reversed(raw);
    let mut out: Vec<HistoryRow> = Vec::new();
    let mut i: usize = 0;
    while i < n
        invariant
            i <= n == t.len(),
            raw@.len() == n - i,
            forall|j: int| 0 <= j < n - i ==> raw@[j] == t[n - 1 - j],
            views(out@) == history_table(*conn).subrange(0, i as int),
            t.map_values(|t: HistoryCols| history_cols_v(t)) == history_table(*conn),
        decreases n - i,
    {
        let ghost before = views(out@);
        let c = raw.pop().unwrap();
        assert(c == t[i as int]);
        out.push(HistoryRow { video_id: c.0, watched_at: c.1 });
        assert(views(out@) =~= before.push(history_table(*conn)[i as int]));
        assert(history_table(*conn).subrange(0, i + 1) =~= history_table(*conn).subrange(0, i as int).push(
            history_table(*conn)[i as int],
        ));
        i += 1;
    }
    assert(history_table(*conn).subrange(0, n as int) =~= history_table(*conn));
    if !history_keys_increase(&out) {
        return Err(key_clash());
    }
    Ok(out)
}

/// The `playlists` table. A table with two rows under one key is refused
/// with the key-clash error.
pub fn load_playlists(conn: &Connection) -> (r: AppResult<Vec<PlaylistRow>>)
    ensures
        r matches Ok(v) ==> views(v@) == playlists_table(*conn) && increasing(playlist_ids(playlists_table(*conn))),
        r matches Err(e) ==> e is Db && (from_sqlite(e) || (is_key_clash(e) && !increasing(playlist_ids(playlists_table(*conn))))),
{
    let raw = match read_playlists(conn) {
        Ok(v) => v,
        Err(e) => return Err(db_error(e)),
    };
    let ghost t = raw@;
    let n = raw.len();
    let mut raw = reversed(raw);
    let mut out: Vec<PlaylistRow> = Vec::new();
    let mut i: usize = 0;
    while i < n
        invariant
            i <= n == t.len(),
            raw@.len() == n - i,
            forall|j: int| 0 <= j < n - i ==> raw@[j] == t[n - 1 - j],
            views(out@) == playlists_table(*conn).subrange(0, i as int),
            t.map_values(|t: PlaylistCols| playlist_cols_v(t)) == playlists_table(*conn),
        decreases n - i,
    {
        let ghost before = views(out@);
        let c = raw.pop().unwrap();
        assert(c == t[i as int]);
        out.push(PlaylistRow { id: c.0, name: c.1, created_at: c.2 });
        assert(views(out@) =~= before.push(playlists_table(*conn)[i as int]));
        assert(playlists_table(*conn).subrange(0, i + 1) =~= playlists_table(*conn).subrange(0, i as int).push(
            playlists_table(*conn)[i as int],
        ));
        i += 1;
    }
    assert(playlists_table(*conn).subrange(0, n as int) =~= playlists_table(*conn));
    if !playlist_keys_increase(&out) {
        return Err(key_clash());
    }
    Ok(out)
}

/// The `items` table. A table with two rows under one key is refused
/// with the key-clash error.
pub fn load_items(conn: &Connection) -> (r: AppResult<Vec<ItemRow>>)
    ensures
        r matches Ok(v) ==> views(v@) == items_table(*conn) && items_increasing(items_table(*conn)),
        r matches Err(e) ==> e is Db && (from_sqlite(e) || (is_key_clash(e) && !items_increasing(items_table(*conn)))),
{
    let raw = match read_items(conn) {
        Ok(v) => v,
        Err(e) => return Err(db_error(e)),
    };
    let ghost t = raw@;
    let n = raw.len();
    let mut raw = reversed(raw);
    let mut out: Vec<ItemRow> = Vec::new();
    let mut i: usize = 0;
    while i < n
        invariant
            i <= n == t.len(),
            raw@.len() == n - i,
            forall|j: int| 0 <= j < n - i ==> raw@[j] == t[n - 1 - j],
            views(out@) == items_table(*conn).subrange(0, i as int),
            t.map_values(|t: ItemCols| item_cols_v(t)) == items_table(*conn),
        decreases n - i,
    {
        let ghost before = views(out@);
        let c = raw.pop().unwrap();
        assert(c == t[i as int]);
        out.push(ItemRow { playlist_id: c.0, video_id: c.1, position: c.2, added_at: c.3 });
        assert(views(out@) =~= before.push(items_table(*conn)[i as int]));
        assert(items_table(*conn).subrange(0, i + 1) =~= items_table(*conn).subrange(0, i as int).push(
            items_table(*conn)[i as int],
        ));
        i += 1;
    }
    assert(items_table(*conn).subrange(0, n as int) =~= items_table(*conn));
    if !item_keys_increase(&out) {
        return Err(key_clash());
    }
    Ok(out)
}

// ---------------------------------------------------------------------------
// Listing orders

/// Newest first: dated videos before undated ones, later upload date first,
/// then later file time first, then lower id first.
pub open spec fn video_before(a: VideoV, b: VideoV) -> bool {
    let tie = a.mtime > b.mtime || (a.mtime == b.mtime && a.id < b.id);
    match (a.upload_date, b.upload_date) {
        (Some(_), None) => true,
        (None, Some(_)) => false,
        (Some(x), Some(y)) => if x != y {
            seq_lt(y, x)
        } else {
            tie
        },
        (None, None) => tie,
    }
}

impl Ranked for VideoRow {
    open spec fn before(a: VideoV, b: VideoV) -> bool {
        video_before(a, b)
    }

    fn is_before(&self, other: &Self) -> (r: bool) {
        let tie = self.mtime > other.mtime || (self.mtime == other.mtime && self.id < other.id);
        match (&self.upload_date, &other.upload_date) {
            (Some(_), None) => true,
            (None, Some(_)) => false,
            (Some(x), Some(y)) => if !str_eq(x.as_str(), y.as_str()) {
                str_lt(y.as_str(), x.as_str())
            } else {
                tie
            },
            (None, None) => tie,
        }
    }
}

/// Most recently watched first, then lower video id first.
pub open spec fn history_before(a: HistoryV, b: HistoryV) -> bool {
    if a.watched_at != b.watched_at {
        seq_lt(b.watched_at, a.watched_at)
    } else {
        a.video_id < b.video_id
    }
}

impl Ranked for HistoryRow {
    open spec fn before(a: HistoryV, b: HistoryV) -> bool {
        history_before(a, b)
    }

    fn is_before(&self, other: &Self) -> (r: bool) {
        if !str_eq(self.watched_at.as_str(), other.watched_at.as_str()) {
            str_lt(other.watched_at.as_str(), self.watched_at.as_str())
        } else {
            self.video_id < other.video_id
        }
    }
}

/// By name with ASCII letters folded to lowercase, then lower id first.
pub open spec fn channel_before(a: ChannelV, b: ChannelV) -> bool {
    if fold_ascii(a.name) != fold_ascii(b.name) {
        seq_lt(fold_ascii(a.name), fold_ascii(b.name))
    } else {
        a.id < b.id
    }
}

impl Ranked for ChannelRow {
    open spec fn before(a: ChannelV, b: ChannelV) -> bool {
        channel_before(a, b)
    }

    fn is_before(&self, other: &Self) -> (r: bool) {
        if !crate::text::str_eq_nocase(self.name.as_str(), other.name.as_str()) {
            str_lt_nocase(self.name.as_str(), other.name.as_str())
        } else {
            self.id < other.id
        }
    }
}

/// By position, then by time added, then lower video id first.
pub open spec fn item_before(a: ItemV, b: ItemV) -> bool {
    if a.position != b.position {
        a.position < b.position
    } else if a.added_at != b.added_at {
        seq_lt(a.added_at, b.added_at)
    } else {
        a.video_id < b.video_id
    }
}

impl Ranked for ItemRow {
    open spec fn before(a: ItemV, b: ItemV) -> bool {
        item_before(a, b)
    }

    fn is_before(&self, other: &Self) -> (r: bool) {
        if self.position != other.position {
            self.position < other.position
        } else if !str_eq(self.added_at.as_str(), other.added_at.as_str()) {
            str_lt(self.added_at.as_str(), other.added_at.as_str())
        } else {
            self.video_id < other.video_id
        }
    }
}

/// Most recently created first, then lower id first.
pub open spec fn playlist_before(a: PlaylistV, b: PlaylistV) -> bool {
    if a.created_at != b.created_at {
        seq_lt(b.created_at, a.created_at)
    } else {
        a.id < b.id
    }
}

impl Ranked for PlaylistRow {
    open spec fn before(a: PlaylistV, b: PlaylistV) -> bool {
        playlist_before(a, b)
    }

    fn is_before(&self, other: &Self) -> (r: bool) {
        if !str_eq(self.created_at.as_str(), other.created_at.as_str()) {
            str_lt(other.created_at.as_str(), self.created_at.as_str())
        } else {
            self.id < other.id
        }
    }
}

// ---------------------------------------------------------------------------
// Each listing order is a strict order

/// Newest first is a strict order.
pub proof fn lemma_video_order()
    ensures
        strict_order::<VideoRow>(),
{
    assert forall|a: VideoV| !#[trigger] video_before(a, a) by {
        match a.upload_date {
            Some(x) => lemma_seq_lt_irreflexive(x),
            None => {},
        }
    }
    assert forall|a: VideoV, b: VideoV, c: VideoV|
        #[trigger] video_before(a, b) && #[trigger] video_before(b, c) implies video_before(a, c) by {
        match (a.upload_date, b.upload_date, c.upload_date) {
            (Some(x), Some(y), Some(z)) => {
                lemma_seq_lt_asymmetric(x, y);
                lemma_seq_lt_asymmetric(y, z);
                lemma_seq_lt_asymmetric(x, z);
                if seq_lt(y, x) && seq_lt(z, y) {
                    lemma_seq_lt_transitive(z, y, x);
                }
            },
            _ => {},
        }
    }
}

/// Most recently watched first is a strict order.
pub proof fn lemma_history_order()
    ensures
        strict_order::<HistoryRow>(),
{
    assert forall|a: HistoryV| !#[trigger] history_before(a, a) by {
        lemma_seq_lt_irreflexive(a.watched_at);
    }
    assert forall|a: HistoryV, b: HistoryV, c: HistoryV|
        #[trigger] history_before(a, b) && #[trigger] history_before(b, c) implies history_before(a, c) by {
        lemma_seq_lt_asymmetric(a.watched_at, b.watched_at);
        lemma_seq_lt_asymmetric(b.watched_at, c.watched_at);
        lemma_seq_lt_asymmetric(a.watched_at, c.watched_at);
        if seq_lt(b.watched_at, a.watched_at) && seq_lt(c.watched_at, b.watched_at) {
            lemma_seq_lt_transitive(c.watched_at, b.watched_at, a.watched_at);
        }
    }
}

/// By name without ASCII case is a strict order.
pub proof fn lemma_channel_order()
    ensures
        strict_order::<ChannelRow>(),
{
    assert forall|a: ChannelV| !#[trigger] channel_before(a, a) by {
        lemma_seq_lt_irreflexive(fold_ascii(a.name));
    }
    assert forall|a: ChannelV, b: ChannelV, c: ChannelV|
        #[trigger] channel_before(a, b) && #[trigger] channel_before(b, c) implies channel_before(a, c) by {
        let (x, y, z) = (fold_ascii(a.name), fold_ascii(b.name), fold_ascii(c.name));
        lemma_seq_lt_asymmetric(x, y);
        lemma_seq_lt_asymmetric(y, z);
        lemma_seq_lt_asymmetric(x, z);
        if seq_lt(x, y) && seq_lt(y, z) {
            lemma_seq_lt_transitive(x, y, z);
        }
    }
}

/// Playlist order is a strict order.
pub proof fn lemma_item_order()
    ensures
        strict_order::<ItemRow>(),
{
    assert forall|a: ItemV| !#[trigger] item_before(a, a) by {
        lemma_seq_lt_irreflexive(a.added_at);
    }
    assert forall|a: ItemV, b: ItemV, c: ItemV|
        #[trigger] item_before(a, b) && #[trigger] item_before(b, c) implies item_before(a, c) by {
        lemma_seq_lt_asymmetric(a.added_at, b.added_at);
        lemma_seq_lt_asymmetric(b.added_at, c.added_at);
        lemma_seq_lt_asymmetric(a.added_at, c.added_at);
        if seq_lt(a.added_at, b.added_at) && seq_lt(b.added_at, c.added_at) {
            lemma_seq_lt_transitive(a.added_at, b.added_at, c.added_at);
        }
    }
}

/// Most recently created first is a strict order.
pub proof fn lemma_playlist_order()
    ensures
        strict_order::<PlaylistRow>(),
{
    assert forall|a: PlaylistV| !#[trigger] playlist_before(a, a) by {
        lemma_seq_lt_irreflexive(a.created_at);
    }
    assert forall|a: PlaylistV, b: PlaylistV, c: PlaylistV|
        #[trigger] playlist_before(a, b) && #[trigger] playlist_before(b, c) implies playlist_before(a, c) by {
        lemma_seq_lt_asymmetric(a.created_at, b.created_at);
        lemma_seq_lt_asymmetric(b.created_at, c.created_at);
        lemma_seq_lt_asymmetric(a.created_at, c.created_at);
        if seq_lt(b.created_at, a.created_at) && seq_lt(c.created_at, b.created_at) {
            lemma_seq_lt_transitive(c.created_at, b.created_at, a.created_at);
        }
    }
}
} // verus!
