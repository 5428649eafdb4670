//! User playlists: named lists of videos, kept in the order they were added.
use crate::catalog::{cards, clone_video, find_video, get_video, is_shown, not_found_id, offset_of, page_offset, shown, to_cards, video_at};
use crate::clock::{is_timestamp, now_iso};
use crate::error::{db_error, from_sqlite, AppError, AppResult};
use crate::models::{Page, Playlist, PlaylistInfoV, VideoCard};
use crate::order::{lemma_sort_all, lemma_sorted_in_order, page_slice, sort_ranked, sort_rows, take_page, views};
use crate::rows::{db_failure, lemma_playlist_order, load_channels, load_items, load_playlists, load_sources, load_videos, playlist_before, ItemRow, PlaylistRow, VideoRow};
use crate::store::{
    db, delete_item, delete_items_of_playlist, delete_playlist_row, increasing, insert_item, insert_playlist,
    item_key_lt, key_position, playlist_ids, Db, ItemV, PlaylistV, VideoV,
};
use crate::text::{chars_of, int_digits, lemma_seq_lt_irreflexive, seq_lt, string_of, trim, trim_chars};
use crate::upkeep::{is_full, lemma_key_position_bound, new_key, int_keys, pick_key};
use rusqlite::Connection;
use vstd::prelude::*;

verus! {

broadcast use vstd::seq_lib::group_filter_ensures;

// ---------------------------------------------------------------------------
// Playlists and their counts

pub open spec fn find_playlist(t: Seq<PlaylistV>, id: int) -> Option<PlaylistV>
    decreases t.len(),
{
    if t.len() == 0 {
        None
    } else if t[0].id == id {
        Some(t[0])
    } else {
        find_playlist(t.drop_first(), id)
    }
}

/// The number of entries of a playlist.
pub open spec fn entry_count(items: Seq<ItemV>, playlist_id: int) -> nat {
    items.filter(|x: ItemV| x.playlist_id == playlist_id).len()
}

/// A playlist with the number of its entries.
pub open spec fn playlist_info(d: Db, p: PlaylistV) -> PlaylistInfoV {
    PlaylistInfoV { id: p.id, name: p.name, created_at: p.created_at, video_count: (entry_count(d.items, p.id) as i64) as int }
}

fn playlist_at(t: &Vec<PlaylistRow>, id: i64) -> (r: Option<usize>)
    ensures
        match find_playlist(views(t@), id as int) {
            Some(s) => r matches Some(i) && i < t.len() && t@[i as int]@ == s,
            None => r is None,
        },
{
    let ghost tv = views(t@);
    let mut i: usize = 0;
    assert(tv.subrange(0, tv.len() as int) =~= tv);
    while i < t.len()
        invariant
            i <= t.len(),
            tv == views(t@),
            find_playlist(tv, id as int) == find_playlist(tv.subrange(i as int, tv.len() as int), id as int),
        decreases t.len() - i,
    {
        assert(tv.subrange(i as int, tv.len() as int).drop_first() =~= tv.subrange(i + 1, tv.len() as int));
        assert(tv[i as int] == t@[i as int]@);
        if t[i].id == id {
            return Some(i);
        }
        i += 1;
    }
    None
}

fn count_entries(items: &Vec<ItemRow>, playlist_id: i64) -> (r: usize)
    ensures
        r == entry_count(views(items@), playlist_id as int),
{
    let ghost iv = views(items@);
    let mut n: usize = 0;
    let mut i: usize = 0;
    while i < items.len()
        invariant
            i <= items.len(),
            iv == views(items@),
            n == iv.subrange(0, i as int).filter(|x: ItemV| x.playlist_id == playlist_id).len(),
            n <= i,
        decreases items.len() - i,
    {
        assert(iv[i as int] == items@[i as int]@);
        assert(iv.subrange(0, i + 1) =~= iv.subrange(0, i as int).push(iv[i as int]));
        proof {
            iv.subrange(0, i as int).lemma_filter_push(iv[i as int], |x: ItemV| x.playlist_id == playlist_id);
        }
        if items[i].playlist_id == playlist_id {
            n += 1;
        }
        i += 1;
    }
    assert(iv.subrange(0, items.len() as int) =~= iv);
    n
}

fn info_of(p: &PlaylistRow, items: &Vec<ItemRow>) -> (r: Playlist)
    ensures
        r@ == (PlaylistInfoV {
            id: p.id as int,
            name: p.name@,
            created_at: p.created_at@,
            video_count: (entry_count(views(items@), p.id as int) as i64) as int,
        }),
{
    let n = count_entries(items, p.id);
    Playlist { id: p.id, name: p.name.clone(), created_at: p.created_at.clone(), video_count: n as i64 }
}

/// A playlist with its entry count; an unknown id (or a failed read) is
/// `NotFound("playlist <id>")`.
fn get_playlist_meta(conn: &Connection, id: i64) -> (r: AppResult<Playlist>)
    ensures
        r matches Ok(p) ==> (find_playlist(db(*conn).playlists, id as int) matches Some(x) && p@ == playlist_info(
            db(*conn),
            x,
        )),
        find_playlist(db(*conn).playlists, id as int) is None ==> r is Err,
        r matches Err(e) ==> (e matches AppError::NotFound(m) && m@ == "playlist "@ + int_digits(id as int)),
{
    let playlists = match load_playlists(conn) {
        Ok(v) => v,
        Err(_) => return Err(not_found_id("playlist ", id)),
    };
    let items = match load_items(conn) {
        Ok(v) => v,
        Err(_) => return Err(not_found_id("playlist ", id)),
    };
    match playlist_at(&playlists, id) {
        Some(i) => Ok(info_of(&playlists[i], &items)),
        None => Err(not_found_id("playlist ", id)),
    }
}

/// Every playlist, most recently created first, with its entry count.
pub fn list_playlists(conn: &Connection) -> (r: AppResult<Vec<Playlist>>)
    ensures
        r matches Ok(v) ==> {
            let d = db(*conn);
            views(v@) == sort_ranked::<PlaylistRow>(d.playlists).map_values(|p: PlaylistV| playlist_info(d, p))
        },
        r matches Err(e) ==> e is Db && db_failure(e, db(*conn)),
{
    let playlists = load_playlists(conn)?;
    let items = load_items(conn)?;
    let ghost d = db(*conn);
    let sorted = sort_rows(playlists);
    let ghost sv = views(sorted@);
    let mut out: Vec<Playlist> = Vec::new();
    let mut k: usize = 0;
    while k < sorted.len()
        invariant
            k <= sorted.len(),
            sv == views(sorted@),
            views(items@) == d.items,
            views(out@) == sv.subrange(0, k as int).map_values(|p: PlaylistV| playlist_info(d, p)),
        decreases sorted.len() - k,
    {
        let ghost before = views(out@);
        let p = info_of(&sorted[k], &items);
        assert(sv[k as int] == sorted@[k as int]@);
        out.push(p);
        assert(views(out@) =~= before.push(playlist_info(d, sv[k as int])));
        assert(sv.subrange(0, k + 1) =~= sv.subrange(0, k as int).push(sv[k as int]));
        k += 1;
    }
    assert(sv.subrange(0, sorted.len() as int) =~= sv);
    Ok(out)
}

// ---------------------------------------------------------------------------
// Creating and deleting

/// The key for a new playlist and the position its row goes to.
fn new_playlist_id(t: &Vec<PlaylistRow>) -> (r: Option<(i64, usize)>)
    requires
        increasing(playlist_ids(views(t@))),
    ensures
        r matches Some((id, p)) ==> {
            &&& new_key(playlist_ids(views(t@))) == Some(id as int)
            &&& !playlist_ids(views(t@)).contains(id as int)
            &&& p == key_position(playlist_ids(views(t@)), id as int)
        },
        r is None <==> new_key(playlist_ids(views(t@))) is None,
{
    let ghost k = playlist_ids(views(t@));
    let mut keys: Vec<i64> = Vec::new();
    assert(k.len() == t.len());
    let mut i: usize = 0;
    while i < t.len()
        invariant
            i <= t.len(),
            k == playlist_ids(views(t@)),
            int_keys(keys@) == k.subrange(0, i as int),
            keys@.len() == i,
            k.len() == t.len(),
        decreases t.len() - i,
    {
        assert(k[i as int] == t@[i as int]@.id);
        let ghost prev = keys@;
        keys.push(t[i].id);
        assert forall|j: int| 0 <= j < i + 1 implies #[trigger] int_keys(keys@)[j] == k[j] by {
            if j < i {
                assert(keys@[j] == prev[j]);
                assert(int_keys(prev)[j] == k.subrange(0, i as int)[j]);
            }
        }
        assert(int_keys(keys@) =~= k.subrange(0, i + 1));
        i += 1;
    }
    assert(k.subrange(0, t.len() as int) =~= k);
    pick_key(&keys)
}

/// The playlist stored by [`create_playlist`] for a trimmed name.
pub open spec fn new_playlist(d: Db, name: Seq<char>, created_at: Seq<char>) -> PlaylistV {
    PlaylistV { id: new_key(playlist_ids(d.playlists))->0, name, created_at }
}

/// Creates a playlist named by `name` without surrounding whitespace, stamped
/// with the current time, under the key a new row gets (see
/// [`crate::upkeep::new_key`]). A name that is empty once
/// trimmed is `Invalid("Playlist name is required")`.
pub fn create_playlist(conn: &mut Connection, name: &str) -> (r: AppResult<Playlist>)
    ensures
        trim(name@).len() == 0 ==> (r matches Err(AppError::Invalid(m)) && m@ == "Playlist name is required"@),
        r matches Ok(p) ==> {
            let d = db(*old(conn));
            &&& trim(name@).len() > 0
            &&& is_timestamp(p.created_at@)
            &&& db(*final(conn)) == (Db {
                playlists: d.playlists.insert(
                    key_position(playlist_ids(d.playlists), new_playlist(d, trim(name@), p.created_at@).id),
                    new_playlist(d, trim(name@), p.created_at@),
                ),
                ..d
            })
            &&& p@ == playlist_info(db(*final(conn)), new_playlist(d, trim(name@), p.created_at@))
        },
        r matches Err(AppError::Invalid(_)) ==> db(*final(conn)) == db(*old(conn)),
        trim(name@).len() > 0 && new_key(playlist_ids(db(*old(conn)).playlists)) is None ==> r is Err,
        r matches Err(e) ==> e is Invalid || e is Db || e is NotFound,
        r matches Err(e) ==> (e is Db ==> db_failure(e, db(*old(conn))) || (is_full(e) && new_key(
            playlist_ids(db(*old(conn)).playlists),
        ) is None)),
{
    let t = trim_chars(&chars_of(name));
    if t.len() == 0 {
        return Err(AppError::Invalid(String::from_str("Playlist name is required")));
    }
    let trimmed = string_of(&t);
    let ghost d = db(*conn);
    let playlists = load_playlists(conn)?;
    let id = match new_playlist_id(&playlists) {
        Some((id, _)) => id,
        None => return Err(crate::upkeep::table_full()),
    };
    let created = now_iso();
    if let Err(e) = insert_playlist(conn, id, trimmed.as_str(), created.as_str()) {
        return Err(db_error(e));
    }
    let p = get_playlist_meta(conn, id)?;
    proof {
        let row = new_playlist(d, trim(name@), created@);
        let f = db(*conn).playlists;
        let p = key_position(playlist_ids(d.playlists), row.id);
        lemma_key_position_bound(playlist_ids(d.playlists), row.id);
        assert(f == d.playlists.insert(p, row));
        assert forall|i: int| 0 <= i < d.playlists.len() implies #[trigger] d.playlists[i].id != row.id by {
            assert(playlist_ids(d.playlists)[i] == d.playlists[i].id);
        }
        lemma_find_inserted(d.playlists, p, row);
    }
    Ok(p)
}

/// In a table without its key, an inserted row is found by its key.
proof fn lemma_find_inserted(t: Seq<PlaylistV>, p: int, row: PlaylistV)
    requires
        forall|i: int| 0 <= i < t.len() ==> #[trigger] t[i].id != row.id,
        0 <= p <= t.len(),
    ensures
        find_playlist(t.insert(p, row), row.id) == Some(row),
    decreases t.len(),
{
    t.insert_ensures(p, row);
    if p > 0 {
        let u = t.drop_first();
        assert forall|i: int| 0 <= i < u.len() implies #[trigger] u[i].id != row.id by {
            assert(u[i] == t[i + 1]);
        }
        assert(t.insert(p, row).drop_first() =~= u.insert(p - 1, row));
        assert(t.insert(p, row)[0] == t[0]);
        lemma_find_inserted(u, p - 1, row);
    }
}

/// Deletes a playlist and its entries. An unknown id is
/// `NotFound("playlist <id>")` and changes nothing.
pub fn delete_playlist(conn: &mut Connection, id: i64) -> (r: AppResult<()>)
    ensures
        r is Ok ==> {
            let d = db(*old(conn));
            &&& find_playlist(d.playlists, id as int) is Some
            &&& db(*final(conn)) == (Db {
                playlists: d.playlists.filter(|p: PlaylistV| p.id != id),
                items: d.items.filter(|x: ItemV| x.playlist_id != id),
                ..d
            })
        },
        find_playlist(db(*old(conn)).playlists, id as int) is None ==> r is Err && db(*final(conn)) == db(*old(conn)),
        r matches Err(AppError::NotFound(m)) ==> find_playlist(db(*old(conn)).playlists, id as int) is None && m@
            == "playlist "@ + int_digits(id as int),
        r matches Err(e) ==> e is NotFound || (e is Db && db_failure(e, db(*old(conn)))),
{
    let ghost d = db(*conn);
    let playlists = load_playlists(conn)?;
    if playlist_at(&playlists, id).is_none() {
        return Err(not_found_id("playlist ", id));
    }
    if let Err(e) = delete_items_of_playlist(conn, id) {
        return Err(db_error(e));
    }
    proof {
        let c = db(*conn);
        assert forall|i: int| 0 <= i < c.items.len() implies #[trigger] c.items[i].playlist_id != id by {
            d.items.lemma_filter_pred(|x: ItemV| x.playlist_id != id, i);
        }
    }
    if let Err(e) = delete_playlist_row(conn, id) {
        return Err(db_error(e));
    }
    Ok(())
}

// ---------------------------------------------------------------------------
// Entries

/// An entry whose video is stored and shown.
pub open spec fn entry_shown(d: Db, x: ItemV) -> bool {
    match find_video(d.videos, x.video_id) {
        Some(v) => shown(d.sources, v.source_id),
        None => false,
    }
}

/// The shown entries of a playlist.
pub open spec fn shown_entries(d: Db, playlist_id: int) -> Seq<ItemV> {
    d.items.filter(|x: ItemV| x.playlist_id == playlist_id && entry_shown(d, x))
}

/// The video of an entry.
pub open spec fn entry_video(d: Db, x: ItemV) -> VideoV {
    find_video(d.videos, x.video_id)->0
}

/// A playlist with a page of its shown videos in playlist order (by position,
/// then time added); `total` is the playlist's entry count. An unknown id is
/// `NotFound("playlist <id>")`.
pub fn get_playlist(conn: &Connection, id: i64, page: i64) -> (r: AppResult<(Playlist, Page<VideoCard>)>)
    requires
        i64::MIN <= page * 24 <= i64::MAX,
    ensures
        r matches Ok((pl, p)) ==> {
            let d = db(*conn);
            &&& find_playlist(d.playlists, id as int) matches Some(x) && pl@ == playlist_info(d, x)
            &&& p.page == page
            &&& p.page_size == 24
            &&& p.total == pl.video_count
            &&& views(p.items@) == cards(
                d.channels,
                page_slice(sort_ranked::<ItemRow>(shown_entries(d, id as int)), page_offset(page as int), 24).map_values(
                    |x: ItemV| entry_video(d, x),
                ),
            )
        },
        find_playlist(db(*conn).playlists, id as int) is None ==> r is Err,
        r matches Err(AppError::NotFound(m)) ==> m@ == "playlist "@ + int_digits(id as int),
        r matches Err(e) ==> e is NotFound || (e is Db && db_failure(e, db(*conn))),
{
    let pl = get_playlist_meta(conn, id)?;
    let sources = load_sources(conn)?;
    let channels = load_channels(conn)?;
    let videos = load_videos(conn)?;
    let items = load_items(conn)?;
    let ghost d = db(*conn);
    let ghost iv = views(items@);
    let ghost pred = |x: ItemV| x.playlist_id == id && entry_shown(d, x);
    let mut kept: Vec<ItemRow> = Vec::new();
    let n = items.len();
    let mut rest = crate::order::reversed(items);
    let mut i: usize = 0;
    assert(iv.subrange(0, 0).filter(pred) =~= seq![]);
    while i < n
        invariant
            i <= n == iv.len(),
            rest@.len() == n - i,
            forall|j: int| 0 <= j < n - i ==> #[trigger] rest@[j]@ == iv[n - 1 - j],
            iv == d.items,
            views(videos@) == d.videos,
            views(sources@) == d.sources,
            pred == (|x: ItemV| x.playlist_id == id && entry_shown(d, x)),
            views(kept@) == iv.subrange(0, i as int).filter(pred),
        decreases n - i,
    {
        let ghost before = views(kept@);
        let ghost rv = rest@;
        let x = rest.pop().unwrap();
        assert(x@ == iv[i as int]) by {
            assert(x == rv[n - i - 1]);
        }
        assert(iv.subrange(0, i + 1) =~= iv.subrange(0, i as int).push(iv[i as int]));
        proof {
            iv.subrange(0, i as int).lemma_filter_push(iv[i as int], pred);
        }
        let keep = x.playlist_id == id && match video_at(&videos, x.video_id) {
            Some(k) => is_shown(&sources, videos[k].source_id),
            None => false,
        };
        if keep {
            kept.push(x);
            assert(views(kept@) =~= before.push(iv[i as int]));
        }
        i += 1;
    }
    assert(iv.subrange(0, n as int) =~= iv);
    let ghost kv = views(kept@);
    proof {
        assert forall|j: int| 0 <= j < kv.len() implies entry_shown(d, #[trigger] kv[j]) by {
            iv.lemma_filter_pred(pred, j);
        }
        lemma_sort_all::<ItemRow>(kv, |x: ItemV| entry_shown(d, x));
    }
    let sorted = sort_rows(kept);
    let off = offset_of(page);
    let slice = take_page(sorted, off, 24);
    let ghost sl = views(slice@);
    proof {
        let sv = sort_ranked::<ItemRow>(kv);
        assert forall|j: int| 0 <= j < sl.len() implies find_video(d.videos, #[trigger] sl[j].video_id) is Some by {
            assert(sl[j] == sv[off + j]);
            assert(entry_shown(d, sv[off + j]));
        }
    }
    let mut rows: Vec<VideoRow> = Vec::new();
    let mut k: usize = 0;
    while k < slice.len()
        invariant
            k <= slice.len(),
            sl == views(slice@),
            views(videos@) == d.videos,
            forall|j: int| 0 <= j < sl.len() ==> find_video(d.videos, #[trigger] sl[j].video_id) is Some,
            views(rows@) == sl.subrange(0, k as int).map_values(|x: ItemV| entry_video(d, x)),
        decreases slice.len() - k,
    {
        let ghost before = views(rows@);
        assert(sl[k as int] == slice@[k as int]@);
        assert(find_video(d.videos, sl[k as int].video_id) is Some);
        let j = video_at(&videos, slice[k].video_id).unwrap();
        rows.push(clone_video(&videos[j]));
        assert(views(rows@) =~= before.push(entry_video(d, sl[k as int])));
        assert(sl.subrange(0, k + 1) =~= sl.subrange(0, k as int).push(sl[k as int]));
        k += 1;
    }
    assert(sl.subrange(0, slice.len() as int) =~= sl);
    let items = to_cards(&channels, rows);
    let total = pl.video_count;
    Ok((pl, Page { items, page, page_size: 24, total }))
}

/// The playlist has an entry for the video.
pub open spec fn has_entry(items: Seq<ItemV>, playlist_id: int, video_id: int) -> bool {
    exists|i: int| 0 <= i < items.len() && (#[trigger] items[i]).playlist_id == playlist_id && items[i].video_id == video_id
}

/// The largest position among a playlist's entries.
pub open spec fn top_position(items: Seq<ItemV>, playlist_id: int) -> Option<int>
    decreases items.len(),
{
    if items.len() == 0 {
        None
    } else {
        let rest = top_position(items.drop_last(), playlist_id);
        let x = items.last();
        if x.playlist_id != playlist_id {
            rest
        } else {
            match rest {
                Some(p) => if p >= x.position {
                    Some(p)
                } else {
                    Some(x.position)
                },
                None => Some(x.position),
            }
        }
    }
}

/// The position a new entry of a playlist gets: one past the largest, or 0.
pub open spec fn next_position(items: Seq<ItemV>, playlist_id: int) -> int {
    match top_position(items, playlist_id) {
        Some(p) => p + 1,
        None => 0,
    }
}

/// The entries with `e` placed at its key.
pub open spec fn with_entry(items: Seq<ItemV>, e: ItemV) -> Seq<ItemV> {
    items.filter(|x: ItemV| item_key_lt(x, e)).push(e) + items.filter(|x: ItemV| item_key_lt(e, x))
}

/// The message of a position that no longer fits an integer.
pub open spec fn overflow_message() -> Seq<char> {
    "integer overflow"@
}

/// Adds a video at the end of a playlist (one past its largest position),
/// stamped with the current time; a video already in the playlist stays where
/// it is. An unknown playlist is `NotFound("playlist <id>")`, an unknown
/// video `NotFound("video <id>")`. When the largest position is the largest
/// 64-bit integer, no next position exists and the call fails with
/// `Db("integer overflow")`, changing nothing. The result is the playlist with
/// its new count.
pub fn add_to_playlist(conn: &mut Connection, playlist_id: i64, video_id: i64) -> (r: AppResult<Playlist>)
    ensures
        r matches Ok(pl) ==> {
            let d = db(*old(conn));
            let f = db(*final(conn));
            &&& find_playlist(d.playlists, playlist_id as int) is Some
            &&& find_video(d.videos, video_id as int) is Some
            &&& if has_entry(d.items, playlist_id as int, video_id as int) {
                f == d
            } else {
                exists|ts: Seq<char>| #![trigger is_timestamp(ts)] is_timestamp(ts) && f == (Db {
                    items: with_entry(
                        d.items,
                        ItemV {
                            playlist_id: playlist_id as int,
                            video_id: video_id as int,
                            position: next_position(d.items, playlist_id as int),
                            added_at: ts,
                        },
                    ),
                    ..d
                })
            }
            &&& find_playlist(f.playlists, playlist_id as int) matches Some(x) && pl@ == playlist_info(f, x)
        },
        find_playlist(db(*old(conn)).playlists, playlist_id as int) is None ==> r is Err && db(*final(conn)) == db(
            *old(conn),
        ),
        find_video(db(*old(conn)).videos, video_id as int) is None ==> r is Err && db(*final(conn)) == db(*old(conn)),
        find_playlist(db(*old(conn)).playlists, playlist_id as int) is Some && find_video(db(*old(conn)).videos, video_id as int) is Some
            && top_position(db(*old(conn)).items, playlist_id as int) == Some(i64::MAX as int) ==> r is Err && db(*final(conn)) == db(*old(conn)),
        r matches Err(e) ==> e is NotFound || (e is Db && db_failure(e, db(*old(conn)))) || (e matches AppError::Db(m) && m@
            == overflow_message() && top_position(db(*old(conn)).items, playlist_id as int) == Some(i64::MAX as int)),
{
    let ghost d = db(*conn);
    let _ = get_playlist_meta(conn, playlist_id)?;
    let _ = get_video(conn, video_id)?;
    let items = load_items(conn)?;
    let ghost iv = views(items@);
    let mut present = false;
    let mut top: Option<i64> = None;
    let mut i: usize = 0;
    while i < items.len()
        invariant
            i <= items.len(),
            iv == views(items@),
            iv == d.items,
            present == has_entry(iv.subrange(0, i as int), playlist_id as int, video_id as int),
            match top_position(iv.subrange(0, i as int), playlist_id as int) {
                Some(p) => top matches Some(t) && t as int == p,
                None => top is None,
            },
        decreases items.len() - i,
    {
        let ghost s0 = iv.subrange(0, i as int);
        let ghost s1 = iv.subrange(0, i + 1);
        assert(s1.drop_last() =~= s0);
        assert(s1.last() == items@[i as int]@);
        let x = &items[i];
        if x.playlist_id == playlist_id && x.video_id == video_id {
            present = true;
            assert(s1[i as int] == x@);
        } else {
            assert(has_entry(s1, playlist_id as int, video_id as int) == has_entry(s0, playlist_id as int, video_id as int)) by {
                if has_entry(s1, playlist_id as int, video_id as int) {
                    let j = choose|j: int| 0 <= j < s1.len() && (#[trigger] s1[j]).playlist_id == playlist_id && s1[j].video_id == video_id;
                    assert(j < i);
                    assert(s0[j] == s1[j]);
                }
                if has_entry(s0, playlist_id as int, video_id as int) {
                    let j = choose|j: int| 0 <= j < s0.len() && (#[trigger] s0[j]).playlist_id == playlist_id && s0[j].video_id == video_id;
                    assert(s1[j] == s0[j]);
                }
            }
        }
        if x.playlist_id == playlist_id {
            top = match top {
                Some(p) => if p >= x.position {
                    Some(p)
                } else {
                    Some(x.position)
                },
                None => Some(x.position),
            };
        }
        i += 1;
    }
    assert(iv.subrange(0, items.len() as int) =~= iv);
    if let Some(p) = top {
        if p == i64::MAX {
            return Err(AppError::Db(String::from_str("integer overflow")));
        }
    }
    if !present {
        let next = match top {
            Some(p) => p + 1,
            None => 0,
        };
        let added = now_iso();
        assert(next as int == next_position(d.items, playlist_id as int));
        if let Err(e) = insert_item(conn, playlist_id, video_id, next, added.as_str()) {
            return Err(db_error(e));
        }
        assert(is_timestamp(added@));
        assert(db(*conn) == (Db {
            items: with_entry(
                d.items,
                ItemV { playlist_id: playlist_id as int, video_id: video_id as int, position: next_position(d.items, playlist_id as int), added_at: added@ },
            ),
            ..d
        }));
    }
    get_playlist_meta(conn, playlist_id)
}

/// Removes a video from a playlist. A video that is not in it is
/// `NotFound("video not in playlist")` and changes nothing. The result is the
/// playlist with its new count.
pub fn remove_from_playlist(conn: &mut Connection, playlist_id: i64, video_id: i64) -> (r: AppResult<Playlist>)
    ensures
        r matches Ok(pl) ==> {
            let d = db(*old(conn));
            let f = db(*final(conn));
            &&& has_entry(d.items, playlist_id as int, video_id as int)
            &&& f == (Db {
                items: d.items.filter(|x: ItemV| !(x.playlist_id == playlist_id && x.video_id == video_id)),
                ..d
            })
            &&& find_playlist(f.playlists, playlist_id as int) matches Some(x) && pl@ == playlist_info(f, x)
        },
        !has_entry(db(*old(conn)).items, playlist_id as int, video_id as int) ==> r is Err && db(*final(conn)) == db(
            *old(conn),
        ),
        r matches Err(AppError::NotFound(m)) ==> m@ == "video not in playlist"@ || m@ == "playlist "@ + int_digits(
            playlist_id as int,
        ),
        r matches Err(e) ==> e is NotFound || (e is Db && db_failure(e, db(*old(conn)))),
{
    let ghost d = db(*conn);
    let ghost p = |x: ItemV| !(x.playlist_id == playlist_id && x.video_id == video_id);
    let n = match delete_item(conn, playlist_id, video_id) {
        Ok(n) => n,
        Err(e) => return Err(db_error(e)),
    };
    if n == 0 {
        proof {
            if has_entry(d.items, playlist_id as int, video_id as int) {
                let j = choose|j: int| 0 <= j < d.items.len() && (#[trigger] d.items[j]).playlist_id == playlist_id && d.items[j].video_id == video_id;
                lemma_filter_drops(d.items, p, j);
            } else {
                assert forall|j: int| 0 <= j < d.items.len() implies #[trigger] p(d.items[j]) by {}
                lemma_filter_keeps(d.items, p);
            }
        }
        return Err(AppError::NotFound(String::from_str("video not in playlist")));
    }
    proof {
        if !has_entry(d.items, playlist_id as int, video_id as int) {
            assert forall|j: int| 0 <= j < d.items.len() implies #[trigger] p(d.items[j]) by {}
            lemma_filter_keeps(d.items, p);
        }
    }
    get_playlist_meta(conn, playlist_id)
}

/// Filtering out an element shortens the sequence.
proof fn lemma_filter_drops<A>(s: Seq<A>, p: spec_fn(A) -> bool, j: int)
    requires
        0 <= j < s.len(),
        !p(s[j]),
    ensures
        s.filter(p).len() < s.len(),
    decreases s.len(),
{
    reveal(Seq::filter);
    if j < s.len() - 1 {
        lemma_filter_drops(s.drop_last(), p, j);
    } else {
        s.drop_last().lemma_filter_len(p);
    }
}

/// Keeping every element keeps the sequence.
proof fn lemma_filter_keeps<A>(s: Seq<A>, p: spec_fn(A) -> bool)
    requires
        forall|j: int| 0 <= j < s.len() ==> #[trigger] p(s[j]),
    ensures
        s.filter(p) == s,
    decreases s.len(),
{
    reveal(Seq::filter);
    if s.len() > 0 {
        let t = s.drop_last();
        assert forall|j: int| 0 <= j < t.len() implies #[trigger] p(t[j]) by {
            assert(t[j] == s[j]);
        }
        lemma_filter_keeps(t, p);
        assert(p(s[s.len() - 1]));
        assert(t.push(s.last()) =~= s);
    }
}


// ---------------------------------------------------------------------------
// Laws

/// After an entry is added, the playlist has it.
pub proof fn an_added_entry_is_present(items: Seq<ItemV>, e: ItemV)
    ensures
        has_entry(with_entry(items, e), e.playlist_id, e.video_id),
{
    let left = items.filter(|x: ItemV| item_key_lt(x, e)).push(e);
    let w = with_entry(items, e);
    assert(w[left.len() - 1] == e);
}

/// After an entry is removed, the playlist no longer has it, and every other
/// entry stays.
pub proof fn a_removed_entry_is_gone(items: Seq<ItemV>, playlist_id: int, video_id: int)
    ensures
        !has_entry(items.filter(|x: ItemV| !(x.playlist_id == playlist_id && x.video_id == video_id)), playlist_id, video_id),
        forall|j: int|
            0 <= j < items.len() && !((#[trigger] items[j]).playlist_id == playlist_id && items[j].video_id == video_id)
                ==> items.filter(|x: ItemV| !(x.playlist_id == playlist_id && x.video_id == video_id)).contains(items[j]),
{
    let p = |x: ItemV| !(x.playlist_id == playlist_id && x.video_id == video_id);
    let f = items.filter(p);
    assert forall|i: int| 0 <= i < f.len() implies !((#[trigger] f[i]).playlist_id == playlist_id && f[i].video_id == video_id) by {
        items.lemma_filter_pred(p, i);
    }
    assert forall|j: int| 0 <= j < items.len() && !((#[trigger] items[j]).playlist_id == playlist_id && items[j].video_id == video_id)
        implies f.contains(items[j]) by {
        items.lemma_filter_contains(p, j);
    }
}

/// Playlists are listed most recently created first: no playlist comes after
/// one created earlier (creation times compared as text, which orders the
/// ISO-8601 stamps by time).
pub proof fn playlists_are_newest_first(s: Seq<PlaylistV>)
    ensures
        forall|i: int, j: int|
            0 <= i < j < sort_ranked::<PlaylistRow>(s).len() ==> !seq_lt(
                (#[trigger] sort_ranked::<PlaylistRow>(s)[i]).created_at,
                (#[trigger] sort_ranked::<PlaylistRow>(s)[j]).created_at,
            ),
{
    lemma_playlist_order();
    lemma_sorted_in_order::<PlaylistRow>(s);
    let t = sort_ranked::<PlaylistRow>(s);
    assert forall|i: int, j: int| 0 <= i < j < t.len() implies !seq_lt(
        (#[trigger] t[i]).created_at,
        (#[trigger] t[j]).created_at,
    ) by {
        assert(!playlist_before(t[j], t[i]));
        lemma_seq_lt_irreflexive(t[i].created_at);
    }
}
} // verus!
