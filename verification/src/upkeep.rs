//! Changes to the catalog: adding and removing library sources, storing the
//! videos a scan finds, and dropping those it no longer finds.
//!
//! Deleting a video also deletes what refers to it (its playback position,
//! its history entry, its playlist entries), and every change that can leave a
//! channel without videos ends by removing such channels.
use crate::catalog::{clone_opt, clone_opt_value, find_slug, find_source, not_found_id, slug_at, source_at};
use crate::clock::{is_timestamp, now_iso};
use crate::metadata::ResolvedMeta;
use crate::models::{opt_view, Source, UpsertOutcome};
use crate::slug::{channel_slug, spec_channel_slug};
use crate::text::{chars_of, str_eq};
use crate::error::{db_error, from_sqlite, AppError, AppResult};
use crate::models::SourceV;
use crate::pathutil::{
    normalize_path, paths_equal, source_overlap, spec_normalize, spec_paths_equal, spec_source_overlap, OverlapKind,
    PathFacts,
};
use crate::text::int_digits;
use crate::order::{lemma_filter_ext, lemma_filter_filter, lemma_filter_on, views};
use crate::rows::{db_failure, is_key_clash, load_channels, load_sources, load_videos, ChannelRow, VideoRow};
use crate::store::{
    channel_ids, db, delete_channel, delete_history, delete_items_of_video, delete_progress, delete_source, delete_video,
    increasing, insert_channel, insert_source, insert_video, key_position, oi, source_id_is_new, source_ids, update_video,
    stored_real, written_video, video_ids, ChannelV, Db, HistoryV, ItemV, ProgressV, VideoCols, VideoFields, VideoV,
};
use rusqlite::Connection;
use vstd::prelude::*;

verus! {

broadcast use vstd::seq_lib::group_filter_ensures;

// ---------------------------------------------------------------------------
// Keys of new rows

/// The largest key of a table kept in key order.
pub open spec fn last_key(keys: Seq<int>) -> Option<int> {
    if keys.len() == 0 {
        None
    } else {
        Some(keys[keys.len() - 1])
    }
}

/// `k` is the smallest positive key that the table does not use.
pub open spec fn smallest_free(keys: Seq<int>, k: int) -> bool {
    &&& 1 <= k <= i64::MAX
    &&& !keys.contains(k)
    &&& forall|j: int| 1 <= j < k ==> keys.contains(j)
}

/// The key a new row gets in a table with these keys (in key order), as an
/// `INTEGER PRIMARY KEY` without `AUTOINCREMENT` gives it: 1 in an empty
/// table, else one above the largest key; when the largest key is the
/// largest 64-bit integer, an unused positive key (here the smallest one);
/// none when every positive key is used.
pub open spec fn new_key(keys: Seq<int>) -> Option<int> {
    match last_key(keys) {
        None => Some(1),
        Some(k) => if k < i64::MAX {
            Some(k + 1)
        } else if exists|f: int| smallest_free(keys, f) {
            Some(choose|f: int| smallest_free(keys, f))
        } else {
            None
        },
    }
}

/// The keys of a vector of 64-bit integers, as integers.
pub open spec fn int_keys(k: Seq<i64>) -> Seq<int> {
    k.map_values(|x: i64| x as int)
}

/// A key's position lies within the table.
pub proof fn lemma_key_position_bound(k: Seq<int>, id: int)
    ensures
        0 <= key_position(k, id) <= k.len(),
    decreases k.len(),
{
    if k.len() > 0 && k.last() >= id {
        lemma_key_position_bound(k.drop_last(), id);
    }
}

proof fn lemma_smallest_free_unique(keys: Seq<int>, a: int, b: int)
    requires
        smallest_free(keys, a),
        smallest_free(keys, b),
    ensures
        a == b,
{
}

/// In increasing keys, a key that is above the first `i` and below the rest
/// goes at position `i`.
pub proof fn lemma_key_position(k: Seq<int>, id: int, i: int)
    requires
        increasing(k),
        0 <= i <= k.len(),
        forall|j: int| 0 <= j < i ==> #[trigger] k[j] < id,
        i < k.len() ==> k[i] > id,
    ensures
        key_position(k, id) == i,
    decreases k.len(),
{
    if k.len() > 0 && i < k.len() {
        let t = k.drop_last();
        assert(k[k.len() - 1] >= k[i]);
        assert forall|a: int, b: int| 0 <= a < b < t.len() implies t[a] < t[b] by {
            assert(t[a] == k[a] && t[b] == k[b]);
        }
        assert forall|j: int| 0 <= j < i implies #[trigger] t[j] < id by {
            assert(t[j] == k[j]);
        }
        if i < t.len() {
            assert(t[i] == k[i]);
        }
        lemma_key_position(t, id, i);
    }
}

/// The key for a new row of a table with keys `keys` (strictly increasing),
/// and the position the row goes to.
pub(crate) fn pick_key(keys: &Vec<i64>) -> (r: Option<(i64, usize)>)
    requires
        increasing(int_keys(keys@)),
    ensures
        r matches Some((id, p)) ==> {
            &&& new_key(int_keys(keys@)) == Some(id as int)
            &&& !int_keys(keys@).contains(id as int)
            &&& p == key_position(int_keys(keys@), id as int)
            &&& p <= keys@.len()
        },
        r is None <==> new_key(int_keys(keys@)) is None,
        r is None ==> forall|j: int| 1 <= j <= i64::MAX ==> int_keys(keys@).contains(j),
{
    let ghost ks = int_keys(keys@);
    let n = keys.len();
    if n == 0 {
        return Some((1, 0));
    }
    let last = keys[n - 1];
    assert(ks[n - 1] == last);
    if last < i64::MAX {
        proof {
            assert forall|j: int| 0 <= j < n implies #[trigger] ks[j] < last + 1 by {
                if j < n - 1 {
                    assert(ks[j] < ks[n - 1]);
                }
            }
            lemma_key_position(ks, last + 1, n as int);
        }
        return Some((last + 1, n));
    }
    let mut cand: i64 = 1;
    let mut i: usize = 0;
    while i < n
        invariant
            n == keys.len(),
            ks == int_keys(keys@),
            increasing(ks),
            ks[n - 1] == i64::MAX,
            0 <= i <= n,
            1 <= cand,
            forall|j: int| 1 <= j < cand ==> ks.contains(j),
            forall|q: int| 0 <= q < i ==> #[trigger] ks[q] < cand,
        decreases n - i,
    {
        let k = keys[i];
        assert(ks[i as int] == k);
        if k > cand {
            proof {
                assert forall|q: int| 0 <= q < n implies #[trigger] ks[q] != cand by {
                    if q > i {
                        assert(ks[i as int] < ks[q]);
                    }
                }
                assert(smallest_free(ks, cand as int));
                let f = choose|f: int| smallest_free(ks, f);
                lemma_smallest_free_unique(ks, f, cand as int);
                assert forall|q: int| 0 <= q < i implies #[trigger] ks[q] < cand by {}
                lemma_key_position(ks, cand as int, i as int);
            }
            return Some((cand, i));
        }
        if k == cand {
            if cand == i64::MAX {
                proof {
                    assert forall|j: int| 1 <= j <= i64::MAX implies ks.contains(j) by {
                        if j == cand {
                            assert(ks[i as int] == j);
                        }
                    }
                    assert forall|f: int| !smallest_free(ks, f) by {
                        if 1 <= f <= i64::MAX {
                            assert(ks.contains(f));
                        }
                    }
                }
                return None;
            }
            assert(ks.contains(cand as int)) by {
                assert(ks[i as int] == cand);
            }
            cand = cand + 1;
        }
        i += 1;
    }
    assert(ks[n - 1] < cand);
    None
}

/// The error of a table whose keys are used up.
pub open spec fn full_message() -> Seq<char> {
    "database or disk is full"@
}

/// The error is the one of a table whose keys are used up.
pub open spec fn is_full(e: AppError) -> bool {
    e matches AppError::Db(m) && m@ == full_message()
}

pub(crate) fn table_full() -> (r: AppError)
    ensures
        r matches AppError::Db(m) && m@ == full_message(),
        is_full(r),
{
    AppError::Db(String::from_str("database or disk is full"))
}

/// The key for a new video and the position its row goes to.
pub(crate) fn new_video_id(t: &Vec<VideoRow>) -> (r: Option<(i64, usize)>)
    requires
        increasing(video_ids(views(t@))),
    ensures
        r matches Some((id, p)) ==> {
            &&& new_key(video_ids(views(t@))) == Some(id as int)
            &&& !video_ids(views(t@)).contains(id as int)
            &&& p == key_position(video_ids(views(t@)), id as int)
            &&& p <= t@.len()
        },
        r is None <==> new_key(video_ids(views(t@))) is None,
{
    let ghost k = video_ids(views(t@));
    let mut keys: Vec<i64> = Vec::new();
    assert(k.len() == t.len());
    let mut i: usize = 0;
    while i < t.len()
        invariant
            i <= t.len(),
            k == video_ids(views(t@)),
            int_keys(keys@) == k.subrange(0, i as int),
            keys@.len() == i,
            k.len() == t.len(),
        decreases t.len() - i,
    {
        assert(k[i as int] == t@[i as int]@.id);
        let ghost prev = keys@;
        keys.push(t[i].id);
        assert forall|j: int| 0 <= j < i + 1 implies #[trigger] int_keys(keys@)[j] == k[j] by {
            if j < i {
                assert(keys@[j] == prev[j]);
                assert(int_keys(prev)[j] == k.subrange(0, i as int)[j]);
            }
        }
        assert(int_keys(keys@) =~= k.subrange(0, i + 1));
        i += 1;
    }
    assert(k.subrange(0, t.len() as int) =~= k);
    pick_key(&keys)
}

/// The key for a new channel and the position its row goes to.
pub(crate) fn new_channel_id(t: &Vec<ChannelRow>) -> (r: Option<(i64, usize)>)
    requires
        increasing(channel_ids(views(t@))),
    ensures
        r matches Some((id, p)) ==> {
            &&& new_key(channel_ids(views(t@))) == Some(id as int)
            &&& !channel_ids(views(t@)).contains(id as int)
            &&& p == key_position(channel_ids(views(t@)), id as int)
            &&& p <= t@.len()
        },
        r is None <==> new_key(channel_ids(views(t@))) is None,
{
    let ghost k = channel_ids(views(t@));
    let mut keys: Vec<i64> = Vec::new();
    assert(k.len() == t.len());
    let mut i: usize = 0;
    while i < t.len()
        invariant
            i <= t.len(),
            k == channel_ids(views(t@)),
            int_keys(keys@) == k.subrange(0, i as int),
            keys@.len() == i,
            k.len() == t.len(),
        decreases t.len() - i,
    {
        assert(k[i as int] == t@[i as int]@.id);
        let ghost prev = keys@;
        keys.push(t[i].id);
        assert forall|j: int| 0 <= j < i + 1 implies #[trigger] int_keys(keys@)[j] == k[j] by {
            if j < i {
                assert(keys@[j] == prev[j]);
                assert(int_keys(prev)[j] == k.subrange(0, i as int)[j]);
            }
        }
        assert(int_keys(keys@) =~= k.subrange(0, i + 1));
        i += 1;
    }
    assert(k.subrange(0, t.len() as int) =~= k);
    pick_key(&keys)
}

// ---------------------------------------------------------------------------
// Removing videos and empty channels

/// The catalog without the videos whose ids are in `gone`, nor their playback
/// positions, history entries and playlist entries.
pub open spec fn drop_videos(d: Db, gone: Set<int>) -> Db {
    Db {
        videos: d.videos.filter(|v: VideoV| !gone.contains(v.id)),
        progress: d.progress.filter(|p: ProgressV| !gone.contains(p.video_id)),
        history: d.history.filter(|h: HistoryV| !gone.contains(h.video_id)),
        items: d.items.filter(|x: ItemV| !gone.contains(x.video_id)),
        ..d
    }
}

/// Some video refers to the channel.
pub open spec fn channel_used(videos: Seq<VideoV>, channel_id: int) -> bool {
    exists|i: int| 0 <= i < videos.len() && (#[trigger] videos[i]).channel_id == Some(channel_id)
}

/// The catalog without the channels that no video refers to.
pub open spec fn pruned(d: Db) -> Db {
    Db { channels: d.channels.filter(|c: ChannelV| channel_used(d.videos, c.id)), ..d }
}

/// Dropping one more video after a set of them is dropping the larger set.
pub proof fn lemma_drop_one_more(d: Db, gone: Set<int>, id: int)
    ensures
        drop_videos(drop_videos(d, gone), set![id]) == drop_videos(d, gone.insert(id)),
{
    let g2 = gone.insert(id);
    let one = set![id];
    lemma_filter_filter(
        d.videos,
        |v: VideoV| !gone.contains(v.id),
        |v: VideoV| !one.contains(v.id),
        |v: VideoV| !g2.contains(v.id),
    );
    lemma_filter_filter(
        d.progress,
        |p: ProgressV| !gone.contains(p.video_id),
        |p: ProgressV| !one.contains(p.video_id),
        |p: ProgressV| !g2.contains(p.video_id),
    );
    lemma_filter_filter(
        d.history,
        |h: HistoryV| !gone.contains(h.video_id),
        |h: HistoryV| !one.contains(h.video_id),
        |h: HistoryV| !g2.contains(h.video_id),
    );
    lemma_filter_filter(
        d.items,
        |x: ItemV| !gone.contains(x.video_id),
        |x: ItemV| !one.contains(x.video_id),
        |x: ItemV| !g2.contains(x.video_id),
    );
}

/// Deletes a video together with its playback position, its history entry and
/// its playlist entries.
pub(crate) fn remove_video(conn: &mut Connection, id: i64) -> (r: AppResult<()>)
    ensures
        r is Ok ==> db(*final(conn)) == drop_videos(db(*old(conn)), set![id as int]),
        r matches Err(e) ==> e is Db && from_sqlite(e),
{
    let ghost d = db(*conn);
    if let Err(e) = delete_progress(conn, id) {
        return Err(db_error(e));
    }
    if let Err(e) = delete_history(conn, id) {
        return Err(db_error(e));
    }
    if let Err(e) = delete_items_of_video(conn, id) {
        return Err(db_error(e));
    }
    proof {
        let c = db(*conn);
        assert forall|i: int| 0 <= i < c.progress.len() implies #[trigger] c.progress[i].video_id != id by {
            d.progress.lemma_filter_pred(|x: ProgressV| x.video_id != id, i);
        }
        assert forall|i: int| 0 <= i < c.history.len() implies #[trigger] c.history[i].video_id != id by {
            d.history.lemma_filter_pred(|x: HistoryV| x.video_id != id, i);
        }
        assert forall|i: int| 0 <= i < c.items.len() implies #[trigger] c.items[i].video_id != id by {
            d.items.lemma_filter_pred(|x: ItemV| x.video_id != id, i);
        }
    }
    if let Err(e) = delete_video(conn, id) {
        return Err(db_error(e));
    }
    proof {
        let s = set![id as int];
        lemma_filter_ext(d.videos, |x: VideoV| x.id != id, |v: VideoV| !s.contains(v.id));
        lemma_filter_ext(d.progress, |x: ProgressV| x.video_id != id, |p: ProgressV| !s.contains(p.video_id));
        lemma_filter_ext(d.history, |x: HistoryV| x.video_id != id, |h: HistoryV| !s.contains(h.video_id));
        lemma_filter_ext(d.items, |x: ItemV| x.video_id != id, |x: ItemV| !s.contains(x.video_id));
    }
    Ok(())
}

fn channel_in_use(videos: &Vec<VideoRow>, channel_id: i64) -> (r: bool)
    ensures
        r == channel_used(views(videos@), channel_id as int),
{
    let ghost vv = views(videos@);
    let mut i: usize = 0;
    while i < videos.len()
        invariant
            i <= videos.len(),
            vv == views(videos@),
            forall|j: int| 0 <= j < i ==> (#[trigger] vv[j]).channel_id != Some(channel_id as int),
        decreases videos.len() - i,
    {
        assert(vv[i as int] == videos@[i as int]@);
        if videos[i].channel_id == Some(channel_id) {
            assert(vv[i as int].channel_id == Some(channel_id as int));
            return true;
        }
        i += 1;
    }
    false
}

/// Deletes every channel that no video refers to.
pub fn prune_empty_channels(conn: &mut Connection) -> (r: AppResult<()>)
    ensures
        r is Ok ==> db(*final(conn)) == pruned(db(*old(conn))),
        r matches Err(e) ==> e is Db && db_failure(e, db(*old(conn))),
        r matches Err(e) ==> from_sqlite(e) || (is_key_clash(e) && (!increasing(channel_ids(db(*old(conn)).channels))
            || !increasing(video_ids(db(*old(conn)).videos)))),
{
    let channels = load_channels(conn)?;
    let videos = load_videos(conn)?;
    let ghost d = db(*conn);
    let ghost mut done: Set<int> = Set::empty();
    let ghost cv = views(channels@);
    assert(d.channels.filter(|c: ChannelV| !done.contains(c.id)) == d.channels) by {
        lemma_filter_all_kept(d.channels, |c: ChannelV| !done.contains(c.id));
    }
    let mut i: usize = 0;
    while i < channels.len()
        invariant
            i <= channels.len(),
            cv == views(channels@),
            cv == d.channels,
            views(videos@) == d.videos,
            db(*conn) == (Db { channels: d.channels.filter(|c: ChannelV| !done.contains(c.id)), ..d }),
            forall|cid: int| done.contains(cid) ==> !channel_used(d.videos, cid),
            forall|j: int| 0 <= j < i && !channel_used(d.videos, (#[trigger] cv[j]).id) ==> done.contains(cv[j].id),
        decreases channels.len() - i,
    {
        assert(cv[i as int] == channels@[i as int]@);
        let cid = channels[i].id;
        if !channel_in_use(&videos, cid) {
            let ghost before = db(*conn);
            if let Err(e) = delete_channel(conn, cid) {
                return Err(db_error(e));
            }
            proof {
                let g2 = done.insert(cid as int);
                lemma_filter_filter(
                    d.channels,
                    |c: ChannelV| !done.contains(c.id),
                    |x: ChannelV| x.id != cid,
                    |c: ChannelV| !g2.contains(c.id),
                );
                done = g2;
            }
        }
        i += 1;
    }
    proof {
        lemma_filter_on(d.channels, |c: ChannelV| !done.contains(c.id), |c: ChannelV| channel_used(d.videos, c.id));
    }
    Ok(())
}

/// The ids of the videos at the marked positions of a table.
pub open spec fn marked_ids(t: Seq<VideoV>, marks: Seq<bool>) -> Set<int> {
    Set::new(|vid: int| exists|i: int| 0 <= i < t.len() && i < marks.len() && (#[trigger] t[i]).id == vid && marks[i])
}

/// How many positions are marked.
pub open spec fn count_marked(marks: Seq<bool>) -> nat
    decreases marks.len(),
{
    if marks.len() == 0 {
        0
    } else {
        count_marked(marks.drop_last()) + if marks.last() {
            1nat
        } else {
            0nat
        }
    }
}

/// Deletes the videos at the marked positions of the loaded `videos` table,
/// with what refers to them; the count is of marked positions.
fn drop_marked(conn: &mut Connection, videos: &Vec<VideoRow>, marks: &Vec<bool>) -> (r: AppResult<usize>)
    requires
        views(videos@) == db(*old(conn)).videos,
        marks.len() == videos.len(),
    ensures
        r matches Ok(n) ==> db(*final(conn)) == drop_videos(db(*old(conn)), marked_ids(db(*old(conn)).videos, marks@))
            && n == count_marked(marks@),
        r matches Err(e) ==> e is Db && from_sqlite(e),
{
    let ghost d = db(*conn);
    let ghost mut done: Set<int> = Set::empty();
    proof {
        lemma_drop_none(d);
    }
    let mut n: usize = 0;
    let mut i: usize = 0;
    while i < videos.len()
        invariant
            i <= videos.len() == marks.len(),
            views(videos@) == d.videos,
            db(*conn) == drop_videos(d, done),
            n == count_marked(marks@.subrange(0, i as int)),
            n <= i,
            forall|vid: int| #[trigger] done.contains(vid) ==> exists|j: int| 0 <= j < i && (#[trigger] d.videos[j]).id == vid && marks@[j],
            forall|j: int| 0 <= j < i && marks@[j] ==> done.contains((#[trigger] d.videos[j]).id),
        decreases videos.len() - i,
    {
        assert(marks@.subrange(0, i + 1).drop_last() =~= marks@.subrange(0, i as int));
        if marks[i] {
            let vid = videos[i].id;
            assert(d.videos[i as int].id == vid);
            remove_video(conn, vid)?;
            proof {
                lemma_drop_one_more(d, done, vid as int);
                done = done.insert(vid as int);
            }
            n += 1;
        }
        i += 1;
    }
    proof {
        assert(marks@.subrange(0, marks@.len() as int) =~= marks@);
        assert(done =~= marked_ids(d.videos, marks@));
    }
    Ok(n)
}

/// The videos of a source, marked by position.
pub open spec fn source_marks(t: Seq<VideoV>, source_id: int) -> Seq<bool> {
    Seq::new(t.len(), |i: int| t[i].source_id == source_id)
}

/// The catalog after a source is removed: the source, its videos and what
/// refers to them are gone, and then every channel left without videos.
pub open spec fn without_source(d: Db, source_id: int) -> Db {
    let e = drop_videos(d, marked_ids(d.videos, source_marks(d.videos, source_id)));
    pruned(Db { sources: d.sources.filter(|s: SourceV| s.id != source_id), ..e })
}

/// Removes a source with all its videos, their progress, history and playlist
/// entries, then the channels left empty. An unknown id is
/// `NotFound("source <id>")` and changes nothing. The rows go in several
/// statements, each atomic on its own: should one fail, those before it stay
/// done and the error is `Db`.
pub fn remove_source(conn: &mut Connection, id: i64) -> (r: AppResult<()>)
    ensures
        r is Ok ==> find_source(db(*old(conn)).sources, id as int) is Some && db(*final(conn)) == without_source(
            db(*old(conn)),
            id as int,
        ),
        find_source(db(*old(conn)).sources, id as int) is None ==> r is Err && db(*final(conn)) == db(*old(conn)),
        r matches Err(AppError::NotFound(m)) ==> find_source(db(*old(conn)).sources, id as int) is None && m@
            == "source "@ + int_digits(id as int),
        find_source(db(*old(conn)).sources, id as int) is None ==> (r matches Err(AppError::NotFound(m)) && m@
            == "source "@ + int_digits(id as int)) || (r matches Err(e) && e is Db && db_failure(e, db(*old(conn)))),
        r matches Err(e) ==> e is NotFound || (e is Db && db_failure(e, db(*old(conn)))),
{
    let ghost d = db(*conn);
    let sources = load_sources(conn)?;
    if source_at(&sources, id).is_none() {
        return Err(not_found_id("source ", id));
    }
    let videos = load_videos(conn)?;
    let mut marks: Vec<bool> = Vec::new();
    let mut i: usize = 0;
    while i < videos.len()
        invariant
            i <= videos.len(),
            views(videos@) == d.videos,
            marks@ == source_marks(d.videos, id as int).subrange(0, i as int),
        decreases videos.len() - i,
    {
        assert(d.videos[i as int] == videos@[i as int]@);
        marks.push(videos[i].source_id == id);
        assert(marks@ =~= source_marks(d.videos, id as int).subrange(0, i + 1));
        i += 1;
    }
    assert(marks@ =~= source_marks(d.videos, id as int));
    drop_marked(conn, &videos, &marks)?;
    let ghost e = db(*conn);
    proof {
        let gone = marked_ids(d.videos, source_marks(d.videos, id as int));
        assert forall|k: int| 0 <= k < e.videos.len() implies #[trigger] e.videos[k].source_id != id by {
            let p = |v: VideoV| !gone.contains(v.id);
            d.videos.lemma_filter_pred(p, k);
            assert(e.videos.contains(e.videos[k]));
            d.videos.lemma_filter_contains_rev(p, e.videos[k]);
            let j = choose|j: int| 0 <= j < d.videos.len() && d.videos[j] == e.videos[k];
            if e.videos[k].source_id == id {
                assert(source_marks(d.videos, id as int)[j]);
                assert(gone.contains(d.videos[j].id));
            }
        }
    }
    if let Err(err) = delete_source(conn, id) {
        return Err(db_error(err));
    }
    let ghost mid = db(*conn);
    let pr = prune_empty_channels(conn);
    proof {
        if pr is Err {
            let gone = marked_ids(d.videos, source_marks(d.videos, id as int));
            lemma_filter_keeps_increasing(d.videos, |v: VideoV| !gone.contains(v.id));
            assert(mid.channels == d.channels);
        }
    }
    pr
}

/// The given path facts are those of the stored video paths, in table order.
pub open spec fn facts_of_videos(facts: Seq<PathFacts>, t: Seq<VideoV>) -> bool {
    facts.len() == t.len() && forall|i: int| 0 <= i < t.len() ==> (#[trigger] facts[i]).raw@ == t[i].path
}

/// Some kept path names the same place as the stored path with facts `f`.
pub open spec fn kept(keep: Seq<PathFacts>, f: PathFacts) -> bool {
    exists|k: int| 0 <= k < keep.len() && spec_paths_equal(#[trigger] keep[k], f)
}

/// The videos of a source whose paths are not among the kept ones.
pub open spec fn stale_marks(t: Seq<VideoV>, source_id: int, keep: Seq<PathFacts>, stored: Seq<PathFacts>) -> Seq<bool> {
    Seq::new(t.len(), |i: int| t[i].source_id == source_id && !kept(keep, stored[i]))
}

fn is_kept(keep: &Vec<PathFacts>, f: &PathFacts) -> (r: bool)
    ensures
        r == kept(keep@, *f),
{
    let mut k: usize = 0;
    while k < keep.len()
        invariant
            k <= keep.len(),
            forall|j: int| 0 <= j < k ==> !spec_paths_equal(#[trigger] keep@[j], *f),
        decreases keep.len() - k,
    {
        if paths_equal(&keep[k], f) {
            return true;
        }
        k += 1;
    }
    false
}

/// Deletes the videos of a source whose paths name none of the kept paths
/// (all of them when none is kept), with what refers to them, then the
/// channels left empty; the count is of deleted videos. `keep` holds the facts
/// of the kept paths, `stored` those of the stored video paths in table order.
/// The rows go in several statements, each atomic on its own: should one
/// fail, those before it stay done and the error is `Db`.
pub fn delete_videos_not_in(conn: &mut Connection, source_id: i64, keep: &Vec<PathFacts>, stored: &Vec<PathFacts>) -> (r: AppResult<i64>)
    requires
        facts_of_videos(stored@, db(*old(conn)).videos),
    ensures
        r matches Ok(n) ==> {
            let d = db(*old(conn));
            let marks = stale_marks(d.videos, source_id as int, keep@, stored@);
            &&& db(*final(conn)) == pruned(drop_videos(d, marked_ids(d.videos, marks)))
            &&& n == count_marked(marks) as i64
        },
        r matches Err(e) ==> e is Db && db_failure(e, db(*old(conn))),
{
    let ghost d = db(*conn);
    let videos = load_videos(conn)?;
    let mut marks: Vec<bool> = Vec::new();
    let mut i: usize = 0;
    while i < videos.len()
        invariant
            i <= videos.len(),
            views(videos@) == d.videos,
            facts_of_videos(stored@, d.videos),
            marks@ == stale_marks(d.videos, source_id as int, keep@, stored@).subrange(0, i as int),
        decreases videos.len() - i,
    {
        assert(d.videos[i as int] == videos@[i as int]@);
        let stale = videos[i].source_id == source_id && !is_kept(keep, &stored[i]);
        marks.push(stale);
        assert(marks@ =~= stale_marks(d.videos, source_id as int, keep@, stored@).subrange(0, i + 1));
        i += 1;
    }
    assert(marks@ =~= stale_marks(d.videos, source_id as int, keep@, stored@));
    let n = drop_marked(conn, &videos, &marks)?;
    let pr = prune_empty_channels(conn);
    proof {
        if pr is Err {
            let gone = marked_ids(d.videos, marks@);
            lemma_filter_keeps_increasing(d.videos, |v: VideoV| !gone.contains(v.id));
        }
    }
    pr?;
    Ok(n as i64)
}

/// Dropping rows keeps the video keys in order.
proof fn lemma_filter_keeps_increasing(t: Seq<VideoV>, p: spec_fn(VideoV) -> bool)
    requires
        increasing(video_ids(t)),
    ensures
        increasing(video_ids(t.filter(p))),
    decreases t.len(),
{
    reveal(Seq::filter);
    if t.len() > 0 {
        let u = t.drop_last();
        assert forall|a: int, b: int| 0 <= a < b < u.len() implies video_ids(u)[a] < video_ids(u)[b] by {
            assert(video_ids(u)[a] == video_ids(t)[a] && video_ids(u)[b] == video_ids(t)[b]);
        }
        lemma_filter_keeps_increasing(u, p);
        let f = u.filter(p);
        if p(t.last()) {
            let g = f.push(t.last());
            assert forall|i: int| 0 <= i < f.len() implies #[trigger] f[i].id < t.last().id by {
                assert(f.contains(f[i]));
                u.lemma_filter_contains_rev(p, f[i]);
                let j = choose|j: int| 0 <= j < u.len() && u[j] == f[i];
                assert(video_ids(t)[j] < video_ids(t)[t.len() - 1]);
            }
            assert forall|a: int, b: int| 0 <= a < b < g.len() implies video_ids(g)[a] < video_ids(g)[b] by {
                assert(video_ids(g)[a] == g[a].id && video_ids(g)[b] == g[b].id);
                if b < f.len() {
                    assert(video_ids(f)[a] == f[a].id && video_ids(f)[b] == f[b].id);
                } else {
                    assert(g[a] == f[a]);
                }
            }
        }
    }
}

/// Dropping no video changes nothing.
proof fn lemma_drop_none(d: Db)
    ensures
        drop_videos(d, Set::empty()) == d,
{
    lemma_filter_all_kept(d.videos, |v: VideoV| !Set::<int>::empty().contains(v.id));
    lemma_filter_all_kept(d.progress, |p: ProgressV| !Set::<int>::empty().contains(p.video_id));
    lemma_filter_all_kept(d.history, |h: HistoryV| !Set::<int>::empty().contains(h.video_id));
    lemma_filter_all_kept(d.items, |x: ItemV| !Set::<int>::empty().contains(x.video_id));
}

// ---------------------------------------------------------------------------
// Adding a source

/// The given path facts are those of the stored source paths, in table order.
pub open spec fn facts_of_sources(facts: Seq<PathFacts>, t: Seq<SourceV>) -> bool {
    facts.len() == t.len() && forall|i: int| 0 <= i < t.len() ==> (#[trigger] facts[i]).raw@ == t[i].path
}

/// How a candidate folder overlaps the first existing source it overlaps.
pub open spec fn first_overlap(existing: Seq<PathFacts>, candidate: PathFacts) -> Option<OverlapKind>
    decreases existing.len(),
{
    if existing.len() == 0 {
        None
    } else {
        match spec_source_overlap(existing[0], candidate) {
            Some(k) => Some(k),
            None => first_overlap(existing.drop_first(), candidate),
        }
    }
}

/// The key for a new source and the position its row goes to.
pub(crate) fn new_source_id(t: &Vec<Source>) -> (r: Option<(i64, usize)>)
    requires
        increasing(source_ids(views(t@))),
    ensures
        r matches Some((id, p)) ==> {
            &&& new_key(source_ids(views(t@))) == Some(id as int)
            &&& !source_ids(views(t@)).contains(id as int)
            &&& p == key_position(source_ids(views(t@)), id as int)
            &&& p <= t@.len()
        },
        r is None <==> new_key(source_ids(views(t@))) is None,
{
    let ghost k = source_ids(views(t@));
    let mut keys: Vec<i64> = Vec::new();
    assert(k.len() == t.len());
    let mut i: usize = 0;
    while i < t.len()
        invariant
            i <= t.len(),
            k == source_ids(views(t@)),
            int_keys(keys@) == k.subrange(0, i as int),
            keys@.len() == i,
            k.len() == t.len(),
        decreases t.len() - i,
    {
        assert(k[i as int] == t@[i as int]@.id);
        let ghost prev = keys@;
        keys.push(t[i].id);
        assert forall|j: int| 0 <= j < i + 1 implies #[trigger] int_keys(keys@)[j] == k[j] by {
            if j < i {
                assert(keys@[j] == prev[j]);
                assert(int_keys(prev)[j] == k.subrange(0, i as int)[j]);
            }
        }
        assert(int_keys(keys@) =~= k.subrange(0, i + 1));
        i += 1;
    }
    assert(k.subrange(0, t.len() as int) =~= k);
    pick_key(&keys)
}

/// Adds a library source folder. `path` holds the facts of the folder as
/// chosen, `norm` those of its normalized form and `norm_is_dir` whether that
/// is a directory; `existing` holds the facts of the stored source paths, in
/// table order. The folder is refused when it cannot be normalized (`Io`),
/// is not a directory (`Invalid("Folder does not exist")`), or is the same
/// as, inside, or around a stored source (`Overlap`, with the reason of the
/// first such source). Otherwise it is stored, available and never scanned,
/// under the key a new row gets (see [`new_key`]), stamped with the
/// current time.
pub fn add_source(
    conn: &mut Connection,
    path: &PathFacts,
    norm: &PathFacts,
    norm_is_dir: bool,
    existing: &Vec<PathFacts>,
) -> (r: AppResult<Source>)
    requires
        spec_normalize(*path) matches Ok(p) ==> norm.raw@ == p,
        facts_of_sources(existing@, db(*old(conn)).sources),
    ensures
        spec_normalize(*path) matches Err(m) ==> (r matches Err(AppError::Io(e)) && e@ == m),
        spec_normalize(*path) is Ok && !norm_is_dir ==> (r matches Err(AppError::Invalid(m)) && m@
            == "Folder does not exist"@),
        spec_normalize(*path) is Ok && norm_is_dir && first_overlap(existing@, *norm) is Some ==> (r matches Err(
            AppError::Overlap { reason },
        ) && reason@ == first_overlap(existing@, *norm)->0.spec_reason()),
        r matches Ok(s) ==> {
            let d = db(*old(conn));
            &&& spec_normalize(*path) is Ok && norm_is_dir && first_overlap(existing@, *norm) is None
            &&& new_key(source_ids(d.sources)) == Some(s.id as int)
            &&& s.path@ == norm.raw@
            &&& is_timestamp(s.added_at@)
            &&& s.last_scanned_at is None
            &&& s.available
            &&& db(*final(conn)) == (Db {
                sources: d.sources.insert(key_position(source_ids(d.sources), s.id as int), s@),
                ..d
            })
        },
        r is Err ==> db(*final(conn)) == db(*old(conn)),
        spec_normalize(*path) is Ok && norm_is_dir && first_overlap(existing@, *norm) is None && new_key(
            source_ids(db(*old(conn)).sources),
        ) is None ==> r is Err,
        r matches Err(e) ==> e is Io || e is Invalid || e is Overlap || e is Db,
        r matches Err(e) ==> (e is Db ==> db_failure(e, db(*old(conn))) || (is_full(e) && new_key(
            source_ids(db(*old(conn)).sources),
        ) is None)),
{
    let _ = normalize_path(path)?;
    if !norm_is_dir {
        return Err(AppError::Invalid(String::from_str("Folder does not exist")));
    }
    let ghost d = db(*conn);
    let mut i: usize = 0;
    let ghost ex = existing@;
    assert(ex.subrange(0, ex.len() as int) =~= ex);
    while i < existing.len()
        invariant
            i <= existing.len(),
            ex == existing@,
            spec_normalize(*path) is Ok,
            norm_is_dir,
            first_overlap(ex, *norm) == first_overlap(ex.subrange(i as int, ex.len() as int), *norm),
        decreases existing.len() - i,
    {
        assert(ex.subrange(i as int, ex.len() as int).drop_first() =~= ex.subrange(i + 1, ex.len() as int));
        if let Some(k) = source_overlap(&existing[i], norm) {
            return Err(AppError::Overlap { reason: k.reason() });
        }
        i += 1;
    }
    let sources = load_sources(conn)?;
    let id = match new_source_id(&sources) {
        Some((id, _)) => id,
        None => return Err(table_full()),
    };
    let added = now_iso();
    if let Err(e) = insert_source(conn, id, norm.raw.as_str(), added.as_str()) {
        return Err(db_error(e));
    }
    Ok(Source { id, path: norm.raw.clone(), added_at: added, last_scanned_at: None, available: true })
}

// ---------------------------------------------------------------------------
// Storing scanned videos

/// The channels after naming one `name`, and the channel's key: the stored
/// channel with the name's slug, else a new one under the key a new row gets.
pub open spec fn channel_for(chs: Seq<ChannelV>, name: Seq<char>) -> (Seq<ChannelV>, int) {
    let slug = spec_channel_slug(name);
    match find_slug(chs, slug) {
        Some(c) => (chs, c.id),
        None => {
            let id = new_key(channel_ids(chs))->0;
            (chs.insert(key_position(channel_ids(chs), id), ChannelV { id, slug, name }), id)
        },
    }
}

/// Naming a channel needs a new key, and the channel keys are used up.
pub open spec fn channel_keys_out(chs: Seq<ChannelV>, name: Seq<char>) -> bool {
    find_slug(chs, spec_channel_slug(name)) is None && new_key(channel_ids(chs)) is None
}

/// The key of the channel with the slug of `name`, stored first when missing;
/// when that needs a key and none is left, the table is full.
fn get_or_create_channel(conn: &mut Connection, name: &str) -> (r: AppResult<i64>)
    ensures
        channel_keys_out(db(*old(conn)).channels, name@) ==> r is Err,
        r matches Err(e) ==> db_failure(e, db(*old(conn))) || (is_full(e) && channel_keys_out(db(*old(conn)).channels, name@)),
        r matches Ok(id) ==> {
            let d = db(*old(conn));
            &&& id == channel_for(d.channels, name@).1
            &&& db(*final(conn)) == (Db { channels: channel_for(d.channels, name@).0, ..d })
        },
        r is Err ==> db(*final(conn)) == db(*old(conn)),
        r matches Err(e) ==> e is Db,
{
    let slug = channel_slug(name);
    let channels = load_channels(conn)?;
    if let Some(i) = slug_at(&channels, slug.as_str()) {
        return Ok(channels[i].id);
    }
    let id = match new_channel_id(&channels) {
        Some((id, _)) => id,
        None => return Err(table_full()),
    };
    if let Err(e) = insert_channel(conn, id, slug.as_str(), name) {
        return Err(db_error(e));
    }
    Ok(id)
}

/// The channels after a scan names a video's channel, and the channel's key
/// (none for a missing or empty name).
pub open spec fn scan_channel(chs: Seq<ChannelV>, name: Option<Seq<char>>) -> (Seq<ChannelV>, Option<int>) {
    match name {
        Some(n) => if n.len() > 0 {
            (channel_for(chs, n).0, Some(channel_for(chs, n).1))
        } else {
            (chs, None)
        },
        None => (chs, None),
    }
}

/// The text a video path is stored as: normalized when possible, else as given.
pub open spec fn stored_path(f: PathFacts) -> Seq<char> {
    match spec_normalize(f) {
        Ok(p) => p,
        Err(_) => f.raw@,
    }
}

/// The first position of a stored video with exactly this path.
pub open spec fn index_with_path(t: Seq<VideoV>, p: Seq<char>) -> Option<int>
    decreases t.len(),
{
    if t.len() == 0 {
        None
    } else if t[0].path == p {
        Some(0)
    } else {
        match index_with_path(t.drop_first(), p) {
            Some(i) => Some(i + 1),
            None => None,
        }
    }
}

/// The first position whose stored path names the same place as `f`.
pub open spec fn index_same_place(stored: Seq<PathFacts>, f: PathFacts) -> Option<int>
    decreases stored.len(),
{
    if stored.len() == 0 {
        None
    } else if spec_paths_equal(stored[0], f) {
        Some(0)
    } else {
        match index_same_place(stored.drop_first(), f) {
            Some(i) => Some(i + 1),
            None => None,
        }
    }
}

/// The stored video a scanned file is: the one stored under the file's
/// normalized path, else the first whose path names the same place.
pub open spec fn matching_video(t: Seq<VideoV>, stored: Seq<PathFacts>, f: PathFacts) -> Option<int> {
    match index_with_path(t, stored_path(f)) {
        Some(i) => Some(i),
        None => index_same_place(stored, f),
    }
}

/// A stored video with the fields a rescan refreshes.
pub open spec fn rescanned(x: VideoV, cid: Option<int>, m: ResolvedMeta, parent: Seq<char>, mtime: int, size: int) -> VideoV {
    VideoV {
        channel_id: cid,
        title: m.title@,
        description: opt_view(m.description),
        duration_sec: stored_real(m.duration_sec),
        thumbnail_path: opt_view(m.thumbnail_path),
        upload_date: opt_view(m.upload_date),
        parent_dir: parent,
        mtime,
        size_bytes: size,
        ..x
    }
}

/// A newly stored video.
pub open spec fn new_video(
    id: int,
    path: Seq<char>,
    source_id: int,
    cid: Option<int>,
    m: ResolvedMeta,
    parent: Seq<char>,
    mtime: int,
    size: int,
    added_at: Seq<char>,
) -> VideoV {
    VideoV {
        id,
        path,
        source_id,
        channel_id: cid,
        title: m.title@,
        description: opt_view(m.description),
        duration_sec: stored_real(m.duration_sec),
        thumbnail_path: opt_view(m.thumbnail_path),
        upload_date: opt_view(m.upload_date),
        parent_dir: parent,
        mtime,
        size_bytes: size,
        added_at,
    }
}

proof fn lemma_index_with_path(t: Seq<VideoV>, p: Seq<char>)
    ensures
        index_with_path(t, p) matches Some(i) ==> 0 <= i < t.len() && t[i].path == p,
    decreases t.len(),
{
    if t.len() > 0 && t[0].path != p {
        lemma_index_with_path(t.drop_first(), p);
    }
}

proof fn lemma_index_same_place(t: Seq<PathFacts>, f: PathFacts)
    ensures
        index_same_place(t, f) matches Some(i) ==> 0 <= i < t.len(),
    decreases t.len(),
{
    if t.len() > 0 && !spec_paths_equal(t[0], f) {
        lemma_index_same_place(t.drop_first(), f);
    }
}

fn position_with_path(videos: &Vec<VideoRow>, p: &str) -> (r: Option<usize>)
    ensures
        match index_with_path(views(videos@), p@) {
            Some(i) => r == Some(i as usize) && 0 <= i < videos.len(),
            None => r is None,
        },
{
    let ghost tv = views(videos@);
    proof {
        lemma_index_with_path(tv, p@);
    }
    let mut i: usize = 0;
    assert(tv.subrange(0, tv.len() as int) =~= tv);
    while i < videos.len()
        invariant
            i <= videos.len(),
            tv == views(videos@),
            index_with_path(tv, p@) == match index_with_path(tv.subrange(i as int, tv.len() as int), p@) {
                Some(j) => Some(j + i),
                None => None,
            },
        decreases videos.len() - i,
    {
        assert(tv.subrange(i as int, tv.len() as int).drop_first() =~= tv.subrange(i + 1, tv.len() as int));
        assert(tv[i as int] == videos@[i as int]@);
        if str_eq(videos[i].path.as_str(), p) {
            return Some(i);
        }
        i += 1;
    }
    None
}

fn position_same_place(stored: &Vec<PathFacts>, f: &PathFacts) -> (r: Option<usize>)
    ensures
        match index_same_place(stored@, *f) {
            Some(i) => r == Some(i as usize) && 0 <= i < stored.len(),
            None => r is None,
        },
{
    let ghost tv = stored@;
    proof {
        lemma_index_same_place(tv, *f);
    }
    let mut i: usize = 0;
    assert(tv.subrange(0, tv.len() as int) =~= tv);
    while i < stored.len()
        invariant
            i <= stored.len(),
            tv == stored@,
            index_same_place(tv, *f) == match index_same_place(tv.subrange(i as int, tv.len() as int), *f) {
                Some(j) => Some(j + i),
                None => None,
            },
        decreases stored.len() - i,
    {
        assert(tv.subrange(i as int, tv.len() as int).drop_first() =~= tv.subrange(i + 1, tv.len() as int));
        if paths_equal(&stored[i], f) {
            return Some(i);
        }
        i += 1;
    }
    None
}

/// Storing a scanned file needs a key that is not left: a new channel's
/// (for a non-empty channel name with no channel yet) or, the channel being
/// there, a new video's (for a file that matches no stored video).
pub open spec fn upsert_keys_out(d: Db, stored: Seq<PathFacts>, f: PathFacts, name: Option<Seq<char>>) -> bool {
    ||| (name matches Some(n) && n.len() > 0 && channel_keys_out(d.channels, n))
    ||| (matching_video(d.videos, stored, f) is None && new_key(video_ids(d.videos)) is None)
}

/// What [`upsert_video`] does: from catalog `d` to catalog `e`, storing the
/// file with facts `f` under source `source_id` with outcome `r`.
pub open spec fn upserted(
    d: Db,
    e: Db,
    source_id: int,
    stored: Seq<PathFacts>,
    f: PathFacts,
    meta: ResolvedMeta,
    parent_dir: Seq<char>,
    mtime: int,
    size: int,
    r: Result<UpsertOutcome, AppError>,
) -> bool {
    let ch = scan_channel(d.channels, opt_view(meta.channel_name));
    let d1 = Db { channels: ch.0, ..d };
    &&& r matches Ok(o) ==> match matching_video(d.videos, stored, f) {
        Some(i) => {
            let x = d.videos[i];
            &&& o.id == x.id
            &&& !o.created
            &&& e == if x.source_id == source_id {
                Db {
                    videos: d.videos.map_values(
                        |v: VideoV| if v.id == x.id {
                            rescanned(v, ch.1, meta, parent_dir, mtime, size)
                        } else {
                            v
                        },
                    ),
                    ..d1
                }
            } else {
                d1
            }
        },
        None => {
            &&& o.created
            &&& new_key(video_ids(d.videos)) == Some(o.id as int)
            &&& exists|ts: Seq<char>| #![trigger is_timestamp(ts)] is_timestamp(ts) && e == (Db {
                videos: d.videos.insert(
                    key_position(video_ids(d.videos), o.id as int),
                    new_video(o.id as int, stored_path(f), source_id, ch.1, meta, parent_dir, mtime, size, ts),
                ),
                ..d1
            })
        },
    }
    &&& r is Err ==> (Db { channels: d.channels, ..e }) == d
    &&& upsert_keys_out(d, stored, f, opt_view(meta.channel_name)) ==> r is Err
    &&& r matches Err(x) ==> x is Db && (db_failure(x, d) || (is_full(x) && upsert_keys_out(d, stored, f, opt_view(meta.channel_name))))
}

/// Facts `x` are those of file `f` as its path is stored.
pub open spec fn fresh_facts(x: PathFacts, f: PathFacts) -> bool {
    &&& x.raw@ == stored_path(f)
    &&& x.exists == f.exists
    &&& x.canonical == f.canonical
    &&& x.cwd == f.cwd
}

pub(crate) fn clone_text_result(x: &Result<String, String>) -> (r: Result<String, String>)
    ensures
        r == *x,
{
    match x {
        Ok(s) => Ok(s.clone()),
        Err(s) => Err(s.clone()),
    }
}

/// Stores what a scan found of a video file: `path` holds the facts of the
/// file's path, `stored` those of the stored video paths in table order. A
/// non-empty channel name first gets its channel (created when missing). When
/// the file is already stored (see [`matching_video`]) under the same
/// source, its scanned fields are refreshed; under another source it is left
/// as it is, since the first source to find a file keeps it. Otherwise it is
/// stored under the key a new row gets (see [`new_key`]), stamped with the
/// current time, and its facts join `stored` at the row's place.
pub fn upsert_video(
    conn: &mut Connection,
    source_id: i64,
    path: &PathFacts,
    stored: &mut Vec<PathFacts>,
    meta: &ResolvedMeta,
    parent_dir: &str,
    mtime: i64,
    size: i64,
) -> (r: AppResult<UpsertOutcome>)
    requires
        facts_of_videos(old(stored)@, db(*old(conn)).videos),
    ensures
        facts_of_videos(final(stored)@, db(*final(conn)).videos),
        r is Ok && r->Ok_0.created ==> {
            let p = key_position(video_ids(db(*old(conn)).videos), r->Ok_0.id as int);
            &&& 0 <= p <= old(stored)@.len()
            &&& final(stored)@ == old(stored)@.insert(p, final(stored)@[p])
            &&& fresh_facts(final(stored)@[p], *path)
        },
        (r is Err || !r->Ok_0.created) ==> final(stored)@ == old(stored)@,
        upserted(
            db(*old(conn)),
            db(*final(conn)),
            source_id as int,
            old(stored)@,
            *path,
            *meta,
            parent_dir@,
            mtime as int,
            size as int,
            r,
        ),
{
    let sp = match normalize_path(path) {
        Ok(p) => p,
        Err(_) => path.raw.clone(),
    };
    let cid: Option<i64> = match &meta.channel_name {
        Some(n) => if chars_of(n.as_str()).len() > 0 {
            Some(get_or_create_channel(conn, n.as_str())?)
        } else {
            None
        },
        None => None,
    };
    let ghost d = db(*old(conn));
    let ghost ch = scan_channel(d.channels, opt_view(meta.channel_name));
    assert(oi(cid) == ch.1);
    assert(db(*conn) == (Db { channels: ch.0, ..d }));
    let videos = load_videos(conn)?;
    assert(views(videos@) == d.videos);
    assert(stored@.len() == videos@.len());
    let found = match position_with_path(&videos, sp.as_str()) {
        Some(i) => Some(i),
        None => position_same_place(&*stored, path),
    };
    match found {
        Some(i) => {
            assert(d.videos[i as int] == videos@[i as int]@);
            let id = videos[i].id;
            if videos[i].source_id != source_id {
                return Ok(UpsertOutcome { id, created: false });
            }
            let fields = VideoFields {
                channel_id: cid,
                title: meta.title.clone(),
                description: clone_opt(&meta.description),
                duration_sec: clone_opt_value(&meta.duration_sec),
                thumbnail_path: clone_opt(&meta.thumbnail_path),
                upload_date: clone_opt(&meta.upload_date),
                parent_dir: String::from_str(parent_dir),
                mtime,
                size_bytes: size,
            };
            if let Err(e) = update_video(conn, id, &fields) {
                return Err(db_error(e));
            }
            assert(db(*conn).videos =~= d.videos.map_values(
                |v: VideoV| if v.id == id {
                    rescanned(v, ch.1, *meta, parent_dir@, mtime as int, size as int)
                } else {
                    v
                },
            ));
            Ok(UpsertOutcome { id, created: false })
        },
        None => {
            let (id, pos) = match new_video_id(&videos) {
                Some(k) => k,
                None => return Err(table_full()),
            };
            let raw = sp.clone();
            let added = now_iso();
            let row: VideoCols = (
                id,
                sp,
                source_id,
                cid,
                meta.title.clone(),
                clone_opt(&meta.description),
                clone_opt_value(&meta.duration_sec),
                clone_opt(&meta.thumbnail_path),
                clone_opt(&meta.upload_date),
                String::from_str(parent_dir),
                mtime,
                size,
                added,
            );
            if let Err(e) = insert_video(conn, &row) {
                return Err(db_error(e));
            }
            assert(written_video(row) == new_video(id as int, stored_path(*path), source_id as int, ch.1, *meta, parent_dir@, mtime as int, size as int, row.12@));
            assert(is_timestamp(row.12@));
            let nf = PathFacts {
                raw,
                exists: path.exists,
                canonical: clone_text_result(&path.canonical),
                cwd: clone_text_result(&path.cwd),
            };
            let ghost before = stored@;
            stored.insert(pos, nf);
            proof {
                let e = db(*conn).videos;
                let w = written_video(row);
                d.videos.insert_ensures(pos as int, w);
                before.insert_ensures(pos as int, nf);
                assert(e == d.videos.insert(pos as int, w));
                assert forall|j: int| 0 <= j < e.len() implies (#[trigger] stored@[j]).raw@ == e[j].path by {
                    if j < pos {
                        assert(stored@[j] == before[j] && e[j] == d.videos[j]);
                    } else if j > pos {
                        assert(stored@[j] == before[j - 1] && e[j] == d.videos[j - 1]);
                    }
                }
                assert(stored@[pos as int] == nf);
            }
            Ok(UpsertOutcome { id, created: true })
        },
    }
}

// ---------------------------------------------------------------------------
// Laws

/// Removing a source leaves nothing of it: not the source, none of its
/// videos, no progress, history or playlist entry of those videos, and no
/// channel without videos; the videos of other sources stay.
pub proof fn removing_a_source_leaves_nothing_of_it(d: Db, source_id: int)
    requires
        increasing(video_ids(d.videos)),
    ensures
        ({
            let e = without_source(d, source_id);
            &&& forall|i: int| 0 <= i < e.sources.len() ==> (#[trigger] e.sources[i]).id != source_id
            &&& forall|i: int| 0 <= i < e.videos.len() ==> (#[trigger] e.videos[i]).source_id != source_id
            &&& forall|i: int, j: int|
                0 <= i < e.progress.len() && 0 <= j < d.videos.len() && d.videos[j].source_id == source_id
                    ==> (#[trigger] e.progress[i]).video_id != (#[trigger] d.videos[j]).id
            &&& forall|i: int, j: int|
                0 <= i < e.history.len() && 0 <= j < d.videos.len() && d.videos[j].source_id == source_id
                    ==> (#[trigger] e.history[i]).video_id != (#[trigger] d.videos[j]).id
            &&& forall|i: int, j: int|
                0 <= i < e.items.len() && 0 <= j < d.videos.len() && d.videos[j].source_id == source_id
                    ==> (#[trigger] e.items[i]).video_id != (#[trigger] d.videos[j]).id
            &&& forall|i: int| 0 <= i < e.channels.len() ==> channel_used(e.videos, (#[trigger] e.channels[i]).id)
            &&& forall|j: int| 0 <= j < d.videos.len() && (#[trigger] d.videos[j]).source_id != source_id ==> e.videos.contains(d.videos[j])
        }),
{
    let gone = marked_ids(d.videos, source_marks(d.videos, source_id));
    let e = without_source(d, source_id);
    let ps = |s: SourceV| s.id != source_id;
    assert forall|i: int| 0 <= i < e.sources.len() implies (#[trigger] e.sources[i]).id != source_id by {
        d.sources.lemma_filter_pred(ps, i);
    }
    let pv = |v: VideoV| !gone.contains(v.id);
    assert forall|i: int| 0 <= i < e.videos.len() implies (#[trigger] e.videos[i]).source_id != source_id by {
        d.videos.lemma_filter_pred(pv, i);
        assert(d.videos.filter(pv).contains(e.videos[i]));
        d.videos.lemma_filter_contains_rev(pv, e.videos[i]);
        let k = choose|k: int| 0 <= k < d.videos.len() && d.videos[k] == e.videos[i];
        if d.videos[k].source_id == source_id {
            assert(source_marks(d.videos, source_id)[k]);
            assert(gone.contains(d.videos[k].id));
        }
    }
    assert forall|i: int, j: int|
        0 <= i < e.progress.len() && 0 <= j < d.videos.len() && d.videos[j].source_id == source_id
            implies (#[trigger] e.progress[i]).video_id != (#[trigger] d.videos[j]).id by {
        d.progress.lemma_filter_pred(|p: ProgressV| !gone.contains(p.video_id), i);
        assert(source_marks(d.videos, source_id)[j]);
        assert(gone.contains(d.videos[j].id));
    }
    assert forall|i: int, j: int|
        0 <= i < e.history.len() && 0 <= j < d.videos.len() && d.videos[j].source_id == source_id
            implies (#[trigger] e.history[i]).video_id != (#[trigger] d.videos[j]).id by {
        d.history.lemma_filter_pred(|h: HistoryV| !gone.contains(h.video_id), i);
        assert(source_marks(d.videos, source_id)[j]);
        assert(gone.contains(d.videos[j].id));
    }
    assert forall|i: int, j: int|
        0 <= i < e.items.len() && 0 <= j < d.videos.len() && d.videos[j].source_id == source_id
            implies (#[trigger] e.items[i]).video_id != (#[trigger] d.videos[j]).id by {
        d.items.lemma_filter_pred(|x: ItemV| !gone.contains(x.video_id), i);
        assert(source_marks(d.videos, source_id)[j]);
        assert(gone.contains(d.videos[j].id));
    }
    let kept_videos = d.videos.filter(pv);
    let pc = |c: ChannelV| channel_used(kept_videos, c.id);
    assert forall|i: int| 0 <= i < e.channels.len() implies channel_used(e.videos, (#[trigger] e.channels[i]).id) by {
        d.channels.lemma_filter_pred(pc, i);
    }
    assert forall|j: int| 0 <= j < d.videos.len() && (#[trigger] d.videos[j]).source_id != source_id implies e.videos.contains(d.videos[j]) by {
        if gone.contains(d.videos[j].id) {
            let k = choose|k: int| 0 <= k < d.videos.len() && k < source_marks(d.videos, source_id).len() && (#[trigger] d.videos[k]).id == d.videos[j].id && source_marks(d.videos, source_id)[k];
            assert(video_ids(d.videos)[k] == d.videos[k].id);
            assert(video_ids(d.videos)[j] == d.videos[j].id);
        }
        d.videos.lemma_filter_contains(pv, j);
    }
}

/// A channel slug missing from the table is found once a channel with it is inserted.
proof fn lemma_find_slug_inserted(t: Seq<ChannelV>, p: int, c: ChannelV)
    requires
        find_slug(t, c.slug) is None,
        0 <= p <= t.len(),
    ensures
        find_slug(t.insert(p, c), c.slug) == Some(c),
    decreases t.len(),
{
    t.insert_ensures(p, c);
    if p > 0 {
        assert(t.insert(p, c).drop_first() =~= t.drop_first().insert(p - 1, c));
        assert(t.insert(p, c)[0] == t[0]);
        lemma_find_slug_inserted(t.drop_first(), p - 1, c);
    }
}

/// Names with the same slug are one channel: naming a channel again (by the
/// same name or another with its slug) stores nothing and gives the same key.
pub proof fn same_slug_is_one_channel(chs: Seq<ChannelV>, first: Seq<char>, again: Seq<char>)
    requires
        spec_channel_slug(first) == spec_channel_slug(again),
    ensures
        channel_for(channel_for(chs, first).0, again) == channel_for(chs, first),
{
    let slug = spec_channel_slug(first);
    if find_slug(chs, slug) is None {
        let id = new_key(channel_ids(chs))->0;
        lemma_key_position_bound(channel_ids(chs), id);
        lemma_find_slug_inserted(chs, key_position(channel_ids(chs), id), ChannelV { id, slug, name: first });
    }
}

proof fn lemma_index_with_path_found(t: Seq<VideoV>, p: Seq<char>, j: int)
    requires
        0 <= j < t.len(),
        t[j].path == p,
    ensures
        index_with_path(t, p) is Some,
    decreases t.len(),
{
    if t[0].path != p {
        lemma_index_with_path_found(t.drop_first(), p, j - 1);
    }
}

/// A file is never stored twice under its path: when a video is stored under
/// the path a file is stored as, the file matches a video with that path
/// (which is then refreshed or, under another source, left alone).
pub proof fn a_stored_path_is_matched(t: Seq<VideoV>, stored: Seq<PathFacts>, f: PathFacts, j: int)
    requires
        0 <= j < t.len(),
        t[j].path == stored_path(f),
    ensures
        matching_video(t, stored, f) matches Some(i) && 0 <= i < t.len() && t[i].path == stored_path(f),
{
    lemma_index_with_path_found(t, stored_path(f), j);
    lemma_index_with_path(t, stored_path(f));
}

/// Keeping every element keeps the sequence.
proof fn lemma_filter_all_kept<A>(s: Seq<A>, p: spec_fn(A) -> bool)
    requires
        forall|x: A| #[trigger] p(x),
    ensures
        s.filter(p) == s,
    decreases s.len(),
{
    reveal(Seq::filter);
    if s.len() > 0 {
        lemma_filter_all_kept(s.drop_last(), p);
        assert(s.drop_last().push(s.last()) =~= s);
    }
}

} // verus!
