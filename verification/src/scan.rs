//! Scanning a library source: storing the video files found under its folder,
//! dropping the stored videos that are gone, and keeping the counts.
//!
//! Walking the folder and reading each file's metadata is the caller's part;
//! it hands over what it found as [`ScannedFile`]s.
use crate::catalog::{find_source, lemma_find_source_status, set_source_available};
use crate::clock::{is_timestamp, now_iso};
use crate::error::{AppError, AppResult};
use crate::rows::db_failure;
use crate::metadata::{spec_is_video_file, is_video_file, ResolvedMeta};
use crate::models::{ScanStats, UpsertOutcome};
use crate::pathutil::PathFacts;
use crate::store::{db, increasing, key_position, video_ids, with_source_status, Db, VideoV};
use crate::models::opt_view;
use crate::upkeep::{
    stored_path, upserted, count_marked, fresh_facts, matching_video, new_video, scan_channel, lemma_key_position_bound, delete_videos_not_in, drop_videos, facts_of_videos, kept, marked_ids, pruned, stale_marks, upsert_video};
use rusqlite::Connection;
use vstd::prelude::*;

verus! {

/// One entry met while walking a source folder.
pub enum WalkEntry {
    /// An entry the walk could not read.
    Unreadable,
    /// Something that is not a regular file (a folder, a link).
    NotAFile,
    /// A regular file at this path.
    File(String),
}

/// What a scan does with a walk entry.
#[derive(Debug, Clone, Copy, PartialEq, Eq)]
pub enum EntryAction {
    /// Counted as a skipped folder.
    CountSkipped,
    /// Passed over.
    Ignore,
    /// Its metadata is read and it is stored.
    Import,
}

pub open spec fn spec_entry_action(e: WalkEntry) -> EntryAction {
    match e {
        WalkEntry::Unreadable => EntryAction::CountSkipped,
        WalkEntry::NotAFile => EntryAction::Ignore,
        WalkEntry::File(p) => if spec_is_video_file(p@) {
            EntryAction::Import
        } else {
            EntryAction::Ignore
        },
    }
}

/// Unreadable entries are counted, video files are imported, everything else
/// is passed over.
pub fn entry_action(e: &WalkEntry) -> (r: EntryAction)
    ensures
        r == spec_entry_action(*e),
{
    match e {
        WalkEntry::Unreadable => EntryAction::CountSkipped,
        WalkEntry::NotAFile => EntryAction::Ignore,
        WalkEntry::File(p) => if is_video_file(p.as_str()) {
            EntryAction::Import
        } else {
            EntryAction::Ignore
        },
    }
}

/// A video file found by the walk, with what was read about it: the facts of
/// its normalized path, its metadata, its folder (as stored), its
/// modification time in seconds and its size in bytes.
pub struct ScannedFile {
    pub norm: PathFacts,
    pub meta: ResolvedMeta,
    pub parent_dir: String,
    pub mtime: i64,
    pub size: i64,
}

/// The counts after one file was stored (or failed to be).
pub open spec fn counted(s: ScanStats, outcome: Result<UpsertOutcome, AppError>) -> ScanStats {
    match outcome {
        Ok(o) => if o.created {
            ScanStats { imported: (s.imported + 1) as i64, ..s }
        } else {
            ScanStats { updated: (s.updated + 1) as i64, ..s }
        },
        Err(_) => ScanStats { skipped_dirs: (s.skipped_dirs + 1) as i64, ..s },
    }
}

/// Counts a stored file: a new video is imported, a known one updated, and a
/// failure counts as skipped.
pub fn count_outcome(s: ScanStats, outcome: &AppResult<UpsertOutcome>) -> (r: ScanStats)
    requires
        s.imported < i64::MAX,
        s.updated < i64::MAX,
        s.skipped_dirs < i64::MAX,
    ensures
        r == counted(s, *outcome),
{
    match outcome {
        Ok(o) => if o.created {
            ScanStats { imported: s.imported + 1, ..s }
        } else {
            ScanStats { updated: s.updated + 1, ..s }
        },
        Err(_) => ScanStats { skipped_dirs: s.skipped_dirs + 1, ..s },
    }
}

/// The counts sum to the number of files seen plus the unreadable entries.
pub open spec fn counts_add_up(s: ScanStats, files: int, unreadable: int) -> bool {
    &&& s.imported >= 0
    &&& s.updated >= 0
    &&& s.skipped_dirs >= unreadable
    &&& s.removed == 0
    &&& s.imported + s.updated + s.skipped_dirs == files + unreadable
}

/// The video at position `k` of `after` has the key and path of the one at
/// position `j` of `before`.
pub open spec fn same_video_at(before: Seq<VideoV>, j: int, after: Seq<VideoV>, k: int) -> bool {
    0 <= k < after.len() && after[k].id == before[j].id && after[k].path == before[j].path
}

/// Storing scanned files touches only videos and channels, and keeps every
/// stored video (its key and path).
pub open spec fn keeps_stored_videos(before: Db, after: Db) -> bool {
    &&& after == (Db { videos: after.videos, channels: after.channels, ..before })
    &&& after.videos.len() >= before.videos.len()
    &&& forall|j: int| 0 <= j < before.videos.len() ==> #[trigger] still_stored(before.videos, j, after.videos)
}

/// The video at position `j` of `before` is still in `after`, by key and path.
pub open spec fn still_stored(before: Seq<VideoV>, j: int, after: Seq<VideoV>) -> bool {
    exists|k: int| #[trigger] same_video_at(before, j, after, k)
}

proof fn lemma_keeps_trans(a: Db, b: Db, c: Db)
    requires
        keeps_stored_videos(a, b),
        keeps_stored_videos(b, c),
    ensures
        keeps_stored_videos(a, c),
{
    assert forall|j: int| 0 <= j < a.videos.len() implies #[trigger] still_stored(a.videos, j, c.videos) by {
        assert(still_stored(a.videos, j, b.videos));
        let k1 = choose|k: int| #[trigger] same_video_at(a.videos, j, b.videos, k);
        assert(still_stored(b.videos, k1, c.videos));
        let k2 = choose|k: int| #[trigger] same_video_at(b.videos, k1, c.videos, k);
        assert(same_video_at(a.videos, j, c.videos, k2));
    }
}

/// One stored file keeps every stored video, and adds a row exactly when the
/// video is new.
proof fn lemma_upserted_keeps(
    d: Db,
    e: Db,
    source_id: int,
    stored: Seq<PathFacts>,
    f: PathFacts,
    meta: ResolvedMeta,
    parent_dir: Seq<char>,
    mtime: int,
    size: int,
    r: Result<UpsertOutcome, AppError>,
)
    requires
        upserted(d, e, source_id, stored, f, meta, parent_dir, mtime, size, r),
    ensures
        keeps_stored_videos(d, e),
        e.videos.len() == d.videos.len() + if r matches Ok(o) && o.created { 1int } else { 0int },
{
    if let Ok(o) = r {
        match matching_video(d.videos, stored, f) {
            Some(i) => {
                assert forall|j: int| 0 <= j < d.videos.len() implies #[trigger] still_stored(d.videos, j, e.videos) by {
                    assert(same_video_at(d.videos, j, e.videos, j));
                }
            },
            None => {
                let ts = choose|ts: Seq<char>| #![trigger is_timestamp(ts)] is_timestamp(ts) && e == (Db {
                    videos: d.videos.insert(
                        key_position(video_ids(d.videos), o.id as int),
                        new_video(o.id as int, stored_path(f), source_id, scan_channel(d.channels, opt_view(meta.channel_name)).1, meta, parent_dir, mtime, size, ts),
                    ),
                    ..Db { channels: scan_channel(d.channels, opt_view(meta.channel_name)).0, ..d }
                });
                let p = key_position(video_ids(d.videos), o.id as int);
                let w = new_video(o.id as int, stored_path(f), source_id, scan_channel(d.channels, opt_view(meta.channel_name)).1, meta, parent_dir, mtime, size, ts);
                lemma_key_position_bound(video_ids(d.videos), o.id as int);
                d.videos.insert_ensures(p, w);
                assert forall|j: int| 0 <= j < d.videos.len() implies #[trigger] still_stored(d.videos, j, e.videos) by {
                    if j < p {
                        assert(same_video_at(d.videos, j, e.videos, j));
                    } else {
                        assert(same_video_at(d.videos, j, e.videos, j + 1));
                    }
                }
            },
        }
    } else {
        assert forall|j: int| 0 <= j < d.videos.len() implies #[trigger] still_stored(d.videos, j, e.videos) by {
            assert(same_video_at(d.videos, j, e.videos, j));
        }
    }
}

/// The counts after each outcome in turn, starting from `s`.
pub open spec fn count_all(s: ScanStats, outs: Seq<Result<UpsertOutcome, AppError>>) -> ScanStats
    decreases outs.len(),
{
    if outs.len() == 0 {
        s
    } else {
        counted(count_all(s, outs.drop_last()), outs.last())
    }
}

/// The stored-path facts after a file with facts `f` was stored with outcome
/// `o`: a new row adds the file's facts, under the text its path is stored as,
/// at the row's place.
pub open spec fn facts_after(before: Seq<PathFacts>, after: Seq<PathFacts>, f: PathFacts, o: Result<UpsertOutcome, AppError>) -> bool {
    if o matches Ok(x) && x.created {
        exists|p: int| 0 <= p <= before.len() && after == before.insert(p, #[trigger] after[p]) && fresh_facts(after[p], f)
    } else {
        after == before
    }
}

/// Step `k` of a run of stores: file `k` is stored as [`upserted`] states, from
/// catalog `states[k]` to `states[k + 1]`, matched against `facts[k]`, with
/// outcome `outs[k]`.
pub open spec fn store_step(
    states: Seq<Db>,
    facts: Seq<Seq<PathFacts>>,
    outs: Seq<Result<UpsertOutcome, AppError>>,
    source_id: int,
    files: Seq<ScannedFile>,
    k: int,
) -> bool {
    let f = files[k];
    &&& upserted(states[k], states[k + 1], source_id, facts[k], f.norm, f.meta, f.parent_dir@, f.mtime as int, f.size as int, outs[k])
    &&& facts_after(facts[k], facts[k + 1], f.norm, outs[k])
}

/// The first `n` files stored one after the other.
pub open spec fn stores(
    states: Seq<Db>,
    facts: Seq<Seq<PathFacts>>,
    outs: Seq<Result<UpsertOutcome, AppError>>,
    source_id: int,
    files: Seq<ScannedFile>,
    n: int,
) -> bool {
    &&& states.len() == n + 1
    &&& facts.len() == n + 1
    &&& outs.len() == n
    &&& forall|k: int| 0 <= k < n ==> #[trigger] store_step(states, facts, outs, source_id, files, k)
}

proof fn lemma_one_more_store(
    states: Seq<Db>,
    facts: Seq<Seq<PathFacts>>,
    outs: Seq<Result<UpsertOutcome, AppError>>,
    source_id: int,
    files: Seq<ScannedFile>,
    i: int,
    e: Db,
    fa: Seq<PathFacts>,
    o: Result<UpsertOutcome, AppError>,
    s0: ScanStats,
)
    requires
        0 <= i < files.len(),
        stores(states, facts, outs, source_id, files, i),
        upserted(states[i], e, source_id, facts[i], files[i].norm, files[i].meta, files[i].parent_dir@, files[i].mtime as int, files[i].size as int, o),
        facts_after(facts[i], fa, files[i].norm, o),
    ensures
        stores(states.push(e), facts.push(fa), outs.push(o), source_id, files, i + 1),
        states.push(e)[0] == states[0],
        facts.push(fa)[0] == facts[0],
        count_all(s0, outs.push(o)) == counted(count_all(s0, outs), o),
{
    let states2 = states.push(e);
    let facts2 = facts.push(fa);
    let outs2 = outs.push(o);
    assert(store_step(states2, facts2, outs2, source_id, files, i));
    assert forall|k: int| 0 <= k < i + 1 implies #[trigger] store_step(states2, facts2, outs2, source_id, files, k) by {
        if k < i {
            assert(store_step(states, facts, outs, source_id, files, k));
            assert(states2[k] == states[k] && states2[k + 1] == states[k + 1]);
            assert(facts2[k] == facts[k] && facts2[k + 1] == facts[k + 1]);
            assert(outs2[k] == outs[k]);
        }
    }
    assert(outs2.drop_last() =~= outs);
}

/// Stores the files a walk found under a source, one after the other, and
/// counts them; `unreadable` entries count as skipped, and so does a file
/// that could not be stored. `stored` holds the facts of the stored video
/// paths in table order; a video stored here is compared with later files by
/// the facts of the file it came from. Each file is stored as
/// [`crate::upkeep::upsert_video`] states; every imported file is one new
/// row, and no stored video is removed or moved.
pub fn store_files(conn: &mut Connection, source_id: i64, files: &Vec<ScannedFile>, unreadable: i64, stored: Vec<PathFacts>) -> (r: ScanStats)
    requires
        facts_of_videos(stored@, db(*old(conn)).videos),
        0 <= unreadable,
        unreadable + files.len() < i64::MAX,
    ensures
        counts_add_up(r, files.len() as int, unreadable as int),
        keeps_stored_videos(db(*old(conn)), db(*final(conn))),
        db(*final(conn)).videos.len() == db(*old(conn)).videos.len() + r.imported,
        exists|states: Seq<Db>, facts: Seq<Seq<PathFacts>>, outs: Seq<Result<UpsertOutcome, AppError>>|
            #![trigger stores(states, facts, outs, source_id as int, files@, files.len() as int)]
            stores(states, facts, outs, source_id as int, files@, files.len() as int) && states[0] == db(*old(conn))
                && facts[0] == stored@ && states[files.len() as int] == db(*final(conn)) && r == count_all(
                ScanStats { imported: 0, updated: 0, removed: 0, skipped_dirs: unreadable },
                outs,
            ),
{
    let ghost d0 = db(*conn);
    let ghost s0 = ScanStats { imported: 0, updated: 0, removed: 0, skipped_dirs: unreadable };
    let ghost mut states: Seq<Db> = seq![d0];
    let ghost stored0 = stored@;
    let ghost mut facts: Seq<Seq<PathFacts>> = seq![stored@];
    let ghost mut outs: Seq<Result<UpsertOutcome, AppError>> = seq![];
    let mut stored = stored;
    let mut stats = ScanStats { imported: 0, updated: 0, removed: 0, skipped_dirs: unreadable };
    assert forall|j: int| 0 <= j < d0.videos.len() implies #[trigger] still_stored(d0.videos, j, d0.videos) by {
        assert(same_video_at(d0.videos, j, d0.videos, j));
    }
    let mut i: usize = 0;
    while i < files.len()
        invariant
            i <= files.len(),
            0 <= unreadable,
            unreadable + files.len() < i64::MAX,
            facts_of_videos(stored@, db(*conn).videos),
            counts_add_up(stats, i as int, unreadable as int),
            keeps_stored_videos(d0, db(*conn)),
            db(*conn).videos.len() == d0.videos.len() + stats.imported,
            stores(states, facts, outs, source_id as int, files@, i as int),
            states[0] == d0,
            facts[0] == stored0,
            states[i as int] == db(*conn),
            facts[i as int] == stored@,
            stats == count_all(s0, outs),
        decreases files.len() - i,
    {
        let f = &files[i];
        let ghost d = db(*conn);
        let ghost before = stored@;
        let outcome = upsert_video(
            conn,
            source_id,
            &f.norm,
            &mut stored,
            &f.meta,
            f.parent_dir.as_str(),
            f.mtime,
            f.size,
        );
        proof {
            let e = db(*conn);
            lemma_upserted_keeps(d, e, source_id as int, before, f.norm, f.meta, f.parent_dir@, f.mtime as int, f.size as int, outcome);
            lemma_keeps_trans(d0, d, e);
            if let Ok(o) = outcome {
                if o.created {
                    let p = key_position(video_ids(d.videos), o.id as int);
                    assert(stored@ == before.insert(p, stored@[p]));
                    assert(facts_after(before, stored@, f.norm, outcome));
                }
            }
        }
        proof {
            if !(outcome matches Ok(x) && x.created) {
                assert(stored@ == before);
            }
            assert(facts_after(before, stored@, f.norm, outcome));
            lemma_one_more_store(states, facts, outs, source_id as int, files@, i as int, db(*conn), stored@, outcome, s0);
            states = states.push(db(*conn));
            facts = facts.push(stored@);
            outs = outs.push(outcome);
        }
        stats = count_outcome(stats, &outcome);
        i += 1;
    }
    stats
}

/// The catalog after a scan: the stale videos of the source dropped (see
/// [`crate::upkeep::delete_videos_not_in`]), empty channels pruned, and the
/// source marked available and scanned at `ts`.
pub open spec fn scanned(d: Db, source_id: int, keep: Seq<PathFacts>, stored: Seq<PathFacts>, ts: Seq<char>) -> Db {
    let e = pruned(drop_videos(d, marked_ids(d.videos, stale_marks(d.videos, source_id, keep, stored))));
    Db { sources: with_source_status(e.sources, source_id, true, Some(ts)), ..e }
}

/// Ends a scan: drops the stored videos of the source whose paths are not
/// among the kept ones (`keep`: the facts of the files found; `stored`: those
/// of the stored video paths, in table order), and marks the source available
/// and scanned now. The counts get the number of videos dropped.
pub fn finish_scan(conn: &mut Connection, source_id: i64, stats: ScanStats, keep: &Vec<PathFacts>, stored: &Vec<PathFacts>) -> (r: AppResult<ScanStats>)
    requires
        facts_of_videos(stored@, db(*old(conn)).videos),
    ensures
        r matches Ok(s) ==> {
            let d = db(*old(conn));
            &&& s == (ScanStats {
                removed: count_marked(stale_marks(d.videos, source_id as int, keep@, stored@)) as i64,
                ..stats
            })
            &&& exists|ts: Seq<char>| #![trigger is_timestamp(ts)] is_timestamp(ts) && db(*final(conn)) == scanned(d, source_id as int, keep@, stored@, ts)
        },
        r matches Err(e) ==> e is Db && db_failure(e, db(*old(conn))),
{
    let removed = delete_videos_not_in(conn, source_id, keep, stored)?;
    let now = now_iso();
    set_source_available(conn, source_id, true, Some(now.as_str()))?;
    assert(is_timestamp(now@));
    Ok(ScanStats { removed, ..stats })
}

/// A scan of a source whose folder is missing: the source is marked
/// unavailable (its videos stay stored, hidden from listings) and nothing is
/// counted.
pub fn scan_unavailable(conn: &mut Connection, source_id: i64) -> (r: AppResult<ScanStats>)
    ensures
        r matches Ok(s) ==> s == (ScanStats { imported: 0, updated: 0, removed: 0, skipped_dirs: 0 }) && db(*final(conn)) == (Db {
            sources: with_source_status(db(*old(conn)).sources, source_id as int, false, None),
            ..db(*old(conn))
        }),
        r is Err ==> db(*final(conn)) == db(*old(conn)),
        r matches Err(e) ==> e is Db && db_failure(e, db(*old(conn))),
{
    set_source_available(conn, source_id, false, None)?;
    Ok(ScanStats::zero())
}

/// The counts of two scans together.
pub fn add_stats(a: ScanStats, b: ScanStats) -> (r: ScanStats)
    requires
        i64::MIN <= a.imported + b.imported <= i64::MAX,
        i64::MIN <= a.updated + b.updated <= i64::MAX,
        i64::MIN <= a.removed + b.removed <= i64::MAX,
        i64::MIN <= a.skipped_dirs + b.skipped_dirs <= i64::MAX,
    ensures
        r.imported == a.imported + b.imported,
        r.updated == a.updated + b.updated,
        r.removed == a.removed + b.removed,
        r.skipped_dirs == a.skipped_dirs + b.skipped_dirs,
{
    ScanStats {
        imported: a.imported + b.imported,
        updated: a.updated + b.updated,
        removed: a.removed + b.removed,
        skipped_dirs: a.skipped_dirs + b.skipped_dirs,
    }
}


/// The video was stored before the scan and is of another source or among the
/// found files.
pub open spec fn was_kept(d: Db, source_id: int, keep: Seq<PathFacts>, stored: Seq<PathFacts>, v: VideoV) -> bool {
    exists|j: int|
        0 <= j < d.videos.len() && (#[trigger] d.videos[j]) == v && (d.videos[j].source_id != source_id || kept(keep, stored[j]))
}

/// A scan keeps exactly the stored videos it found: every video left is one
/// that was stored before and is either of another source or among the found
/// files, and every such video is left. The source comes out available and
/// scanned at the scan's time.
pub proof fn a_scan_keeps_exactly_what_it_found(d: Db, source_id: int, keep: Seq<PathFacts>, stored: Seq<PathFacts>, ts: Seq<char>)
    requires
        facts_of_videos(stored, d.videos),
        increasing(video_ids(d.videos)),
    ensures
        ({
            let e = scanned(d, source_id, keep, stored, ts);
            &&& forall|i: int| 0 <= i < e.videos.len() ==> #[trigger] was_kept(d, source_id, keep, stored, e.videos[i])
            &&& forall|j: int| 0 <= j < d.videos.len() && ((#[trigger] d.videos[j]).source_id != source_id || kept(keep, stored[j]))
                ==> e.videos.contains(d.videos[j])
            &&& find_source(d.sources, source_id) is Some ==> (find_source(e.sources, source_id) matches Some(s) && s.available
                && s.last_scanned_at == Some(ts))
        }),
{
    let marks = stale_marks(d.videos, source_id, keep, stored);
    let gone = marked_ids(d.videos, marks);
    let e = scanned(d, source_id, keep, stored, ts);
    let pv = |v: VideoV| !gone.contains(v.id);
    assert forall|i: int| 0 <= i < e.videos.len() implies #[trigger] was_kept(d, source_id, keep, stored, e.videos[i]) by {
        d.videos.lemma_filter_pred(pv, i);
        assert(d.videos.filter(pv).contains(e.videos[i]));
        d.videos.lemma_filter_contains_rev(pv, e.videos[i]);
        let k = choose|k: int| 0 <= k < d.videos.len() && d.videos[k] == e.videos[i];
        if d.videos[k].source_id == source_id && !kept(keep, stored[k]) {
            assert(marks[k]);
            assert(gone.contains(d.videos[k].id));
        }
        assert(d.videos[k] == e.videos[i]);
    }
    assert forall|j: int| 0 <= j < d.videos.len() && ((#[trigger] d.videos[j]).source_id != source_id || kept(keep, stored[j]))
        implies e.videos.contains(d.videos[j]) by {
        if gone.contains(d.videos[j].id) {
            let k = choose|k: int| 0 <= k < d.videos.len() && k < marks.len() && (#[trigger] d.videos[k]).id == d.videos[j].id && marks[k];
            assert(video_ids(d.videos)[k] == d.videos[k].id);
            assert(video_ids(d.videos)[j] == d.videos[j].id);
        }
        d.videos.lemma_filter_contains(pv, j);
    }
    lemma_find_source_status(d.sources, source_id, true, Some(ts));
}
} // verus!
