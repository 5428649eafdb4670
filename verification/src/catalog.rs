//! The catalog: sources, videos, channels, progress and history.
//!
//! Videos whose source folder is unavailable stay in the catalog but are left
//! out of every listing; listings are paged 24 at a time.
use crate::clock::{is_timestamp, now_iso};
use crate::error::{db_error, from_sqlite, AppError, AppResult};
use crate::models::{opt_view, CardV, Channel, ChannelInfoV, DetailV, Page, Source, SourceV, VideoCard, VideoDetail};
use crate::order::{
    lemma_filter_ext, lemma_sort_all, lemma_sorted_in_order, listing_keeps_every_row, page_slice, sort_ranked, sort_rows, take_page, views,
};
use crate::rows::{
    db_failure,
    channel_before, history_before, lemma_channel_order, lemma_history_order, lemma_video_order, load_channels,
    load_history, load_progress, load_sources, load_videos, video_before, ChannelRow, HistoryRow, ProgressRow, VideoRow,
};
use crate::store::{
    db, like, put_history, put_progress, real_column, sqlite_like, update_source_status, with_source_status, ChannelV, Db, HistoryV,
    ProgressV, VideoV,
};
use crate::text::{append_str, chars_of, fold_ascii, lemma_seq_lt_irreflexive, push_int, seq_lt, str_eq, string_of, trim, trim_chars};
use rusqlite::types::Value;
use rusqlite::Connection;
use vstd::prelude::*;

verus! {

/// Videos per page of a listing.
pub const PAGE_SIZE: i64 = 24;

/// Videos in a "more from" list.
pub const MORE_SIZE: i64 = 12;

// ---------------------------------------------------------------------------
// Lookups

pub open spec fn find_source(t: Seq<SourceV>, id: int) -> Option<SourceV>
    decreases t.len(),
{
    if t.len() == 0 {
        None
    } else if t[0].id == id {
        Some(t[0])
    } else {
        find_source(t.drop_first(), id)
    }
}

pub open spec fn find_channel(t: Seq<ChannelV>, id: int) -> Option<ChannelV>
    decreases t.len(),
{
    if t.len() == 0 {
        None
    } else if t[0].id == id {
        Some(t[0])
    } else {
        find_channel(t.drop_first(), id)
    }
}

pub open spec fn find_video(t: Seq<VideoV>, id: int) -> Option<VideoV>
    decreases t.len(),
{
    if t.len() == 0 {
        None
    } else if t[0].id == id {
        Some(t[0])
    } else {
        find_video(t.drop_first(), id)
    }
}

pub open spec fn find_progress(t: Seq<ProgressV>, id: int) -> Option<ProgressV>
    decreases t.len(),
{
    if t.len() == 0 {
        None
    } else if t[0].video_id == id {
        Some(t[0])
    } else {
        find_progress(t.drop_first(), id)
    }
}

proof fn lemma_find_video(t: Seq<VideoV>, id: int)
    ensures
        find_video(t, id) matches Some(v) ==> v.id == id,
    decreases t.len(),
{
    if t.len() > 0 && t[0].id != id {
        lemma_find_video(t.drop_first(), id);
    }
}

pub(crate) fn source_at(t: &Vec<Source>, id: i64) -> (r: Option<usize>)
    ensures
        match find_source(views(t@), id as int) {
            Some(s) => r matches Some(i) && i < t.len() && t@[i as int]@ == s,
            None => r is None,
        },
{
    let ghost tv = views(t@);
    let mut i: usize = 0;
    assert(tv.subrange(0, tv.len() as int) =~= tv);
    while i < t.len()
        invariant
            i <= t.len(),
            tv == views(t@),
            find_source(tv, id as int) == find_source(tv.subrange(i as int, tv.len() as int), id as int),
        decreases t.len() - i,
    {
        assert(tv.subrange(i as int, tv.len() as int).drop_first() =~= tv.subrange(i + 1, tv.len() as int));
        assert(tv[i as int] == t@[i as int]@);
        if t[i].id == id {
            return Some(i);
        }
        i += 1;
    }
    None
}

pub(crate) fn channel_at(t: &Vec<ChannelRow>, id: i64) -> (r: Option<usize>)
    ensures
        match find_channel(views(t@), id as int) {
            Some(s) => r matches Some(i) && i < t.len() && t@[i as int]@ == s,
            None => r is None,
        },
{
    let ghost tv = views(t@);
    let mut i: usize = 0;
    assert(tv.subrange(0, tv.len() as int) =~= tv);
    while i < t.len()
        invariant
            i <= t.len(),
            tv == views(t@),
            find_channel(tv, id as int) == find_channel(tv.subrange(i as int, tv.len() as int), id as int),
        decreases t.len() - i,
    {
        assert(tv.subrange(i as int, tv.len() as int).drop_first() =~= tv.subrange(i + 1, tv.len() as int));
        assert(tv[i as int] == t@[i as int]@);
        if t[i].id == id {
            return Some(i);
        }
        i += 1;
    }
    None
}

pub(crate) fn video_at(t: &Vec<VideoRow>, id: i64) -> (r: Option<usize>)
    ensures
        match find_video(views(t@), id as int) {
            Some(s) => r matches Some(i) && i < t.len() && t@[i as int]@ == s,
            None => r is None,
        },
{
    let ghost tv = views(t@);
    let mut i: usize = 0;
    assert(tv.subrange(0, tv.len() as int) =~= tv);
    while i < t.len()
        invariant
            i <= t.len(),
            tv == views(t@),
            find_video(tv, id as int) == find_video(tv.subrange(i as int, tv.len() as int), id as int),
        decreases t.len() - i,
    {
        assert(tv.subrange(i as int, tv.len() as int).drop_first() =~= tv.subrange(i + 1, tv.len() as int));
        assert(tv[i as int] == t@[i as int]@);
        if t[i].id == id {
            return Some(i);
        }
        i += 1;
    }
    None
}

pub(crate) fn progress_at(t: &Vec<ProgressRow>, id: i64) -> (r: Option<usize>)
    ensures
        match find_progress(views(t@), id as int) {
            Some(s) => r matches Some(i) && i < t.len() && t@[i as int]@ == s,
            None => r is None,
        },
{
    let ghost tv = views(t@);
    let mut i: usize = 0;
    assert(tv.subrange(0, tv.len() as int) =~= tv);
    while i < t.len()
        invariant
            i <= t.len(),
            tv == views(t@),
            find_progress(tv, id as int) == find_progress(tv.subrange(i as int, tv.len() as int), id as int),
        decreases t.len() - i,
    {
        assert(tv.subrange(i as int, tv.len() as int).drop_first() =~= tv.subrange(i + 1, tv.len() as int));
        assert(tv[i as int] == t@[i as int]@);
        if t[i].video_id == id {
            return Some(i);
        }
        i += 1;
    }
    None
}

// ---------------------------------------------------------------------------
// What is shown

/// The source exists and is available.
pub open spec fn shown(sources: Seq<SourceV>, source_id: int) -> bool {
    match find_source(sources, source_id) {
        Some(s) => s.available,
        None => false,
    }
}

/// The videos that listings show: those whose source is available, in id order.
pub open spec fn visible(d: Db) -> Seq<VideoV> {
    d.videos.filter(|v: VideoV| shown(d.sources, v.source_id))
}

/// The card of a video: its channel's name and slug when it has a stored channel.
pub open spec fn card_of(channels: Seq<ChannelV>, v: VideoV) -> CardV {
    let ch = match v.channel_id {
        Some(c) => find_channel(channels, c),
        None => None,
    };
    CardV {
        id: v.id,
        title: v.title,
        channel_name: match ch {
            Some(c) => Some(c.name),
            None => None,
        },
        channel_slug: match ch {
            Some(c) => Some(c.slug),
            None => None,
        },
        duration_sec: v.duration_sec,
        thumbnail_path: v.thumbnail_path,
        upload_date: v.upload_date,
    }
}

pub open spec fn cards(channels: Seq<ChannelV>, s: Seq<VideoV>) -> Seq<CardV> {
    s.map_values(|v: VideoV| card_of(channels, v))
}

/// Where page `page` starts: pages before the first count as the first.
pub open spec fn page_offset(page: int) -> int {
    if page < 0 {
        0
    } else {
        page * 24
    }
}

/// The video rows of a source list that `keep` accepts, in order.
pub open spec fn shown_rows(sources: Seq<SourceV>, s: Seq<VideoV>) -> Seq<VideoV> {
    s.filter(|v: VideoV| shown(sources, v.source_id))
}

pub(crate) fn is_shown(sources: &Vec<Source>, source_id: i64) -> (r: bool)
    ensures
        r == shown(views(sources@), source_id as int),
{
    match source_at(sources, source_id) {
        Some(i) => sources[i].available,
        None => false,
    }
}

/// Keeps the videos whose source is shown.
pub(crate) fn keep_shown(sources: &Vec<Source>, videos: Vec<VideoRow>) -> (r: Vec<VideoRow>)
    ensures
        views(r@) == shown_rows(views(sources@), views(videos@)),
{
    let ghost orig = views(videos@);
    let ghost sv = views(sources@);
    let n = videos.len();
    let mut rest = crate::order::reversed(videos);
    let mut out: Vec<VideoRow> = Vec::new();
    let mut i: usize = 0;
    assert(orig.subrange(0, 0).filter(|v: VideoV| shown(sv, v.source_id)) =~= seq![]);
    while i < n
        invariant
            i <= n == orig.len(),
            rest@.len() == n - i,
            forall|j: int| 0 <= j < n - i ==> #[trigger] rest@[j]@ == orig[n - 1 - j],
            sv == views(sources@),
            views(out@) == orig.subrange(0, i as int).filter(|v: VideoV| shown(sv, v.source_id)),
        decreases n - i,
    {
        let ghost before = views(out@);
        let ghost rv = rest@;
        let x = rest.pop().unwrap();
        assert(x@ == orig[i as int]) by {
            assert(x == rv[n - i - 1]);
        }
        assert(orig.subrange(0, i + 1) =~= orig.subrange(0, i as int).push(orig[i as int]));
        proof {
            orig.subrange(0, i as int).lemma_filter_push(orig[i as int], |v: VideoV| shown(sv, v.source_id));
        }
        if is_shown(sources, x.source_id) {
            out.push(x);
            assert(views(out@) =~= before.push(orig[i as int]));
        }
        i += 1;
    }
    assert(orig.subrange(0, n as int) =~= orig);
    out
}

pub(crate) fn card(channels: &Vec<ChannelRow>, v: VideoRow) -> (r: VideoCard)
    ensures
        r@ == card_of(views(channels@), v@),
{
    let (name, slug) = match v.channel_id {
        Some(c) => match channel_at(channels, c) {
            Some(i) => (Some(channels[i].name.clone()), Some(channels[i].slug.clone())),
            None => (None, None),
        },
        None => (None, None),
    };
    VideoCard {
        id: v.id,
        title: v.title,
        channel_name: name,
        channel_slug: slug,
        duration_sec: v.duration_sec,
        thumbnail_path: v.thumbnail_path,
        upload_date: v.upload_date,
    }
}

/// The cards of a list of videos, in the same order.
pub(crate) fn to_cards(channels: &Vec<ChannelRow>, rows: Vec<VideoRow>) -> (r: Vec<VideoCard>)
    ensures
        views(r@) == cards(views(channels@), views(rows@)),
{
    let ghost orig = views(rows@);
    let ghost cv = views(channels@);
    let n = rows.len();
    let mut rest = crate::order::reversed(rows);
    let mut out: Vec<VideoCard> = Vec::new();
    let mut i: usize = 0;
    while i < n
        invariant
            i <= n == orig.len(),
            rest@.len() == n - i,
            forall|j: int| 0 <= j < n - i ==> #[trigger] rest@[j]@ == orig[n - 1 - j],
            cv == views(channels@),
            views(out@) == cards(cv, orig.subrange(0, i as int)),
        decreases n - i,
    {
        let ghost before = views(out@);
        let ghost rv = rest@;
        let x = rest.pop().unwrap();
        assert(x@ == orig[i as int]) by {
            assert(x == rv[n - i - 1]);
        }
        let c = card(channels, x);
        assert(c@ == card_of(cv, orig[i as int]));
        out.push(c);
        assert(orig.subrange(0, i + 1) =~= orig.subrange(0, i as int).push(orig[i as int]));
        assert(views(out@) =~= before.push(card_of(cv, orig[i as int])));
        assert(views(out@) =~= cards(cv, orig.subrange(0, i + 1)));
        i += 1;
    }
    assert(orig.subrange(0, n as int) =~= orig);
    out
}

/// The offset of a page, as a count of rows.
pub(crate) fn offset_of(page: i64) -> (r: u64)
    requires
        i64::MIN <= page * 24 <= i64::MAX,
    ensures
        r == page_offset(page as int),
{
    if page < 0 {
        0
    } else {
        (page * 24) as u64
    }
}

/// One page of shown videos in listing order, as cards.
pub(crate) fn page_of_cards(channels: &Vec<ChannelRow>, rows: Vec<VideoRow>, page: i64) -> (r: Vec<VideoCard>)
    requires
        i64::MIN <= page * 24 <= i64::MAX,
    ensures
        views(r@) == cards(views(channels@), page_slice(sort_ranked::<VideoRow>(views(rows@)), page_offset(page as int), 24)),
{
    let sorted = sort_rows(rows);
    let off = offset_of(page);
    let slice = take_page(sorted, off, 24);
    to_cards(channels, slice)
}

/// A page of the Home listing: every shown video, newest first (see
/// [`crate::rows::video_before`]); `total` counts them all.
pub fn list_home(conn: &Connection, page: i64) -> (r: AppResult<Page<VideoCard>>)
    requires
        i64::MIN <= page * 24 <= i64::MAX,
    ensures
        r matches Ok(p) ==> {
            let d = db(*conn);
            &&& p.page == page
            &&& p.page_size == 24
            &&& p.total == visible(d).len() as i64
            &&& views(p.items@) == cards(d.channels, page_slice(sort_ranked::<VideoRow>(visible(d)), page_offset(page as int), 24))
        },
        r matches Err(e) ==> e is Db && db_failure(e, db(*conn)),
{
    let sources = load_sources(conn)?;
    let channels = load_channels(conn)?;
    let videos = load_videos(conn)?;
    let shown = keep_shown(&sources, videos);
    let total = shown.len() as i64;
    let items = page_of_cards(&channels, shown, page);
    Ok(Page { items, page, page_size: PAGE_SIZE, total })
}


// ---------------------------------------------------------------------------
// Search

pub open spec fn like_special(c: char) -> bool {
    c == '%' || c == '_' || c == '\\'
}

/// `q` with `%`, `_` and `\` escaped by a `\`.
pub open spec fn like_escaped(q: Seq<char>) -> Seq<char>
    decreases q.len(),
{
    if q.len() == 0 {
        seq![]
    } else if like_special(q.last()) {
        like_escaped(q.drop_last()) + seq!['\\', q.last()]
    } else {
        like_escaped(q.drop_last()).push(q.last())
    }
}

/// The `LIKE` pattern matching any text that contains `q` literally.
pub open spec fn spec_like_pattern(q: Seq<char>) -> Seq<char> {
    seq!['%'] + like_escaped(q) + seq!['%']
}

/// The `LIKE` pattern (with `\` as escape) that matches any text containing `q`.
pub fn like_pattern(q: &str) -> (r: String)
    ensures
        r@ == spec_like_pattern(q@),
{
    let c = chars_of(q);
    let mut s: Vec<char> = vec!['%'];
    let mut i: usize = 0;
    while i < c.len()
        invariant
            i <= c.len(),
            s@ == seq!['%'] + like_escaped(c@.subrange(0, i as int)),
        decreases c.len() - i,
    {
        let ch = c[i];
        assert(c@.subrange(0, i + 1).drop_last() =~= c@.subrange(0, i as int));
        if ch == '%' || ch == '_' || ch == '\\' {
            s.push('\\');
            s.push(ch);
        } else {
            s.push(ch);
        }
        assert(s@ =~= seq!['%'] + like_escaped(c@.subrange(0, i + 1)));
        i += 1;
    }
    s.push('%');
    assert(c@.subrange(0, c.len() as int) =~= c@);
    assert(s@ =~= spec_like_pattern(q@));
    string_of(&s)
}

pub open spec fn or_empty(o: Option<Seq<char>>) -> Seq<char> {
    match o {
        Some(s) => s,
        None => seq![],
    }
}

/// A video matches a search pattern when its title, its description or its
/// channel's name does (missing ones count as empty).
pub open spec fn search_hit(c: Connection, pat: Seq<char>, channels: Seq<ChannelV>, v: VideoV) -> bool {
    sqlite_like(c, pat, v.title) || sqlite_like(c, pat, or_empty(v.description)) || sqlite_like(
        c,
        pat,
        or_empty(card_of(channels, v).channel_name),
    )
}

pub open spec fn search_rows(c: Connection, pat: Seq<char>, d: Db) -> Seq<VideoV> {
    visible(d).filter(|v: VideoV| search_hit(c, pat, d.channels, v))
}

fn opt_str<'a>(o: &'a Option<String>) -> (r: &'a str)
    ensures
        r@ == or_empty(opt_view(*o)),
{
    proof {
        reveal_strlit("");
    }
    match o {
        Some(s) => s.as_str(),
        None => "",
    }
}

fn hit(conn: &Connection, pat: &str, channels: &Vec<ChannelRow>, v: &VideoRow) -> (r: AppResult<bool>)
    ensures
        r matches Ok(b) ==> b == search_hit(*conn, pat@, views(channels@), v@),
        r matches Err(e) ==> e is Db && db_failure(e, db(*conn)),
{
    proof {
        reveal_strlit("");
    }
    let t = match like(conn, pat, v.title.as_str()) {
        Ok(b) => b,
        Err(e) => return Err(db_error(e)),
    };
    if t {
        return Ok(true);
    }
    let d = match like(conn, pat, opt_str(&v.description)) {
        Ok(b) => b,
        Err(e) => return Err(db_error(e)),
    };
    if d {
        return Ok(true);
    }
    let name = match v.channel_id {
        Some(c) => match channel_at(channels, c) {
            Some(i) => channels[i].name.as_str(),
            None => "",
        },
        None => "",
    };
    assert(name@ == or_empty(card_of(views(channels@), v@).channel_name));
    match like(conn, pat, name) {
        Ok(b) => Ok(b),
        Err(e) => Err(db_error(e)),
    }
}

/// A page of search results: shown videos whose title, description or
/// channel name contains the trimmed query (SQLite `LIKE`, so ASCII letters
/// match either case), newest first.
pub fn search(conn: &Connection, query: &str, page: i64) -> (r: AppResult<Page<VideoCard>>)
    requires
        i64::MIN <= page * 24 <= i64::MAX,
    ensures
        r matches Ok(p) ==> {
            let d = db(*conn);
            let pat = spec_like_pattern(trim(query@));
            &&& p.page == page
            &&& p.page_size == 24
            &&& p.total == search_rows(*conn, pat, d).len() as i64
            &&& views(p.items@) == cards(d.channels, page_slice(sort_ranked::<VideoRow>(search_rows(*conn, pat, d)), page_offset(page as int), 24))
        },
        r matches Err(e) ==> e is Db && db_failure(e, db(*conn)),
{
    let q = string_of(&trim_chars(&chars_of(query)));
    let pat = like_pattern(q.as_str());
    let sources = load_sources(conn)?;
    let channels = load_channels(conn)?;
    let videos = load_videos(conn)?;
    let shown = keep_shown(&sources, videos);
    let ghost orig = views(shown@);
    let ghost cv = views(channels@);
    let n = shown.len();
    let mut rest = crate::order::reversed(shown);
    let mut out: Vec<VideoRow> = Vec::new();
    let mut i: usize = 0;
    assert(orig.subrange(0, 0).filter(|v: VideoV| search_hit(*conn, pat@, cv, v)) =~= seq![]);
    while i < n
        invariant
            i <= n == orig.len(),
            rest@.len() == n - i,
            forall|j: int| 0 <= j < n - i ==> #[trigger] rest@[j]@ == orig[n - 1 - j],
            cv == views(channels@),
            views(out@) == orig.subrange(0, i as int).filter(|v: VideoV| search_hit(*conn, pat@, cv, v)),
        decreases n - i,
    {
        let ghost before = views(out@);
        let ghost rv = rest@;
        let x = rest.pop().unwrap();
        assert(x@ == orig[i as int]) by {
            assert(x == rv[n - i - 1]);
        }
        assert(orig.subrange(0, i + 1) =~= orig.subrange(0, i as int).push(orig[i as int]));
        proof {
            orig.subrange(0, i as int).lemma_filter_push(orig[i as int], |v: VideoV| search_hit(*conn, pat@, cv, v));
        }
        if hit(conn, pat.as_str(), &channels, &x)? {
            out.push(x);
            assert(views(out@) =~= before.push(orig[i as int]));
        }
        i += 1;
    }
    assert(orig.subrange(0, n as int) =~= orig);
    let total = out.len() as i64;
    let items = page_of_cards(&channels, out, page);
    Ok(Page { items, page, page_size: PAGE_SIZE, total })
}

// ---------------------------------------------------------------------------
// Channels

/// The shown videos of a channel.
pub open spec fn channel_rows(d: Db, channel_id: int) -> Seq<VideoV> {
    visible(d).filter(|v: VideoV| v.channel_id == Some(channel_id))
}

pub open spec fn channel_info(d: Db, c: ChannelV) -> ChannelInfoV {
    ChannelInfoV { id: c.id, slug: c.slug, name: c.name, video_count: (channel_rows(d, c.id).len() as i64) as int }
}

/// The channels with at least one shown video.
pub open spec fn listed_channels(d: Db) -> Seq<ChannelV> {
    d.channels.filter(|c: ChannelV| channel_rows(d, c.id).len() > 0)
}

fn of_channel(rows: &Vec<VideoRow>, channel_id: i64) -> (r: Vec<VideoRow>)
    ensures
        views(r@) == views(rows@).filter(|v: VideoV| v.channel_id == Some(channel_id as int)),
{
    let ghost orig = views(rows@);
    let mut out: Vec<VideoRow> = Vec::new();
    let mut i: usize = 0;
    assert(orig.subrange(0, 0).filter(|v: VideoV| v.channel_id == Some(channel_id as int)) =~= seq![]);
    while i < rows.len()
        invariant
            i <= rows.len(),
            orig == views(rows@),
            views(out@) == orig.subrange(0, i as int).filter(|v: VideoV| v.channel_id == Some(channel_id as int)),
        decreases rows.len() - i,
    {
        let ghost before = views(out@);
        assert(orig[i as int] == rows@[i as int]@);
        assert(orig.subrange(0, i + 1) =~= orig.subrange(0, i as int).push(orig[i as int]));
        proof {
            orig.subrange(0, i as int).lemma_filter_push(orig[i as int], |v: VideoV| v.channel_id == Some(channel_id as int));
        }
        if rows[i].channel_id == Some(channel_id) {
            let c = clone_video(&rows[i]);
            out.push(c);
            assert(views(out@) =~= before.push(orig[i as int]));
        }
        i += 1;
    }
    assert(orig.subrange(0, rows.len() as int) =~= orig);
    out
}

pub(crate) fn clone_opt(o: &Option<String>) -> (r: Option<String>)
    ensures
        r == *o,
{
    match o {
        Some(s) => Some(s.clone()),
        None => None,
    }
}

pub(crate) fn clone_opt_value(o: &Option<Value>) -> (r: Option<Value>)
    ensures
        r == *o,
{
    match o {
        Some(v) => Some(v.clone()),
        None => None,
    }
}

/// A copy of a video row.
pub fn clone_video(v: &VideoRow) -> (r: VideoRow)
    ensures
        r@ == v@,
{
    VideoRow {
        id: v.id,
        path: v.path.clone(),
        source_id: v.source_id,
        channel_id: v.channel_id,
        title: v.title.clone(),
        description: clone_opt(&v.description),
        duration_sec: clone_opt_value(&v.duration_sec),
        thumbnail_path: clone_opt(&v.thumbnail_path),
        upload_date: clone_opt(&v.upload_date),
        parent_dir: v.parent_dir.clone(),
        mtime: v.mtime,
        size_bytes: v.size_bytes,
        added_at: v.added_at.clone(),
    }
}

/// Every channel that has a shown video, by name (ASCII case folded), with the
/// number of its shown videos.
pub fn list_channels(conn: &Connection) -> (r: AppResult<Vec<Channel>>)
    ensures
        r matches Ok(v) ==> {
            let d = db(*conn);
            views(v@) == sort_ranked::<ChannelRow>(listed_channels(d)).map_values(|c: ChannelV| channel_info(d, c))
        },
        r matches Err(e) ==> e is Db && db_failure(e, db(*conn)),
{
    let sources = load_sources(conn)?;
    let channels = load_channels(conn)?;
    let videos = load_videos(conn)?;
    let shown = keep_shown(&sources, videos);
    let ghost d = db(*conn);
    let ghost vis = views(shown@);
    assert(vis == visible(d));
    let ghost chv = views(channels@);
    let n = channels.len();
    let mut counts: Vec<i64> = Vec::new();
    let mut rest = crate::order::reversed(channels);
    let mut kept: Vec<ChannelRow> = Vec::new();
    let mut i: usize = 0;
    assert(chv.subrange(0, 0).filter(|c: ChannelV| channel_rows(d, c.id).len() > 0) =~= seq![]);
    while i < n
        invariant
            i <= n == chv.len(),
            rest@.len() == n - i,
            forall|j: int| 0 <= j < n - i ==> #[trigger] rest@[j]@ == chv[n - 1 - j],
            vis == views(shown@),
            vis == visible(d),
            chv == d.channels,
            views(kept@) == chv.subrange(0, i as int).filter(|c: ChannelV| channel_rows(d, c.id).len() > 0),
        decreases n - i,
    {
        let ghost before = views(kept@);
        let ghost rv = rest@;
        let x = rest.pop().unwrap();
        assert(x@ == chv[i as int]) by {
            assert(x == rv[n - i - 1]);
        }
        assert(chv.subrange(0, i + 1) =~= chv.subrange(0, i as int).push(chv[i as int]));
        proof {
            chv.subrange(0, i as int).lemma_filter_push(chv[i as int], |c: ChannelV| channel_rows(d, c.id).len() > 0);
        }
        let mine = of_channel(&shown, x.id);
        if mine.len() > 0 {
            kept.push(x);
            assert(views(kept@) =~= before.push(chv[i as int]));
        }
        i += 1;
    }
    assert(chv.subrange(0, n as int) =~= chv);
    let sorted = sort_rows(kept);
    let ghost sv = views(sorted@);
    let mut out: Vec<Channel> = Vec::new();
    let mut k: usize = 0;
    while k < sorted.len()
        invariant
            k <= sorted.len(),
            sv == views(sorted@),
            vis == views(shown@),
            vis == visible(d),
            views(out@) == sv.subrange(0, k as int).map_values(|c: ChannelV| channel_info(d, c)),
        decreases sorted.len() - k,
    {
        let c = &sorted[k];
        let mine = of_channel(&shown, c.id);
        let ghost before = views(out@);
        assert(views(mine@) == channel_rows(d, c.id as int));
        let info = Channel { id: c.id, slug: c.slug.clone(), name: c.name.clone(), video_count: mine.len() as i64 };
        assert(sv[k as int] == c@);
        assert(info@ == channel_info(d, sv[k as int]));
        out.push(info);
        assert(views(out@) =~= before.push(channel_info(d, sv[k as int])));
        assert(sv.subrange(0, k + 1) =~= sv.subrange(0, k as int).push(sv[k as int]));
        assert(views(out@) =~= sv.subrange(0, k + 1).map_values(|c: ChannelV| channel_info(d, c)));
        k += 1;
    }
    assert(sv.subrange(0, sorted.len() as int) =~= sv);
    Ok(out)
}

/// The first channel with this slug.
pub open spec fn find_slug(t: Seq<ChannelV>, slug: Seq<char>) -> Option<ChannelV>
    decreases t.len(),
{
    if t.len() == 0 {
        None
    } else if t[0].slug == slug {
        Some(t[0])
    } else {
        find_slug(t.drop_first(), slug)
    }
}

pub(crate) fn slug_at(t: &Vec<ChannelRow>, slug: &str) -> (r: Option<usize>)
    ensures
        match find_slug(views(t@), slug@) {
            Some(s) => r matches Some(i) && i < t.len() && t@[i as int]@ == s,
            None => r is None,
        },
{
    let ghost tv = views(t@);
    let mut i: usize = 0;
    assert(tv.subrange(0, tv.len() as int) =~= tv);
    while i < t.len()
        invariant
            i <= t.len(),
            tv == views(t@),
            find_slug(tv, slug@) == find_slug(tv.subrange(i as int, tv.len() as int), slug@),
        decreases t.len() - i,
    {
        assert(tv.subrange(i as int, tv.len() as int).drop_first() =~= tv.subrange(i + 1, tv.len() as int));
        assert(tv[i as int] == t@[i as int]@);
        if str_eq(t[i].slug.as_str(), slug) {
            return Some(i);
        }
        i += 1;
    }
    None
}

/// `prefix` followed by the text of `rest`.
pub open spec fn message(prefix: Seq<char>, rest: Seq<char>) -> Seq<char> {
    prefix + rest
}

pub(crate) fn not_found(prefix: &str, rest: &str) -> (r: AppError)
    ensures
        r matches AppError::NotFound(m) && m@ == prefix@ + rest@,
{
    let mut m = chars_of(prefix);
    append_str(&mut m, rest);
    AppError::NotFound(string_of(&m))
}

pub(crate) fn not_found_id(prefix: &str, id: i64) -> (r: AppError)
    ensures
        r matches AppError::NotFound(m) && m@ == prefix@ + crate::text::int_digits(id as int),
{
    let mut m = chars_of(prefix);
    push_int(&mut m, id);
    AppError::NotFound(string_of(&m))
}

/// A channel, found by slug, with a page of its shown videos (newest first);
/// the channel's count is of its shown videos. An unknown slug (or a failed
/// read of the channels) is `NotFound("channel <slug>")`.
pub fn get_channel(conn: &Connection, slug: &str, page: i64) -> (r: AppResult<(Channel, Page<VideoCard>)>)
    requires
        i64::MIN <= page * 24 <= i64::MAX,
    ensures
        r matches Ok((ch, p)) ==> {
            let d = db(*conn);
            let c = find_slug(d.channels, slug@);
            &&& c is Some
            &&& ch@ == channel_info(d, c->0)
            &&& p.page == page
            &&& p.page_size == 24
            &&& p.total == ch.video_count
            &&& views(p.items@) == cards(d.channels, page_slice(sort_ranked::<VideoRow>(channel_rows(d, c->0.id)), page_offset(page as int), 24))
        },
        find_slug(db(*conn).channels, slug@) is None ==> (r matches Err(AppError::NotFound(m)) && m@ == "channel "@ + slug@),
        r matches Err(AppError::NotFound(m)) ==> m@ == "channel "@ + slug@,
        r matches Err(e) ==> e is NotFound || (e is Db && db_failure(e, db(*conn))),
{
    let channels = match load_channels(conn) {
        Ok(c) => c,
        Err(_) => return Err(not_found("channel ", slug)),
    };
    let i = match slug_at(&channels, slug) {
        Some(i) => i,
        None => return Err(not_found("channel ", slug)),
    };
    let sources = load_sources(conn)?;
    let videos = load_videos(conn)?;
    let shown = keep_shown(&sources, videos);
    let mine = of_channel(&shown, channels[i].id);
    let ch = Channel {
        id: channels[i].id,
        slug: channels[i].slug.clone(),
        name: channels[i].name.clone(),
        video_count: mine.len() as i64,
    };
    let total = ch.video_count;
    let items = page_of_cards(&channels, mine, page);
    Ok((ch, Page { items, page, page_size: PAGE_SIZE, total }))
}

// ---------------------------------------------------------------------------
// One video

/// The watch-page view of a video: its channel's name and slug when the
/// channel is stored, and the saved playback position when there is one.
pub open spec fn detail_of(d: Db, v: VideoV) -> DetailV {
    let c = card_of(d.channels, v);
    DetailV {
        id: v.id,
        title: v.title,
        channel_name: c.channel_name,
        channel_slug: c.channel_slug,
        channel_id: v.channel_id,
        source_id: v.source_id,
        path: v.path,
        parent_dir: v.parent_dir,
        description: v.description,
        duration_sec: v.duration_sec,
        thumbnail_path: v.thumbnail_path,
        upload_date: v.upload_date,
        progress_sec: match find_progress(d.progress, v.id) {
            Some(p) => Some(p.position_sec),
            None => None,
        },
    }
}

/// A video by id, whether or not its source is available. An unknown id (or
/// a failed read) is `NotFound("video <id>")`.
pub fn get_video(conn: &Connection, id: i64) -> (r: AppResult<VideoDetail>)
    ensures
        r matches Ok(v) ==> (find_video(db(*conn).videos, id as int) matches Some(x) && v@ == detail_of(db(*conn), x)),
        find_video(db(*conn).videos, id as int) is None ==> r is Err,
        r matches Err(e) ==> (e matches AppError::NotFound(m) && m@ == "video "@ + crate::text::int_digits(id as int)),
{
    let videos = match load_videos(conn) {
        Ok(v) => v,
        Err(_) => return Err(not_found_id("video ", id)),
    };
    let channels = match load_channels(conn) {
        Ok(v) => v,
        Err(_) => return Err(not_found_id("video ", id)),
    };
    let progress = match load_progress(conn) {
        Ok(v) => v,
        Err(_) => return Err(not_found_id("video ", id)),
    };
    let i = match video_at(&videos, id) {
        Some(i) => i,
        None => return Err(not_found_id("video ", id)),
    };
    let v = &videos[i];
    let c = card(&channels, clone_video(v));
    let progress_sec = match progress_at(&progress, v.id) {
        Some(k) => Some(progress[k].position_sec.clone()),
        None => None,
    };
    Ok(VideoDetail {
        id: v.id,
        title: v.title.clone(),
        channel_name: c.channel_name,
        channel_slug: c.channel_slug,
        channel_id: v.channel_id,
        source_id: v.source_id,
        path: v.path.clone(),
        parent_dir: v.parent_dir.clone(),
        description: clone_opt(&v.description),
        duration_sec: clone_opt_value(&v.duration_sec),
        thumbnail_path: clone_opt(&v.thumbnail_path),
        upload_date: clone_opt(&v.upload_date),
        progress_sec,
    })
}

/// The candidates for "more from": other shown videos of the same channel
/// when the video has one, else of the same folder.
pub open spec fn more_rows(d: Db, x: VideoV) -> Seq<VideoV> {
    match x.channel_id {
        Some(c) => visible(d).filter(|w: VideoV| w.id != x.id && w.channel_id == Some(c)),
        None => visible(d).filter(|w: VideoV| w.id != x.id && w.parent_dir == x.parent_dir),
    }
}

pub open spec fn more_like(x: VideoV, w: VideoV) -> bool {
    match x.channel_id {
        Some(c) => w.id != x.id && w.channel_id == Some(c),
        None => w.id != x.id && w.parent_dir == x.parent_dir,
    }
}

/// Up to 12 more videos from the same channel (or, without a channel, the
/// same folder), newest first, never the video itself.
pub fn list_more(conn: &Connection, video_id: i64) -> (r: AppResult<Vec<VideoCard>>)
    ensures
        r matches Ok(v) ==> {
            let d = db(*conn);
            (find_video(d.videos, video_id as int) matches Some(x) && views(v@) == cards(
                d.channels,
                page_slice(sort_ranked::<VideoRow>(more_rows(d, x)), 0, 12),
            ))
        },
        find_video(db(*conn).videos, video_id as int) is None ==> (r matches Err(AppError::NotFound(m)) && m@
            == "video "@ + crate::text::int_digits(video_id as int)),
        r matches Err(AppError::NotFound(m)) ==> m@ == "video "@ + crate::text::int_digits(video_id as int),
        r matches Err(e) ==> e is NotFound || (e is Db && db_failure(e, db(*conn))),
{
    let v = get_video(conn, video_id)?;
    let ghost d = db(*conn);
    let ghost x = find_video(d.videos, video_id as int)->0;
    proof {
        lemma_find_video(d.videos, video_id as int);
    }
    let sources = load_sources(conn)?;
    let channels = load_channels(conn)?;
    let videos = load_videos(conn)?;
    let shown = keep_shown(&sources, videos);
    let ghost orig = views(shown@);
    let mut out: Vec<VideoRow> = Vec::new();
    let mut i: usize = 0;
    assert(orig.subrange(0, 0).filter(|w: VideoV| more_like(x, w)) =~= seq![]);
    while i < shown.len()
        invariant
            i <= shown.len(),
            orig == views(shown@),
            v@ == detail_of(d, x),
            x.id == video_id,
            views(out@) == orig.subrange(0, i as int).filter(|w: VideoV| more_like(x, w)),
        decreases shown.len() - i,
    {
        let ghost before = views(out@);
        let w = &shown[i];
        assert(orig[i as int] == w@);
        assert(orig.subrange(0, i + 1) =~= orig.subrange(0, i as int).push(orig[i as int]));
        proof {
            orig.subrange(0, i as int).lemma_filter_push(orig[i as int], |w: VideoV| more_like(x, w));
        }
        let keep = match v.channel_id {
            Some(c) => w.id != video_id && w.channel_id == Some(c),
            None => w.id != video_id && str_eq(w.parent_dir.as_str(), v.parent_dir.as_str()),
        };
        if keep {
            out.push(clone_video(w));
            assert(views(out@) =~= before.push(orig[i as int]));
        }
        i += 1;
    }
    assert(orig.subrange(0, shown.len() as int) =~= orig);
    proof {
        assert(views(out@) =~= more_rows(d, x)) by {
            assert(orig == visible(d));
            match x.channel_id {
                Some(c) => {
                    lemma_filter_ext(orig, |w: VideoV| more_like(x, w), |w: VideoV| w.id != x.id && w.channel_id == Some(c));
                },
                None => {
                    lemma_filter_ext(orig, |w: VideoV| more_like(x, w), |w: VideoV| w.id != x.id && w.parent_dir == x.parent_dir);
                },
            }
        }
    }
    let sorted = sort_rows(out);
    let first = take_page(sorted, 0, 12);
    Ok(to_cards(&channels, first))
}

// ---------------------------------------------------------------------------
// Progress and history

/// Saves the playback position of a video (replacing an earlier one), as the
/// `REAL` column holds it, stamped with the current time. A video that is not
/// stored, or a position the column would hold as NULL, is a database error.
pub fn set_progress(conn: &mut Connection, video_id: i64, position_sec: Value) -> (r: AppResult<()>)
    ensures
        r is Ok ==> real_column(position_sec) is Some,
        r is Ok ==> exists|ts: Seq<char>| #![trigger is_timestamp(ts)] is_timestamp(ts) && db(*final(conn)) == (Db {
            progress: db(*old(conn)).progress.filter(|x: ProgressV| x.video_id < video_id).push(
                ProgressV { video_id: video_id as int, position_sec: real_column(position_sec)->0, updated_at: ts },
            ) + db(*old(conn)).progress.filter(|x: ProgressV| x.video_id > video_id),
            ..db(*old(conn))
        }),
        r is Err ==> db(*final(conn)) == db(*old(conn)),
        r matches Err(e) ==> e is Db && db_failure(e, db(*old(conn))),
{
    let now = now_iso();
    match put_progress(conn, video_id, &position_sec, now.as_str()) {
        Ok(_) => Ok(()),
        Err(e) => Err(db_error(e)),
    }
}

/// Records that playback of a video started now (replacing an earlier record).
pub fn start_watch(conn: &mut Connection, video_id: i64) -> (r: AppResult<()>)
    ensures
        r is Ok ==> exists|ts: Seq<char>| #![trigger is_timestamp(ts)] is_timestamp(ts) && db(*final(conn)) == (Db {
            history: db(*old(conn)).history.filter(|x: HistoryV| x.video_id < video_id).push(
                HistoryV { video_id: video_id as int, watched_at: ts },
            ) + db(*old(conn)).history.filter(|x: HistoryV| x.video_id > video_id),
            ..db(*old(conn))
        }),
        r is Err ==> db(*final(conn)) == db(*old(conn)),
        r matches Err(e) ==> e is Db && db_failure(e, db(*old(conn))),
{
    let now = now_iso();
    match put_history(conn, video_id, now.as_str()) {
        Ok(_) => Ok(()),
        Err(e) => Err(db_error(e)),
    }
}

/// History entries whose video is stored and shown.
pub open spec fn history_shown(d: Db, h: HistoryV) -> bool {
    match find_video(d.videos, h.video_id) {
        Some(v) => shown(d.sources, v.source_id),
        None => false,
    }
}

pub open spec fn history_rows(d: Db) -> Seq<HistoryV> {
    d.history.filter(|h: HistoryV| history_shown(d, h))
}

/// The video of a history entry.
pub open spec fn watched(d: Db, h: HistoryV) -> VideoV {
    find_video(d.videos, h.video_id)->0
}

/// A page of watched videos, most recently watched first.
pub fn list_history(conn: &Connection, page: i64) -> (r: AppResult<Page<VideoCard>>)
    requires
        i64::MIN <= page * 24 <= i64::MAX,
    ensures
        r matches Ok(p) ==> {
            let d = db(*conn);
            &&& p.page == page
            &&& p.page_size == 24
            &&& p.total == history_rows(d).len() as i64
            &&& views(p.items@) == cards(
                d.channels,
                page_slice(sort_ranked::<HistoryRow>(history_rows(d)), page_offset(page as int), 24).map_values(
                    |h: HistoryV| watched(d, h),
                ),
            )
        },
        r matches Err(e) ==> e is Db && db_failure(e, db(*conn)),
{
    let sources = load_sources(conn)?;
    let channels = load_channels(conn)?;
    let videos = load_videos(conn)?;
    let history = load_history(conn)?;
    let ghost d = db(*conn);
    let ghost hv = views(history@);
    let mut kept: Vec<HistoryRow> = Vec::new();
    let n = history.len();
    let mut rest = crate::order::reversed(history);
    let mut i: usize = 0;
    assert(hv.subrange(0, 0).filter(|h: HistoryV| history_shown(d, h)) =~= seq![]);
    while i < n
        invariant
            i <= n == hv.len(),
            rest@.len() == n - i,
            forall|j: int| 0 <= j < n - i ==> #[trigger] rest@[j]@ == hv[n - 1 - j],
            hv == d.history,
            views(videos@) == d.videos,
            views(sources@) == d.sources,
            views(kept@) == hv.subrange(0, i as int).filter(|h: HistoryV| history_shown(d, h)),
        decreases n - i,
    {
        let ghost before = views(kept@);
        let ghost rv = rest@;
        let x = rest.pop().unwrap();
        assert(x@ == hv[i as int]) by {
            assert(x == rv[n - i - 1]);
        }
        assert(hv.subrange(0, i + 1) =~= hv.subrange(0, i as int).push(hv[i as int]));
        proof {
            hv.subrange(0, i as int).lemma_filter_push(hv[i as int], |h: HistoryV| history_shown(d, h));
        }
        let keep = match video_at(&videos, x.video_id) {
            Some(k) => is_shown(&sources, videos[k].source_id),
            None => false,
        };
        if keep {
            kept.push(x);
            assert(views(kept@) =~= before.push(hv[i as int]));
        }
        i += 1;
    }
    assert(hv.subrange(0, n as int) =~= hv);
    let total = kept.len() as i64;
    let ghost kv = views(kept@);
    proof {
        assert forall|j: int| 0 <= j < kv.len() implies history_shown(d, #[trigger] kv[j]) by {
            let f = |h: HistoryV| history_shown(d, h);
            hv.lemma_filter_pred(f, j);
        }
        lemma_sort_all::<HistoryRow>(kv, |h: HistoryV| history_shown(d, h));
    }
    let sorted = sort_rows(kept);
    let off = offset_of(page);
    let slice = take_page(sorted, off, 24);
    let ghost sl = views(slice@);
    proof {
        let sv = sort_ranked::<HistoryRow>(kv);
        assert forall|j: int| 0 <= j < sl.len() implies find_video(d.videos, #[trigger] sl[j].video_id) is Some by {
            assert(sl[j] == sv[off + j]);
            assert(history_shown(d, sv[off + j]));
        }
    }
    let mut rows: Vec<VideoRow> = Vec::new();
    let mut k: usize = 0;
    while k < slice.len()
        invariant
            k <= slice.len(),
            sl == views(slice@),
            views(videos@) == d.videos,
            forall|j: int| 0 <= j < sl.len() ==> find_video(d.videos, #[trigger] sl[j].video_id) is Some,
            views(rows@) == sl.subrange(0, k as int).map_values(|h: HistoryV| watched(d, h)),
        decreases slice.len() - k,
    {
        let ghost before = views(rows@);
        assert(sl[k as int] == slice@[k as int]@);
        assert(find_video(d.videos, sl[k as int].video_id) is Some);
        let j = video_at(&videos, slice[k].video_id).unwrap();
        rows.push(clone_video(&videos[j]));
        assert(views(rows@) =~= before.push(watched(d, sl[k as int])));
        assert(sl.subrange(0, k + 1) =~= sl.subrange(0, k as int).push(sl[k as int]));
        k += 1;
    }
    assert(sl.subrange(0, slice.len() as int) =~= sl);
    let items = to_cards(&channels, rows);
    Ok(Page { items, page, page_size: PAGE_SIZE, total })
}

// ---------------------------------------------------------------------------
// Sources

/// Every library source, in the order they were added.
pub fn list_sources(conn: &Connection) -> (r: AppResult<Vec<Source>>)
    ensures
        r matches Ok(v) ==> views(v@) == db(*conn).sources,
        r matches Err(e) ==> e is Db && db_failure(e, db(*conn)),
{
    load_sources(conn)
}

/// A source by id; an unknown id (or a failed read) is `NotFound("source <id>")`.
pub fn get_source(conn: &Connection, id: i64) -> (r: AppResult<Source>)
    ensures
        r matches Ok(s) ==> find_source(db(*conn).sources, id as int) == Some(s@),
        find_source(db(*conn).sources, id as int) is None ==> r is Err,
        r matches Err(e) ==> (e matches AppError::NotFound(m) && m@ == "source "@ + crate::text::int_digits(id as int)),
{
    let sources = match load_sources(conn) {
        Ok(v) => v,
        Err(_) => return Err(not_found_id("source ", id)),
    };
    match source_at(&sources, id) {
        Some(i) => {
            let s = &sources[i];
            Ok(Source {
                id: s.id,
                path: s.path.clone(),
                added_at: s.added_at.clone(),
                last_scanned_at: clone_opt(&s.last_scanned_at),
                available: s.available,
            })
        },
        None => Err(not_found_id("source ", id)),
    }
}

/// Marks a source available or not and, when a time is given, records it as
/// the last scan.
pub fn set_source_available(conn: &mut Connection, id: i64, available: bool, last_scanned: Option<&str>) -> (r: AppResult<()>)
    ensures
        r is Ok ==> db(*final(conn)) == (Db {
            sources: with_source_status(
                db(*old(conn)).sources,
                id as int,
                available,
                match last_scanned { Some(s) => Some(s@), None => None },
            ),
            ..db(*old(conn))
        }),
        r is Err ==> db(*final(conn)) == db(*old(conn)),
        r matches Err(e) ==> e is Db && from_sqlite(e),
{
    match update_source_status(conn, id, available, last_scanned) {
        Ok(_) => Ok(()),
        Err(e) => Err(db_error(e)),
    }
}

// ---------------------------------------------------------------------------
// What every listing guarantees

/// Every video listing (Home, search results, a channel's page, "more from")
/// is newest first: no video comes before one listed ahead of it (see
/// [`crate::rows::video_before`]).
pub proof fn video_listings_are_newest_first(s: Seq<VideoV>)
    ensures
        forall|i: int, j: int|
            0 <= i < j < sort_ranked::<VideoRow>(s).len() ==> !video_before(
                #[trigger] sort_ranked::<VideoRow>(s)[j],
                #[trigger] sort_ranked::<VideoRow>(s)[i],
            ),
{
    lemma_video_order();
    lemma_sorted_in_order::<VideoRow>(s);
}

/// The history is most recently watched first.
pub proof fn history_is_most_recent_first(s: Seq<HistoryV>)
    ensures
        forall|i: int, j: int|
            0 <= i < j < sort_ranked::<HistoryRow>(s).len() ==> !history_before(
                #[trigger] sort_ranked::<HistoryRow>(s)[j],
                #[trigger] sort_ranked::<HistoryRow>(s)[i],
            ),
{
    lemma_history_order();
    lemma_sorted_in_order::<HistoryRow>(s);
}

/// The channel list is by name, ASCII case ignored: with ASCII letters
/// folded to lowercase, no name is listed after a name it sorts before.
pub proof fn channels_are_by_name(s: Seq<ChannelV>)
    ensures
        forall|i: int, j: int|
            0 <= i < j < sort_ranked::<ChannelRow>(s).len() ==> !channel_before(
                #[trigger] sort_ranked::<ChannelRow>(s)[j],
                #[trigger] sort_ranked::<ChannelRow>(s)[i],
            ),
        forall|i: int, j: int|
            0 <= i < j < sort_ranked::<ChannelRow>(s).len() ==> !seq_lt(
                fold_ascii(#[trigger] sort_ranked::<ChannelRow>(s)[j].name),
                fold_ascii(#[trigger] sort_ranked::<ChannelRow>(s)[i].name),
            ),
{
    lemma_channel_order();
    lemma_sorted_in_order::<ChannelRow>(s);
    let t = sort_ranked::<ChannelRow>(s);
    assert forall|i: int, j: int| 0 <= i < j < t.len() implies !seq_lt(
        fold_ascii(#[trigger] t[j].name),
        fold_ascii(#[trigger] t[i].name),
    ) by {
        assert(!channel_before(t[j], t[i]));
        lemma_seq_lt_irreflexive(fold_ascii(t[i].name));
    }
}

/// Search finds a shown video whose channel's display name matches the
/// pattern, whatever the channel's slug, title or description; the video is
/// among the listed results.
pub proof fn search_matches_channel_names(c: Connection, pat: Seq<char>, d: Db, v: VideoV, ch: ChannelV)
    requires
        visible(d).contains(v),
        v.channel_id == Some(ch.id),
        find_channel(d.channels, ch.id) == Some(ch),
        sqlite_like(c, pat, ch.name),
    ensures
        search_rows(c, pat, d).contains(v),
        sort_ranked::<VideoRow>(search_rows(c, pat, d)).contains(v),
{
    broadcast use vstd::seq_lib::group_to_multiset_ensures;

    let p = |w: VideoV| search_hit(c, pat, d.channels, w);
    let vis = visible(d);
    let i = choose|i: int| 0 <= i < vis.len() && vis[i] == v;
    assert(card_of(d.channels, v).channel_name == Some(ch.name));
    assert(p(vis[i]));
    vis.lemma_filter_contains(p, i);
    listing_keeps_every_row::<VideoRow>(search_rows(c, pat, d));
    assert(search_rows(c, pat, d).to_multiset().count(v) > 0);
}

/// Search finds a shown video whose title or description matches the pattern.
pub proof fn search_matches_titles_and_descriptions(c: Connection, pat: Seq<char>, d: Db, v: VideoV)
    requires
        visible(d).contains(v),
        sqlite_like(c, pat, v.title) || sqlite_like(c, pat, or_empty(v.description)),
    ensures
        search_rows(c, pat, d).contains(v),
{
    let p = |w: VideoV| search_hit(c, pat, d.channels, w);
    let vis = visible(d);
    let i = choose|i: int| 0 <= i < vis.len() && vis[i] == v;
    assert(p(vis[i]));
    vis.lemma_filter_contains(p, i);
}

/// "More from" a video with a channel offers every other shown video of that
/// channel, whatever its folder; when there are at most 12 of them, each is
/// listed.
pub proof fn more_from_offers_the_whole_channel(d: Db, x: VideoV, w: VideoV)
    requires
        x.channel_id is Some,
        visible(d).contains(w),
        w.id != x.id,
        w.channel_id == x.channel_id,
    ensures
        more_rows(d, x).contains(w),
        sort_ranked::<VideoRow>(more_rows(d, x)).contains(w),
        more_rows(d, x).len() <= 12 ==> page_slice(sort_ranked::<VideoRow>(more_rows(d, x)), 0, 12).contains(w),
{
    broadcast use vstd::seq_lib::group_to_multiset_ensures;

    let c = x.channel_id->0;
    let p = |u: VideoV| u.id != x.id && u.channel_id == Some(c);
    let vis = visible(d);
    let i = choose|i: int| 0 <= i < vis.len() && vis[i] == w;
    assert(p(vis[i]));
    vis.lemma_filter_contains(p, i);
    let m = more_rows(d, x);
    listing_keeps_every_row::<VideoRow>(m);
    assert(m.to_multiset().count(w) > 0);
    let t = sort_ranked::<VideoRow>(m);
    assert(t.to_multiset().count(w) > 0);
    if m.len() <= 12 {
        assert(t.len() == m.len()) by {
            assert(t.to_multiset().len() == m.to_multiset().len());
        }
        let k = choose|k: int| 0 <= k < t.len() && t[k] == w;
        assert(page_slice(t, 0, 12) =~= t) by {
            assert(page_slice(t, 0, 12).len() == t.len());
        }
    }
}

/// Every search result is a shown video whose title, description or
/// channel display name (empty without a channel) matches the pattern.
pub proof fn search_results_match(c: Connection, pat: Seq<char>, d: Db, v: VideoV)
    requires
        search_rows(c, pat, d).contains(v),
    ensures
        visible(d).contains(v),
        sqlite_like(c, pat, v.title) || sqlite_like(c, pat, or_empty(v.description)) || sqlite_like(
            c,
            pat,
            match v.channel_id {
                Some(cid) => match find_channel(d.channels, cid) {
                    Some(ch) => ch.name,
                    None => seq![],
                },
                None => seq![],
            },
        ),
{
    let p = |w: VideoV| search_hit(c, pat, d.channels, w);
    let vis = visible(d);
    vis.lemma_filter_contains_rev(p, v);
    let k = choose|k: int| 0 <= k < vis.filter(p).len() && vis.filter(p)[k] == v;
    vis.lemma_filter_pred(p, k);
    assert(search_hit(c, pat, d.channels, v));
    if let Some(cid) = v.channel_id {
        if let Some(ch) = find_channel(d.channels, cid) {
            assert(card_of(d.channels, v).channel_name == Some(ch.name));
        }
    }
}

/// Everything "more from" offers is another shown video of the same channel
/// (or, for a video without a channel, of the same folder).
pub proof fn more_from_offers_only_neighbours(d: Db, x: VideoV, w: VideoV)
    requires
        more_rows(d, x).contains(w),
    ensures
        visible(d).contains(w),
        w.id != x.id,
        match x.channel_id {
            Some(c) => w.channel_id == Some(c),
            None => w.parent_dir == x.parent_dir,
        },
{
    let vis = visible(d);
    match x.channel_id {
        Some(c) => {
            let p = |u: VideoV| u.id != x.id && u.channel_id == Some(c);
            vis.lemma_filter_contains_rev(p, w);
            let k = choose|k: int| 0 <= k < vis.filter(p).len() && vis.filter(p)[k] == w;
            vis.lemma_filter_pred(p, k);
        },
        None => {
            let p = |u: VideoV| u.id != x.id && u.parent_dir == x.parent_dir;
            vis.lemma_filter_contains_rev(p, w);
            let k = choose|k: int| 0 <= k < vis.filter(p).len() && vis.filter(p)[k] == w;
            vis.lemma_filter_pred(p, k);
        },
    }
}

/// "More from" a video without a channel offers every other shown video of
/// its folder.
pub proof fn more_from_offers_the_whole_folder(d: Db, x: VideoV, w: VideoV)
    requires
        x.channel_id is None,
        visible(d).contains(w),
        w.id != x.id,
        w.parent_dir == x.parent_dir,
    ensures
        more_rows(d, x).contains(w),
{
    let p = |u: VideoV| u.id != x.id && u.parent_dir == x.parent_dir;
    let vis = visible(d);
    let i = choose|i: int| 0 <= i < vis.len() && vis[i] == w;
    assert(p(vis[i]));
    vis.lemma_filter_contains(p, i);
}

/// Listings leave out every video whose source is missing or unavailable:
/// Home, search results, a channel's videos and its count, and the history.
pub proof fn listings_show_only_available_sources(c: Connection, d: Db, pat: Seq<char>, channel_id: int)
    ensures
        forall|i: int| 0 <= i < sort_ranked::<VideoRow>(visible(d)).len() ==> shown(d.sources, #[trigger] sort_ranked::<VideoRow>(visible(d))[i].source_id),
        forall|i: int| 0 <= i < sort_ranked::<VideoRow>(search_rows(c, pat, d)).len() ==> shown(d.sources, #[trigger] sort_ranked::<VideoRow>(search_rows(c, pat, d))[i].source_id),
        forall|i: int| 0 <= i < channel_rows(d, channel_id).len() ==> shown(d.sources, #[trigger] channel_rows(d, channel_id)[i].source_id),
        forall|i: int| 0 <= i < history_rows(d).len() ==> history_shown(d, #[trigger] history_rows(d)[i]),
{
    let p = |v: VideoV| shown(d.sources, v.source_id);
    let vis = visible(d);
    assert forall|i: int| 0 <= i < vis.len() implies p(#[trigger] vis[i]) by {
        d.videos.lemma_filter_pred(p, i);
    }
    lemma_sort_all::<VideoRow>(vis, p);
    let q = |v: VideoV| search_hit(c, pat, d.channels, v);
    let sr = search_rows(c, pat, d);
    assert forall|i: int| 0 <= i < sr.len() implies p(#[trigger] sr[i]) by {
        vis.lemma_filter_pred(q, i);
        assert(vis.filter(q).contains(sr[i]));
        vis.lemma_filter_contains_rev(q, sr[i]);
        let k = choose|k: int| 0 <= k < vis.len() && vis[k] == sr[i];
        assert(p(vis[k]));
    }
    lemma_sort_all::<VideoRow>(sr, p);
    let c = |v: VideoV| v.channel_id == Some(channel_id);
    let cr = channel_rows(d, channel_id);
    assert forall|i: int| 0 <= i < cr.len() implies p(#[trigger] cr[i]) by {
        assert(vis.filter(c).contains(cr[i]));
        vis.lemma_filter_contains_rev(c, cr[i]);
        let k = choose|k: int| 0 <= k < vis.len() && vis[k] == cr[i];
        assert(p(vis[k]));
    }
    let h = |x: HistoryV| history_shown(d, x);
    assert forall|i: int| 0 <= i < history_rows(d).len() implies h(#[trigger] history_rows(d)[i]) by {
        d.history.lemma_filter_pred(h, i);
    }
}

/// Looking a source up after a status change finds it with the new status.
pub proof fn lemma_find_source_status(t: Seq<SourceV>, id: int, available: bool, scanned: Option<Seq<char>>)
    ensures
        find_source(with_source_status(t, id, available, scanned), id) == match find_source(t, id) {
            Some(s) => Some(
                SourceV {
                    available,
                    last_scanned_at: if scanned is Some {
                        scanned
                    } else {
                        s.last_scanned_at
                    },
                    ..s
                },
            ),
            None => None,
        },
    decreases t.len(),
{
    if t.len() > 0 {
        lemma_find_source_status(t.drop_first(), id, available, scanned);
        assert(with_source_status(t, id, available, scanned).drop_first() =~= with_source_status(
            t.drop_first(),
            id,
            available,
            scanned,
        ));
    }
}

/// A source marked unavailable keeps every video row (so a video stays
/// reachable by id), but none of its videos is listed any more.
pub proof fn unavailable_source_is_hidden_but_kept(d: Db, source_id: int, scanned: Option<Seq<char>>)
    ensures
        ({
            let e = Db { sources: with_source_status(d.sources, source_id, false, scanned), ..d };
            &&& e.videos == d.videos
            &&& forall|i: int| 0 <= i < visible(e).len() ==> (#[trigger] visible(e)[i]).source_id != source_id
        }),
{
    let e = Db { sources: with_source_status(d.sources, source_id, false, scanned), ..d };
    lemma_find_source_status(d.sources, source_id, false, scanned);
    let p = |v: VideoV| shown(e.sources, v.source_id);
    assert forall|i: int| 0 <= i < visible(e).len() implies (#[trigger] visible(e)[i]).source_id != source_id by {
        e.videos.lemma_filter_pred(p, i);
    }
}

/// Paging splits a listing without loss or overlap: row `i` is on page
/// `i / 24`, at place `i % 24`, and no page holds more than 24 rows.
pub proof fn pages_split_a_listing<A>(s: Seq<A>, page: int)
    ensures
        page_slice(s, page_offset(page), 24).len() <= 24,
        forall|i: int|
            0 <= i < s.len() ==> page_slice(s, page_offset(i / 24), 24).len() > i % 24 && #[trigger] page_slice(
                s,
                page_offset(i / 24),
                24,
            )[i % 24] == s[i],
{
    assert forall|i: int| 0 <= i < s.len() implies page_slice(s, page_offset(i / 24), 24).len() > i % 24
        && #[trigger] page_slice(s, page_offset(i / 24), 24)[i % 24] == s[i] by {
        assert(i / 24 >= 0 && (i / 24) * 24 + i % 24 == i && 0 <= i % 24 < 24) by (nonlinear_arith)
            requires
                0 <= i,
        ;
    }
}

proof fn lemma_find_progress_after(a: Seq<ProgressV>, b: Seq<ProgressV>, id: int)
    requires
        forall|k: int| 0 <= k < a.len() ==> (#[trigger] a[k]).video_id != id,
    ensures
        find_progress(a + b, id) == find_progress(b, id),
    decreases a.len(),
{
    if a.len() > 0 {
        let t = a.drop_first();
        assert forall|k: int| 0 <= k < t.len() implies (#[trigger] t[k]).video_id != id by {
            assert(t[k] == a[k + 1]);
        }
        lemma_find_progress_after(t, b, id);
        assert((a + b).drop_first() =~= t + b);
        assert((a + b)[0] == a[0]);
    } else {
        assert(a + b =~= b);
    }
}

/// A saved playback position is what a later read of the video gives back.
pub proof fn saved_progress_is_read_back(t: Seq<ProgressV>, p: ProgressV)
    ensures
        find_progress(
            t.filter(|x: ProgressV| x.video_id < p.video_id).push(p) + t.filter(|x: ProgressV| x.video_id > p.video_id),
            p.video_id,
        ) == Some(p),
{
    let lt = |x: ProgressV| x.video_id < p.video_id;
    let a = t.filter(lt);
    let b = t.filter(|x: ProgressV| x.video_id > p.video_id);
    assert forall|k: int| 0 <= k < a.len() implies (#[trigger] a[k]).video_id != p.video_id by {
        t.lemma_filter_pred(lt, k);
    }
    assert(a.push(p) + b =~= a + (seq![p] + b));
    lemma_find_progress_after(a, seq![p] + b, p.video_id);
    assert((seq![p] + b)[0] == p);
}
} // verus!
