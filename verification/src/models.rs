//! Values that the catalog hands to its callers.
//!
//! Durations and playback positions are floating-point numbers in the
//! database. The library never computes with them: it carries them as the
//! SQLite value they are stored as (`rusqlite::types::Value`), opaque here.
use rusqlite::types::Value;
use vstd::prelude::*;

verus! {

/// An SQLite value (`rusqlite::types::Value`), carried through unchanged.
#[verifier::external_type_specification]
#[verifier::external_body]
pub struct ExSqlValue(rusqlite::types::Value);

/// View of an optional string.
pub open spec fn opt_view(o: Option<String>) -> Option<Seq<char>> {
    match o {
        Some(s) => Some(s@),
        None => None,
    }
}

/// A library source folder.
#[derive(Debug, Clone)]
pub struct Source {
    pub id: i64,
    pub path: String,
    pub added_at: String,
    pub last_scanned_at: Option<String>,
    pub available: bool,
}

pub struct SourceV {
    pub id: int,
    pub path: Seq<char>,
    pub added_at: Seq<char>,
    pub last_scanned_at: Option<Seq<char>>,
    pub available: bool,
}

impl View for Source {
    type V = SourceV;

    open spec fn view(&self) -> SourceV {
        SourceV {
            id: self.id as int,
            path: self.path@,
            added_at: self.added_at@,
            last_scanned_at: opt_view(self.last_scanned_at),
            available: self.available,
        }
    }
}

/// `Clone` of an SQLite value (derived by `rusqlite`): an equal value.
pub assume_specification[ <rusqlite::types::Value as Clone>::clone ](v: &Value) -> (r: Value)
    ensures
        r == *v,
;

/// A named channel with the number of its videos that are currently shown.
#[derive(Debug, Clone)]
pub struct Channel {
    pub id: i64,
    pub slug: String,
    pub name: String,
    pub video_count: i64,
}

pub struct ChannelInfoV {
    pub id: int,
    pub slug: Seq<char>,
    pub name: Seq<char>,
    pub video_count: int,
}

impl View for Channel {
    type V = ChannelInfoV;

    open spec fn view(&self) -> ChannelInfoV {
        ChannelInfoV { id: self.id as int, slug: self.slug@, name: self.name@, video_count: self.video_count as int }
    }
}

/// A video as shown in a grid.
#[derive(Debug, Clone)]
pub struct VideoCard {
    pub id: i64,
    pub title: String,
    pub channel_name: Option<String>,
    pub channel_slug: Option<String>,
    pub duration_sec: Option<Value>,
    pub thumbnail_path: Option<String>,
    pub upload_date: Option<String>,
}

pub struct CardV {
    pub id: int,
    pub title: Seq<char>,
    pub channel_name: Option<Seq<char>>,
    pub channel_slug: Option<Seq<char>>,
    pub duration_sec: Option<Value>,
    pub thumbnail_path: Option<Seq<char>>,
    pub upload_date: Option<Seq<char>>,
}

impl View for VideoCard {
    type V = CardV;

    open spec fn view(&self) -> CardV {
        CardV {
            id: self.id as int,
            title: self.title@,
            channel_name: opt_view(self.channel_name),
            channel_slug: opt_view(self.channel_slug),
            duration_sec: self.duration_sec,
            thumbnail_path: opt_view(self.thumbnail_path),
            upload_date: opt_view(self.upload_date),
        }
    }
}

/// Everything the watch page shows about one video.
#[derive(Debug, Clone)]
pub struct VideoDetail {
    pub id: i64,
    pub title: String,
    pub channel_name: Option<String>,
    pub channel_slug: Option<String>,
    pub channel_id: Option<i64>,
    pub source_id: i64,
    pub path: String,
    pub parent_dir: String,
    pub description: Option<String>,
    pub duration_sec: Option<Value>,
    pub thumbnail_path: Option<String>,
    pub upload_date: Option<String>,
    pub progress_sec: Option<Value>,
}

pub struct DetailV {
    pub id: int,
    pub title: Seq<char>,
    pub channel_name: Option<Seq<char>>,
    pub channel_slug: Option<Seq<char>>,
    pub channel_id: Option<int>,
    pub source_id: int,
    pub path: Seq<char>,
    pub parent_dir: Seq<char>,
    pub description: Option<Seq<char>>,
    pub duration_sec: Option<Value>,
    pub thumbnail_path: Option<Seq<char>>,
    pub upload_date: Option<Seq<char>>,
    pub progress_sec: Option<Value>,
}

impl View for VideoDetail {
    type V = DetailV;

    open spec fn view(&self) -> DetailV {
        DetailV {
            id: self.id as int,
            title: self.title@,
            channel_name: opt_view(self.channel_name),
            channel_slug: opt_view(self.channel_slug),
            channel_id: match self.channel_id {
                Some(c) => Some(c as int),
                None => None,
            },
            source_id: self.source_id as int,
            path: self.path@,
            parent_dir: self.parent_dir@,
            description: opt_view(self.description),
            duration_sec: self.duration_sec,
            thumbnail_path: opt_view(self.thumbnail_path),
            upload_date: opt_view(self.upload_date),
            progress_sec: self.progress_sec,
        }
    }
}

/// One page of a longer listing.
#[derive(Debug, Clone)]
pub struct Page<T> {
    pub items: Vec<T>,
    pub page: i64,
    pub page_size: i64,
    pub total: i64,
}

/// Counts reported by a scan.
#[derive(Debug, Clone, Copy, PartialEq, Eq)]
pub struct ScanStats {
    pub imported: i64,
    pub updated: i64,
    pub removed: i64,
    pub skipped_dirs: i64,
}

impl ScanStats {
    /// All counts zero.
    pub fn zero() -> (r: ScanStats)
        ensures
            r == (ScanStats { imported: 0, updated: 0, removed: 0, skipped_dirs: 0 }),
    {
        ScanStats { imported: 0, updated: 0, removed: 0, skipped_dirs: 0 }
    }
}

/// A user playlist with the number of entries it holds.
#[derive(Debug, Clone)]
pub struct Playlist {
    pub id: i64,
    pub name: String,
    pub created_at: String,
    pub video_count: i64,
}

pub struct PlaylistInfoV {
    pub id: int,
    pub name: Seq<char>,
    pub created_at: Seq<char>,
    pub video_count: int,
}

impl View for Playlist {
    type V = PlaylistInfoV;

    open spec fn view(&self) -> PlaylistInfoV {
        PlaylistInfoV {
            id: self.id as int,
            name: self.name@,
            created_at: self.created_at@,
            video_count: self.video_count as int,
        }
    }
}

/// What an upsert did: the row's id, and whether it was newly inserted.
#[derive(Debug, Clone, Copy, PartialEq, Eq)]
pub struct UpsertOutcome {
    pub id: i64,
    pub created: bool,
}

/// A new source together with the result of its first scan.
#[derive(Debug, Clone)]
pub struct AddSourceResult {
    pub source: Source,
    pub stats: ScanStats,
}

/// A channel with one page of its videos.
#[derive(Debug, Clone)]
pub struct ChannelPage {
    pub channel: Channel,
    pub videos: Page<VideoCard>,
}

/// A playlist with one page of its videos.
#[derive(Debug, Clone)]
pub struct PlaylistPage {
    pub playlist: Playlist,
    pub videos: Page<VideoCard>,
}

} // verus!
