//! What is known about a video file: which files count as videos, and how
//! the companion files (`<stem>.info.json`, `<stem>.webp|jpg|png`) and the
//! folder layout decide title, channel, description, duration, date and
//! thumbnail.
use crate::models::opt_view;
use crate::pathutil::{named_piece, split, split_pieces};
use crate::slug::{hex_char, sha256, sha256_digest};
use crate::text::{append_chars, append_str, chars_eq_ignore_ascii_case, chars_of, eq_ignore_ascii_case, is_ascii_digit, slice_chars, string_of, trim, trim_chars};
use rusqlite::types::Value;
use vstd::prelude::*;

verus! {

// ---------------------------------------------------------------------------
// Video files

/// The extensions of the supported video containers.
pub open spec fn video_exts() -> Seq<Seq<char>> {
    seq!["mp4"@, "webm"@, "mkv"@, "m4v"@, "mov"@]
}

/// Index of the last `.` in `s`, or -1.
pub open spec fn last_dot(s: Seq<char>) -> int
    decreases s.len(),
{
    if s.len() == 0 {
        -1
    } else if s.last() == '.' {
        s.len() - 1
    } else {
        last_dot(s.drop_last())
    }
}

/// The last component of a path, unless it is `..` or there is none.
pub open spec fn file_name(s: Seq<char>) -> Option<Seq<char>> {
    let p = split(s).filter(|x: Seq<char>| named_piece(x));
    if p.len() == 0 || p.last() == seq!['.', '.'] {
        None
    } else {
        Some(p.last())
    }
}

/// The extension of a path: what follows the last `.` of its file name, when
/// that `.` is not the name's first character.
pub open spec fn extension(s: Seq<char>) -> Option<Seq<char>> {
    match file_name(s) {
        Some(n) => {
            let d = last_dot(n);
            if d > 0 {
                Some(n.subrange(d + 1, n.len() as int))
            } else {
                None
            }
        },
        None => None,
    }
}

/// The path names a supported video: its extension is one of the video
/// extensions, ignoring ASCII case.
pub open spec fn spec_is_video_file(s: Seq<char>) -> bool {
    match extension(s) {
        Some(e) => exists|i: int| 0 <= i < video_exts().len() && eq_ignore_ascii_case(e, #[trigger] video_exts()[i]),
        None => false,
    }
}

proof fn lemma_last_dot_bound(s: Seq<char>)
    ensures
        -1 <= last_dot(s) < s.len(),
        last_dot(s) >= 0 ==> s[last_dot(s)] == '.',
    decreases s.len(),
{
    if s.len() > 0 && s.last() != '.' {
        lemma_last_dot_bound(s.drop_last());
    }
}

fn last_dot_exec(s: &Vec<char>) -> (r: Option<usize>)
    ensures
        r matches Some(k) ==> k == last_dot(s@),
        r is None ==> last_dot(s@) == -1,
{
    let mut i = s.len();
    assert(s@.subrange(0, i as int) =~= s@);
    while i > 0
        invariant
            i <= s.len(),
            last_dot(s@) == last_dot(s@.subrange(0, i as int)),
        decreases i,
    {
        assert(s@.subrange(0, i as int).drop_last() =~= s@.subrange(0, i - 1));
        if s[i - 1] == '.' {
            return Some(i - 1);
        }
        i -= 1;
    }
    assert(s@.subrange(0, 0) =~= seq![]);
    None
}

fn named_pieces(s: &Vec<char>) -> (p: Vec<Vec<char>>)
    ensures
        p@.map_values(|v: Vec<char>| v@) == split(s@).filter(|x: Seq<char>| named_piece(x)),
{
    let g = split_pieces(s);
    let ghost gv = g@.map_values(|v: Vec<char>| v@);
    let mut p: Vec<Vec<char>> = Vec::new();
    let mut i: usize = 0;
    assert(gv.subrange(0, 0).filter(|x: Seq<char>| named_piece(x)) =~= seq![]);
    while i < g.len()
        invariant
            i <= g.len(),
            gv == g@.map_values(|v: Vec<char>| v@),
            p@.map_values(|v: Vec<char>| v@) == gv.subrange(0, i as int).filter(|x: Seq<char>| named_piece(x)),
        decreases g.len() - i,
    {
        let ghost before = p@.map_values(|v: Vec<char>| v@);
        assert(gv[i as int] == g@[i as int]@);
        assert(gv.subrange(0, i + 1) =~= gv.subrange(0, i as int).push(gv[i as int]));
        proof {
            gv.subrange(0, i as int).lemma_filter_push(gv[i as int], |x: Seq<char>| named_piece(x));
        }
        if g[i].len() > 0 && !(g[i].len() == 1 && g[i][0] == '.') {
            let piece = g[i].clone();
            assert(piece@ =~= gv[i as int]);
            p.push(piece);
            assert(p@.map_values(|v: Vec<char>| v@) =~= before.push(gv[i as int]));
            assert(named_piece(gv[i as int])) by {
                if gv[i as int] == seq!['.'] {
                    assert(gv[i as int][0] == '.');
                }
            }
        } else {
            assert(!named_piece(gv[i as int])) by {
                if gv[i as int].len() == 1 && gv[i as int][0] == '.' {
                    assert(gv[i as int] =~= seq!['.']);
                }
            }
        }
        i += 1;
    }
    assert(gv.subrange(0, g.len() as int) =~= gv);
    p
}

/// Whether a path names a supported video file (`.mp4`, `.webm`, `.mkv`,
/// `.m4v`, `.mov`, any ASCII case).
pub fn is_video_file(path: &str) -> (r: bool)
    ensures
        r == spec_is_video_file(path@),
{
    let s = chars_of(path);
    let p = named_pieces(&s);
    if p.len() == 0 {
        return false;
    }
    let name = &p[p.len() - 1];
    let ghost pv = p@.map_values(|v: Vec<char>| v@);
    assert(pv.last() == name@);
    if name.len() == 2 && name[0] == '.' && name[1] == '.' {
        assert(name@ =~= seq!['.', '.']);
        return false;
    }
    assert(name@ != seq!['.', '.']) by {
        if name@ == seq!['.', '.'] {
            assert(name@[0] == '.' && name@[1] == '.');
        }
    }
    proof {
        lemma_last_dot_bound(name@);
    }
    let d = match last_dot_exec(name) {
        Some(d) => d,
        None => return false,
    };
    if d == 0 {
        return false;
    }
    let ext = slice_chars(name, d + 1, name.len());
    assert(s@ == path@);
    assert(pv == split(path@).filter(|x: Seq<char>| named_piece(x)));
    assert(file_name(path@) == Some(name@));
    assert(extension(path@) == Some(ext@));
    let exts = [chars_of("mp4"), chars_of("webm"), chars_of("mkv"), chars_of("m4v"), chars_of("mov")];
    assert(exts@[0]@ == video_exts()[0]);
    assert(exts@[1]@ == video_exts()[1]);
    assert(exts@[2]@ == video_exts()[2]);
    assert(exts@[3]@ == video_exts()[3]);
    assert(exts@[4]@ == video_exts()[4]);
    let mut i: usize = 0;
    while i < 5
        invariant
            i <= 5,
            exts@.len() == 5,
            extension(path@) == Some(ext@),
            forall|j: int| 0 <= j < 5 ==> #[trigger] exts@[j]@ == video_exts()[j],
            forall|j: int| 0 <= j < i ==> !eq_ignore_ascii_case(ext@, #[trigger] video_exts()[j]),
        decreases 5 - i,
    {
        if chars_eq_ignore_ascii_case(&ext, &exts[i]) {
            assert(eq_ignore_ascii_case(ext@, video_exts()[i as int]));
            return true;
        }
        i += 1;
    }
    false
}


// ---------------------------------------------------------------------------
// Upload dates

/// A `YYYYMMDD` text (after trimming whitespace) becomes `YYYY-MM-DD`;
/// anything else has no date.
pub open spec fn spec_parse_upload_date(raw: Seq<char>) -> Option<Seq<char>> {
    let d = trim(raw);
    if d.len() == 8 && forall|i: int| 0 <= i < 8 ==> is_ascii_digit(#[trigger] d[i]) {
        Some(d.subrange(0, 4) + seq!['-'] + d.subrange(4, 6) + seq!['-'] + d.subrange(6, 8))
    } else {
        None
    }
}

/// Every text of eight ASCII digits (after trimming whitespace) is a date:
/// its first four digits, `-`, the next two, `-`, the last two.
pub proof fn eight_digits_are_a_date(raw: Seq<char>)
    requires
        trim(raw).len() == 8,
        forall|i: int| 0 <= i < 8 ==> '0' <= #[trigger] trim(raw)[i] <= '9',
    ensures
        spec_parse_upload_date(raw) == Some(seq![
            trim(raw)[0], trim(raw)[1], trim(raw)[2], trim(raw)[3], '-',
            trim(raw)[4], trim(raw)[5], '-', trim(raw)[6], trim(raw)[7],
        ]),
{
    let d = trim(raw);
    assert(forall|i: int| 0 <= i < 8 ==> is_ascii_digit(#[trigger] d[i]));
    assert(d.subrange(0, 4) + seq!['-'] + d.subrange(4, 6) + seq!['-'] + d.subrange(6, 8) =~= seq![
        d[0], d[1], d[2], d[3], '-', d[4], d[5], '-', d[6], d[7],
    ]);
}

/// Only a text of eight ASCII digits (after trimming whitespace) is a date.
pub proof fn only_eight_digits_are_a_date(raw: Seq<char>)
    requires
        spec_parse_upload_date(raw) is Some,
    ensures
        trim(raw).len() == 8,
        forall|i: int| 0 <= i < 8 ==> '0' <= #[trigger] trim(raw)[i] <= '9',
{
}

/// Turns a yt-dlp `upload_date` (`YYYYMMDD`) into `YYYY-MM-DD`.
pub fn parse_upload_date(raw: &str) -> (r: Option<String>)
    ensures
        opt_view(r) == spec_parse_upload_date(raw@),
{
    let d = trim_chars(&chars_of(raw));
    if d.len() != 8 {
        return None;
    }
    let mut i: usize = 0;
    while i < 8
        invariant
            d.len() == 8,
            d@ == trim(raw@),
            i <= 8,
            forall|j: int| 0 <= j < i ==> is_ascii_digit(#[trigger] d@[j]),
        decreases 8 - i,
    {
        if !(d[i] >= '0' && d[i] <= '9') {
            assert(!is_ascii_digit(d@[i as int]));
            return None;
        }
        i += 1;
    }
    let mut out = slice_chars(&d, 0, 4);
    out.push('-');
    append_chars(&mut out, &slice_chars(&d, 4, 6));
    out.push('-');
    append_chars(&mut out, &slice_chars(&d, 6, 8));
    assert(out@ =~= spec_parse_upload_date(raw@)->0);
    Some(string_of(&out))
}

// ---------------------------------------------------------------------------
// Generated thumbnail names

/// Lowercase hexadecimal text of a byte string, two digits per byte.
pub open spec fn hex_text(b: Seq<u8>) -> Seq<char>
    decreases b.len(),
{
    if b.len() == 0 {
        seq![]
    } else {
        hex_text(b.drop_last()) + seq![hex_char((b.last() / 16) as nat), hex_char((b.last() % 16) as nat)]
    }
}

/// `hex::encode`: each byte as two lowercase hexadecimal digits, high nibble first.
#[verifier::external_body]
fn hex_encode(data: &[u8]) -> (r: String)
    ensures
        r@ == hex_text(data@),
{
    hex::encode(data)
}

/// The name under which a generated thumbnail of a video is stored: the
/// SHA-256 digest of its path text, in hexadecimal.
pub fn path_hash(path: &str) -> (r: String)
    ensures
        r@ == hex_text(sha256(vstd::utf8::encode_utf8(path@))),
{
    let h = sha256_digest(path.as_bytes());
    hex_encode(h.as_slice())
}

// ---------------------------------------------------------------------------
// Resolving metadata

/// Metadata of a video as stored in the catalog.
#[derive(Debug)]
pub struct ResolvedMeta {
    pub title: String,
    pub channel_name: Option<String>,
    pub description: Option<String>,
    pub duration_sec: Option<Value>,
    pub thumbnail_path: Option<String>,
    pub upload_date: Option<String>,
}

/// What a video's `.info.json` companion said, as read by the caller. The
/// duration is kept only when it was a finite positive number. The
/// thumbnail candidates are `thumbnail`, then each `thumbnails[].url`, with
/// whether a file exists at that path.
pub struct SidecarInfo {
    pub title: Option<String>,
    pub channel: Option<String>,
    pub uploader: Option<String>,
    pub description: Option<String>,
    pub duration: Option<Value>,
    pub upload_date: Option<String>,
    pub thumbnail_candidates: Vec<(String, bool)>,
}

/// A non-empty text.
pub open spec fn non_empty(o: Option<Seq<char>>) -> Option<Seq<char>> {
    match o {
        Some(s) => if s.len() > 0 {
            Some(s)
        } else {
            None
        },
        None => None,
    }
}

/// The first candidate that exists, if any.
pub open spec fn first_existing(c: Seq<(String, bool)>) -> Option<Seq<char>>
    decreases c.len(),
{
    if c.len() == 0 {
        None
    } else if c[0].1 {
        Some(c[0].0@)
    } else {
        first_existing(c.drop_first())
    }
}

fn first_existing_exec(c: &Vec<(String, bool)>) -> (r: Option<String>)
    ensures
        opt_view(r) == first_existing(c@),
{
    let mut i: usize = 0;
    assert(c@.subrange(0, c.len() as int) =~= c@);
    while i < c.len()
        invariant
            i <= c.len(),
            first_existing(c@) == first_existing(c@.subrange(i as int, c.len() as int)),
        decreases c.len() - i,
    {
        assert(c@.subrange(i as int, c.len() as int).drop_first() =~= c@.subrange(i + 1, c.len() as int));
        if c[i].1 {
            return Some(c[i].0.clone());
        }
        i += 1;
    }
    None
}

fn non_empty_exec(o: &Option<String>) -> (r: Option<String>)
    ensures
        opt_view(r) == non_empty(opt_view(*o)),
{
    match o {
        Some(s) => if s.as_str().is_empty() {
            None
        } else {
            Some(s.clone())
        },
        None => None,
    }
}

/// The title: the stem of the file name, or a non-empty sidecar title.
pub open spec fn meta_title(stem: Seq<char>, info: Option<SidecarInfo>) -> Seq<char> {
    match info {
        Some(i) => match non_empty(opt_view(i.title)) {
            Some(t) => t,
            None => stem,
        },
        None => stem,
    }
}

/// The channel: the sidecar's non-empty `channel`, else its non-empty
/// `uploader`, else the first folder below the source root.
pub open spec fn meta_channel(info: Option<SidecarInfo>, folder: Option<Seq<char>>) -> Option<Seq<char>> {
    let from_info = match info {
        Some(i) => match non_empty(opt_view(i.channel)) {
            Some(c) => Some(c),
            None => non_empty(opt_view(i.uploader)),
        },
        None => None,
    };
    match from_info {
        Some(c) => Some(c),
        None => folder,
    }
}

/// The thumbnail: the first existing sidecar candidate, else the first
/// existing companion image (`.webp`, then `.jpg`, then `.png`).
pub open spec fn meta_thumbnail(info: Option<SidecarInfo>, images: Seq<(String, bool)>) -> Option<Seq<char>> {
    let hint = match info {
        Some(i) => first_existing(i.thumbnail_candidates@),
        None => None,
    };
    match hint {
        Some(t) => Some(t),
        None => first_existing(images),
    }
}

/// The names of the companion images of a video with stem `stem`, in the order
/// they are preferred.
pub open spec fn image_names(stem: Seq<char>) -> Seq<Seq<char>> {
    seq![stem + ".webp"@, stem + ".jpg"@, stem + ".png"@]
}

/// `<stem>.webp`, `<stem>.jpg`, `<stem>.png`: the companion images looked for, best first.
pub fn sidecar_image_names(stem: &str) -> (r: Vec<String>)
    ensures
        r@.map_values(|s: String| s@) == image_names(stem@),
{
    let mut out: Vec<String> = Vec::new();
    let exts = ["webp", "jpg", "png"];
    let mut a = chars_of(stem);
    append_str(&mut a, ".webp");
    out.push(string_of(&a));
    let mut b = chars_of(stem);
    append_str(&mut b, ".jpg");
    out.push(string_of(&b));
    let mut c = chars_of(stem);
    append_str(&mut c, ".png");
    out.push(string_of(&c));
    assert(out@.map_values(|s: String| s@) =~= image_names(stem@));
    out
}

/// `<stem>.info.json`: the name of a video's metadata companion.
pub fn info_json_name(stem: &str) -> (r: String)
    ensures
        r@ == stem@ + ".info.json"@,
{
    let mut a = chars_of(stem);
    append_str(&mut a, ".info.json");
    string_of(&a)
}

/// Metadata from what is next to the file, first match winning per field:
/// the sidecar JSON (when it parsed), then the companion images for the
/// thumbnail, then the folder for the channel, then the file stem for the title.
/// `images` are the companion images in preference order with whether each
/// exists; `folder_channel` is the first folder below the source root.
pub fn resolve_from_sidecars(
    stem: &str,
    info: Option<SidecarInfo>,
    images: &Vec<(String, bool)>,
    folder_channel: Option<String>,
) -> (r: ResolvedMeta)
    ensures
        r.title@ == meta_title(stem@, info),
        opt_view(r.channel_name) == meta_channel(info, opt_view(folder_channel)),
        opt_view(r.thumbnail_path) == meta_thumbnail(info, images@),
        opt_view(r.description) == match info {
            Some(i) => opt_view(i.description),
            None => None,
        },
        r.duration_sec == match info {
            Some(i) => i.duration,
            None => None,
        },
        opt_view(r.upload_date) == match info {
            Some(i) => match i.upload_date {
                Some(d) => spec_parse_upload_date(d@),
                None => None,
            },
            None => None,
        },
{
    let ghost info0 = info;
    let mut meta = ResolvedMeta {
        title: String::from_str(stem),
        channel_name: None,
        description: None,
        duration_sec: None,
        thumbnail_path: None,
        upload_date: None,
    };
    match info {
        Some(i) => {
            meta.thumbnail_path = first_existing_exec(&i.thumbnail_candidates);
            match non_empty_exec(&i.title) {
                Some(t) => meta.title = t,
                None => {},
            }
            meta.channel_name = match non_empty_exec(&i.channel) {
                Some(c) => Some(c),
                None => non_empty_exec(&i.uploader),
            };
            meta.description = i.description;
            meta.duration_sec = i.duration;
            meta.upload_date = match &i.upload_date {
                Some(d) => parse_upload_date(d.as_str()),
                None => None,
            };
        },
        None => {},
    }
    if meta.thumbnail_path.is_none() {
        meta.thumbnail_path = first_existing_exec(images);
    }
    if meta.channel_name.is_none() {
        meta.channel_name = folder_channel;
    }
    meta
}
} // verus!
