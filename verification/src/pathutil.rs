//! Path identity: normalization, comparison keys, source overlap and the
//! folder a video sits in.
//!
//! A path is a string. Both `/` and `\` separate components, and Windows
//! forms (`C:\`, `\\server\share\`, `\\?\C:\`, `\\?\UNC\server\share\`) are
//! recognised wherever the program runs. What only the file system can tell
//! (whether a path exists, what it canonicalizes to, the working directory) is
//! gathered by the caller into [`PathFacts`].
use crate::error::{AppError, AppResult};
use crate::text::{
    append_chars, chars_eq, chars_of, chars_starts_with,
    slice_chars, starts_with, string_of, to_lowercase, unicode_lowercase,
};
use vstd::prelude::*;

verus! {

/// What the file system says about one path.
#[derive(Debug)]
pub struct PathFacts {
    /// The path as given.
    pub raw: String,
    /// Whether it exists.
    pub exists: bool,
    /// Its canonical form, or the text of the error canonicalizing it gave.
    pub canonical: Result<String, String>,
    /// The process's working directory, or the text of the error reading it gave.
    pub cwd: Result<String, String>,
}

/// How a candidate source folder overlaps an existing one.
#[derive(Debug, Clone, Copy, PartialEq, Eq)]
pub enum OverlapKind {
    Same,
    CandidateInsideExisting,
    ExistingInsideCandidate,
}

impl OverlapKind {
    pub open spec fn spec_reason(self) -> Seq<char> {
        match self {
            OverlapKind::Same => "This folder is already a library source"@,
            OverlapKind::CandidateInsideExisting => "This folder is inside an existing library source"@,
            OverlapKind::ExistingInsideCandidate => "This folder contains an existing library source"@,
        }
    }

    /// The message shown when a folder is refused as a source.
    pub fn reason(self) -> (r: String)
        ensures
            r@ == self.spec_reason(),
    {
        match self {
            OverlapKind::Same => String::from_str("This folder is already a library source"),
            OverlapKind::CandidateInsideExisting => String::from_str(
                "This folder is inside an existing library source",
            ),
            OverlapKind::ExistingInsideCandidate => String::from_str(
                "This folder contains an existing library source",
            ),
        }
    }
}

// ---------------------------------------------------------------------------
// Verbatim prefixes

pub open spec fn verbatim_unc() -> Seq<char> {
    seq!['\\', '\\', '?', '\\', 'U', 'N', 'C', '\\']
}

pub open spec fn verbatim() -> Seq<char> {
    seq!['\\', '\\', '?', '\\']
}

/// `\\?\UNC\server\share` becomes `\\server\share`, `\\?\C:\x` becomes `C:\x`;
/// anything else is unchanged.
pub open spec fn spec_strip_verbatim(s: Seq<char>) -> Seq<char> {
    if starts_with(s, verbatim_unc()) {
        seq!['\\', '\\'] + s.subrange(8, s.len() as int)
    } else if starts_with(s, verbatim()) {
        s.subrange(4, s.len() as int)
    } else {
        s
    }
}

fn strip_verbatim_chars(s: &Vec<char>) -> (r: Vec<char>)
    ensures
        r@ == spec_strip_verbatim(s@),
{
    let unc = vec!['\\', '\\', '?', '\\', 'U', 'N', 'C', '\\'];
    let vb = vec!['\\', '\\', '?', '\\'];
    assert(unc@ =~= verbatim_unc());
    assert(vb@ =~= verbatim());
    if chars_starts_with(s, &unc) {
        let mut r = vec!['\\', '\\'];
        let rest = slice_chars(s, 8, s.len());
        append_chars(&mut r, &rest);
        r
    } else if chars_starts_with(s, &vb) {
        slice_chars(s, 4, s.len())
    } else {
        s.clone()
    }
}

/// Removes the Windows extended-length (`\\?\`) prefix, turning
/// `\\?\UNC\server\share` into `\\server\share`.
pub fn strip_verbatim_prefix(path: &str) -> (r: String)
    ensures
        r@ == spec_strip_verbatim(path@),
{
    let s = chars_of(path);
    let r = strip_verbatim_chars(&s);
    string_of(&r)
}

/// The path as shown to the user: without an extended-length prefix.
pub fn display_path(path: &str) -> (r: String)
    ensures
        r@ == spec_strip_verbatim(path@),
{
    strip_verbatim_prefix(path)
}

// ---------------------------------------------------------------------------
// Components

pub open spec fn is_sep(c: char) -> bool {
    c == '/' || c == '\\'
}

pub open spec fn is_letter(c: char) -> bool {
    ('a' <= c && c <= 'z') || ('A' <= c && c <= 'Z')
}

/// A drive component such as `C:`.
pub open spec fn is_drive(g: Seq<char>) -> bool {
    g.len() == 2 && is_letter(g[0]) && g[1] == ':'
}

/// Written in Windows form: starting `\\` or with a drive.
pub open spec fn windows_style(s: Seq<char>) -> bool {
    (s.len() >= 2 && s[0] == '\\' && s[1] == '\\') || (s.len() >= 2 && is_letter(s[0]) && s[1] == ':')
}

/// The separator used when components are joined.
pub open spec fn sep_char(s: Seq<char>) -> char {
    if windows_style(s) {
        '\\'
    } else {
        '/'
    }
}

/// Starts from a root: `/`, `\\`, or a drive followed by a separator.
pub open spec fn spec_is_absolute(s: Seq<char>) -> bool {
    (s.len() >= 1 && s[0] == '/') || (s.len() >= 2 && s[0] == '\\' && s[1] == '\\') || (s.len() >= 3
        && is_letter(s[0]) && s[1] == ':' && is_sep(s[2]))
}

/// The pieces between separators (empty pieces included).
pub open spec fn split(s: Seq<char>) -> Seq<Seq<char>>
    decreases s.len(),
{
    if s.len() == 0 {
        seq![seq![]]
    } else {
        let t = split(s.drop_last());
        let c = s.last();
        if is_sep(c) {
            t.push(seq![])
        } else {
            t.update(t.len() - 1, t.last().push(c))
        }
    }
}

pub proof fn lemma_split_nonempty(s: Seq<char>)
    ensures
        split(s).len() >= 1,
    decreases s.len(),
{
    if s.len() > 0 {
        lemma_split_nonempty(s.drop_last());
    }
}

pub open spec fn min_nat(a: nat, b: nat) -> nat {
    if a < b {
        a
    } else {
        b
    }
}

/// How many leading pieces form the root (`/`, a drive, `\\server\share`,
/// `\\?\C:`, `\\?\UNC\server\share`).
pub open spec fn root_count(g: Seq<Seq<char>>) -> nat {
    if g.len() >= 2 && g[0].len() == 0 && g[1].len() == 0 {
        if g.len() >= 3 && g[2] == seq!['?'] {
            if g.len() >= 4 && g[3] == seq!['U', 'N', 'C'] {
                min_nat(6, g.len())
            } else {
                min_nat(4, g.len())
            }
        } else {
            min_nat(4, g.len())
        }
    } else if (g.len() >= 2 && g[0].len() == 0) || (g.len() >= 1 && is_drive(g[0])) {
        1
    } else {
        0
    }
}

pub open spec fn dotdot() -> Seq<char> {
    seq!['.', '.']
}

/// The pieces after the root, with empty and `.` pieces dropped and each `..`
/// removing the piece before it.
pub open spec fn fold_pieces(g: Seq<Seq<char>>) -> Seq<Seq<char>>
    decreases g.len(),
{
    if g.len() == 0 {
        seq![]
    } else {
        let st = fold_pieces(g.drop_last());
        let p = g.last();
        if p.len() == 0 || p == seq!['.'] {
            st
        } else if p == dotdot() {
            if st.len() > 0 {
                st.drop_last()
            } else {
                st
            }
        } else {
            st.push(p)
        }
    }
}

/// Pieces joined by `sep`.
pub open spec fn join(g: Seq<Seq<char>>, sep: char) -> Seq<char>
    decreases g.len(),
{
    if g.len() == 0 {
        seq![]
    } else if g.len() == 1 {
        g[0]
    } else {
        join(g.drop_last(), sep) + seq![sep] + g.last()
    }
}

/// Lexical normalization: `.` dropped, `..` resolved against the piece
/// before it (never above the root), repeated separators collapsed.
pub open spec fn spec_lex_normalize(s: Seq<char>) -> Seq<char> {
    let g = split(s);
    let k = root_count(g);
    let st = fold_pieces(g.subrange(k as int, g.len() as int));
    let sep = sep_char(s);
    if k == 0 {
        join(st, sep)
    } else {
        join(g.subrange(0, k as int), sep) + seq![sep] + join(st, sep)
    }
}

pub open spec fn is_sep_exec_spec(c: char) -> bool {
    is_sep(c)
}

pub fn split_pieces(s: &Vec<char>) -> (g: Vec<Vec<char>>)
    ensures
        g@.map_values(|v: Vec<char>| v@) == split(s@),
{
    let mut g: Vec<Vec<char>> = Vec::new();
    g.push(Vec::new());
    let mut i: usize = 0;
    assert(g@.map_values(|v: Vec<char>| v@) =~= split(s@.subrange(0, 0)));
    while i < s.len()
        invariant
            i <= s.len(),
            g@.map_values(|v: Vec<char>| v@) == split(s@.subrange(0, i as int)),
            g.len() >= 1,
        decreases s.len() - i,
    {
        let c = s[i];
        let ghost before = g@.map_values(|v: Vec<char>| v@);
        assert(s@.subrange(0, i + 1).drop_last() =~= s@.subrange(0, i as int));
        if c == '/' || c == '\\' {
            g.push(Vec::new());
            assert(g@.map_values(|v: Vec<char>| v@) =~= before.push(seq![]));
        } else {
            let last = g.len() - 1;
            let mut piece = g[last].clone();
            assert(piece@ =~= g@[last as int]@);
            piece.push(c);
            g.set(last, piece);
            assert(g@.map_values(|v: Vec<char>| v@) =~= before.update(
                before.len() - 1,
                before.last().push(c),
            ));
        }
        i += 1;
    }
    assert(s@.subrange(0, s.len() as int) =~= s@);
    g
}

fn piece_eq(p: &Vec<char>, lit: &[char]) -> (r: bool)
    ensures
        r == (p@ == lit@),
{
    if p.len() != lit.len() {
        return false;
    }
    let mut i: usize = 0;
    while i < p.len()
        invariant
            p.len() == lit.len(),
            i <= p.len(),
            forall|j: int| 0 <= j < i ==> p@[j] == lit@[j],
        decreases p.len() - i,
    {
        if p[i] != lit[i] {
            return false;
        }
        i += 1;
    }
    assert(p@ =~= lit@);
    true
}

fn is_letter_exec(c: char) -> (r: bool)
    ensures
        r == is_letter(c),
{
    (c >= 'a' && c <= 'z') || (c >= 'A' && c <= 'Z')
}

fn root_count_exec(g: &Vec<Vec<char>>) -> (k: usize)
    ensures
        k == root_count(g@.map_values(|v: Vec<char>| v@)),
{
    let ghost gv = g@.map_values(|v: Vec<char>| v@);
    let n = g.len();
    if n >= 2 && g[0].len() == 0 && g[1].len() == 0 {
        assert(gv[0] == g@[0]@ && gv[1] == g@[1]@);
        if n >= 3 && piece_eq(&g[2], &['?']) {
            assert(gv[2] == g@[2]@);
            assert(['?']@ =~= seq!['?']);
            if n >= 4 && piece_eq(&g[3], &['U', 'N', 'C']) {
                assert(gv[3] == g@[3]@);
                assert(['U', 'N', 'C']@ =~= seq!['U', 'N', 'C']);
                if n < 6 {
                    n
                } else {
                    6
                }
            } else {
                proof {
                    if n >= 4 {
                        assert(gv[3] == g@[3]@);
                        assert(['U', 'N', 'C']@ =~= seq!['U', 'N', 'C']);
                    }
                }
                if n < 4 {
                    n
                } else {
                    4
                }
            }
        } else {
            proof {
                if n >= 3 {
                    assert(gv[2] == g@[2]@);
                    assert(['?']@ =~= seq!['?']);
                }
            }
            if n < 4 {
                n
            } else {
                4
            }
        }
    } else {
        proof {
            if n >= 2 {
                assert(gv[0] == g@[0]@ && gv[1] == g@[1]@);
            }
            if n >= 1 {
                assert(gv[0] == g@[0]@);
            }
        }
        if (n >= 2 && g[0].len() == 0) || (n >= 1 && g[0].len() == 2 && is_letter_exec(g[0][0])
            && g[0][1] == ':') {
            1
        } else {
            0
        }
    }
}

fn fold_pieces_exec(g: &Vec<Vec<char>>, k: usize) -> (st: Vec<Vec<char>>)
    requires
        k <= g.len(),
    ensures
        st@.map_values(|v: Vec<char>| v@) == fold_pieces(
            g@.map_values(|v: Vec<char>| v@).subrange(k as int, g.len() as int),
        ),
{
    let ghost gv = g@.map_values(|v: Vec<char>| v@);
    let mut st: Vec<Vec<char>> = Vec::new();
    let mut i = k;
    assert(gv.subrange(k as int, k as int) =~= seq![]);
    while i < g.len()
        invariant
            k <= i <= g.len(),
            gv == g@.map_values(|v: Vec<char>| v@),
            st@.map_values(|v: Vec<char>| v@) == fold_pieces(gv.subrange(k as int, i as int)),
        decreases g.len() - i,
    {
        let p = &g[i];
        let ghost prev = st@.map_values(|v: Vec<char>| v@);
        assert(gv.subrange(k as int, i + 1).drop_last() =~= gv.subrange(k as int, i as int));
        assert(gv.subrange(k as int, i + 1).last() == p@);
        assert(['.']@ =~= seq!['.']);
        assert(['.', '.']@ =~= dotdot());
        if p.len() == 0 || piece_eq(p, &['.']) {
        } else if piece_eq(p, &['.', '.']) {
            if st.len() > 0 {
                st.pop();
                assert(st@.map_values(|v: Vec<char>| v@) =~= prev.drop_last());
            }
        } else {
            st.push(p.clone());
            assert(st@.map_values(|v: Vec<char>| v@) =~= prev.push(p@));
        }
        i += 1;
    }
    st
}

fn join_exec(g: &Vec<Vec<char>>, from: usize, to: usize, sep: char, out: &mut Vec<char>)
    requires
        from <= to <= g.len(),
    ensures
        final(out)@ == old(out)@ + join(g@.map_values(|v: Vec<char>| v@).subrange(from as int, to as int), sep),
{
    let ghost gv = g@.map_values(|v: Vec<char>| v@);
    let mut i = from;
    assert(gv.subrange(from as int, from as int) =~= seq![]);
    while i < to
        invariant
            from <= i <= to <= g.len(),
            gv == g@.map_values(|v: Vec<char>| v@),
            out@ == old(out)@ + join(gv.subrange(from as int, i as int), sep),
        decreases to - i,
    {
        let ghost sub = gv.subrange(from as int, i + 1);
        assert(sub.drop_last() =~= gv.subrange(from as int, i as int));
        assert(sub.last() == g@[i as int]@);
        if i > from {
            out.push(sep);
        }
        append_chars(out, &g[i]);
        proof {
            if i == from {
                assert(sub.len() == 1);
                assert(out@ =~= old(out)@ + join(sub, sep));
            } else {
                assert(out@ =~= old(out)@ + join(sub, sep));
            }
        }
        i += 1;
    }
}

fn windows_style_exec(s: &Vec<char>) -> (r: bool)
    ensures
        r == windows_style(s@),
{
    (s.len() >= 2 && s[0] == '\\' && s[1] == '\\') || (s.len() >= 2 && is_letter_exec(s[0]) && s[1] == ':')
}

fn lex_normalize_chars(s: &Vec<char>) -> (r: Vec<char>)
    ensures
        r@ == spec_lex_normalize(s@),
{
    let g = split_pieces(s);
    let k = root_count_exec(&g);
    proof {
        lemma_split_nonempty(s@);
        assert(k <= g.len());
    }
    let st = fold_pieces_exec(&g, k);
    let sep = if windows_style_exec(s) {
        '\\'
    } else {
        '/'
    };
    let mut out: Vec<char> = Vec::new();
    if k == 0 {
        join_exec(&st, 0, st.len(), sep, &mut out);
        assert(st@.map_values(|v: Vec<char>| v@).subrange(0, st.len() as int) =~= st@.map_values(
            |v: Vec<char>| v@,
        ));
    } else {
        join_exec(&g, 0, k, sep, &mut out);
        out.push(sep);
        join_exec(&st, 0, st.len(), sep, &mut out);
        assert(st@.map_values(|v: Vec<char>| v@).subrange(0, st.len() as int) =~= st@.map_values(
            |v: Vec<char>| v@,
        ));
    }
    assert(out@ =~= spec_lex_normalize(s@));
    out
}

/// Lexical normalization of a path (see [`spec_lex_normalize`]).
pub fn lex_normalize(path: &str) -> (r: String)
    ensures
        r@ == spec_lex_normalize(path@),
{
    let s = chars_of(path);
    let r = lex_normalize_chars(&s);
    string_of(&r)
}

/// `rel` appended to `base` with one separator between them.
pub open spec fn spec_join_path(base: Seq<char>, rel: Seq<char>) -> Seq<char> {
    if base.len() == 0 || is_sep(base.last()) {
        base + rel
    } else {
        base + seq![sep_char(base)] + rel
    }
}

fn is_absolute_chars(s: &Vec<char>) -> (r: bool)
    ensures
        r == spec_is_absolute(s@),
{
    (s.len() >= 1 && s[0] == '/') || (s.len() >= 2 && s[0] == '\\' && s[1] == '\\') || (s.len() >= 3
        && is_letter_exec(s[0]) && s[1] == ':' && (s[2] == '/' || s[2] == '\\'))
}

/// Whether the path starts from a root.
pub fn is_absolute(path: &str) -> (r: bool)
    ensures
        r == spec_is_absolute(path@),
{
    let s = chars_of(path);
    is_absolute_chars(&s)
}

// ---------------------------------------------------------------------------
// Normalization and keys

/// The normalized absolute form of the path text `raw`, using the file-system
/// facts `f` gathered for it: its canonical form when it exists, else the
/// lexically normalized absolute path.
pub open spec fn spec_normalize_at(f: PathFacts, raw: Seq<char>) -> Result<Seq<char>, Seq<char>> {
    if f.exists {
        match f.canonical {
            Ok(c) => Ok(c@),
            Err(e) => Err(e@),
        }
    } else if spec_is_absolute(raw) {
        Ok(spec_lex_normalize(raw))
    } else {
        match f.cwd {
            Ok(c) => Ok(spec_lex_normalize(spec_join_path(c@, raw))),
            Err(e) => Err(e@),
        }
    }
}

pub open spec fn spec_normalize(f: PathFacts) -> Result<Seq<char>, Seq<char>> {
    spec_normalize_at(f, f.raw@)
}

fn normalize_at(f: &PathFacts, raw_s: &str) -> (r: AppResult<String>)
    ensures
        match spec_normalize_at(*f, raw_s@) {
            Ok(p) => r matches Ok(s) && s@ == p,
            Err(e) => r matches Err(AppError::Io(m)) && m@ == e,
        },
{
    if f.exists {
        match &f.canonical {
            Ok(c) => Ok(c.clone()),
            Err(e) => Err(AppError::Io(e.clone())),
        }
    } else {
        let raw = chars_of(raw_s);
        if is_absolute_chars(&raw) {
            let r = lex_normalize_chars(&raw);
            Ok(string_of(&r))
        } else {
            match &f.cwd {
                Ok(c) => {
                    let mut base = chars_of(c.as_str());
                    if base.len() == 0 || base[base.len() - 1] == '/' || base[base.len() - 1] == '\\' {
                    } else {
                        let sep = if windows_style_exec(&base) {
                            '\\'
                        } else {
                            '/'
                        };
                        base.push(sep);
                    }
                    append_chars(&mut base, &raw);
                    assert(base@ =~= spec_join_path(c@, raw_s@));
                    let r = lex_normalize_chars(&base);
                    Ok(string_of(&r))
                },
                Err(e) => Err(AppError::Io(e.clone())),
            }
        }
    }
}

/// Normalizes a path: canonical when it exists, otherwise made absolute against
/// the working directory and normalized lexically. The errors are those the
/// file system reported.
pub fn normalize_path(f: &PathFacts) -> (r: AppResult<String>)
    ensures
        match spec_normalize(*f) {
            Ok(p) => r matches Ok(s) && s@ == p,
            Err(e) => r matches Err(AppError::Io(m)) && m@ == e,
        },
{
    normalize_at(f, f.raw.as_str())
}

/// The comparison key of path text `raw` with facts `f`: normalized (or, when
/// that fails, as given), without an extended-length prefix, lowercased.
pub open spec fn spec_key_at(f: PathFacts, raw: Seq<char>) -> Seq<char> {
    let n = match spec_normalize_at(f, raw) {
        Ok(p) => p,
        Err(_) => raw,
    };
    unicode_lowercase(spec_strip_verbatim(n))
}

pub open spec fn spec_key(f: PathFacts) -> Seq<char> {
    spec_key_at(f, f.raw@)
}

fn key_at(f: &PathFacts, raw: &str) -> (r: String)
    ensures
        r@ == spec_key_at(*f, raw@),
{
    let n = match normalize_at(f, raw) {
        Ok(p) => p,
        Err(_) => String::from_str(raw),
    };
    let s = strip_verbatim_prefix(n.as_str());
    to_lowercase(s.as_str())
}

/// The comparison key of a path (see [`spec_key_at`]).
pub fn key(f: &PathFacts) -> (r: String)
    ensures
        r@ == spec_key(*f),
{
    key_at(f, f.raw.as_str())
}

/// Texts `ra` and `rb`, with facts `a` and `b`, name the same place: their
/// canonical forms are equal, or equal once lowercased (a case-insensitive
/// compare of the whole text), when both can be canonicalized; else their
/// keys are equal.
pub open spec fn spec_paths_equal_at(a: PathFacts, ra: Seq<char>, b: PathFacts, rb: Seq<char>) -> bool {
    match (a.canonical, b.canonical) {
        (Ok(ca), Ok(cb)) => ca@ == cb@ || unicode_lowercase(ca@) == unicode_lowercase(cb@),
        _ => spec_key_at(a, ra) == spec_key_at(b, rb),
    }
}

pub open spec fn spec_paths_equal(a: PathFacts, b: PathFacts) -> bool {
    spec_paths_equal_at(a, a.raw@, b, b.raw@)
}

fn paths_equal_at(a: &PathFacts, ra: &str, b: &PathFacts, rb: &str) -> (r: bool)
    ensures
        r == spec_paths_equal_at(*a, ra@, *b, rb@),
{
    match (&a.canonical, &b.canonical) {
        (Ok(ca), Ok(cb)) => {
            let x = chars_of(ca.as_str());
            let y = chars_of(cb.as_str());
            let lx = chars_of(to_lowercase(ca.as_str()).as_str());
            let ly = chars_of(to_lowercase(cb.as_str()).as_str());
            chars_eq(&x, &y) || chars_eq(&lx, &ly)
        },
        _ => {
            let ka = chars_of(key_at(a, ra).as_str());
            let kb = chars_of(key_at(b, rb).as_str());
            chars_eq(&ka, &kb)
        },
    }
}

/// Whether two paths name the same place (see [`spec_paths_equal_at`]).
pub fn paths_equal(a: &PathFacts, b: &PathFacts) -> (r: bool)
    ensures
        r == spec_paths_equal(*a, *b),
{
    paths_equal_at(a, a.raw.as_str(), b, b.raw.as_str())
}

/// Every `\` replaced by `/`.
pub open spec fn forward(s: Seq<char>) -> Seq<char> {
    s.map_values(|c: char| if c == '\\' { '/' } else { c })
}

fn forward_chars(s: &Vec<char>) -> (r: Vec<char>)
    ensures
        r@ == forward(s@),
{
    let mut r: Vec<char> = Vec::new();
    let mut i: usize = 0;
    while i < s.len()
        invariant
            i <= s.len(),
            r@ == forward(s@.subrange(0, i as int)),
        decreases s.len() - i,
    {
        let c = s[i];
        r.push(if c == '\\' { '/' } else { c });
        assert(forward(s@.subrange(0, i + 1)) =~= forward(s@.subrange(0, i as int)).push(
            if c == '\\' { '/' } else { c },
        ));
        i += 1;
    }
    assert(s@.subrange(0, s.len() as int) =~= s@);
    r
}

/// The key of a directory with a trailing separator (`\` added when missing).
pub open spec fn dir_key(p: Seq<char>) -> Seq<char> {
    if p.len() > 0 && is_sep(p.last()) {
        p
    } else {
        p.push('\\')
    }
}

/// `path` is `prefix` or lies below it, comparing keys, with either separator.
pub open spec fn spec_is_path_prefix(prefix: PathFacts, path: PathFacts) -> bool {
    let p = spec_key(prefix);
    let c = spec_key(path);
    c == p || starts_with(c, dir_key(p)) || starts_with(forward(c), forward(dir_key(p)))
}

/// Whether `path` is `prefix` itself or lies inside it (see [`spec_is_path_prefix`]).
pub fn is_path_prefix(prefix: &PathFacts, path: &PathFacts) -> (r: bool)
    ensures
        r == spec_is_path_prefix(*prefix, *path),
{
    let p = chars_of(key(prefix).as_str());
    let c = chars_of(key(path).as_str());
    if chars_eq(&c, &p) {
        return true;
    }
    let mut sep = p.clone();
    assert(sep@ == p@);
    if !(p.len() > 0 && (p[p.len() - 1] == '\\' || p[p.len() - 1] == '/')) {
        sep.push('\\');
    }
    assert(sep@ == dir_key(p@));
    let sep_fwd = forward_chars(&sep);
    let c_fwd = forward_chars(&c);
    chars_starts_with(&c, &sep) || chars_starts_with(&c_fwd, &sep_fwd)
}

/// How `candidate` overlaps `existing`, if it does.
pub open spec fn spec_source_overlap(existing: PathFacts, candidate: PathFacts) -> Option<OverlapKind> {
    if spec_paths_equal(existing, candidate) {
        Some(OverlapKind::Same)
    } else if spec_is_path_prefix(existing, candidate) {
        Some(OverlapKind::CandidateInsideExisting)
    } else if spec_is_path_prefix(candidate, existing) {
        Some(OverlapKind::ExistingInsideCandidate)
    } else {
        None
    }
}

/// Whether a candidate source folder is the same as, inside, or contains an
/// existing one, checked in that order.
pub fn source_overlap(existing: &PathFacts, candidate: &PathFacts) -> (r: Option<OverlapKind>)
    ensures
        r == spec_source_overlap(*existing, *candidate),
{
    if paths_equal(existing, candidate) {
        return Some(OverlapKind::Same);
    }
    if is_path_prefix(existing, candidate) {
        return Some(OverlapKind::CandidateInsideExisting);
    }
    if is_path_prefix(candidate, existing) {
        return Some(OverlapKind::ExistingInsideCandidate);
    }
    None
}


// ---------------------------------------------------------------------------
// Folder channel

/// The components of a path: the root pieces, then the named pieces (empty
/// and `.` pieces are not components).
pub open spec fn components(s: Seq<char>) -> Seq<Seq<char>> {
    let g = split(s);
    let k = root_count(g);
    g.subrange(0, k as int) + g.subrange(k as int, g.len() as int).filter(|p: Seq<char>| named_piece(p))
}

/// A piece that is a component name (not empty, not `.`).
pub open spec fn named_piece(p: Seq<char>) -> bool {
    p.len() > 0 && p != seq!['.']
}

/// The first folder below the source root on the way to a file, given the
/// facts of the root and of the file's parent folder. Both are normalized and
/// unprefixed; when they name the same place, or the parent's components do
/// not extend the root's, or a path cannot be normalized, there is none. The
/// normalized texts are compared with the facts of the paths they came from.
pub open spec fn spec_first_segment(root: PathFacts, parent: PathFacts) -> Option<Seq<char>> {
    match (spec_normalize(root), spec_normalize(parent)) {
        (Ok(rn), Ok(pn)) => {
            let r = spec_strip_verbatim(rn);
            let p = spec_strip_verbatim(pn);
            if spec_paths_equal_at(root, r, parent, p) {
                None
            } else {
                let rc = components(r);
                let pc = components(p);
                if rc.len() < pc.len() && pc.subrange(0, rc.len() as int) == rc {
                    Some(pc[rc.len() as int])
                } else {
                    None
                }
            }
        },
        _ => None,
    }
}

fn components_exec(s: &Vec<char>) -> (c: Vec<Vec<char>>)
    ensures
        c@.map_values(|v: Vec<char>| v@) == components(s@),
{
    let g = split_pieces(s);
    let k = root_count_exec(&g);
    proof {
        lemma_split_nonempty(s@);
    }
    let ghost gv = g@.map_values(|v: Vec<char>| v@);
    let mut c: Vec<Vec<char>> = Vec::new();
    let mut i: usize = 0;
    while i < k
        invariant
            k <= g.len(),
            i <= k,
            gv == g@.map_values(|v: Vec<char>| v@),
            c@.map_values(|v: Vec<char>| v@) == gv.subrange(0, i as int),
        decreases k - i,
    {
        let ghost before = c@.map_values(|v: Vec<char>| v@);
        let piece = g[i].clone();
        assert(piece@ =~= gv[i as int]);
        c.push(piece);
        assert(c@.map_values(|v: Vec<char>| v@) =~= before.push(gv[i as int]));
        assert(c@.map_values(|v: Vec<char>| v@) =~= gv.subrange(0, i + 1));
        i += 1;
    }
    assert(gv.subrange(k as int, k as int).filter(|p: Seq<char>| named_piece(p)) =~= seq![]);
    while i < g.len()
        invariant
            k <= i <= g.len(),
            gv == g@.map_values(|v: Vec<char>| v@),
            c@.map_values(|v: Vec<char>| v@) == gv.subrange(0, k as int) + gv.subrange(k as int, i as int).filter(|p: Seq<char>| named_piece(p)),
        decreases g.len() - i,
    {
        let ghost before = c@.map_values(|v: Vec<char>| v@);
        assert(gv.subrange(k as int, i + 1).drop_last() =~= gv.subrange(k as int, i as int));
        assert(['.']@ =~= seq!['.']);
        assert(gv[i as int] == g@[i as int]@);
        if g[i].len() > 0 && !piece_eq(&g[i], &['.']) {
            let piece = g[i].clone();
            assert(piece@ =~= gv[i as int]);
            c.push(piece);
            assert(c@.map_values(|v: Vec<char>| v@) =~= before.push(gv[i as int]));
            assert(named_piece(gv[i as int]));
        } else {
            assert(!named_piece(gv[i as int]));
        }
        assert(gv.subrange(k as int, i + 1) =~= gv.subrange(k as int, i as int).push(gv[i as int]));
        proof { gv.subrange(k as int, i as int).lemma_filter_push(gv[i as int], |p: Seq<char>| named_piece(p)); }
        assert(gv.subrange(k as int, i + 1).filter(|p: Seq<char>| named_piece(p)) == if named_piece(gv[i as int]) {
            gv.subrange(k as int, i as int).filter(|p: Seq<char>| named_piece(p)).push(gv[i as int])
        } else {
            gv.subrange(k as int, i as int).filter(|p: Seq<char>| named_piece(p))
        });
        assert(c@.map_values(|v: Vec<char>| v@) =~= gv.subrange(0, k as int) + gv.subrange(k as int, i + 1).filter(|p: Seq<char>| named_piece(p)));
        i += 1;
    }
    c
}

fn pieces_prefix(a: &Vec<Vec<char>>, b: &Vec<Vec<char>>) -> (r: bool)
    requires
        a.len() <= b.len(),
    ensures
        r == (b@.map_values(|v: Vec<char>| v@).subrange(0, a.len() as int) == a@.map_values(
            |v: Vec<char>| v@,
        )),
{
    let ghost av = a@.map_values(|v: Vec<char>| v@);
    let ghost bv = b@.map_values(|v: Vec<char>| v@);
    let mut i: usize = 0;
    while i < a.len()
        invariant
            a.len() <= b.len(),
            i <= a.len(),
            av == a@.map_values(|v: Vec<char>| v@),
            bv == b@.map_values(|v: Vec<char>| v@),
            forall|j: int| 0 <= j < i ==> bv[j] == av[j],
        decreases a.len() - i,
    {
        if !chars_eq(&a[i], &b[i]) {
            assert(bv.subrange(0, a.len() as int)[i as int] != av[i as int]);
            return false;
        }
        i += 1;
    }
    assert(bv.subrange(0, a.len() as int) =~= av);
    true
}

/// The first folder below `root` on the way down to a file whose parent folder
/// is `parent` (see [`spec_first_segment`]); for `D:\Videos` and a file in
/// `D:\Videos\Veritasium\2024` it is `Veritasium`.
pub fn first_segment_under(root: &PathFacts, parent: &PathFacts) -> (r: Option<String>)
    ensures
        match spec_first_segment(*root, *parent) {
            Some(seg) => r matches Some(s) && s@ == seg,
            None => r is None,
        },
{
    let rn = match normalize_path(root) {
        Ok(p) => p,
        Err(_) => return None,
    };
    let pn = match normalize_path(parent) {
        Ok(p) => p,
        Err(_) => return None,
    };
    let r = strip_verbatim_prefix(rn.as_str());
    let p = strip_verbatim_prefix(pn.as_str());
    if paths_equal_at(root, r.as_str(), parent, p.as_str()) {
        return None;
    }
    let rc = components_exec(&chars_of(r.as_str()));
    let pc = components_exec(&chars_of(p.as_str()));
    if rc.len() < pc.len() && pieces_prefix(&rc, &pc) {
        let ghost pv = pc@.map_values(|v: Vec<char>| v@);
        assert(pv[rc.len() as int] == pc@[rc.len() as int]@);
        Some(string_of(&pc[rc.len()]))
    } else {
        None
    }
}

// ---------------------------------------------------------------------------
// Laws

/// Naming the same place is reflexive and symmetric.
pub proof fn same_place_is_symmetric(a: PathFacts, b: PathFacts)
    ensures
        spec_paths_equal(a, a),
        spec_paths_equal(a, b) == spec_paths_equal(b, a),
{
}

/// Whether two folders overlap does not depend on which of them is the
/// existing source, and neither does their being the same folder.
pub proof fn overlap_is_mutual(a: PathFacts, b: PathFacts)
    ensures
        (spec_source_overlap(a, b) is Some) == (spec_source_overlap(b, a) is Some),
        (spec_source_overlap(a, b) == Some(OverlapKind::Same)) == (spec_source_overlap(b, a) == Some(OverlapKind::Same)),
        spec_source_overlap(a, a) == Some(OverlapKind::Same),
{
    same_place_is_symmetric(a, b);
}

/// A prefix of a text is, with `\` turned into `/`, a prefix of the text so turned.
proof fn lemma_forward_prefix(c: Seq<char>, p: Seq<char>)
    requires
        starts_with(c, p),
    ensures
        starts_with(forward(c), forward(p)),
{
    assert(forward(c).subrange(0, p.len() as int) =~= forward(p)) by {
        assert forall|i: int| 0 <= i < p.len() implies forward(c).subrange(0, p.len() as int)[i] == forward(p)[i] by {
            assert(c.subrange(0, p.len() as int)[i] == c[i]);
        }
    }
}

/// Comparison keys that differ once separators are unified cannot each lie
/// inside the other.
proof fn lemma_not_mutually_inside(p: Seq<char>, c: Seq<char>)
    requires
        forward(p) != forward(c),
    ensures
        !((c == p || starts_with(c, dir_key(p)) || starts_with(forward(c), forward(dir_key(p))))
            && (p == c || starts_with(p, dir_key(c)) || starts_with(forward(p), forward(dir_key(c))))),
{
    if starts_with(c, dir_key(p)) {
        lemma_forward_prefix(c, dir_key(p));
    }
    if starts_with(p, dir_key(c)) {
        lemma_forward_prefix(p, dir_key(c));
    }
    if starts_with(forward(c), forward(dir_key(p))) && starts_with(forward(p), forward(dir_key(c))) {
        assert(dir_key(p).len() >= p.len());
        assert(dir_key(c).len() >= c.len());
        assert(p.len() == c.len());
        assert(dir_key(p) =~= p);
        assert(forward(c) =~= forward(c).subrange(0, forward(dir_key(p)).len() as int));
    }
}

/// When one folder is inside another, the other contains it, provided their
/// keys differ once `\` and `/` are taken as the same separator (with keys
/// that differ only in that, each counts as inside the other).
pub proof fn inside_one_way_contains_the_other(e: PathFacts, c: PathFacts)
    requires
        forward(spec_key(e)) != forward(spec_key(c)),
    ensures
        spec_source_overlap(e, c) == Some(OverlapKind::CandidateInsideExisting) ==> spec_source_overlap(c, e) == Some(
            OverlapKind::ExistingInsideCandidate,
        ),
        spec_source_overlap(e, c) == Some(OverlapKind::ExistingInsideCandidate) ==> spec_source_overlap(c, e) == Some(
            OverlapKind::CandidateInsideExisting,
        ),
{
    same_place_is_symmetric(e, c);
    lemma_not_mutually_inside(spec_key(e), spec_key(c));
}
} // verus!
