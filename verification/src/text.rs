//! Character-level helpers shared by the path, slug, date and catalog code.
//!
//! Strings are handled as `Vec<char>` inside the library, so that their
//! contents can be reasoned about as `Seq<char>`.
use vstd::prelude::*;

verus! {

/// What `str::to_lowercase` returns for a string (Unicode case mapping,
/// including its context rules): named, since the mapping tables take pages.
pub uninterp spec fn unicode_lowercase(s: Seq<char>) -> Seq<char>;

/// Whether `char::is_alphanumeric` holds of a character (Unicode tables).
pub uninterp spec fn unicode_alphanumeric(c: char) -> bool;

/// Whether `char::is_whitespace` holds of a character (Unicode `White_Space`).
pub uninterp spec fn unicode_whitespace(c: char) -> bool;

/// The characters of `s`, in order: `str::chars` collected into a vector.
#[verifier::external_body]
pub(crate) fn chars_of(s: &str) -> (v: Vec<char>)
    ensures
        v@ == s@,
{
    s.chars().collect()
}

/// A string made of the given characters: the vector's items collected into a `String`.
#[verifier::external_body]
pub(crate) fn string_of(v: &Vec<char>) -> (s: String)
    ensures
        s@ == v@,
{
    v.iter().collect()
}

/// `str::to_lowercase`; the contract only ties the result to the named mapping.
#[verifier::external_body]
pub(crate) fn to_lowercase(s: &str) -> (r: String)
    ensures
        r@ == unicode_lowercase(s@),
{
    s.to_lowercase()
}

/// `char::is_alphanumeric`; the result is the named Unicode property.
#[verifier::external_body]
pub(crate) fn is_alphanumeric(c: char) -> (r: bool)
    ensures
        r == unicode_alphanumeric(c),
{
    c.is_alphanumeric()
}

/// `char::is_whitespace`; the result is the named Unicode property.
#[verifier::external_body]
pub(crate) fn is_whitespace(c: char) -> (r: bool)
    ensures
        r == unicode_whitespace(c),
{
    c.is_whitespace()
}

// ---------------------------------------------------------------------------
// ASCII

pub open spec fn is_ascii_upper(c: char) -> bool {
    'A' <= c && c <= 'Z'
}

pub open spec fn is_ascii_digit(c: char) -> bool {
    '0' <= c && c <= '9'
}

/// ASCII lowercase folding of one character (other characters unchanged).
pub open spec fn ascii_lower(c: char) -> char {
    if is_ascii_upper(c) {
        ((c as u32) + 32) as char
    } else {
        c
    }
}

pub fn ascii_lower_char(c: char) -> (r: char)
    ensures
        r == ascii_lower(c),
{
    if c >= 'A' && c <= 'Z' {
        let u: u32 = c as u32;
        assert(65 <= u <= 90);
        let l: u8 = (u + 32) as u8;
        let r = l as char;
        assert(r == ascii_lower(c)) by {
            assert(r as u32 == u + 32);
        }
        r
    } else {
        c
    }
}

/// Two character sequences are equal up to ASCII case.
pub open spec fn eq_ignore_ascii_case(a: Seq<char>, b: Seq<char>) -> bool {
    a.len() == b.len() && forall|i: int| 0 <= i < a.len() ==> ascii_lower(#[trigger] a[i]) == ascii_lower(b[i])
}

pub fn chars_eq_ignore_ascii_case(a: &Vec<char>, b: &Vec<char>) -> (r: bool)
    ensures
        r == eq_ignore_ascii_case(a@, b@),
{
    if a.len() != b.len() {
        return false;
    }
    let mut i: usize = 0;
    while i < a.len()
        invariant
            a.len() == b.len(),
            i <= a.len(),
            forall|j: int| 0 <= j < i ==> ascii_lower(#[trigger] a@[j]) == ascii_lower(b@[j]),
        decreases a.len() - i,
    {
        let x = ascii_lower_char(a[i]);
        let y = ascii_lower_char(b[i]);
        if x != y {
            return false;
        }
        i += 1;
    }
    true
}

pub fn chars_eq(a: &Vec<char>, b: &Vec<char>) -> (r: bool)
    ensures
        r == (a@ == b@),
{
    if a.len() != b.len() {
        return false;
    }
    let mut i: usize = 0;
    while i < a.len()
        invariant
            a.len() == b.len(),
            i <= a.len(),
            forall|j: int| 0 <= j < i ==> a@[j] == b@[j],
        decreases a.len() - i,
    {
        if a[i] != b[i] {
            return false;
        }
        i += 1;
    }
    assert(a@ =~= b@);
    true
}

/// Equality of two strings by their characters.
pub fn str_eq(a: &str, b: &str) -> (r: bool)
    ensures
        r == (a@ == b@),
{
    let x = chars_of(a);
    let y = chars_of(b);
    chars_eq(&x, &y)
}

pub open spec fn starts_with(s: Seq<char>, p: Seq<char>) -> bool {
    p.len() <= s.len() && s.subrange(0, p.len() as int) == p
}

pub fn chars_starts_with(s: &Vec<char>, p: &Vec<char>) -> (r: bool)
    ensures
        r == starts_with(s@, p@),
{
    if p.len() > s.len() {
        return false;
    }
    let mut i: usize = 0;
    while i < p.len()
        invariant
            p.len() <= s.len(),
            i <= p.len(),
            forall|j: int| 0 <= j < i ==> s@[j] == p@[j],
        decreases p.len() - i,
    {
        if s[i] != p[i] {
            assert(s@.subrange(0, p.len() as int)[i as int] != p@[i as int]);
            return false;
        }
        i += 1;
    }
    assert(s@.subrange(0, p.len() as int) =~= p@);
    true
}

/// Copies `s[from..to]` into a new vector.
pub fn slice_chars(s: &Vec<char>, from: usize, to: usize) -> (r: Vec<char>)
    requires
        from <= to <= s.len(),
    ensures
        r@ == s@.subrange(from as int, to as int),
{
    let mut r: Vec<char> = Vec::new();
    let mut i = from;
    while i < to
        invariant
            from <= i <= to <= s.len(),
            r@ == s@.subrange(from as int, i as int),
        decreases to - i,
    {
        r.push(s[i]);
        assert(r@ =~= s@.subrange(from as int, i + 1));
        i += 1;
    }
    r
}

/// Appends all of `b` to `a`.
pub fn append_chars(a: &mut Vec<char>, b: &Vec<char>)
    ensures
        final(a)@ == old(a)@ + b@,
{
    let mut i: usize = 0;
    while i < b.len()
        invariant
            i <= b.len(),
            a@ == old(a)@ + b@.subrange(0, i as int),
        decreases b.len() - i,
    {
        a.push(b[i]);
        assert(b@.subrange(0, i + 1) =~= b@.subrange(0, i as int).push(b@[i as int]));
        i += 1;
    }
    assert(b@.subrange(0, b.len() as int) =~= b@);
}

/// Appends the characters of a string.
pub fn append_str(a: &mut Vec<char>, s: &str)
    ensures
        final(a)@ == old(a)@ + s@,
{
    let c = chars_of(s);
    append_chars(a, &c);
}

// ---------------------------------------------------------------------------
// Whitespace trimming (`str::trim`: leading and trailing `White_Space`)

/// Number of leading whitespace characters.
pub open spec fn lead_ws(s: Seq<char>) -> nat
    decreases s.len(),
{
    if s.len() > 0 && unicode_whitespace(s[0]) {
        1 + lead_ws(s.drop_first())
    } else {
        0
    }
}

/// Number of trailing whitespace characters.
pub open spec fn trail_ws(s: Seq<char>) -> nat
    decreases s.len(),
{
    if s.len() > 0 && unicode_whitespace(s.last()) {
        1 + trail_ws(s.drop_last())
    } else {
        0
    }
}

/// `s` without leading and trailing whitespace.
pub open spec fn trim(s: Seq<char>) -> Seq<char> {
    let a = s.subrange(lead_ws(s) as int, s.len() as int);
    a.subrange(0, a.len() - trail_ws(a))
}

pub proof fn lemma_lead_ws_bound(s: Seq<char>)
    ensures
        lead_ws(s) <= s.len(),
        forall|j: int| 0 <= j < lead_ws(s) ==> unicode_whitespace(#[trigger] s[j]),
        lead_ws(s) < s.len() ==> !unicode_whitespace(s[lead_ws(s) as int]),
    decreases s.len(),
{
    if s.len() > 0 && unicode_whitespace(s[0]) {
        lemma_lead_ws_bound(s.drop_first());
        assert forall|j: int| 0 <= j < lead_ws(s) implies unicode_whitespace(#[trigger] s[j]) by {
            if j > 0 {
                assert(s[j] == s.drop_first()[j - 1]);
            }
        }
        if lead_ws(s) < s.len() {
            assert(s[lead_ws(s) as int] == s.drop_first()[lead_ws(s.drop_first()) as int]);
        }
    }
}

pub proof fn lemma_trail_ws_bound(s: Seq<char>)
    ensures
        trail_ws(s) <= s.len(),
        forall|j: int| s.len() - trail_ws(s) <= j < s.len() ==> unicode_whitespace(#[trigger] s[j]),
        trail_ws(s) < s.len() ==> !unicode_whitespace(s[s.len() - trail_ws(s) - 1]),
    decreases s.len(),
{
    if s.len() > 0 && unicode_whitespace(s.last()) {
        lemma_trail_ws_bound(s.drop_last());
        assert forall|j: int| s.len() - trail_ws(s) <= j < s.len() implies unicode_whitespace(
            #[trigger] s[j],
        ) by {
            if j < s.len() - 1 {
                assert(s[j] == s.drop_last()[j]);
            }
        }
        if trail_ws(s) < s.len() {
            assert(s[s.len() - trail_ws(s) - 1] == s.drop_last()[s.drop_last().len() - trail_ws(
                s.drop_last(),
            ) - 1]);
        }
    }
}

/// The number of leading characters satisfying `unicode_whitespace` is
/// determined by the first non-whitespace position.
pub proof fn lemma_lead_ws_from(s: Seq<char>, k: int)
    requires
        0 <= k <= s.len(),
        forall|j: int| 0 <= j < k ==> unicode_whitespace(#[trigger] s[j]),
        k < s.len() ==> !unicode_whitespace(s[k]),
    ensures
        lead_ws(s) == k,
    decreases k,
{
    if k > 0 {
        assert forall|j: int| 0 <= j < k - 1 implies unicode_whitespace(#[trigger] s.drop_first()[j]) by {
            assert(s.drop_first()[j] == s[j + 1]);
        }
        if k - 1 < s.drop_first().len() {
            assert(s.drop_first()[k - 1] == s[k]);
        }
        lemma_lead_ws_from(s.drop_first(), k - 1);
    }
}

pub proof fn lemma_trail_ws_from(s: Seq<char>, k: int)
    requires
        0 <= k <= s.len(),
        forall|j: int| s.len() - k <= j < s.len() ==> unicode_whitespace(#[trigger] s[j]),
        k < s.len() ==> !unicode_whitespace(s[s.len() - k - 1]),
    ensures
        trail_ws(s) == k,
    decreases k,
{
    if k > 0 {
        let t = s.drop_last();
        assert forall|j: int| t.len() - (k - 1) <= j < t.len() implies unicode_whitespace(
            #[trigger] t[j],
        ) by {
            assert(t[j] == s[j]);
        }
        if k - 1 < t.len() {
            assert(t[t.len() - (k - 1) - 1] == s[s.len() - k - 1]);
        }
        lemma_trail_ws_from(t, k - 1);
    }
}

/// `str::trim` on a character vector.
pub fn trim_chars(s: &Vec<char>) -> (r: Vec<char>)
    ensures
        r@ == trim(s@),
{
    let mut a: usize = 0;
    while a < s.len() && is_whitespace(s[a])
        invariant
            a <= s.len(),
            forall|j: int| 0 <= j < a ==> unicode_whitespace(#[trigger] s@[j]),
        decreases s.len() - a,
    {
        a += 1;
    }
    proof {
        lemma_lead_ws_from(s@, a as int);
    }
    let mut b: usize = s.len();
    while b > a && is_whitespace(s[b - 1])
        invariant
            a <= b <= s.len(),
            forall|j: int| b <= j < s.len() ==> unicode_whitespace(#[trigger] s@[j]),
        decreases b - a,
    {
        b -= 1;
    }
    let r = slice_chars(s, a, b);
    proof {
        let t = s@.subrange(a as int, s.len() as int);
        let k = s.len() - b;
        assert forall|j: int| t.len() - k <= j < t.len() implies unicode_whitespace(#[trigger] t[j]) by {
            assert(t[j] == s@[j + a]);
        }
        if k < t.len() {
            assert(t[t.len() - k - 1] == s@[b - 1]);
        }
        lemma_trail_ws_from(t, k);
        assert(r@ =~= trim(s@));
    }
    r
}

// ---------------------------------------------------------------------------
// Decimal numerals

pub open spec fn digit_char(d: nat) -> char {
    ((48 + d) as u32) as char
}

/// Decimal digits of a natural number, most significant first, no leading zeros.
pub open spec fn nat_digits(n: nat) -> Seq<char>
    decreases n,
{
    if n < 10 {
        seq![digit_char(n)]
    } else {
        nat_digits(n / 10).push(digit_char(n % 10))
    }
}

/// Decimal rendering of an integer, with a leading `-` when negative.
pub open spec fn int_digits(i: int) -> Seq<char> {
    if i < 0 {
        seq!['-'] + nat_digits((-i) as nat)
    } else {
        nat_digits(i as nat)
    }
}

pub fn digit(d: u64) -> (c: char)
    requires
        d < 10,
    ensures
        c == digit_char(d as nat),
{
    let b: u8 = 48u8 + (d as u8);
    let c = b as char;
    assert(c as u32 == 48 + d);
    c
}

pub proof fn lemma_nat_digits_len(n: nat)
    ensures
        nat_digits(n).len() >= 1,
    decreases n,
{
    if n >= 10 {
        lemma_nat_digits_len(n / 10);
    }
}

/// Appends the decimal digits of `n`.
pub fn push_nat(out: &mut Vec<char>, n: u64)
    ensures
        final(out)@ == old(out)@ + nat_digits(n as nat),
    decreases n,
{
    if n < 10 {
        out.push(digit(n));
        assert(out@ =~= old(out)@ + nat_digits(n as nat));
    } else {
        push_nat(out, n / 10);
        out.push(digit(n % 10));
        assert(out@ =~= old(out)@ + nat_digits(n as nat));
    }
}

/// Appends the decimal rendering of a signed integer.
pub fn push_int(out: &mut Vec<char>, n: i64)
    ensures
        final(out)@ == old(out)@ + int_digits(n as int),
{
    if n < 0 {
        out.push('-');
        let m: u64 = if n == i64::MIN {
            9223372036854775808u64
        } else {
            (-n) as u64
        };
        push_nat(out, m);
        assert(out@ =~= old(out)@ + int_digits(n as int));
    } else {
        push_nat(out, n as u64);
    }
}

/// `n` zero characters.
pub open spec fn zeros(n: nat) -> Seq<char> {
    Seq::new(n, |i: int| '0')
}

/// The digits of `n`, left-padded with zeros to at least `w` characters.
pub open spec fn padded(n: nat, w: nat) -> Seq<char> {
    let d = nat_digits(n);
    if d.len() < w {
        zeros((w - d.len()) as nat) + d
    } else {
        d
    }
}

/// Appends the digits of `n` left-padded with zeros to width `w`.
pub fn push_padded(out: &mut Vec<char>, n: u64, w: usize)
    ensures
        final(out)@ == old(out)@ + padded(n as nat, w as nat),
{
    let mut d: Vec<char> = Vec::new();
    push_nat(&mut d, n);
    assert(d@ =~= nat_digits(n as nat));
    if d.len() < w {
        let k = w - d.len();
        let mut i: usize = 0;
        while i < k
            invariant
                i <= k,
                k == w - d.len(),
                out@ == old(out)@ + zeros(i as nat),
            decreases k - i,
        {
            out.push('0');
            assert(zeros((i + 1) as nat) =~= zeros(i as nat).push('0'));
            i += 1;
        }
        append_chars(out, &d);
        assert(out@ =~= old(out)@ + padded(n as nat, w as nat));
    } else {
        append_chars(out, &d);
    }
}


// ---------------------------------------------------------------------------
// Ordering of texts

/// `a` sorts before `b` character by character (code point order, which is
/// also the order of their UTF-8 bytes).
pub open spec fn seq_lt(a: Seq<char>, b: Seq<char>) -> bool
    decreases a.len(),
{
    if a.len() == 0 {
        b.len() > 0
    } else if b.len() == 0 {
        false
    } else if a[0] != b[0] {
        a[0] < b[0]
    } else {
        seq_lt(a.drop_first(), b.drop_first())
    }
}

/// No text sorts before itself.
pub proof fn lemma_seq_lt_irreflexive(a: Seq<char>)
    ensures
        !seq_lt(a, a),
    decreases a.len(),
{
    if a.len() > 0 {
        lemma_seq_lt_irreflexive(a.drop_first());
    }
}

/// Sorting before is transitive.
pub proof fn lemma_seq_lt_transitive(a: Seq<char>, b: Seq<char>, c: Seq<char>)
    requires
        seq_lt(a, b),
        seq_lt(b, c),
    ensures
        seq_lt(a, c),
    decreases a.len(),
{
    if a.len() > 0 && b.len() > 0 && c.len() > 0 && a[0] == b[0] && b[0] == c[0] {
        lemma_seq_lt_transitive(a.drop_first(), b.drop_first(), c.drop_first());
    }
}

/// Of two texts, at most one sorts before the other.
pub proof fn lemma_seq_lt_asymmetric(a: Seq<char>, b: Seq<char>)
    ensures
        !(seq_lt(a, b) && seq_lt(b, a)),
{
    if seq_lt(a, b) && seq_lt(b, a) {
        lemma_seq_lt_transitive(a, b, a);
        lemma_seq_lt_irreflexive(a);
    }
}

/// ASCII letters folded to lowercase, other characters unchanged.
pub open spec fn fold_ascii(s: Seq<char>) -> Seq<char> {
    s.map_values(|c: char| ascii_lower(c))
}

pub fn chars_lt(a: &Vec<char>, b: &Vec<char>) -> (r: bool)
    ensures
        r == seq_lt(a@, b@),
{
    let mut i: usize = 0;
    assert(a@.subrange(0, a.len() as int) =~= a@);
    assert(b@.subrange(0, b.len() as int) =~= b@);
    while i < a.len() && i < b.len()
        invariant
            i <= a.len(),
            i <= b.len(),
            forall|j: int| 0 <= j < i ==> a@[j] == b@[j],
            seq_lt(a@, b@) == seq_lt(a@.subrange(i as int, a.len() as int), b@.subrange(i as int, b.len() as int)),
        decreases a.len() - i,
    {
        if a[i] != b[i] {
            return a[i] < b[i];
        }
        assert(a@.subrange(i as int, a.len() as int).drop_first() =~= a@.subrange(i + 1, a.len() as int));
        assert(b@.subrange(i as int, b.len() as int).drop_first() =~= b@.subrange(i + 1, b.len() as int));
        i += 1;
    }
    i == a.len() && i < b.len()
}

proof fn lemma_seq_lt_start(a: Seq<char>, b: Seq<char>)
    ensures
        seq_lt(a, b) == seq_lt(a.subrange(0, a.len() as int), b.subrange(0, b.len() as int)),
{
    assert(a.subrange(0, a.len() as int) =~= a);
    assert(b.subrange(0, b.len() as int) =~= b);
}

/// Whether `a` sorts before `b`.
pub fn str_lt(a: &str, b: &str) -> (r: bool)
    ensures
        r == seq_lt(a@, b@),
{
    let x = chars_of(a);
    let y = chars_of(b);
    proof {
        lemma_seq_lt_start(x@, y@);
    }
    chars_lt(&x, &y)
}

/// Folds ASCII letters of a character vector to lowercase.
pub fn fold_ascii_chars(s: &Vec<char>) -> (r: Vec<char>)
    ensures
        r@ == fold_ascii(s@),
{
    let mut r: Vec<char> = Vec::new();
    let mut i: usize = 0;
    while i < s.len()
        invariant
            i <= s.len(),
            r@ == fold_ascii(s@.subrange(0, i as int)),
        decreases s.len() - i,
    {
        r.push(ascii_lower_char(s[i]));
        assert(fold_ascii(s@.subrange(0, i + 1)) =~= fold_ascii(s@.subrange(0, i as int)).push(ascii_lower(s@[i as int])));
        i += 1;
    }
    assert(s@.subrange(0, s.len() as int) =~= s@);
    r
}

/// Whether `a` sorts before `b` once ASCII letters are folded to lowercase
/// (SQLite's `NOCASE` collation).
pub fn str_lt_nocase(a: &str, b: &str) -> (r: bool)
    ensures
        r == seq_lt(fold_ascii(a@), fold_ascii(b@)),
{
    let x = fold_ascii_chars(&chars_of(a));
    let y = fold_ascii_chars(&chars_of(b));
    proof {
        lemma_seq_lt_start(x@, y@);
    }
    chars_lt(&x, &y)
}

/// Whether `a` equals `b` once ASCII letters are folded to lowercase.
pub fn str_eq_nocase(a: &str, b: &str) -> (r: bool)
    ensures
        r == (fold_ascii(a@) == fold_ascii(b@)),
{
    let x = fold_ascii_chars(&chars_of(a));
    let y = fold_ascii_chars(&chars_of(b));
    chars_eq(&x, &y)
}
} // verus!
