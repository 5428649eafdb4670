//! Channel slugs: the stable, URL-friendly key under which a channel name is stored.
use crate::text::{
    append_str, chars_of, digit, digit_char, is_alphanumeric, slice_chars, string_of, to_lowercase,
    trim, trim_chars, unicode_alphanumeric, unicode_lowercase, unicode_whitespace, lead_ws, trail_ws,
};
use sha2::Digest;
use vstd::prelude::*;

verus! {

/// The SHA-256 digest of a byte string, as `sha2::Sha256::digest` computes it.
pub uninterp spec fn sha256(data: Seq<u8>) -> Seq<u8>;

/// `sha2::Sha256::digest` of `data`, as a byte vector. A SHA-256 digest is
/// always 32 bytes long; the bytes themselves are only named.
#[verifier::external_body]
pub(crate) fn sha256_digest(data: &[u8]) -> (r: Vec<u8>)
    ensures
        r@ == sha256(data@),
        r@.len() == 32,
{
    sha2::Sha256::digest(data).to_vec()
}

/// State of the slug scan after a prefix of the lowercased name: the output so
/// far, and whether the last thing written was a separator.
pub open spec fn slug_scan(s: Seq<char>) -> (Seq<char>, bool)
    decreases s.len(),
{
    if s.len() == 0 {
        (seq![], false)
    } else {
        let (out, prev_dash) = slug_scan(s.drop_last());
        let c = s.last();
        if unicode_alphanumeric(c) {
            (out.push(c), false)
        } else if !prev_dash {
            (out.push('-'), true)
        } else {
            (out, true)
        }
    }
}

/// Number of leading `-`.
pub open spec fn lead_dashes(s: Seq<char>) -> nat
    decreases s.len(),
{
    if s.len() > 0 && s[0] == '-' {
        1 + lead_dashes(s.drop_first())
    } else {
        0
    }
}

/// Number of trailing `-`.
pub open spec fn trail_dashes(s: Seq<char>) -> nat
    decreases s.len(),
{
    if s.len() > 0 && s.last() == '-' {
        1 + trail_dashes(s.drop_last())
    } else {
        0
    }
}

/// `s` without leading and trailing `-`.
pub open spec fn trim_dashes(s: Seq<char>) -> Seq<char> {
    let a = s.subrange(lead_dashes(s) as int, s.len() as int);
    a.subrange(0, a.len() - trail_dashes(a))
}

/// Lowercase hexadecimal digit.
pub open spec fn hex_char(d: nat) -> char {
    if d < 10 {
        digit_char(d)
    } else {
        ((87 + d) as u32) as char
    }
}

/// Lowercase hexadecimal rendering without leading zeros (`{:x}`).
pub open spec fn hex_digits(n: nat) -> Seq<char>
    decreases n,
{
    if n < 16 {
        seq![hex_char(n)]
    } else {
        hex_digits(n / 16).push(hex_char(n % 16))
    }
}

/// The fallback slug: `channel-` followed by the first four digest bytes in `{:x}` form.
pub open spec fn hash_slug(name: Seq<char>) -> Seq<char> {
    let h = sha256(vstd::utf8::encode_utf8(name));
    seq!['c', 'h', 'a', 'n', 'n', 'e', 'l', '-'] + hex_digits(h[0] as nat) + hex_digits(h[1] as nat)
        + hex_digits(h[2] as nat) + hex_digits(h[3] as nat)
}

/// The slug of a channel name: the trimmed, lowercased name with each run of
/// characters other than letters and digits replaced by one `-`, and `-`
/// trimmed from both ends; when nothing is left, the hash form.
pub open spec fn spec_channel_slug(name: Seq<char>) -> Seq<char> {
    let t = trim_dashes(slug_scan(unicode_lowercase(trim(name))).0);
    if t.len() == 0 {
        hash_slug(name)
    } else {
        t
    }
}

pub fn hex_char_exec(d: u8) -> (c: char)
    requires
        d < 16,
    ensures
        c == hex_char(d as nat),
{
    if d < 10 {
        digit(d as u64)
    } else {
        let b: u8 = 87u8 + d;
        let c = b as char;
        assert(c as u32 == 87 + d);
        c
    }
}

fn push_hex(out: &mut Vec<char>, n: u8)
    ensures
        final(out)@ == old(out)@ + hex_digits(n as nat),
    decreases n,
{
    if n < 16 {
        out.push(hex_char_exec(n));
        assert(out@ =~= old(out)@ + hex_digits(n as nat));
    } else {
        push_hex(out, n / 16);
        out.push(hex_char_exec(n % 16));
        assert(out@ =~= old(out)@ + hex_digits(n as nat));
    }
}

proof fn lemma_lead_dashes(s: Seq<char>, k: int)
    requires
        0 <= k <= s.len(),
        forall|j: int| 0 <= j < k ==> #[trigger] s[j] == '-',
        k < s.len() ==> s[k] != '-',
    ensures
        lead_dashes(s) == k,
    decreases k,
{
    if k > 0 {
        assert forall|j: int| 0 <= j < k - 1 implies #[trigger] s.drop_first()[j] == '-' by {
            assert(s.drop_first()[j] == s[j + 1]);
        }
        if k - 1 < s.drop_first().len() {
            assert(s.drop_first()[k - 1] == s[k]);
        }
        lemma_lead_dashes(s.drop_first(), k - 1);
    }
}

proof fn lemma_trail_dashes(s: Seq<char>, k: int)
    requires
        0 <= k <= s.len(),
        forall|j: int| s.len() - k <= j < s.len() ==> #[trigger] s[j] == '-',
        k < s.len() ==> s[s.len() - k - 1] != '-',
    ensures
        trail_dashes(s) == k,
    decreases k,
{
    if k > 0 {
        let t = s.drop_last();
        assert forall|j: int| t.len() - (k - 1) <= j < t.len() implies #[trigger] t[j] == '-' by {
            assert(t[j] == s[j]);
        }
        if k - 1 < t.len() {
            assert(t[t.len() - (k - 1) - 1] == s[s.len() - k - 1]);
        }
        lemma_trail_dashes(t, k - 1);
    }
}

/// Strips `-` from both ends.
fn trim_dash_chars(s: &Vec<char>) -> (r: Vec<char>)
    ensures
        r@ == trim_dashes(s@),
        r@.len() > 0 ==> r@[0] != '-' && r@.last() != '-',
{
    let mut a: usize = 0;
    while a < s.len() && s[a] == '-'
        invariant
            a <= s.len(),
            forall|j: int| 0 <= j < a ==> #[trigger] s@[j] == '-',
        decreases s.len() - a,
    {
        a += 1;
    }
    proof {
        lemma_lead_dashes(s@, a as int);
    }
    let mut b: usize = s.len();
    while b > a && s[b - 1] == '-'
        invariant
            a <= b <= s.len(),
            forall|j: int| b <= j < s.len() ==> #[trigger] s@[j] == '-',
        decreases b - a,
    {
        b -= 1;
    }
    let r = slice_chars(s, a, b);
    proof {
        let t = s@.subrange(a as int, s.len() as int);
        let k = s.len() - b;
        assert forall|j: int| t.len() - k <= j < t.len() implies #[trigger] t[j] == '-' by {
            assert(t[j] == s@[j + a]);
        }
        if k < t.len() {
            assert(t[t.len() - k - 1] == s@[b - 1]);
        }
        lemma_trail_dashes(t, k);
        assert(r@ =~= trim_dashes(s@));
        if r@.len() > 0 {
            assert(r@[0] == s@[a as int]);
            assert(r@.last() == s@[b - 1]);
        }
    }
    r
}

/// The channel slug of a display name: Unicode-lowercased and trimmed, each run
/// of non-alphanumeric characters turned into a single `-`, `-` stripped at both
/// ends. A name with no letter or digit gets `channel-` and a short hex form of
/// the first four bytes of its SHA-256 digest.
pub fn channel_slug(name: &str) -> (r: String)
    ensures
        r@ == spec_channel_slug(name@),
        r@.len() > 0,
        r@[0] != '-',
        r@.last() != '-',
{
    let raw = chars_of(name);
    let trimmed = trim_chars(&raw);
    let ts = string_of(&trimmed);
    let lower_s = to_lowercase(ts.as_str());
    let lower = chars_of(lower_s.as_str());
    let mut out: Vec<char> = Vec::new();
    let mut prev_dash = false;
    let mut i: usize = 0;
    while i < lower.len()
        invariant
            i <= lower.len(),
            (out@, prev_dash) == slug_scan(lower@.subrange(0, i as int)),
        decreases lower.len() - i,
    {
        let ch = lower[i];
        assert(lower@.subrange(0, i + 1).drop_last() =~= lower@.subrange(0, i as int));
        if is_alphanumeric(ch) {
            out.push(ch);
            prev_dash = false;
        } else if !prev_dash {
            out.push('-');
            prev_dash = true;
        }
        i += 1;
    }
    assert(lower@.subrange(0, lower.len() as int) =~= lower@);
    let t = trim_dash_chars(&out);
    if t.len() == 0 {
        let bytes = name.as_bytes();
        let h = sha256_digest(bytes);
        let mut s: Vec<char> = Vec::new();
        append_str(&mut s, "channel-");
        proof {
            reveal_strlit("channel-");
        }
        push_hex(&mut s, h[0]);
        push_hex(&mut s, h[1]);
        push_hex(&mut s, h[2]);
        push_hex(&mut s, h[3]);
        proof {
            assert(s@ =~= hash_slug(name@));
            assert(s@[0] == 'c');
            let hd = hex_digits(h@[3] as nat);
            lemma_hex_len(h@[3] as nat);
            assert(s@.last() == hd.last());
            lemma_hex_last_not_dash(h@[3] as nat);
        }
        string_of(&s)
    } else {
        string_of(&t)
    }
}

/// Every `-` that follows another `-` counts as a letter or digit: a run of
/// separators is written as one `-`, unless `-` is itself alphanumeric.
spec fn single_dashes(s: Seq<char>) -> bool {
    forall|i: int|
        0 < i < s.len() && #[trigger] s[i] == '-' && !unicode_alphanumeric('-') ==> s[i - 1] != '-'
}

spec fn letters_and_dashes(s: Seq<char>) -> bool {
    forall|i: int| 0 <= i < s.len() ==> unicode_alphanumeric(#[trigger] s[i]) || s[i] == '-'
}

proof fn lemma_scan_shape(x: Seq<char>)
    ensures
        letters_and_dashes(slug_scan(x).0),
        single_dashes(slug_scan(x).0),
        slug_scan(x).1 ==> slug_scan(x).0.len() > 0 && slug_scan(x).0.last() == '-',
        !unicode_alphanumeric('-') && slug_scan(x).0.len() > 0 && slug_scan(x).0.last() == '-'
            ==> slug_scan(x).1,
    decreases x.len(),
{
    if x.len() > 0 {
        lemma_scan_shape(x.drop_last());
        let o = slug_scan(x.drop_last()).0;
        let o2 = slug_scan(x).0;
        assert forall|i: int| 0 <= i < o.len() implies o2[i] == o[i] by {}
        assert forall|i: int| 0 < i < o2.len() && #[trigger] o2[i] == '-' && !unicode_alphanumeric('-')
            implies o2[i - 1] != '-' by {
            if i < o.len() {
                assert(o[i] == '-');
            }
        }
        assert forall|i: int| 0 <= i < o2.len() implies unicode_alphanumeric(#[trigger] o2[i]) || o2[i] == '-' by {
            if i < o.len() {
                assert(unicode_alphanumeric(o[i]) || o[i] == '-');
            }
        }
    }
}

proof fn lemma_scan_fixed(s: Seq<char>)
    requires
        letters_and_dashes(s),
        single_dashes(s),
        s.len() > 0 ==> s[0] != '-',
    ensures
        slug_scan(s) == (s, s.len() > 0 && s.last() == '-' && !unicode_alphanumeric('-')),
    decreases s.len(),
{
    if s.len() > 0 {
        let p = s.drop_last();
        assert forall|i: int| 0 <= i < p.len() implies unicode_alphanumeric(#[trigger] p[i]) || p[i] == '-' by {
            assert(p[i] == s[i]);
        }
        assert forall|i: int| 0 < i < p.len() && #[trigger] p[i] == '-' && !unicode_alphanumeric('-')
            implies p[i - 1] != '-' by {
            assert(p[i] == s[i]);
        }
        lemma_scan_fixed(p);
        let c = s.last();
        assert(unicode_alphanumeric(s[s.len() - 1]) || s[s.len() - 1] == '-');
        if !unicode_alphanumeric(c) {
            assert(s.len() > 1);
            assert(s[s.len() - 1] == '-');
            assert(p.last() == s[s.len() - 2]);
        }
        assert(p.push(c) =~= s);
    }
}

proof fn lemma_lead_dashes_bound(s: Seq<char>)
    ensures
        lead_dashes(s) <= s.len(),
        lead_dashes(s) < s.len() ==> s[lead_dashes(s) as int] != '-',
    decreases s.len(),
{
    if s.len() > 0 && s[0] == '-' {
        lemma_lead_dashes_bound(s.drop_first());
        if lead_dashes(s) < s.len() {
            assert(s[lead_dashes(s) as int] == s.drop_first()[lead_dashes(s.drop_first()) as int]);
        }
    }
}

proof fn lemma_trail_dashes_bound(s: Seq<char>)
    ensures
        trail_dashes(s) <= s.len(),
        trail_dashes(s) < s.len() ==> s[s.len() - trail_dashes(s) - 1] != '-',
    decreases s.len(),
{
    if s.len() > 0 && s.last() == '-' {
        let t = s.drop_last();
        lemma_trail_dashes_bound(t);
        if trail_dashes(s) < s.len() {
            assert(s[s.len() - trail_dashes(s) - 1] == t[t.len() - trail_dashes(t) - 1]);
        }
    }
}

proof fn lemma_trim_dashes_shape(o: Seq<char>)
    requires
        letters_and_dashes(o),
        single_dashes(o),
    ensures
        letters_and_dashes(trim_dashes(o)),
        single_dashes(trim_dashes(o)),
        trim_dashes(o).len() > 0 ==> trim_dashes(o)[0] != '-' && trim_dashes(o).last() != '-',
{
    lemma_lead_dashes_bound(o);
    let k = lead_dashes(o) as int;
    let a = o.subrange(k, o.len() as int);
    lemma_trail_dashes_bound(a);
    let t = trim_dashes(o);
    assert forall|i: int| 0 <= i < t.len() implies #[trigger] t[i] == o[k + i] by {}
    assert forall|i: int| 0 <= i < t.len() implies unicode_alphanumeric(#[trigger] t[i]) || t[i] == '-' by {
        assert(unicode_alphanumeric(o[k + i]) || o[k + i] == '-');
    }
    assert forall|i: int| 0 < i < t.len() && #[trigger] t[i] == '-' && !unicode_alphanumeric('-')
        implies t[i - 1] != '-' by {
        assert(o[k + i] == '-');
        assert(t[i - 1] == o[k + i - 1]);
    }
    if t.len() > 0 {
        assert(t[0] == a[0]);
        assert(t.last() == a[a.len() - trail_dashes(a) - 1]);
    }
}

proof fn lemma_hex_no_dash(n: nat)
    ensures
        forall|i: int| 0 <= i < hex_digits(n).len() ==> #[trigger] hex_digits(n)[i] != '-',
    decreases n,
{
    let d = if n < 16 {
        n
    } else {
        n % 16
    };
    if d < 10 {
        assert(hex_char(d) as u32 == 48 + d);
    } else {
        assert(hex_char(d) as u32 == 87 + d);
    }
    if n >= 16 {
        lemma_hex_no_dash(n / 16);
        let h = hex_digits(n);
        let p = hex_digits(n / 16);
        assert forall|i: int| 0 <= i < h.len() implies #[trigger] h[i] != '-' by {
            if i < p.len() {
                assert(h[i] == p[i]);
            }
        }
    }
}

/// Slugging a slug gives it back, where the Unicode tables behave on the
/// slug as they do on its letters and digits: lowercasing leaves it as it is,
/// none of its characters is white space, and each of them other than `-`
/// counts as alphanumeric. (The scan keeps letters and digits, writes one `-`
/// per run of anything else and trims `-`, so its own output passes through it
/// unchanged; the hash form is made of such characters too.)
pub proof fn slug_of_a_slug_is_itself(name: Seq<char>)
    requires
        unicode_lowercase(spec_channel_slug(name)) == spec_channel_slug(name),
        forall|i: int|
            0 <= i < spec_channel_slug(name).len() ==> !unicode_whitespace(
                #[trigger] spec_channel_slug(name)[i],
            ),
        forall|i: int|
            0 <= i < spec_channel_slug(name).len() && #[trigger] spec_channel_slug(name)[i] != '-'
                ==> unicode_alphanumeric(spec_channel_slug(name)[i]),
    ensures
        spec_channel_slug(spec_channel_slug(name)) == spec_channel_slug(name),
{
    let s = spec_channel_slug(name);
    let o = slug_scan(unicode_lowercase(trim(name))).0;
    let t = trim_dashes(o);
    lemma_scan_shape(unicode_lowercase(trim(name)));
    lemma_trim_dashes_shape(o);
    if t.len() == 0 {
        let h = hash_slug(name);
        let dg = sha256(vstd::utf8::encode_utf8(name));
        let pre = seq!['c', 'h', 'a', 'n', 'n', 'e', 'l', '-'];
        let rest = hex_digits(dg[0] as nat) + hex_digits(dg[1] as nat) + hex_digits(dg[2] as nat)
            + hex_digits(dg[3] as nat);
        lemma_hex_no_dash(dg[0] as nat);
        lemma_hex_no_dash(dg[1] as nat);
        lemma_hex_no_dash(dg[2] as nat);
        lemma_hex_no_dash(dg[3] as nat);
        lemma_hex_len(dg[3] as nat);
        lemma_hex_last_not_dash(dg[3] as nat);
        assert(h =~= pre + rest);
        assert forall|i: int| 0 <= i < rest.len() implies #[trigger] rest[i] != '-' by {
            let l0 = hex_digits(dg[0] as nat).len() as int;
            let l1 = hex_digits(dg[1] as nat).len() as int;
            let l2 = hex_digits(dg[2] as nat).len() as int;
            if i < l0 {
                assert(rest[i] == hex_digits(dg[0] as nat)[i]);
            } else if i < l0 + l1 {
                assert(rest[i] == hex_digits(dg[1] as nat)[i - l0]);
            } else if i < l0 + l1 + l2 {
                assert(rest[i] == hex_digits(dg[2] as nat)[i - l0 - l1]);
            } else {
                assert(rest[i] == hex_digits(dg[3] as nat)[i - l0 - l1 - l2]);
            }
        }
        assert forall|i: int| 0 < i < h.len() && #[trigger] h[i] == '-' && !unicode_alphanumeric('-')
            implies h[i - 1] != '-' by {
            if i >= 8 {
                assert(h[i] == rest[i - 8]);
            } else {
                assert(i == 7);
                assert(h[6] == 'l');
            }
        }
        assert(h.last() == hex_digits(dg[3] as nat).last());
        assert(h[0] == 'c');
    }
    assert(s.len() > 0 && s[0] != '-' && s.last() != '-');
    assert(letters_and_dashes(s));
    assert(single_dashes(s));
    // `trim` leaves `s` alone: its ends are not white space.
    assert(!unicode_whitespace(s[0]));
    assert(lead_ws(s) == 0);
    let a = s.subrange(0, s.len() as int);
    assert(a =~= s);
    assert(!unicode_whitespace(s[s.len() - 1]));
    assert(trail_ws(a) == 0);
    assert(trim(s) =~= s);
    lemma_scan_fixed(s);
    assert(lead_dashes(s) == 0);
    assert(trail_dashes(a) == 0);
    assert(trim_dashes(s) =~= s);
}

proof fn lemma_hex_len(n: nat)
    ensures
        hex_digits(n).len() >= 1,
    decreases n,
{
    if n >= 16 {
        lemma_hex_len(n / 16);
    }
}

proof fn lemma_hex_last_not_dash(n: nat)
    ensures
        hex_digits(n).last() != '-',
    decreases n,
{
    let d = if n < 16 {
        n
    } else {
        n % 16
    };
    assert(hex_digits(n).last() == hex_char(d));
    if d < 10 {
        assert(hex_char(d) as u32 == 48 + d);
    } else {
        assert(hex_char(d) as u32 == 87 + d);
    }
}

} // verus!
