//! UTC timestamps in `YYYY-MM-DDTHH:MM:SSZ` form, computed from Unix seconds.
use crate::text::{digit_char, nat_digits, padded, push_padded, seq_lt, string_of, zeros};
use vstd::prelude::*;

verus! {

/// Seconds since the Unix epoch, read from the system clock (`SystemTime::now`);
/// zero if the clock is before the epoch. Nothing is promised of the value.
#[verifier::external_body]
fn unix_now_secs() -> u64 {
    std::time::SystemTime::now().duration_since(std::time::UNIX_EPOCH).unwrap_or_default().as_secs()
}

/// Proleptic Gregorian civil date (year, month, day) of a day count relative to
/// 1970-01-01, following the era/day-of-era decomposition (400-year eras of
/// 146097 days, years starting in March).
pub open spec fn civil(z: int) -> (int, int, int) {
    let z = z + 719468;
    let era = z / 146097;
    let doe = z - era * 146097;
    let yoe = (doe - doe / 1460 + doe / 36524 - doe / 146096) / 365;
    let y = yoe + era * 400;
    let doy = doe - (365 * yoe + yoe / 4 - yoe / 100);
    let mp = (5 * doy + 2) / 153;
    let d = doy - (153 * mp + 2) / 5 + 1;
    let m = if mp < 10 {
        mp + 3
    } else {
        mp - 9
    };
    let y = if m <= 2 {
        y + 1
    } else {
        y
    };
    (y, m, d)
}

proof fn lemma_floor_div(z: int, q: int)
    requires
        z >= 0 ==> q == z / 146097,
        z < 0 ==> q == -((-(z + 1)) / 146097) - 1,
    ensures
        q == z / 146097,
        0 <= z - q * 146097 < 146097,
{
    if z >= 0 {
        assert(0 <= z - q * 146097 < 146097) by (nonlinear_arith)
            requires
                q == z / 146097,
                z >= 0,
        ;
    } else {
        let n = -(z + 1);
        assert(0 <= z - q * 146097 < 146097) by (nonlinear_arith)
            requires
                n == -(z + 1),
                n >= 0,
                q == -(n / 146097) - 1,
        {
            let a = n / 146097;
            let r = n % 146097;
            assert(n == a * 146097 + r);
            assert(0 <= r < 146097);
        }
        assert(q == z / 146097) by (nonlinear_arith)
            requires
                0 <= z - q * 146097 < 146097,
        ;
    }
}

proof fn lemma_day_of_era(doe: u64, a: u64, yoe: u64, t: u64)
    by (bit_vector)
    requires
        doe < 146097,
        a == (doe - doe / 1460 + doe / 36524 - doe / 146096) as u64,
        yoe == a / 365,
        t == (365 * yoe + yoe / 4 - yoe / 100) as u64,
    ensures
        yoe <= 399,
        t <= doe,
        (doe - t) as u64 <= 365,
{
}

proof fn lemma_month_day(doy: u64, mp: u64)
    by (bit_vector)
    requires
        doy <= 365,
        mp == ((5 * doy + 2) as u64) / 153,
    ensures
        mp <= 11,
        ((153 * mp + 2) as u64) / 5 <= doy,
        (doy - ((153 * mp + 2) as u64) / 5) as u64 <= 30,
{
}

/// The civil date of day `z` (days since 1970-01-01); the year is narrowed to
/// `i32` and month and day to `u32` as `as` casts do.
pub fn civil_from_days(z: i64) -> (r: (i32, u32, u32))
    requires
        z <= i64::MAX - 719468,
    ensures
        r.0 == civil(z as int).0 as i32,
        r.1 == civil(z as int).1 as u32,
        r.2 == civil(z as int).2 as u32,
        1 <= r.1 <= 12,
        1 <= r.2 <= 31,
{
    let z = z + 719468;
    let era: i64 = if z >= 0 {
        (z as u64 / 146097) as i64
    } else {
        let n: u64 = (-(z + 1)) as u64;
        -((n / 146097) as i64) - 1
    };
    proof {
        lemma_floor_div(z as int, era as int);
    }
    let doe: u64 = (z - era * 146097) as u64;
    let a: u64 = doe - doe / 1460 + doe / 36524 - doe / 146096;
    let yoe: u64 = a / 365;
    proof {
        lemma_day_of_era(doe, a, yoe, (365 * yoe + yoe / 4 - yoe / 100) as u64);
    }
    let y: i64 = yoe as i64 + era * 400;
    let doy: u64 = doe - (365 * yoe + yoe / 4 - yoe / 100);
    let mp: u64 = (5 * doy + 2) / 153;
    proof {
        lemma_month_day(doy, mp);
    }
    let d: u64 = doy - (153 * mp + 2) / 5 + 1;
    let m: u64 = if mp < 10 {
        mp + 3
    } else {
        mp - 9
    };
    let y: i64 = if m <= 2 {
        y + 1
    } else {
        y
    };
    (y as i32, m as u32, d as u32)
}

/// `{:04}` of a signed year: the sign, then zero padding to four characters in all.
pub open spec fn year_text(y: int) -> Seq<char> {
    if y < 0 {
        seq!['-'] + padded((-y) as nat, 3)
    } else {
        padded(y as nat, 4)
    }
}

/// The timestamp text of `secs` seconds after the Unix epoch.
pub open spec fn timestamp_text(secs: nat) -> Seq<char> {
    let days = secs / 86400;
    let rem = secs % 86400;
    let c = civil(days as int);
    year_text((c.0 as i32) as int) + seq!['-'] + padded((c.1 as u32) as nat, 2) + seq!['-']
        + padded((c.2 as u32) as nat, 2) + seq!['T'] + padded(rem / 3600, 2) + seq![':']
        + padded((rem % 3600) / 60, 2) + seq![':'] + padded(rem % 60, 2) + seq!['Z']
}

/// A timestamp text of some instant.
pub open spec fn is_timestamp(s: Seq<char>) -> bool {
    exists|t: u64| s == #[trigger] timestamp_text(t as nat)
}

/// Formats `secs` (Unix seconds) as `YYYY-MM-DDTHH:MM:SSZ` in UTC.
pub fn format_unix(secs: u64) -> (r: String)
    ensures
        r@ == timestamp_text(secs as nat),
{
    let days = secs / 86400;
    let rem = secs % 86400;
    let hour = rem / 3600;
    let min = (rem % 3600) / 60;
    let sec = rem % 60;
    let (y, m, d) = civil_from_days(days as i64);
    let mut out: Vec<char> = Vec::new();
    if y < 0 {
        out.push('-');
        let a: u64 = (-(y as i64)) as u64;
        push_padded(&mut out, a, 3);
    } else {
        push_padded(&mut out, y as u64, 4);
    }
    out.push('-');
    push_padded(&mut out, m as u64, 2);
    out.push('-');
    push_padded(&mut out, d as u64, 2);
    out.push('T');
    push_padded(&mut out, hour, 2);
    out.push(':');
    push_padded(&mut out, min, 2);
    out.push(':');
    push_padded(&mut out, sec, 2);
    out.push('Z');
    assert(out@ =~= timestamp_text(secs as nat));
    string_of(&out)
}

/// The current UTC time as `YYYY-MM-DDTHH:MM:SSZ`.
pub fn now_iso() -> (r: String)
    ensures
        is_timestamp(r@),
{
    let t = unix_now_secs();
    let r = format_unix(t);
    assert(r@ == timestamp_text(t as nat));
    r
}


proof fn lemma_div_step(x: int, k: int)
    requires
        x >= 0,
        k > 0,
    ensures
        (x + 1) / k == x / k || (x + 1) / k == x / k + 1,
{
    assert((x + 1) / k == x / k || (x + 1) / k == x / k + 1) by (nonlinear_arith)
        requires
            x >= 0,
            k > 0,
    {
        let q = x / k;
        let r = x % k;
        assert(x == q * k + r && 0 <= r < k);
        if r + 1 < k {
            assert(x + 1 == q * k + (r + 1));
        } else {
            assert(x + 1 == (q + 1) * k);
        }
    }
}

/// The day of a 400-year era that follows day `doe` comes later in the era's
/// (year, March-based month, day) order.
proof fn lemma_era_step(doe: int)
    requires
        0 <= doe < 146096,
    ensures
        ({
            let e = doe + 1;
            let yoe1 = (doe - doe / 1460 + doe / 36524 - doe / 146096) / 365;
            let doy1 = doe - (365 * yoe1 + yoe1 / 4 - yoe1 / 100);
            let mp1 = (5 * doy1 + 2) / 153;
            let d1 = doy1 - (153 * mp1 + 2) / 5 + 1;
            let yoe2 = (e - e / 1460 + e / 36524 - e / 146096) / 365;
            let doy2 = e - (365 * yoe2 + yoe2 / 4 - yoe2 / 100);
            let mp2 = (5 * doy2 + 2) / 153;
            let d2 = doy2 - (153 * mp2 + 2) / 5 + 1;
            yoe1 < yoe2 || (yoe1 == yoe2 && (mp1 < mp2 || (mp1 == mp2 && d1 < d2)))
        }),
{
    let e = doe + 1;
    let a1 = doe - doe / 1460 + doe / 36524 - doe / 146096;
    let a2 = e - e / 1460 + e / 36524 - e / 146096;
    lemma_div_step(doe, 1460);
    lemma_div_step(doe, 36524);
    lemma_div_step(doe, 146096);
    assert(a1 >= 0) by (nonlinear_arith)
        requires
            0 <= doe < 146096,
            a1 == doe - doe / 1460 + doe / 36524 - doe / 146096,
    {
        assert(doe / 1460 <= doe);
        assert(doe / 36524 >= 0);
        assert(doe / 146096 == 0);
    }
    assert(a1 <= a2 <= a1 + 2);
    lemma_div_step(a1, 365);
    lemma_div_step(a1 + 1, 365);
    let yoe1 = a1 / 365;
    let yoe2 = a2 / 365;
    assert(yoe1 <= yoe2);
    if yoe1 == yoe2 {
        let doy1 = doe - (365 * yoe1 + yoe1 / 4 - yoe1 / 100);
        let doy2 = e - (365 * yoe2 + yoe2 / 4 - yoe2 / 100);
        assert(doy2 == doy1 + 1);
        lemma_day_of_era(e as u64, a2 as u64, yoe2 as u64, (365 * yoe2 + yoe2 / 4 - yoe2 / 100) as u64);
        assert(0 <= doy1 && doy2 <= 365);
        let mp1 = (5 * doy1 + 2) / 153;
        let mp2 = (5 * doy2 + 2) / 153;
        assert(mp1 == mp2 ==> doy2 - (153 * mp2 + 2) / 5 + 1 > doy1 - (153 * mp1 + 2) / 5 + 1);
        assert(mp1 <= mp2) by (nonlinear_arith)
            requires
                doy2 == doy1 + 1,
                doy1 >= 0,
                mp1 == (5 * doy1 + 2) / 153,
                mp2 == (5 * doy2 + 2) / 153,
        ;
    }
}

/// Date `a` comes before date `b` (year, then month, then day).
pub open spec fn date_before(a: (int, int, int), b: (int, int, int)) -> bool {
    a.0 < b.0 || (a.0 == b.0 && (a.1 < b.1 || (a.1 == b.1 && a.2 < b.2)))
}

proof fn lemma_civil_step(z: int)
    requires
        z >= -719468,
    ensures
        date_before(civil(z), civil(z + 1)),
{
    let z1 = z + 719468;
    let era = z1 / 146097;
    let doe = z1 - era * 146097;
    lemma_floor_div(z1, era);
    if doe < 146096 {
        lemma_era_step(doe);
        let z2 = z1 + 1;
        assert(z2 / 146097 == era) by (nonlinear_arith)
            requires
                z2 == z1 + 1,
                0 <= z1 - era * 146097 < 146096,
        ;
        lemma_day_of_era(doe as u64, (doe - doe / 1460 + doe / 36524 - doe / 146096) as u64,
            ((doe - doe / 1460 + doe / 36524 - doe / 146096) / 365) as u64,
            (365 * ((doe - doe / 1460 + doe / 36524 - doe / 146096) / 365) + ((doe - doe / 1460 + doe / 36524 - doe / 146096) / 365) / 4 - ((doe - doe / 1460 + doe / 36524 - doe / 146096) / 365) / 100) as u64);
    } else {
        let z2 = z1 + 1;
        assert(z2 / 146097 == era + 1 && z2 - (era + 1) * 146097 == 0) by (nonlinear_arith)
            requires
                z2 == z1 + 1,
                z1 - era * 146097 == 146096,
        ;
        assert(doe == 146096);
    }
}

/// Later days have later dates.
pub proof fn later_days_have_later_dates(z1: int, z2: int)
    requires
        -719468 <= z1 < z2,
    ensures
        date_before(civil(z1), civil(z2)),
    decreases z2 - z1,
{
    lemma_civil_step(z2 - 1);
    if z1 < z2 - 1 {
        later_days_have_later_dates(z1, z2 - 1);
    }
}

proof fn lemma_civil_ranges(z: int)
    requires
        z >= -719468,
    ensures
        1 <= civil(z).1 <= 12,
        1 <= civil(z).2 <= 31,
{
    let z1 = z + 719468;
    let era = z1 / 146097;
    let doe = z1 - era * 146097;
    lemma_floor_div(z1, era);
    let a = doe - doe / 1460 + doe / 36524 - doe / 146096;
    let yoe = a / 365;
    let t = 365 * yoe + yoe / 4 - yoe / 100;
    assert(a >= 0 && a <= doe) by (nonlinear_arith)
        requires
            0 <= doe < 146097,
            a == doe - doe / 1460 + doe / 36524 - doe / 146096,
    {
        assert(doe / 36524 <= doe / 1460);
        assert(doe / 146096 <= 1);
    }
    lemma_day_of_era(doe as u64, a as u64, yoe as u64, t as u64);
    let doy = doe - t;
    let mp = (5 * doy + 2) / 153;
    lemma_month_day(doy as u64, mp as u64);
}

/// Two decimal digits of `n`.
pub open spec fn two_digits(n: int) -> Seq<char> {
    seq![digit_char((n / 10) as nat), digit_char((n % 10) as nat)]
}

/// Four decimal digits of `n`.
pub open spec fn four_digits(n: int) -> Seq<char> {
    seq![
        digit_char((n / 1000) as nat),
        digit_char(((n / 100) % 10) as nat),
        digit_char(((n / 10) % 10) as nat),
        digit_char((n % 10) as nat),
    ]
}

proof fn lemma_padded_two(n: int)
    requires
        0 <= n < 100,
    ensures
        padded(n as nat, 2) == two_digits(n),
{
    reveal_with_fuel(nat_digits, 3);
    if n < 10 {
        assert(zeros(1) =~= seq!['0']);
        assert(digit_char(0) == '0');
        assert(padded(n as nat, 2) =~= two_digits(n));
    } else {
        assert(nat_digits(n as nat) =~= two_digits(n));
    }
}

proof fn lemma_padded_four(n: int)
    requires
        0 <= n < 10000,
    ensures
        padded(n as nat, 4) == four_digits(n),
{
    reveal_with_fuel(nat_digits, 5);
    assert(digit_char(0) == '0');
    if n < 10 {
        assert(zeros(3) =~= seq!['0', '0', '0']);
        assert(padded(n as nat, 4) =~= four_digits(n));
    } else if n < 100 {
        assert(zeros(2) =~= seq!['0', '0']);
        assert(nat_digits(n as nat) =~= seq![digit_char((n / 10) as nat), digit_char((n % 10) as nat)]);
        assert(padded(n as nat, 4) =~= four_digits(n));
    } else if n < 1000 {
        assert(zeros(1) =~= seq!['0']);
        assert(nat_digits((n / 10) as nat) =~= seq![digit_char((n / 100) as nat), digit_char(((n / 10) % 10) as nat)]);
        assert(padded(n as nat, 4) =~= four_digits(n));
    } else {
        assert(nat_digits((n / 100) as nat) =~= seq![digit_char((n / 1000) as nat), digit_char(((n / 100) % 10) as nat)]);
        assert(nat_digits(n as nat) =~= four_digits(n));
    }
}

/// Texts that start with parts of the same length compare by those parts,
/// and by what follows when the parts are equal.
proof fn lemma_seq_lt_concat(a1: Seq<char>, a2: Seq<char>, r1: Seq<char>, r2: Seq<char>)
    requires
        a1.len() == a2.len(),
    ensures
        seq_lt(a1 + r1, a2 + r2) == if a1 == a2 {
            seq_lt(r1, r2)
        } else {
            seq_lt(a1, a2)
        },
    decreases a1.len(),
{
    if a1.len() == 0 {
        assert(a1 + r1 =~= r1);
        assert(a2 + r2 =~= r2);
        assert(a1 =~= a2);
    } else {
        assert((a1 + r1).drop_first() =~= a1.drop_first() + r1);
        assert((a2 + r2).drop_first() =~= a2.drop_first() + r2);
        lemma_seq_lt_concat(a1.drop_first(), a2.drop_first(), r1, r2);
        assert((a1 + r1)[0] == a1[0] && (a2 + r2)[0] == a2[0]);
        if a1[0] == a2[0] {
            assert(a1 == a2 <==> a1.drop_first() == a2.drop_first()) by {
                if a1.drop_first() =~= a2.drop_first() {
                    assert forall|i: int| 0 <= i < a1.len() implies a1[i] == a2[i] by {
                        if i > 0 {
                            assert(a1[i] == a1.drop_first()[i - 1]);
                            assert(a2[i] == a2.drop_first()[i - 1]);
                        }
                    }
                    assert(a1 =~= a2);
                }
            }
        } else {
            assert(a1 != a2);
        }
    }
}

proof fn lemma_digit_order(a: nat, b: nat)
    requires
        a < 10,
        b < 10,
    ensures
        (digit_char(a) == digit_char(b)) == (a == b),
        (digit_char(a) < digit_char(b)) == (a < b),
{
}

proof fn lemma_two_digits_order(a: int, b: int)
    requires
        0 <= a < 100,
        0 <= b < 100,
    ensures
        (two_digits(a) == two_digits(b)) == (a == b),
        a < b ==> seq_lt(two_digits(a), two_digits(b)),
{
    lemma_digit_order((a / 10) as nat, (b / 10) as nat);
    lemma_digit_order((a % 10) as nat, (b % 10) as nat);
    let x = two_digits(a);
    let y = two_digits(b);
    if x == y {
        assert(x[0] == y[0] && x[1] == y[1]);
    }
    reveal_with_fuel(seq_lt, 3);
    assert(x.drop_first() =~= seq![x[1]]);
    assert(y.drop_first() =~= seq![y[1]]);
}

proof fn lemma_four_split(a: int)
    requires
        0 <= a < 10000,
    ensures
        four_digits(a) == two_digits(a / 100) + two_digits(a % 100),
        0 <= a / 100 < 100,
        0 <= a % 100 < 100,
        a == (a / 100) * 100 + a % 100,
{
    assert((a / 100) / 10 == a / 1000 && (a / 100) % 10 == (a / 100) % 10 && (a % 100) / 10 == (a / 10) % 10
        && (a % 100) % 10 == a % 10 && 0 <= a / 100 < 100 && a == (a / 100) * 100 + a % 100) by (nonlinear_arith)
        requires
            0 <= a < 10000,
    ;
    assert(four_digits(a) =~= two_digits(a / 100) + two_digits(a % 100));
}

proof fn lemma_four_digits_order(a: int, b: int)
    requires
        0 <= a < 10000,
        0 <= b < 10000,
    ensures
        (four_digits(a) == four_digits(b)) == (a == b),
        a < b ==> seq_lt(four_digits(a), four_digits(b)),
{
    lemma_four_split(a);
    lemma_four_split(b);
    let (ha, la, hb, lb) = (a / 100, a % 100, b / 100, b % 100);
    lemma_two_digits_order(ha, hb);
    lemma_two_digits_order(la, lb);
    lemma_seq_lt_concat(two_digits(ha), two_digits(hb), two_digits(la), two_digits(lb));
    let x = four_digits(a);
    let y = four_digits(b);
    if x == y {
        assert(two_digits(ha) =~= x.subrange(0, 2));
        assert(two_digits(hb) =~= y.subrange(0, 2));
        assert(two_digits(la) =~= x.subrange(2, 4));
        assert(two_digits(lb) =~= y.subrange(2, 4));
    }
    if a < b {
        assert(ha < hb || (ha == hb && la < lb));
    }
}

/// The timestamp text of the fields of an instant.
pub open spec fn stamp(y: int, mo: int, d: int, h: int, mi: int, s: int) -> Seq<char> {
    four_digits(y) + (seq!['-'] + (two_digits(mo) + (seq!['-'] + (two_digits(d) + (seq!['T'] + (two_digits(h) + (
    seq![':'] + (two_digits(mi) + (seq![':'] + (two_digits(s) + seq!['Z']))))))))))
}

/// A two-digit field followed by the same separator: the text compares as
/// the field, then as what follows.
proof fn lemma_field_step(a: int, b: int, c: char, r1: Seq<char>, r2: Seq<char>)
    requires
        0 <= a < 100,
        0 <= b < 100,
    ensures
        a < b || (a == b && seq_lt(r1, r2)) ==> seq_lt(two_digits(a) + (seq![c] + r1), two_digits(b) + (seq![c] + r2)),
{
    lemma_two_digits_order(a, b);
    lemma_seq_lt_concat(two_digits(a), two_digits(b), seq![c] + r1, seq![c] + r2);
    lemma_seq_lt_concat(seq![c], seq![c], r1, r2);
}

proof fn lemma_stamp_order(y1: int, mo1: int, d1: int, h1: int, mi1: int, s1: int, y2: int, mo2: int, d2: int, h2: int, mi2: int, s2: int)
    requires
        0 <= y1 < 10000 && 0 <= y2 < 10000,
        0 <= mo1 < 100 && 0 <= mo2 < 100 && 0 <= d1 < 100 && 0 <= d2 < 100,
        0 <= h1 < 100 && 0 <= h2 < 100 && 0 <= mi1 < 100 && 0 <= mi2 < 100 && 0 <= s1 < 100 && 0 <= s2 < 100,
        date_before((y1, mo1, d1), (y2, mo2, d2)) || ((y1, mo1, d1) == (y2, mo2, d2) && (h1 < h2 || (h1 == h2 && (
        mi1 < mi2 || (mi1 == mi2 && s1 < s2))))),
    ensures
        seq_lt(stamp(y1, mo1, d1, h1, mi1, s1), stamp(y2, mo2, d2, h2, mi2, s2)),
{
    let z = seq!['Z'];
    assert(seq!['Z'] == seq!['Z']);
    lemma_two_digits_order(s1, s2);
    lemma_seq_lt_concat(two_digits(s1), two_digits(s2), z, z);
    let t5a = two_digits(s1) + z;
    let t5b = two_digits(s2) + z;
    lemma_field_step(mi1, mi2, ':', t5a, t5b);
    let t4a = two_digits(mi1) + (seq![':'] + t5a);
    let t4b = two_digits(mi2) + (seq![':'] + t5b);
    lemma_two_digits_order(mi1, mi2);
    lemma_field_step(h1, h2, ':', t4a, t4b);
    let t3a = two_digits(h1) + (seq![':'] + t4a);
    let t3b = two_digits(h2) + (seq![':'] + t4b);
    lemma_two_digits_order(h1, h2);
    lemma_field_step(d1, d2, 'T', t3a, t3b);
    let t2a = two_digits(d1) + (seq!['T'] + t3a);
    let t2b = two_digits(d2) + (seq!['T'] + t3b);
    lemma_two_digits_order(d1, d2);
    lemma_field_step(mo1, mo2, '-', t2a, t2b);
    let t1a = two_digits(mo1) + (seq!['-'] + t2a);
    let t1b = two_digits(mo2) + (seq!['-'] + t2b);
    lemma_two_digits_order(mo1, mo2);
    lemma_four_digits_order(y1, y2);
    lemma_seq_lt_concat(four_digits(y1), four_digits(y2), seq!['-'] + t1a, seq!['-'] + t1b);
    lemma_seq_lt_concat(seq!['-'], seq!['-'], t1a, t1b);
}

proof fn lemma_civil_epoch()
    ensures
        civil(0) == (1970int, 1int, 1int),
{
}

proof fn lemma_civil_last()
    ensures
        civil(2932896) == (9999int, 12int, 31int),
{
}

proof fn lemma_year_range(days: int)
    requires
        0 <= days <= 2932896,
    ensures
        1970 <= civil(days).0 <= 9999,
{
    lemma_civil_epoch();
    lemma_civil_last();
    if days > 0 {
        later_days_have_later_dates(0, days);
    }
    if days < 2932896 {
        later_days_have_later_dates(days, 2932896);
    }
}

proof fn lemma_text_fields(t: nat)
    requires
        t < 253402300800,
    ensures
        ({
            let days = t / 86400;
            let rem = t % 86400;
            let c = civil(days as int);
            &&& 1970 <= c.0 <= 9999
            &&& 1 <= c.1 <= 12
            &&& 1 <= c.2 <= 31
            &&& timestamp_text(t) == stamp(c.0, c.1, c.2, (rem / 3600) as int, ((rem % 3600) / 60) as int, (rem % 60) as int)
        }),
{
    let days = t / 86400;
    let rem = t % 86400;
    let c = civil(days as int);
    assert(days <= 2932896);
    lemma_year_range(days as int);
    lemma_civil_ranges(days as int);
    assert(rem / 3600 < 24 && (rem % 3600) / 60 < 60 && rem % 60 < 60);
    lemma_padded_four(c.0);
    lemma_padded_two(c.1);
    lemma_padded_two(c.2);
    lemma_padded_two((rem / 3600) as int);
    lemma_padded_two(((rem % 3600) / 60) as int);
    lemma_padded_two((rem % 60) as int);
    assert(timestamp_text(t) =~= stamp(c.0, c.1, c.2, (rem / 3600) as int, ((rem % 3600) / 60) as int, (rem % 60) as int));
}

/// Until the year 9999, a later instant gives a timestamp text that sorts
/// later, so timestamps compare as the instants they stand for.
pub proof fn later_instants_sort_later(t1: nat, t2: nat)
    requires
        t1 < t2 < 253402300800,
    ensures
        seq_lt(timestamp_text(t1), timestamp_text(t2)),
{
    lemma_text_fields(t1);
    lemma_text_fields(t2);
    let (days1, rem1, days2, rem2) = (t1 / 86400, t1 % 86400, t2 / 86400, t2 % 86400);
    assert(days1 <= days2);
    if days1 < days2 {
        later_days_have_later_dates(days1 as int, days2 as int);
    } else {
        assert(rem1 < rem2);
        assert(rem1 / 3600 < rem2 / 3600 || (rem1 / 3600 == rem2 / 3600 && ((rem1 % 3600) / 60 < (rem2 % 3600) / 60 || (
        (rem1 % 3600) / 60 == (rem2 % 3600) / 60 && rem1 % 60 < rem2 % 60)))) by (nonlinear_arith)
            requires
                0 <= rem1 < rem2 < 86400,
        {
            assert(rem1 == (rem1 / 3600) * 3600 + ((rem1 % 3600) / 60) * 60 + rem1 % 60);
            assert(rem2 == (rem2 / 3600) * 3600 + ((rem2 % 3600) / 60) * 60 + rem2 % 60);
        }
    }
    let c1 = civil(days1 as int);
    let c2 = civil(days2 as int);
    lemma_stamp_order(
        c1.0, c1.1, c1.2, (rem1 / 3600) as int, ((rem1 % 3600) / 60) as int, (rem1 % 60) as int,
        c2.0, c2.1, c2.2, (rem2 / 3600) as int, ((rem2 % 3600) / 60) as int, (rem2 % 60) as int,
    );
}
} // verus!
