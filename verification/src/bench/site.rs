//! Pieces of the static leaderboard page that are pure text: HTML escaping
//! and calendar dates.

use vstd::prelude::*;

use crate::text::{chars_of, padded, padded_chars, push_char, push_chars, push_str};

verus! {

/// The HTML escape of one character: `&`, `<` and `>` become entities.
pub open spec fn esc_char(c: char) -> Seq<char> {
    if c == '&' {
        "&amp;"@
    } else if c == '<' {
        "&lt;"@
    } else if c == '>' {
        "&gt;"@
    } else {
        seq![c]
    }
}

/// `s` with `&`, `<` and `>` escaped.
pub open spec fn escaped(s: Seq<char>) -> Seq<char>
    decreases s.len(),
{
    if s.len() == 0 {
        seq![]
    } else {
        escaped(s.drop_last()) + esc_char(s.last())
    }
}

/// Escape `s` for HTML text (see `escaped`).
pub fn esc(s: &str) -> (r: String)
    ensures
        r@ == escaped(s@),
{
    let cs = chars_of(s);
    let mut out = String::new();
    let mut i: usize = 0;
    while i < cs.len()
        invariant
            i <= cs@.len(),
            cs@ == s@,
            out@ == escaped(cs@.take(i as int)),
        decreases cs@.len() - i,
    {
        let c = cs[i];
        if c == '&' {
            push_str(&mut out, "&amp;");
        } else if c == '<' {
            push_str(&mut out, "&lt;");
        } else if c == '>' {
            push_str(&mut out, "&gt;");
        } else {
            push_char(&mut out, c);
        }
        assert(cs@.take(i + 1).drop_last() =~= cs@.take(i as int));
        i = i + 1;
    }
    assert(cs@.take(cs@.len() as int) =~= cs@);
    out
}

/// The civil (proleptic Gregorian, UTC) date `(year, month, day)` of a Unix
/// timestamp, by Howard Hinnant's days-to-civil algorithm; that this is the
/// calendar is `civil_date_is_gregorian`.
pub open spec fn civil_date(secs: nat) -> (int, int, int) {
    let z = secs / 86400 + 719468;
    let era = z / 146097;
    let doe = z - era * 146097;
    let yoe = (doe - doe / 1460 + doe / 36524 - doe / 146096) / 365;
    let y = yoe + era * 400;
    let doy = doe - (365 * yoe + yoe / 4 - yoe / 100);
    let mp = (5 * doy + 2) / 153;
    let d = doy - (153 * mp + 2) / 5 + 1;
    let m = if mp < 10 {
        mp + 3
    } else {
        mp - 9
    };
    (if m <= 2 {
        y + 1
    } else {
        y
    }, m, d)
}

/// `YYYY-MM-DD` for a timestamp, or `-` for a zero stamp.
pub open spec fn ymd_text(secs: nat) -> Seq<char> {
    if secs == 0 {
        "-"@
    } else {
        let (y, m, d) = civil_date(secs);
        padded(y as nat, 4) + seq!['-'] + padded(m as nat, 2) + seq!['-'] + padded(d as nat, 2)
    }
}

/// Civil date (UTC) from a Unix timestamp (see `ymd_text`).
pub fn ymd(secs: u64) -> (r: String)
    ensures
        r@ == ymd_text(secs as nat),
{
    if secs == 0 {
        let mut out = String::new();
        push_str(&mut out, "-");
        return out;
    }
    let z: u64 = secs / 86400 + 719468;
    let era: u64 = z / 146097;
    let doe: u64 = z - era * 146097;
    assert(doe < 146097);
    let yoe: u64 = (doe - doe / 1460 + doe / 36524 - doe / 146096) / 365;
    assert(yoe < 400);
    let y: u64 = yoe + era * 400;
    let doy: u64 = doe - (365 * yoe + yoe / 4 - yoe / 100);
    assert(doy < 366);
    let mp: u64 = (5 * doy + 2) / 153;
    let d: u64 = doy - (153 * mp + 2) / 5 + 1;
    let m: u64 = if mp < 10 {
        mp + 3
    } else {
        mp - 9
    };
    let year: u64 = if m <= 2 {
        y + 1
    } else {
        y
    };
    let mut out = String::new();
    let ys = padded_chars(year, 4);
    push_chars(&mut out, ys.as_slice());
    push_char(&mut out, '-');
    let ms = padded_chars(m, 2);
    push_chars(&mut out, ms.as_slice());
    push_char(&mut out, '-');
    let ds = padded_chars(d, 2);
    push_chars(&mut out, ds.as_slice());
    out
}


proof fn lemma_esc_char(c: char)
    ensures
        forall|i: int| 0 <= i < esc_char(c).len() ==> {
            let x = #[trigger] esc_char(c)[i];
            x != '<' && x != '>'
        },
{
    reveal_strlit("&amp;");
    reveal_strlit("&lt;");
    reveal_strlit("&gt;");
}

/// Escaped text holds no raw `<` or `>`, so it cannot open or close a tag.
pub proof fn escaped_has_no_angle_brackets(s: Seq<char>)
    ensures
        forall|i: int| 0 <= i < escaped(s).len() ==> {
            let x = #[trigger] escaped(s)[i];
            x != '<' && x != '>'
        },
    decreases s.len(),
{
    if s.len() > 0 {
        escaped_has_no_angle_brackets(s.drop_last());
        lemma_esc_char(s.last());
        let p = escaped(s.drop_last());
        let e = esc_char(s.last());
        let r = escaped(s);
        assert forall|i: int| 0 <= i < r.len() implies ({
            let x = #[trigger] r[i];
            x != '<' && x != '>'
        }) by {
            if i < p.len() {
                assert(r[i] == p[i]);
            } else {
                assert(r[i] == e[i - p.len()]);
            }
        }
    }
}

/// The date of any positive timestamp has a month in 1..=12 and a day in 1..=31.
pub proof fn civil_date_in_range(secs: nat)
    ensures
        1 <= civil_date(secs).1 <= 12,
        1 <= civil_date(secs).2 <= 31,
        civil_date(secs).0 >= 0,
{
}


#[verifier::rlimit(100)]
proof fn lemma_era_day_step(doe: u32)
    by (bit_vector)
    requires
        doe < 146096,
    ensures
        ({
            let y0 = (doe - doe / 1460 + doe / 36524 - doe / 146096) / 365;
            let d0 = doe - (365 * y0 + y0 / 4 - y0 / 100);
            let e = (doe + 1) as u32;
            let y1 = (e - e / 1460 + e / 36524 - e / 146096) / 365;
            let d1 = e - (365 * y1 + y1 / 4 - y1 / 100);
            let leap: int = if (y0 + 1) % 4 == 0 && ((y0 + 1) % 100 != 0 || y0 == 399) {
                1
            } else {
                0
            };
            &&& y0 <= 399
            &&& 0 <= d0
            &&& ((y1 == y0 && d1 == d0 + 1 && d0 + 1 <= 364 + leap) || (y1 == y0 + 1 && d1 == 0
                && d0 == 364 + leap))
        }),
{
}

proof fn lemma_year_day_step(doy: u32)
    by (bit_vector)
    requires
        doy < 365,
    ensures
        ({
            let mp0 = (5 * doy + 2) / 153;
            let d0 = doy - (153 * mp0 + 2) / 5 + 1;
            let e = (doy + 1) as u32;
            let mp1 = (5 * e + 2) / 153;
            let d1 = e - (153 * mp1 + 2) / 5 + 1;
            &&& mp0 <= 11
            &&& 1 <= d0
            &&& (mp0 == 11 ==> d0 == doy - 336)
            &&& (mp0 < 11 ==> d0 <= (153 * mp0 + 155) / 5 - (153 * mp0 + 2) / 5)
            &&& ((mp1 == mp0 && d1 == d0 + 1 && (mp0 < 11 ==> d0 < (153 * mp0 + 155) / 5 - (153
                * mp0 + 2) / 5)) || (mp1 == mp0 + 1 && d1 == 1 && d0 == (153 * mp0 + 155) / 5 - (153
                * mp0 + 2) / 5))
        }),
{
}

/// Whether `y` is a leap year of the Gregorian calendar.
pub open spec fn is_leap_year(y: int) -> bool {
    y % 4 == 0 && (y % 100 != 0 || y % 400 == 0)
}

/// The number of days of month `m` (1..=12) of year `y`.
pub open spec fn days_in_month(y: int, m: int) -> int {
    if m == 2 {
        if is_leap_year(y) {
            29
        } else {
            28
        }
    } else if m == 4 || m == 6 || m == 9 || m == 11 {
        30
    } else {
        31
    }
}

/// The day after `(year, month, day)` in the Gregorian calendar.
pub open spec fn next_date(date: (int, int, int)) -> (int, int, int) {
    let (y, m, d) = date;
    if d < days_in_month(y, m) {
        (y, m, d + 1)
    } else if m < 12 {
        (y, m + 1, 1)
    } else {
        (y + 1, 1, 1)
    }
}

/// The date of day `doy` (from 0) of the year that starts on March 1 of `y`.
#[verifier::opaque]
spec fn march_year_date(y: int, doy: int) -> (int, int, int) {
    let mp = (5 * doy + 2) / 153;
    let d = doy - (153 * mp + 2) / 5 + 1;
    let m = if mp < 10 {
        mp + 3
    } else {
        mp - 9
    };
    (if m <= 2 {
        y + 1
    } else {
        y
    }, m, d)
}

/// The length of the month that starts `mp` months after March.
spec fn march_month_len(mp: int) -> int {
    (153 * mp + 155) / 5 - (153 * mp + 2) / 5
}

proof fn lemma_month_lengths(y: int, mp: int)
    requires
        0 <= mp <= 10,
    ensures
        days_in_month(if mp < 10 { y } else { y + 1 }, if mp < 10 { mp + 3 } else { mp - 9 })
            == march_month_len(mp),
{
    assert(mp == 0 || mp == 1 || mp == 2 || mp == 3 || mp == 4 || mp == 5 || mp == 6 || mp == 7
        || mp == 8 || mp == 9 || mp == 10);
}

/// Within a year that starts on March 1, each day is followed by the next date.
proof fn lemma_next_in_year(y: int, doy: int)
    requires
        0 <= doy,
        doy + 1 <= 364 + if is_leap_year(y + 1) {
            1int
        } else {
            0
        },
    ensures
        march_year_date(y, doy + 1) == next_date(march_year_date(y, doy)),
{
    reveal(march_year_date);
    lemma_year_day_step(doy as u32);
    let mp0 = (5 * doy + 2) / 153;
    if mp0 < 11 {
        lemma_month_lengths(y, mp0);
    }
}

/// The last day of a year that starts on March 1 is followed by March 1.
proof fn lemma_next_year(y: int, doy: int)
    requires
        doy == 364 + if is_leap_year(y + 1) {
            1int
        } else {
            0
        },
    ensures
        march_year_date(y + 1, 0) == next_date(march_year_date(y, doy)),
{
    reveal(march_year_date);
}

/// The year of era day `doe`, counted from the era's first March.
#[verifier::opaque]
spec fn yoe_of(doe: int) -> int {
    (doe - doe / 1460 + doe / 36524 - doe / 146096) / 365
}

/// The day of its March-based year that era day `doe` is.
#[verifier::opaque]
spec fn doy_of(doe: int) -> int {
    doe - (365 * yoe_of(doe) + yoe_of(doe) / 4 - yoe_of(doe) / 100)
}

/// Whether the year that starts in March of era year `yoe` ends with a 29 February.
spec fn march_leap(yoe: int) -> bool {
    (yoe + 1) % 4 == 0 && ((yoe + 1) % 100 != 0 || yoe == 399)
}

proof fn lemma_era_day_facts(doe: int)
    requires
        0 <= doe < 146096,
    ensures
        0 <= yoe_of(doe) < 400,
        0 <= doy_of(doe),
        ({
            let leap = if march_leap(yoe_of(doe)) {
                1int
            } else {
                0
            };
            ||| (yoe_of(doe + 1) == yoe_of(doe) && doy_of(doe + 1) == doy_of(doe) + 1 && doy_of(doe)
                + 1 <= 364 + leap)
            ||| (yoe_of(doe + 1) == yoe_of(doe) + 1 && doy_of(doe + 1) == 0 && doy_of(doe) == 364
                + leap)
        }),
{
    reveal(yoe_of);
    reveal(doy_of);
    lemma_era_day_step(doe as u32);
}

/// Day `doe` (from 0) of the 400-year era `era`, which starts on March 1 of
/// year `400 * era`.
spec fn era_date(era: int, doe: int) -> (int, int, int) {
    march_year_date(era * 400 + yoe_of(doe), doy_of(doe))
}

proof fn lemma_leap_in_era(era: int, yoe: int)
    requires
        0 <= yoe < 400,
    ensures
        is_leap_year(era * 400 + yoe + 1) == march_leap(yoe),
{
    let x = yoe + 1;
    assert(era * 400 + x == 4 * (era * 100) + x) by (nonlinear_arith);
    assert(era * 400 + x == 100 * (era * 4) + x) by (nonlinear_arith);
    assert(era * 400 + x == 400 * era + x) by (nonlinear_arith);
    vstd::arithmetic::div_mod::lemma_mod_multiples_vanish(era * 100, x, 4);
    vstd::arithmetic::div_mod::lemma_mod_multiples_vanish(era * 4, x, 100);
    vstd::arithmetic::div_mod::lemma_mod_multiples_vanish(era, x, 400);
    assert(x % 400 == 0 <==> yoe == 399);
}

proof fn lemma_next_in_era(era: int, doe: int)
    requires
        0 <= doe < 146096,
    ensures
        era_date(era, doe + 1) == next_date(era_date(era, doe)),
{
    lemma_era_day_facts(doe);
    let yoe = yoe_of(doe);
    let doy = doy_of(doe);
    lemma_leap_in_era(era, yoe);
    if yoe_of(doe + 1) == yoe {
        lemma_next_in_year(era * 400 + yoe, doy);
    } else {
        assert(era * 400 + yoe_of(doe + 1) == (era * 400 + yoe) + 1);
        lemma_next_year(era * 400 + yoe, doy);
    }
}

proof fn lemma_next_era(era: int)
    ensures
        era_date(era + 1, 0) == next_date(era_date(era, 146096)),
{
    reveal(yoe_of);
    reveal(doy_of);
    assert(yoe_of(146096) == 399 && doy_of(146096) == 365);
    assert(yoe_of(0) == 0 && doy_of(0) == 0);
    reveal(march_year_date);
    assert((era * 400 + 400) % 400 == 0);
}

proof fn lemma_next_day(secs: nat)
    ensures
        civil_date(secs + 86400) == next_date(civil_date(secs)),
{
    let k: int = (secs / 86400) as int;
    assert((secs + 86400) / 86400 == k + 1);
    let z: int = k + 719468;
    let era: int = z / 146097;
    let doe = z - era * 146097;
    reveal(yoe_of);
    reveal(doy_of);
    reveal(march_year_date);
    assert(civil_date(secs) == era_date(era, doe));
    if doe < 146096 {
        assert((z + 1) / 146097 == era);
        assert(civil_date(secs + 86400) == era_date(era, doe + 1));
        lemma_next_in_era(era, doe);
    } else {
        assert((z + 1) / 146097 == era + 1);
        assert(civil_date(secs + 86400) == era_date(era + 1, 0));
        lemma_next_era(era);
    }
}
/// `civil_date` is the Gregorian calendar counted from the Unix epoch: the
/// first day is 1970-01-01, a timestamp has the date of its day, and each
/// day's date is the one after the previous day's.
pub proof fn civil_date_is_gregorian(secs: nat)
    ensures
        civil_date(0) == (1970int, 1int, 1int),
        civil_date(secs) == civil_date((secs / 86400) * 86400),
        civil_date(secs + 86400) == next_date(civil_date(secs)),
{
    assert(((secs / 86400) * 86400) / 86400 == secs / 86400);
    lemma_next_day(secs);
}

} // verus!
