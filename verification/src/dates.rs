//! Calendar dates: parsing Todoist due dates, formatting them for node
//! labels, and today's UTC civil date.

use vstd::prelude::*;
use vstd::string::StringSliceAdditionalSpecFns;

use crate::text::{decimal, extend_str, push_decimal, push_signed_decimal, signed_decimal};

verus! {

// ---------------------------------------------------------------------------
// Parsing
// ---------------------------------------------------------------------------

pub open spec fn is_digit(b: u8) -> bool {
    48 <= b <= 57
}

pub open spec fn all_digits(b: Seq<u8>) -> bool {
    forall|i: int| 0 <= i < b.len() ==> is_digit(#[trigger] b[i])
}

/// The value of a run of ASCII decimal digits.
pub open spec fn digits_value(b: Seq<u8>) -> int
    decreases b.len(),
{
    if b.len() == 0 {
        0
    } else {
        digits_value(b.drop_last()) * 10 + (b.last() - 48)
    }
}

/// The value of a field of ASCII digits, None when any byte is not one.
pub open spec fn digits_field(b: Seq<u8>) -> Option<int> {
    if all_digits(b) {
        Some(digits_value(b))
    } else {
        None
    }
}

/// (year, month, day) from the leading `YYYY-MM-DD` of the UTF-8 bytes of
/// a due date: four, two and two ASCII digits separated by `-`, followed
/// by any tail. None on anything malformed (a sign, a short field, a
/// missing separator) or a month outside 1..=12 or a day outside 1..=31.
pub open spec fn iso_date(b: Seq<u8>) -> Option<(int, int, int)> {
    if b.len() >= 10 && b[4] == 45 && b[7] == 45 {
        match (digits_field(b.subrange(0, 4)), digits_field(b.subrange(5, 7)), digits_field(b.subrange(8, 10))) {
            (Some(y), Some(m), Some(d)) => if 1 <= m <= 12 && 1 <= d <= 31 {
                Some((y, m, d))
            } else {
                None
            },
            _ => None,
        }
    } else {
        None
    }
}

pub open spec fn pow10(n: nat) -> int
    decreases n,
{
    if n == 0 {
        1
    } else {
        10 * pow10((n - 1) as nat)
    }
}

proof fn lemma_digits_value_bound(b: Seq<u8>)
    requires
        all_digits(b),
    ensures
        0 <= digits_value(b) < pow10(b.len()),
        b.len() <= 4 ==> digits_value(b) < 10000,
        b.len() <= 2 ==> digits_value(b) < 100,
    decreases b.len(),
{
    if b.len() > 0 {
        assert(is_digit(b[b.len() - 1]));
        assert(all_digits(b.drop_last())) by {
            assert forall|i: int| 0 <= i < b.drop_last().len() implies is_digit(#[trigger] b.drop_last()[i]) by {
                assert(b.drop_last()[i] == b[i]);
            }
        }
        lemma_digits_value_bound(b.drop_last());
    }
    reveal_with_fuel(pow10, 5);
    assert(pow10(1) == 10);
    assert(pow10(2) == 100);
    assert(pow10(3) == 1000);
    assert(pow10(4) == 10000);
}

/// The value of the ASCII digits `b[lo..hi]`, None when any byte there
/// is not a digit.
fn parse_field(b: &[u8], lo: usize, hi: usize) -> (r: Option<u32>)
    requires
        lo < hi <= b@.len(),
        hi - lo <= 4,
    ensures
        match r {
            Some(v) => digits_field(b@.subrange(lo as int, hi as int)) == Some(v as int),
            None => digits_field(b@.subrange(lo as int, hi as int)) is None,
        },
{
    let ghost s = b@.subrange(lo as int, hi as int);
    let mut v: u32 = 0;
    let mut i = lo;
    while i < hi
        invariant
            lo <= i <= hi <= b@.len(),
            hi - lo <= 4,
            s == b@.subrange(lo as int, hi as int),
            all_digits(s.take(i - lo)),
            v == digits_value(s.take(i - lo)),
            0 <= v < 10000,
        decreases hi - i,
    {
        let c = b[i];
        if c < 48u8 || c > 57u8 {
            proof {
                assert(s[i - lo] == c);
                assert(!all_digits(s));
            }
            return None;
        }
        proof {
            lemma_digits_value_bound(s.take(i - lo));
            assert(s.take(i - lo + 1).drop_last() == s.take(i - lo));
            assert(all_digits(s.take(i - lo + 1))) by {
                assert forall|k: int| 0 <= k < s.take(i - lo + 1).len() implies is_digit(#[trigger] s.take(i - lo + 1)[k]) by {
                    if k < i - lo {
                        assert(s.take(i - lo + 1)[k] == s.take(i - lo)[k]);
                    }
                }
            }
        }
        v = v * 10 + (c - 48u8) as u32;
        proof {
            lemma_digits_value_bound(s.take(i - lo + 1));
        }
        i = i + 1;
    }
    proof {
        assert(s.take(hi - lo) == s);
    }
    Some(v)
}

/// (year, month, day) from the leading `YYYY-MM-DD` of a Todoist due
/// date, which may carry a `THH:MM:SS` tail; None on anything malformed.
pub fn parse_iso_date(s: &str) -> (r: Option<(i32, u32, u32)>)
    ensures
        match r {
            Some((y, m, d)) => iso_date(s.spec_bytes()) == Some((y as int, m as int, d as int)),
            None => iso_date(s.spec_bytes()) is None,
        },
{
    let b = s.as_bytes();
    if b.len() < 10 || b[4] != 45u8 || b[7] != 45u8 {
        return None;
    }
    let y = parse_field(b, 0, 4);
    let m = parse_field(b, 5, 7);
    let d = parse_field(b, 8, 10);
    match (y, m, d) {
        (Some(y), Some(m), Some(d)) => {
            if 1 <= m && m <= 12 && 1 <= d && d <= 31 {
                proof {
                    lemma_digits_value_bound(b@.subrange(0, 4));
                }
                Some((y as i32, m, d))
            } else {
                None
            }
        },
        _ => None,
    }
}

// ---------------------------------------------------------------------------
// Formatting
// ---------------------------------------------------------------------------

/// English three-letter month abbreviation, for months 1..=12.
pub open spec fn month_abbrev(m: int) -> Seq<char> {
    if m == 1 {
        "Jan"@
    } else if m == 2 {
        "Feb"@
    } else if m == 3 {
        "Mar"@
    } else if m == 4 {
        "Apr"@
    } else if m == 5 {
        "May"@
    } else if m == 6 {
        "Jun"@
    } else if m == 7 {
        "Jul"@
    } else if m == 8 {
        "Aug"@
    } else if m == 9 {
        "Sep"@
    } else if m == 10 {
        "Oct"@
    } else if m == 11 {
        "Nov"@
    } else {
        "Dec"@
    }
}

/// "Aug 5", or "Aug 5 2027" when the year isn't today's.
pub open spec fn due_text(due: (i32, u32, u32), today: (i32, u32, u32)) -> Seq<char> {
    let head = month_abbrev(due.1 as int) + " "@ + decimal(due.2 as nat);
    if due.0 == today.0 {
        head
    } else {
        head + " "@ + signed_decimal(due.0 as int)
    }
}

fn push_month(out: &mut Vec<char>, m: u32)
    requires
        1 <= m <= 12,
    ensures
        final(out)@ == old(out)@ + month_abbrev(m as int),
{
    if m == 1 {
        extend_str(out, "Jan");
    } else if m == 2 {
        extend_str(out, "Feb");
    } else if m == 3 {
        extend_str(out, "Mar");
    } else if m == 4 {
        extend_str(out, "Apr");
    } else if m == 5 {
        extend_str(out, "May");
    } else if m == 6 {
        extend_str(out, "Jun");
    } else if m == 7 {
        extend_str(out, "Jul");
    } else if m == 8 {
        extend_str(out, "Aug");
    } else if m == 9 {
        extend_str(out, "Sep");
    } else if m == 10 {
        extend_str(out, "Oct");
    } else if m == 11 {
        extend_str(out, "Nov");
    } else {
        extend_str(out, "Dec");
    }
}

/// Appends `due_text(due, today)` to `out`.
pub fn push_due_text(out: &mut Vec<char>, due: (i32, u32, u32), today: (i32, u32, u32))
    requires
        1 <= due.1 <= 12,
    ensures
        final(out)@ == old(out)@ + due_text(due, today),
{
    let (y, m, d) = due;
    push_month(out, m);
    extend_str(out, " ");
    push_decimal(out, d as u64);
    if y != today.0 {
        extend_str(out, " ");
        push_signed_decimal(out, y as i64);
    }
}


// ---------------------------------------------------------------------------
// The proleptic Gregorian calendar
// ---------------------------------------------------------------------------

pub open spec fn is_leap(y: int) -> bool {
    (y % 4 == 0 && y % 100 != 0) || y % 400 == 0
}

/// Number of days in month `m` (1..=12) of year `y`.
pub open spec fn month_len(y: int, m: int) -> int {
    if m == 2 {
        if is_leap(y) {
            29
        } else {
            28
        }
    } else if m == 4 || m == 6 || m == 9 || m == 11 {
        30
    } else {
        31
    }
}

/// Days in the months before month `m` of a common year.
pub open spec fn common_days_before_month(m: int) -> int {
    if m == 1 {
        0
    } else if m == 2 {
        31
    } else if m == 3 {
        59
    } else if m == 4 {
        90
    } else if m == 5 {
        120
    } else if m == 6 {
        151
    } else if m == 7 {
        181
    } else if m == 8 {
        212
    } else if m == 9 {
        243
    } else if m == 10 {
        273
    } else if m == 11 {
        304
    } else {
        334
    }
}

/// Days of year `y` before month `m` begins.
pub open spec fn days_before_month(y: int, m: int) -> int {
    common_days_before_month(m) + if m > 2 && is_leap(y) {
        1int
    } else {
        0int
    }
}

/// How many leap years `k` satisfy `0 < k <= y` (negative counts below
/// zero), so that `leaps_through(b) - leaps_through(a)` counts the leap
/// years in `a < k <= b`.
pub open spec fn leaps_through(y: int) -> int {
    y / 4 - y / 100 + y / 400
}

/// Days from 1970-01-01 to January 1st of year `y` (negative before 1970).
pub open spec fn days_before_year(y: int) -> int {
    365 * (y - 1970) + leaps_through(y - 1) - leaps_through(1969)
}

/// Days from 1970-01-01 to the date `y-m-d`.
pub open spec fn days_from_civil(y: int, m: int, d: int) -> int {
    days_before_year(y) + days_before_month(y, m) + d - 1
}

/// `y-m-d` names a day of the calendar.
pub open spec fn valid_date(y: int, m: int, d: int) -> bool {
    1 <= m <= 12 && 1 <= d <= month_len(y, m)
}

/// The date `date` (year taken to `i32` as `as` does) is `days` days
/// after 1970-01-01.
pub open spec fn is_civil_date_of(days: int, date: (i32, u32, u32)) -> bool {
    exists|y: int|
        valid_date(y, date.1 as int, date.2 as int) && days_from_civil(y, date.1 as int, date.2 as int)
            == days && #[trigger] (y as i32) == date.0
}

proof fn lemma_leaps_step(y: int)
    ensures
        leaps_through(y) == leaps_through(y - 1) + if is_leap(y) {
            1int
        } else {
            0int
        },
{
}

proof fn lemma_leaps_era(e: int, k: int)
    requires
        0 <= k < 400,
    ensures
        leaps_through(400 * e + k) == 97 * e + k / 4 - k / 100,
        is_leap(400 * e + k) == is_leap(k),
{
    assert((400 * e + k) / 4 == 100 * e + k / 4);
    assert((400 * e + k) / 100 == 4 * e + k / 100);
    assert((400 * e + k) / 400 == e);
    assert((400 * e + k) % 4 == k % 4);
    assert((400 * e + k) % 100 == k % 100);
    assert((400 * e + k) % 400 == k);
}

/// Within one 400-year era counted from March 1st of year 0: the year of
/// the era and the day of that (March-based) year.
pub open spec fn era_year(doe: int) -> int {
    (doe - doe / 1460 + doe / 36524 - doe / 146096) / 365
}

pub open spec fn era_year_start(yoe: int) -> int {
    365 * yoe + yoe / 4 - yoe / 100
}

proof fn lemma_era_year_bounds(doe: int)
    requires
        0 <= doe < 146097,
    ensures
        0 <= era_year(doe) < 400,
        0 <= doe - era_year_start(era_year(doe)),
        doe - era_year_start(era_year(doe)) < 365 + if (era_year(doe) + 1) % 4 == 0 && ((era_year(doe) + 1) % 100 != 0 || era_year(doe) + 1 == 400) {
            1int
        } else {
            0int
        },
{
}

proof fn lemma_leap_in_era(k: int)
    requires
        1 <= k <= 400,
    ensures
        is_leap(k) == (k % 4 == 0 && (k % 100 != 0 || k == 400)),
{
}

#[verifier::rlimit(30)]
proof fn lemma_era_year(doe: int)
    requires
        0 <= doe < 146097,
    ensures
        0 <= era_year(doe) < 400,
        0 <= doe - era_year_start(era_year(doe)),
        doe - era_year_start(era_year(doe)) < 365 + if is_leap(era_year(doe) + 1) {
            1int
        } else {
            0int
        },
{
    lemma_era_year_bounds(doe);
    lemma_leap_in_era(era_year(doe) + 1);
}

/// Days since 1970-01-01 of a date given by its era, its March-based
/// year of era, and its March-based day of year.
proof fn lemma_day_count(e: int, yoe: int, doy: int, mp: int, m: int, d: int)
    requires
        0 <= yoe < 400,
        0 <= mp < 12,
        1 <= m <= 12,
        m == if mp < 10 {
            mp + 3
        } else {
            mp - 9
        },
        d == doy - (153 * mp + 2) / 5 + 1,
        (if m >= 3 {
            common_days_before_month(m) - 59
        } else {
            common_days_before_month(m) + 306
        }) == (153 * mp + 2) / 5,
    ensures
        days_from_civil(400 * e + yoe + if m <= 2 {
            1int
        } else {
            0int
        }, m, d) + 719468 == 146097 * e + 365 * yoe + yoe / 4 - yoe / 100 + doy,
{
    let ym = 400 * e + yoe;
    lemma_leaps_era(e, yoe);
    lemma_leaps_step(ym);
    assert(leaps_through(1969) == 477);
    if m >= 3 {
        assert(days_before_month(ym, m) == common_days_before_month(m) + if is_leap(ym) {
            1int
        } else {
            0int
        });
        assert(days_from_civil(ym, m, d) == 365 * (ym - 1970) + leaps_through(ym - 1) - 477
            + days_before_month(ym, m) + d - 1);
    } else {
        assert(days_before_month(ym + 1, m) == common_days_before_month(m));
        assert(days_from_civil(ym + 1, m, d) == 365 * (ym + 1 - 1970) + leaps_through(ym) - 477
            + common_days_before_month(m) + d - 1);
    }
}

/// Day-of-year (March-based) to month and day.
proof fn lemma_march_day(doy: int, leap_feb: bool)
    requires
        0 <= doy < 365 + if leap_feb {
            1int
        } else {
            0int
        },
    ensures
        ({
            let mp = (5 * doy + 2) / 153;
            let d = doy - (153 * mp + 2) / 5 + 1;
            let m = if mp < 10 {
                mp + 3
            } else {
                mp - 9
            };
            &&& 0 <= mp < 12
            &&& 1 <= m <= 12
            &&& 1 <= d
            &&& d <= (if m == 2 {
                if leap_feb {
                    29int
                } else {
                    28int
                }
            } else if m == 4 || m == 6 || m == 9 || m == 11 {
                30int
            } else {
                31int
            })
            &&& (if m >= 3 {
                common_days_before_month(m) - 59
            } else {
                common_days_before_month(m) + 306
            }) == (153 * mp + 2) / 5
        }),
{
}

proof fn lemma_civil_parts(days: int, era: int, doe: int, yoe: int, doy: int, mp: int, m: int, d: int)
    requires
        era == (days + 719468) / 146097,
        doe == days + 719468 - era * 146097,
        0 <= doe < 146097,
        yoe == era_year(doe),
        0 <= yoe < 400,
        doy == doe - (365 * yoe + yoe / 4 - yoe / 100),
        0 <= doy < 365 + if is_leap(yoe + 1) {
            1int
        } else {
            0int
        },
        mp == (5 * doy + 2) / 153,
        0 <= mp < 12,
        d == doy - (153 * mp + 2) / 5 + 1,
        m == if mp < 10 {
            mp + 3
        } else {
            mp - 9
        },
        1 <= m <= 12,
        1 <= d,
        d <= (if m == 2 {
            if is_leap(yoe + 1) {
                29int
            } else {
                28int
            }
        } else if m == 4 || m == 6 || m == 9 || m == 11 {
            30int
        } else {
            31int
        }),
        (if m >= 3 {
            common_days_before_month(m) - 59
        } else {
            common_days_before_month(m) + 306
        }) == (153 * mp + 2) / 5,
    ensures
        ({
            let yy = yoe + era * 400 + if m <= 2 {
                1int
            } else {
                0int
            };
            valid_date(yy, m, d) && days_from_civil(yy, m, d) == days
        }),
{
    lemma_day_count(era, yoe, doy, mp, m, d);
    if yoe + 1 < 400 {
        lemma_leaps_era(era, yoe + 1);
    } else {
        lemma_leaps_era(era + 1, 0);
    }
    assert(400 * era + yoe + 1 == 400 * (era + 1) + 0 || yoe + 1 < 400);
}

/// Gregorian date of a day count since 1970-01-01 (Howard Hinnant's
/// `civil_from_days`).
#[verifier::rlimit(60)]
pub fn civil_from_days(days: i64) -> (r: (i32, u32, u32))
    requires
        i64::MIN + 146_096 - 719_468 <= days <= i64::MAX - 719_468,
    ensures
        is_civil_date_of(days as int, r),
{
    let z = days + 719_468;
    let era = if z >= 0 {
        z
    } else {
        z - 146_096
    } / 146_097;
    assert(era == (days + 719468) / 146097);
    assert(0 <= z - era * 146097 < 146097);
    let doe = z - era * 146_097;
    let yoe = (doe - doe / 1460 + doe / 36_524 - doe / 146_096) / 365;
    proof {
        lemma_era_year(doe as int);
    }
    assert(yoe == era_year(doe as int));
    let doy = doe - (365 * yoe + yoe / 4 - yoe / 100);
    proof {
        lemma_march_day(doy as int, is_leap(yoe + 1));
    }
    let mp = (5 * doy + 2) / 153;
    let d = (doy - (153 * mp + 2) / 5 + 1) as u32;
    let m = if mp < 10 {
        mp + 3
    } else {
        mp - 9
    } as u32;
    assert(era * 400 == era * 400);
    let y = yoe + era * 400 + if m <= 2 {
        1i64
    } else {
        0i64
    };
    proof {
        lemma_civil_parts(
            days as int,
            era as int,
            doe as int,
            yoe as int,
            doy as int,
            mp as int,
            m as int,
            d as int,
        );
        assert(valid_date(y as int, m as int, d as int));
        assert(days_from_civil(y as int, m as int, d as int) == days);
        assert((y as int) as i32 == y as i32);
    }
    (y as i32, m, d)
}

/// The UTC civil date of a clock reading given in whole seconds since
/// the Unix epoch: the date of the day count `secs / 86_400`.
pub fn date_of_unix_secs(secs: u64) -> (r: (i32, u32, u32))
    ensures
        is_civil_date_of((secs / 86_400) as int, r),
{
    let days = secs / 86_400;
    assert(days <= 0xffff_ffff_ffff);
    civil_from_days(days as i64)
}

/// The calendar day after `y-m-d`.
pub open spec fn next_day(y: int, m: int, d: int) -> (int, int, int) {
    if d < month_len(y, m) {
        (y, m, d + 1)
    } else if m < 12 {
        (y, m + 1, 1)
    } else {
        (y + 1, 1, 1)
    }
}

/// The day after a date is a date, one day count later.
proof fn lemma_next_day_count(y: int, m: int, d: int)
    requires
        valid_date(y, m, d),
    ensures
        valid_date(next_day(y, m, d).0, next_day(y, m, d).1, next_day(y, m, d).2),
        days_from_civil(next_day(y, m, d).0, next_day(y, m, d).1, next_day(y, m, d).2) == days_from_civil(y, m, d) + 1,
{
    lemma_leaps_step(y);
    assert(days_before_year(y + 1) == days_before_year(y) + 365 + if is_leap(y) {
        1int
    } else {
        0int
    });
}

/// Each year's days follow those of the year before: the start of year
/// `b` lies at least `365 * (b - a)` days after the start of year `a`.
proof fn lemma_year_starts_grow(a: int, b: int)
    requires
        a <= b,
    ensures
        days_before_year(b) - days_before_year(a) >= 365 * (b - a),
    decreases b - a,
{
    if a < b {
        lemma_year_starts_grow(a, b - 1);
        lemma_leaps_step(b - 1);
    }
}

/// A date's day count lies within its year, and after the start of its
/// month.
proof fn lemma_date_in_year(y: int, m: int, d: int)
    requires
        valid_date(y, m, d),
    ensures
        days_before_year(y) <= days_from_civil(y, m, d) < days_before_year(y + 1),
{
    lemma_leaps_step(y);
}

/// Two dates with the same day count are the same date.
proof fn lemma_days_from_civil_injective(y1: int, m1: int, d1: int, y2: int, m2: int, d2: int)
    requires
        valid_date(y1, m1, d1),
        valid_date(y2, m2, d2),
        days_from_civil(y1, m1, d1) == days_from_civil(y2, m2, d2),
    ensures
        y1 == y2 && m1 == m2 && d1 == d2,
{
    lemma_date_in_year(y1, m1, d1);
    lemma_date_in_year(y2, m2, d2);
    if y1 < y2 {
        lemma_year_starts_grow(y1 + 1, y2);
    } else if y2 < y1 {
        lemma_year_starts_grow(y2 + 1, y1);
    }
    assert(y1 == y2);
}

/// A date whose day count is within a hundred million days of the epoch
/// has a year that fits in `i32`.
proof fn lemma_year_in_range(y: int, m: int, d: int)
    requires
        valid_date(y, m, d),
        -100_000_000 <= days_from_civil(y, m, d) <= 100_000_000,
    ensures
        1970 - 300_000 <= y <= 1970 + 300_000,
{
    lemma_date_in_year(y, m, d);
    if y > 1970 + 300_000 {
        lemma_year_starts_grow(1970, y);
    }
    if y < 1970 - 300_000 {
        lemma_year_starts_grow(y + 1, 1970);
    }
}

/// The date of the next day count is the next calendar day: where
/// `is_civil_date_of` (the contract of `civil_from_days`) names `today`
/// for `days` and `tomorrow` for `days + 1`, `tomorrow` is the day after
/// `today` (day + 1, else the first of the next month, else January 1st
/// of the next year).
pub proof fn law_civil_next_day(days: int, today: (i32, u32, u32), tomorrow: (i32, u32, u32))
    requires
        -100_000_000 <= days < 100_000_000,
        is_civil_date_of(days, today),
        is_civil_date_of(days + 1, tomorrow),
    ensures
        (tomorrow.0 as int, tomorrow.1 as int, tomorrow.2 as int) == next_day(
            today.0 as int,
            today.1 as int,
            today.2 as int,
        ),
{
    let y1 = choose|y: int|
        valid_date(y, today.1 as int, today.2 as int) && days_from_civil(y, today.1 as int, today.2 as int) == days
            && #[trigger] (y as i32) == today.0;
    let y2 = choose|y: int|
        valid_date(y, tomorrow.1 as int, tomorrow.2 as int) && days_from_civil(y, tomorrow.1 as int, tomorrow.2 as int)
            == days + 1 && #[trigger] (y as i32) == tomorrow.0;
    lemma_year_in_range(y1, today.1 as int, today.2 as int);
    lemma_year_in_range(y2, tomorrow.1 as int, tomorrow.2 as int);
    assert(y1 as i32 == y1);
    assert(y2 as i32 == y2);
    lemma_next_day_count(y1, today.1 as int, today.2 as int);
    let n = next_day(y1, today.1 as int, today.2 as int);
    lemma_days_from_civil_injective(n.0, n.1, n.2, y2, tomorrow.1 as int, tomorrow.2 as int);
}

/// Within a year, a later month starts after every day of an earlier one.
proof fn lemma_month_starts_grow(y: int, m1: int, m2: int)
    requires
        1 <= m1 < m2 <= 12,
    ensures
        days_before_month(y, m1) + month_len(y, m1) <= days_before_month(y, m2),
{
}

/// Calendar order is day-count order: for two dates, the first comes
/// earlier (by year, then month, then day) exactly when its day count
/// since 1970-01-01 is smaller.
pub proof fn law_day_count_order(y1: int, m1: int, d1: int, y2: int, m2: int, d2: int)
    requires
        valid_date(y1, m1, d1),
        valid_date(y2, m2, d2),
    ensures
        (y1 < y2 || (y1 == y2 && (m1 < m2 || (m1 == m2 && d1 < d2)))) <==> days_from_civil(y1, m1, d1)
            < days_from_civil(y2, m2, d2),
{
    lemma_date_in_year(y1, m1, d1);
    lemma_date_in_year(y2, m2, d2);
    if y1 < y2 {
        lemma_year_starts_grow(y1 + 1, y2);
    } else if y2 < y1 {
        lemma_year_starts_grow(y2 + 1, y1);
    } else {
        if m1 < m2 {
            lemma_month_starts_grow(y1, m1, m2);
        } else if m2 < m1 {
            lemma_month_starts_grow(y1, m2, m1);
        }
    }
}

} // verus!
