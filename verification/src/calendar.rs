//! The time of day and the date, in UTC, from the seconds since 1970.

use crate::numbers::{decimal, digit, digits_value, push_padded, zero_padded};
use crate::text::string_of;
use vstd::prelude::*;

verus! {

/// Is there a 29th of February in a year of the Gregorian calendar?
pub open spec fn leap(y: int) -> bool {
    y % 4 == 0 && (y % 100 != 0 || y % 400 == 0)
}

/// How many days a month has.
pub open spec fn days_in(y: int, m: int) -> int {
    if m == 2 {
        if leap(y) {
            29
        } else {
            28
        }
    } else if m == 4 || m == 6 || m == 9 || m == 11 {
        30
    } else {
        31
    }
}

/// How many days of a year lie before a month.
pub open spec fn days_before(y: int, m: int) -> int
    decreases m,
{
    if m <= 1 {
        0
    } else {
        days_before(y, m - 1) + days_in(y, m - 1)
    }
}

/// How many days lie before a year, counted from the year 0: 365 for each year
/// before it and one more for each leap year among them.
pub open spec fn days_before_year(y: int) -> int {
    365 * y + (y + 3) / 4 - (y + 99) / 100 + (y + 399) / 400
}

/// A day of the calendar.
pub open spec fn is_date(y: int, m: int, d: int) -> bool {
    1 <= m <= 12 && 1 <= d <= days_in(y, m)
}

/// How many days after the first of January 1970 a day is.
pub open spec fn day_number(y: int, m: int, d: int) -> int {
    days_before_year(y) + days_before(y, m) + d - 1 - days_before_year(1970)
}

/// Counting one leap day per leap year counts the years' days.
pub proof fn lemma_year_length(y: int)
    requires
        y >= 0,
    ensures
        days_before_year(y + 1) == days_before_year(y) + (if leap(y) {
            366int
        } else {
            365int
        }),
{
}

proof fn lemma_days_before(y: int)
    ensures
        days_before(y, 1) == 0,
        days_before(y, 2) == 31,
        days_before(y, 3) == 31 + days_in(y, 2),
        days_before(y, 4) == 62 + days_in(y, 2),
        days_before(y, 5) == 92 + days_in(y, 2),
        days_before(y, 6) == 123 + days_in(y, 2),
        days_before(y, 7) == 153 + days_in(y, 2),
        days_before(y, 8) == 184 + days_in(y, 2),
        days_before(y, 9) == 215 + days_in(y, 2),
        days_before(y, 10) == 245 + days_in(y, 2),
        days_before(y, 11) == 276 + days_in(y, 2),
        days_before(y, 12) == 306 + days_in(y, 2),
{
    reveal_with_fuel(days_before, 13);
}

/// Every day has one date: another date is another day.
pub proof fn lemma_date_is_unique(y: int, m: int, d: int, y2: int, m2: int, d2: int)
    requires
        0 <= y,
        0 <= y2,
        is_date(y, m, d),
        is_date(y2, m2, d2),
        day_number(y, m, d) == day_number(y2, m2, d2),
    ensures
        y == y2,
        m == m2,
        d == d2,
{
    lemma_days_before(y);
    lemma_days_before(y2);
    lemma_years_apart(y, y2);
    lemma_years_apart(y2, y);
    lemma_year_length(y);
    lemma_year_length(y2);
}

proof fn lemma_years_apart(y: int, y2: int)
    requires
        0 <= y,
    ensures
        y < y2 ==> days_before_year(y + 1) <= days_before_year(y2),
    decreases y2 - y,
{
    if y + 1 < y2 {
        lemma_years_apart(y, y2 - 1);
        lemma_year_length(y2 - 1);
    }
}

/// The year of a 400-year cycle that a day lies in, as whole centuries, whole
/// four-year stretches and years, and the day of that year. Years begin in March
/// here, so that a leap day is the last of its year.
fn year_of(doe: u64) -> (r: (u64, u64, u64, u64))
    requires
        doe < 146097,
    ensures
        r.0 <= 3,
        r.1 <= 24,
        r.2 <= 3,
        doe == 36524 * r.0 + 1461 * r.1 + 365 * r.2 + r.3,
        r.3 <= 365,
        r.3 == 365 ==> r.2 == 3 && (r.1 < 24 || r.0 == 3),
{
    let c: u64 = if doe >= 109572 {
        3
    } else {
        doe / 36524
    };
    let r: u64 = doe - c * 36524;
    let q: u64 = r / 1461;
    let s: u64 = r - q * 1461;
    let a: u64 = if s >= 1095 {
        3
    } else {
        s / 365
    };
    (c, q, a, s - a * 365)
}

/// How many days of a year that begins in March lie before its `k`th month.
spec fn march_days(k: int) -> int {
    (153 * k + 2) / 5
}

/// The month, counted from March, and the day of it.
fn month_of(doy: u64) -> (r: (u64, u64))
    requires
        doy <= 365,
    ensures
        r.0 <= 11,
        1 <= r.1 <= march_days(r.0 + 1) - march_days(r.0 as int),
        doy == march_days(r.0 as int) + r.1 - 1,
{
    let mp: u64 = (5 * doy + 2) / 153;
    let d: u64 = doy - (153 * mp + 2) / 5 + 1;
    (mp, d)
}

proof fn lemma_march_days(y: int, k: int)
    requires
        0 <= k <= 11,
    ensures
        k < 10 ==> days_before(y, k + 3) == days_before(y, 3) + march_days(k) && days_in(y, k + 3)
            == march_days(k + 1) - march_days(k),
        k == 10 ==> march_days(k) == 306 && march_days(k + 1) == 337,
        k == 11 ==> march_days(k) == 337,
{
    lemma_days_before(y);
}

/// The date of a day after the first of January 1970.
fn date_of(days: u64) -> (r: (u64, u64, u64))
    requires
        days <= 0xffff_ffff_ffff,
    ensures
        is_date(r.0 as int, r.1 as int, r.2 as int),
        day_number(r.0 as int, r.1 as int, r.2 as int) == days,
{
    let z: u64 = days + 719468;
    let era: u64 = z / 146097;
    let (c, q, a, doy) = year_of(z % 146097);
    let y: u64 = era * 400 + c * 100 + q * 4 + a;
    let (mp, d) = month_of(doy);
    proof {
        lemma_cycle(era as int, c as int, q as int, a as int);
        lemma_march(y as int);
        lemma_march_days(y as int, mp as int);
        lemma_days_before(y + 1);
        assert(z == 365 * y + y / 4 - y / 100 + y / 400 + doy);
        assert(days_before_year(1970) == 719528);
    }
    if mp < 10 {
        (y, mp + 3, d)
    } else {
        (y + 1, mp - 9, d)
    }
}

proof fn lemma_cycle(era: int, c: int, q: int, a: int)
    requires
        0 <= era,
        0 <= c <= 3,
        0 <= q <= 24,
        0 <= a <= 3,
    ensures
        ({
            let y = era * 400 + c * 100 + q * 4 + a;
            &&& y / 4 == era * 100 + c * 25 + q
            &&& y / 100 == era * 4 + c
            &&& y / 400 == era
            &&& leap(y + 1) <==> a == 3 && (q < 24 || c == 3)
        }),
{
}

/// The first of March of a year, in days from the first of March of the year 0.
proof fn lemma_march(y: int)
    requires
        0 <= y,
    ensures
        days_before_year(y) + days_before(y, 3) == 60 + 365 * y + y / 4 - y / 100 + y / 400,
        days_before_year(y + 1) == 366 + 365 * y + y / 4 - y / 100 + y / 400,
{
    lemma_days_before(y);
}

/// A time as it stands in the name of a file: `YYYY-MM-DD_HH-MM-SS`.
pub open spec fn stamp(y: int, m: int, d: int, secs: int) -> Seq<char> {
    zero_padded(y as nat, 4) + seq!['-'] + zero_padded(m as nat, 2) + seq!['-'] + zero_padded(
        d as nat,
        2,
    ) + seq!['_'] + zero_padded((secs / 3600) as nat, 2) + seq!['-'] + zero_padded(
        (secs % 3600 / 60) as nat,
        2,
    ) + seq!['-'] + zero_padded((secs % 60) as nat, 2)
}

/// `t` is the date and time of day of the moment that many seconds after the start
/// of 1970.
pub open spec fn is_stamp_of(t: Seq<char>, secs: u64) -> bool {
    exists|y: int, m: int, d: int|
        0 <= y && is_date(y, m, d) && day_number(y, m, d) == secs / 86400 && t
            == #[trigger] stamp(y, m, d, (secs % 86400) as int)
}

/// The date and time of day of a moment, given in seconds since 1970.
pub fn timestamp_of(secs: u64) -> (t: String)
    ensures
        is_stamp_of(t@, secs),
{
    let days: u64 = secs / 86400;
    let tod: u64 = secs % 86400;
    let (y, m, d) = date_of(days);
    let mut out: Vec<char> = Vec::new();
    push_padded(&mut out, y, 4);
    out.push('-');
    push_padded(&mut out, m, 2);
    out.push('-');
    push_padded(&mut out, d, 2);
    out.push('_');
    push_padded(&mut out, tod / 3600, 2);
    out.push('-');
    push_padded(&mut out, tod % 3600 / 60, 2);
    out.push('-');
    push_padded(&mut out, tod % 60, 2);
    assert(out@ =~= stamp(y as int, m as int, d as int, tod as int));
    string_of(out.as_slice())
}

proof fn lemma_two_digits(n: int)
    requires
        0 <= n < 100,
    ensures
        zero_padded(n as nat, 2) == seq![digit(n / 10), digit(n % 10)],
{
    reveal_with_fuel(decimal, 3);
    assert(zero_padded(n as nat, 2) =~= seq![digit(n / 10), digit(n % 10)]);
}

proof fn lemma_four_digits(n: int)
    requires
        0 <= n < 10000,
    ensures
        zero_padded(n as nat, 4) == seq![
            digit(n / 1000),
            digit(n / 100 % 10),
            digit(n / 10 % 10),
            digit(n % 10),
        ],
{
    let all = seq![digit(n / 1000), digit(n / 100 % 10), digit(n / 10 % 10), digit(n % 10)];
    reveal_with_fuel(decimal, 5);
    if n < 10 {
        assert(decimal(n as nat) =~= seq![digit(n)]);
    } else if n < 100 {
        assert(decimal(n as nat) =~= seq![digit(n / 10), digit(n % 10)]);
    } else if n < 1000 {
        assert(decimal(n as nat) =~= seq![digit(n / 100), digit(n / 10 % 10), digit(n % 10)]);
    } else {
        assert(decimal(n as nat) =~= all);
    }
    assert(zero_padded(n as nat, 4) =~= all);
}

/// Is a character a digit?
pub open spec fn is_digit(c: char) -> bool {
    '0' <= c <= '9'
}

/// The date of a stamp, up to the time of day.
spec fn date_part(y: int, m: int, d: int) -> Seq<char> {
    zero_padded(y as nat, 4) + seq!['-'] + zero_padded(m as nat, 2) + seq!['-'] + zero_padded(
        d as nat,
        2,
    ) + seq!['_']
}

/// The time of day of a stamp.
spec fn time_part(secs: int) -> Seq<char> {
    zero_padded((secs / 3600) as nat, 2) + seq!['-'] + zero_padded(
        (secs % 3600 / 60) as nat,
        2,
    ) + seq!['-'] + zero_padded((secs % 60) as nat, 2)
}

proof fn lemma_date_part(y: int, m: int, d: int)
    requires
        0 <= y <= 9999,
        is_date(y, m, d),
    ensures
        date_part(y, m, d) == seq![
            digit(y / 1000),
            digit(y / 100 % 10),
            digit(y / 10 % 10),
            digit(y % 10),
            '-',
            digit(m / 10),
            digit(m % 10),
            '-',
            digit(d / 10),
            digit(d % 10),
            '_',
        ],
{
    lemma_four_digits(y);
    lemma_two_digits(m);
    lemma_two_digits(d);
    assert(date_part(y, m, d) =~= seq![
        digit(y / 1000),
        digit(y / 100 % 10),
        digit(y / 10 % 10),
        digit(y % 10),
        '-',
        digit(m / 10),
        digit(m % 10),
        '-',
        digit(d / 10),
        digit(d % 10),
        '_',
    ]);
}

proof fn lemma_time_part(secs: int)
    requires
        0 <= secs < 86400,
    ensures
        time_part(secs) == seq![
            digit(secs / 3600 / 10),
            digit(secs / 3600 % 10),
            '-',
            digit(secs % 3600 / 60 / 10),
            digit(secs % 3600 / 60 % 10),
            '-',
            digit(secs % 60 / 10),
            digit(secs % 60 % 10),
        ],
{
    lemma_two_digits(secs / 3600);
    lemma_two_digits(secs % 3600 / 60);
    lemma_two_digits(secs % 60);
    assert(time_part(secs) =~= seq![
        digit(secs / 3600 / 10),
        digit(secs / 3600 % 10),
        '-',
        digit(secs % 3600 / 60 / 10),
        digit(secs % 3600 / 60 % 10),
        '-',
        digit(secs % 60 / 10),
        digit(secs % 60 % 10),
    ]);
}

proof fn lemma_stamp_parts(y: int, m: int, d: int, secs: int)
    ensures
        stamp(y, m, d, secs) == date_part(y, m, d) + time_part(secs),
{
    assert(stamp(y, m, d, secs) =~= date_part(y, m, d) + time_part(secs));
}

/// The four digits of a year are its number.
proof fn lemma_year_value(y: int)
    requires
        0 <= y <= 9999,
    ensures
        digits_value(
            seq![digit(y / 1000), digit(y / 100 % 10), digit(y / 10 % 10), digit(y % 10)],
        ) == Some(y),
{
    let s = seq![digit(y / 1000), digit(y / 100 % 10), digit(y / 10 % 10), digit(y % 10)];
    let s3 = seq![digit(y / 1000), digit(y / 100 % 10), digit(y / 10 % 10)];
    let s2 = seq![digit(y / 1000), digit(y / 100 % 10)];
    let s1 = seq![digit(y / 1000)];
    assert(s.drop_last() =~= s3);
    assert(s3.drop_last() =~= s2);
    assert(s2.drop_last() =~= s1);
    assert(s1.drop_last() =~= Seq::empty());
    assert(digits_value(Seq::<char>::empty()) == Some(0int));
    assert(digits_value(s1) == Some(y / 1000));
    assert(digits_value(s2) == Some(10 * (y / 1000) + y / 100 % 10));
    assert(digits_value(s3) == Some(10 * (10 * (y / 1000) + y / 100 % 10) + y / 10 % 10));
}

/// Is there a separator at this place of a stamp?
pub open spec fn is_separator(k: int) -> bool {
    k == 4 || k == 7 || k == 10 || k == 13 || k == 16
}

/// Up to the year 9999 a stamp is 19 characters long, with the separators at their
/// places, digits elsewhere, and the year in front.
pub proof fn lemma_stamp_shape(y: int, m: int, d: int, secs: int)
    requires
        0 <= y <= 9999,
        is_date(y, m, d),
        0 <= secs < 86400,
    ensures
        stamp(y, m, d, secs).len() == 19,
        stamp(y, m, d, secs)[4] == '-',
        stamp(y, m, d, secs)[7] == '-',
        stamp(y, m, d, secs)[10] == '_',
        stamp(y, m, d, secs)[13] == '-',
        stamp(y, m, d, secs)[16] == '-',
        forall|k: int|
            0 <= k < 19 && !is_separator(k) ==> is_digit(#[trigger] stamp(y, m, d, secs)[k]),
        digits_value(stamp(y, m, d, secs).take(4)) == Some(y),
{
    lemma_stamp_parts(y, m, d, secs);
    lemma_date_part(y, m, d);
    lemma_time_part(secs);
    lemma_year_value(y);
    assert(stamp(y, m, d, secs).take(4) =~= seq![
        digit(y / 1000),
        digit(y / 100 % 10),
        digit(y / 10 % 10),
        digit(y % 10),
    ]);
}

/// The first moment of the year 10000, in seconds since 1970.
pub const YEAR_10000: u64 = 253_402_300_800;

/// The first moment of the year 2026, in seconds since 1970.
pub const YEAR_2026: u64 = 1_767_225_600;

proof fn lemma_year_bounds(y: int, m: int, d: int, secs: u64)
    requires
        0 <= y,
        is_date(y, m, d),
        day_number(y, m, d) == secs / 86400,
    ensures
        secs < YEAR_10000 ==> y <= 9999,
        secs >= YEAR_2026 ==> y >= 2026,
{
    lemma_days_before(y);
    lemma_year_length(y);
    lemma_years_apart(9999, y);
    lemma_years_apart(y, 2026);
    assert(days_before_year(1970) == 719528);
    assert(days_before_year(2026) == 739982);
    assert(days_before_year(10000) == 3652425);
}

/// Up to the year 9999 the stamp of a moment is 19 characters long, `-` and `_` at their
/// places and digits elsewhere; from 2026 on its year is 2026 or later.
pub proof fn lemma_stamp_of_moment(t: Seq<char>, secs: u64)
    requires
        secs < YEAR_10000,
        is_stamp_of(t, secs),
    ensures
        t.len() == 19,
        t[4] == '-' && t[7] == '-' && t[10] == '_' && t[13] == '-' && t[16] == '-',
        forall|k: int| 0 <= k < 19 && !is_separator(k) ==> is_digit(#[trigger] t[k]),
        digits_value(t.take(4)) is Some,
        secs >= YEAR_2026 ==> digits_value(t.take(4))->0 >= 2026,
{
    let (y, m, d) = choose|y: int, m: int, d: int|
        0 <= y && is_date(y, m, d) && day_number(y, m, d) == secs / 86400 && t
            == #[trigger] stamp(y, m, d, (secs % 86400) as int);
    lemma_year_bounds(y, m, d, secs);
    lemma_stamp_shape(y, m, d, (secs % 86400) as int);
}

/// Two texts differ at `i` for the first time, and the one is smaller there.
pub open spec fn smaller_at(a: Seq<char>, b: Seq<char>, i: int) -> bool {
    &&& 0 <= i < a.len()
    &&& i < b.len()
    &&& a.take(i) == b.take(i)
    &&& a[i] < b[i]
}

/// One text comes before another in the order of texts.
pub open spec fn sorts_before(a: Seq<char>, b: Seq<char>) -> bool {
    ||| exists|i: int| smaller_at(a, b, i)
    ||| a.len() < b.len() && b.take(a.len() as int) == a
}

/// What differs in the middle decides, if what stands before is the same.
proof fn lemma_middle_decides(
    a: Seq<char>,
    b: Seq<char>,
    before: Seq<char>,
    x: Seq<char>,
    y: Seq<char>,
    i: int,
)
    requires
        before.len() + x.len() <= a.len(),
        before.len() + y.len() <= b.len(),
        a.take((before.len() + x.len()) as int) == before + x,
        b.take((before.len() + y.len()) as int) == before + y,
        smaller_at(x, y, i),
    ensures
        sorts_before(a, b),
{
    let n = before.len() as int;
    let (p, q) = (before + x, before + y);
    assert(a[n + i] == p[n + i]);
    assert(b[n + i] == q[n + i]);
    assert forall|k: int| 0 <= k < n + i implies a[k] == b[k] by {
        assert(a[k] == p[k] && b[k] == q[k]);
        if k >= n {
            assert(x.take(i)[k - n] == y.take(i)[k - n]);
        }
    }
    assert(a.take(n + i) =~= b.take(n + i));
    assert(smaller_at(a, b, n + i));
}

proof fn lemma_two_digits_sort(n: int, k: int) -> (i: int)
    requires
        0 <= n < k < 100,
    ensures
        smaller_at(zero_padded(n as nat, 2), zero_padded(k as nat, 2), i),
{
    lemma_two_digits(n);
    lemma_two_digits(k);
    let (x, y) = (zero_padded(n as nat, 2), zero_padded(k as nat, 2));
    if n / 10 < k / 10 {
        assert(x.take(0) =~= y.take(0));
        0
    } else {
        assert(x.take(1) =~= y.take(1));
        1
    }
}

/// Numbers of four digits are ordered as their halves are.
proof fn lemma_four_digits_sort(n: int, k: int) -> (i: int)
    requires
        0 <= n < k < 10000,
    ensures
        smaller_at(zero_padded(n as nat, 4), zero_padded(k as nat, 4), i),
{
    let (x, y) = (zero_padded(n as nat, 4), zero_padded(k as nat, 4));
    lemma_halves(n);
    lemma_halves(k);
    let (p, q) = (zero_padded((n / 100) as nat, 2), zero_padded((k / 100) as nat, 2));
    let (p2, q2) = (zero_padded((n % 100) as nat, 2), zero_padded((k % 100) as nat, 2));
    if n / 100 < k / 100 {
        let i = lemma_two_digits_sort(n / 100, k / 100);
        assert(x.take(i) =~= p.take(i));
        assert(y.take(i) =~= q.take(i));
        i
    } else {
        let i = lemma_two_digits_sort(n % 100, k % 100);
        assert(x.take(2 + i) =~= p + p2.take(i));
        assert(y.take(2 + i) =~= q + q2.take(i));
        2 + i
    }
}

proof fn lemma_halves(n: int)
    requires
        0 <= n < 10000,
    ensures
        zero_padded(n as nat, 4) == zero_padded((n / 100) as nat, 2) + zero_padded(
            (n % 100) as nat,
            2,
        ),
        zero_padded((n / 100) as nat, 2).len() == 2,
        zero_padded((n % 100) as nat, 2).len() == 2,
{
    lemma_four_digits(n);
    lemma_two_digits(n / 100);
    lemma_two_digits(n % 100);
    assert(n / 100 / 10 == n / 1000);
    assert(n % 100 / 10 == n / 10 % 10);
    assert(n % 100 % 10 == n % 10);
    assert(zero_padded(n as nat, 4) =~= zero_padded((n / 100) as nat, 2) + zero_padded(
        (n % 100) as nat,
        2,
    ));
}

/// A later day has a later year, or a later month of it, or is later in the month.
proof fn lemma_later_date(y: int, m: int, d: int, y2: int, m2: int, d2: int)
    requires
        0 <= y,
        0 <= y2,
        is_date(y, m, d),
        is_date(y2, m2, d2),
        day_number(y, m, d) < day_number(y2, m2, d2),
    ensures
        y < y2 || (y == y2 && (m < m2 || (m == m2 && d < d2))),
{
    lemma_days_before(y);
    lemma_days_before(y2);
    lemma_years_apart(y2, y);
    lemma_year_length(y2);
}

proof fn lemma_widths(y: int, m: int, d: int)
    requires
        0 <= y <= 9999,
        is_date(y, m, d),
    ensures
        zero_padded(y as nat, 4).len() == 4,
        zero_padded(m as nat, 2).len() == 2,
        zero_padded(d as nat, 2).len() == 2,
{
    lemma_four_digits(y);
    lemma_two_digits(m);
    lemma_two_digits(d);
}

/// A later date is a later text, whatever the time of day.
proof fn lemma_dates_sort(y: int, m: int, d: int, s: int, y2: int, m2: int, d2: int, s2: int)
    requires
        0 <= y <= 9999,
        0 <= y2 <= 9999,
        is_date(y, m, d),
        is_date(y2, m2, d2),
        day_number(y, m, d) < day_number(y2, m2, d2),
    ensures
        sorts_before(stamp(y, m, d, s), stamp(y2, m2, d2, s2)),
{
    lemma_later_date(y, m, d, y2, m2, d2);
    lemma_stamp_parts(y, m, d, s);
    lemma_stamp_parts(y2, m2, d2, s2);
    lemma_widths(y, m, d);
    lemma_widths(y2, m2, d2);
    let (a, b) = (stamp(y, m, d, s), stamp(y2, m2, d2, s2));
    let none = Seq::<char>::empty();
    let year = zero_padded(y as nat, 4) + seq!['-'];
    let month = year + zero_padded(m as nat, 2) + seq!['-'];
    if y != y2 {
        let i = lemma_four_digits_sort(y, y2);
        let (p, q) = (zero_padded(y as nat, 4), zero_padded(y2 as nat, 4));
        assert(a.take(4) =~= none + p);
        assert(b.take(4) =~= none + q);
        lemma_middle_decides(a, b, none, p, q, i);
    } else if m != m2 {
        let i = lemma_two_digits_sort(m, m2);
        let (p, q) = (zero_padded(m as nat, 2), zero_padded(m2 as nat, 2));
        assert(a.take(7) =~= year + p);
        assert(b.take(7) =~= year + q);
        lemma_middle_decides(a, b, year, p, q, i);
    } else {
        let i = lemma_two_digits_sort(d, d2);
        let (p, q) = (zero_padded(d as nat, 2), zero_padded(d2 as nat, 2));
        assert(a.take(10) =~= month + p);
        assert(b.take(10) =~= month + q);
        lemma_middle_decides(a, b, month, p, q, i);
    }
}

/// On one day a later time is a later text.
proof fn lemma_times_sort(y: int, m: int, d: int, s: int, s2: int)
    requires
        0 <= y <= 9999,
        is_date(y, m, d),
        0 <= s < s2 < 86400,
    ensures
        sorts_before(stamp(y, m, d, s), stamp(y, m, d, s2)),
{
    lemma_stamp_parts(y, m, d, s);
    lemma_stamp_parts(y, m, d, s2);
    lemma_date_part(y, m, d);
    let (h, h2) = (s / 3600, s2 / 3600);
    let (n, n2) = (s % 3600 / 60, s2 % 3600 / 60);
    let (k, k2) = (s % 60, s2 % 60);
    lemma_two_digits(h);
    lemma_two_digits(h2);
    lemma_two_digits(n);
    lemma_two_digits(n2);
    lemma_two_digits(k);
    lemma_two_digits(k2);
    let (a, b) = (stamp(y, m, d, s), stamp(y, m, d, s2));
    let date = date_part(y, m, d);
    let hour = date + zero_padded(h as nat, 2) + seq!['-'];
    let minute = hour + zero_padded(n as nat, 2) + seq!['-'];
    if h != h2 {
        assert(h < h2);
        let i = lemma_two_digits_sort(h, h2);
        let (p, q) = (zero_padded(h as nat, 2), zero_padded(h2 as nat, 2));
        assert(a.take(13) =~= date + p);
        assert(b.take(13) =~= date + q);
        lemma_middle_decides(a, b, date, p, q, i);
    } else if n != n2 {
        assert(n < n2);
        let i = lemma_two_digits_sort(n, n2);
        let (p, q) = (zero_padded(n as nat, 2), zero_padded(n2 as nat, 2));
        assert(a.take(16) =~= hour + p);
        assert(b.take(16) =~= hour + q);
        lemma_middle_decides(a, b, hour, p, q, i);
    } else {
        assert(k < k2);
        let i = lemma_two_digits_sort(k, k2);
        let (p, q) = (zero_padded(k as nat, 2), zero_padded(k2 as nat, 2));
        assert(a.take(19) =~= minute + p);
        assert(b.take(19) =~= minute + q);
        lemma_middle_decides(a, b, minute, p, q, i);
    }
}

/// A later moment has a later stamp, in the order of texts, up to the year 9999.
pub proof fn lemma_later_sorts_later(t: Seq<char>, secs: u64, t2: Seq<char>, secs2: u64)
    requires
        secs < secs2 < YEAR_10000,
        is_stamp_of(t, secs),
        is_stamp_of(t2, secs2),
    ensures
        sorts_before(t, t2),
{
    let (y, m, d) = choose|y: int, m: int, d: int|
        0 <= y && is_date(y, m, d) && day_number(y, m, d) == secs / 86400 && t
            == #[trigger] stamp(y, m, d, (secs % 86400) as int);
    let (y2, m2, d2) = choose|y: int, m: int, d: int|
        0 <= y && is_date(y, m, d) && day_number(y, m, d) == secs2 / 86400 && t2
            == #[trigger] stamp(y, m, d, (secs2 % 86400) as int);
    lemma_year_bounds(y, m, d, secs);
    lemma_year_bounds(y2, m2, d2, secs2);
    let (s, s2) = ((secs % 86400) as int, (secs2 % 86400) as int);
    if secs / 86400 < secs2 / 86400 {
        lemma_dates_sort(y, m, d, s, y2, m2, d2, s2);
    } else {
        lemma_date_is_unique(y, m, d, y2, m2, d2);
        lemma_times_sort(y, m, d, s, s2);
    }
}

/// `SystemTime::elapsed` of `UNIX_EPOCH`: the seconds since the start of 1970 by the
/// machine's clock, nothing where the clock stands before it. Nothing is claimed of
/// the value.
#[verifier::external_body]
fn seconds_now() -> (secs: Option<u64>) {
    std::time::UNIX_EPOCH.elapsed().ok().map(|d| d.as_secs())
}

/// The present date and time, in UTC.
pub fn timestamp() -> (t: String)
    ensures
        exists|secs: u64| #[trigger] is_stamp_of(t@, secs),
{
    let secs: u64 = match seconds_now() {
        Some(s) => s,
        None => 0,
    };
    timestamp_of(secs)
}

/// The days of the months: 30 in April, June, September and November, 31 in the others,
/// and in February 28, or 29 in a year that 4 divides, unless 100 does and 400 does not.
pub proof fn lemma_days_of_months(y: int)
    ensures
        y % 4 != 0 ==> days_in(y, 2) == 28,
        y % 4 == 0 && y % 100 != 0 ==> days_in(y, 2) == 29,
        y % 100 == 0 && y % 400 != 0 ==> days_in(y, 2) == 28,
        y % 400 == 0 ==> days_in(y, 2) == 29,
        days_in(y, 4) == 30 && days_in(y, 6) == 30 && days_in(y, 9) == 30 && days_in(y, 11) == 30,
        days_in(y, 1) == 31 && days_in(y, 3) == 31 && days_in(y, 5) == 31 && days_in(y, 7) == 31
            && days_in(y, 8) == 31 && days_in(y, 10) == 31 && days_in(y, 12) == 31,
{
}

/// Days are counted one by one from the first of January 1970: behind the last of a month
/// comes the first of the next, and behind the last of December that of January.
pub proof fn lemma_days_are_counted(y: int, m: int, d: int)
    requires
        0 <= y,
        1 <= m <= 12,
        1 <= d <= days_in(y, m),
    ensures
        is_date(y, m, d),
        day_number(1970, 1, 1) == 0,
        d < days_in(y, m) ==> is_date(y, m, d + 1) && day_number(y, m, d + 1) == day_number(y, m, d)
            + 1,
        d == days_in(y, m) && m < 12 ==> is_date(y, m + 1, 1) && day_number(y, m + 1, 1)
            == day_number(y, m, d) + 1,
        d == days_in(y, m) && m == 12 ==> is_date(y + 1, 1, 1) && day_number(y + 1, 1, 1)
            == day_number(y, m, d) + 1,
{
    lemma_days_before(y);
    lemma_days_before(y + 1);
    lemma_days_before(1970);
    lemma_year_length(y);
}

proof fn lemma_two_digits_value(n: int)
    requires
        0 <= n < 100,
    ensures
        digits_value(seq![digit(n / 10), digit(n % 10)]) == Some(n),
{
    let s = seq![digit(n / 10), digit(n % 10)];
    let s1 = seq![digit(n / 10)];
    assert(s.drop_last() =~= s1);
    assert(s1.drop_last() =~= Seq::empty());
    assert(digits_value(Seq::<char>::empty()) == Some(0int));
    assert(digits_value(s1) == Some(n / 10));
}

/// The stamp of a moment reads as its date and its time of day: the six numbers in it are
/// those of a date that many days after the start of 1970, and of the hours, minutes and
/// seconds gone of that day.
pub proof fn lemma_stamp_is_read(t: Seq<char>, secs: u64)
    requires
        secs < 253_402_300_800,
        is_stamp_of(t, secs),
    ensures
        ({
            let year = digits_value(t.subrange(0, 4));
            let month = digits_value(t.subrange(5, 7));
            let day = digits_value(t.subrange(8, 10));
            let hour = digits_value(t.subrange(11, 13));
            let minute = digits_value(t.subrange(14, 16));
            let second = digits_value(t.subrange(17, 19));
            &&& year is Some && month is Some && day is Some
            &&& hour is Some && minute is Some && second is Some
            &&& 1 <= month->0 <= 12 && 1 <= day->0 <= days_in(year->0, month->0)
            &&& 0 <= hour->0 < 24 && 0 <= minute->0 < 60 && 0 <= second->0 < 60
            &&& secs == 86400 * day_number(year->0, month->0, day->0) + 3600 * hour->0 + 60
                * minute->0 + second->0
        }),
{
    let (y, m, d) = choose|y: int, m: int, d: int|
        0 <= y && is_date(y, m, d) && day_number(y, m, d) == secs / 86400 && t
            == #[trigger] stamp(y, m, d, (secs % 86400) as int);
    let s = (secs % 86400) as int;
    lemma_year_bounds(y, m, d, secs);
    lemma_date_numbers(y, m, d, s);
    lemma_time_numbers(y, m, d, s);
}

proof fn lemma_date_numbers(y: int, m: int, d: int, s: int)
    requires
        0 <= y <= 9999,
        is_date(y, m, d),
        0 <= s < 86400,
    ensures
        digits_value(stamp(y, m, d, s).subrange(0, 4)) == Some(y),
        digits_value(stamp(y, m, d, s).subrange(5, 7)) == Some(m),
        digits_value(stamp(y, m, d, s).subrange(8, 10)) == Some(d),
{
    let t = stamp(y, m, d, s);
    let p = date_part(y, m, d);
    lemma_stamp_parts(y, m, d, s);
    lemma_date_part(y, m, d);
    lemma_year_value(y);
    lemma_two_digits_value(m);
    lemma_two_digits_value(d);
    assert(p.len() == 11);
    assert(t.subrange(0, 4) =~= p.subrange(0, 4));
    assert(t.subrange(5, 7) =~= p.subrange(5, 7));
    assert(t.subrange(8, 10) =~= p.subrange(8, 10));
    assert(p.subrange(0, 4) =~= seq![
        digit(y / 1000),
        digit(y / 100 % 10),
        digit(y / 10 % 10),
        digit(y % 10),
    ]);
    assert(p.subrange(5, 7) =~= seq![digit(m / 10), digit(m % 10)]);
    assert(p.subrange(8, 10) =~= seq![digit(d / 10), digit(d % 10)]);
}

proof fn lemma_time_numbers(y: int, m: int, d: int, s: int)
    requires
        0 <= y <= 9999,
        is_date(y, m, d),
        0 <= s < 86400,
    ensures
        digits_value(stamp(y, m, d, s).subrange(11, 13)) == Some(s / 3600),
        digits_value(stamp(y, m, d, s).subrange(14, 16)) == Some(s % 3600 / 60),
        digits_value(stamp(y, m, d, s).subrange(17, 19)) == Some(s % 60),
{
    let t = stamp(y, m, d, s);
    let p = time_part(s);
    lemma_stamp_parts(y, m, d, s);
    assert(date_part(y, m, d).len() == 11) by {
        lemma_date_part(y, m, d);
    }
    lemma_time_part(s);
    lemma_two_digits_value(s / 3600);
    lemma_two_digits_value(s % 3600 / 60);
    lemma_two_digits_value(s % 60);
    assert(p.len() == 8);
    assert(t.subrange(11, 13) =~= p.subrange(0, 2));
    assert(t.subrange(14, 16) =~= p.subrange(3, 5));
    assert(t.subrange(17, 19) =~= p.subrange(6, 8));
    assert(p.subrange(0, 2) =~= seq![digit(s / 3600 / 10), digit(s / 3600 % 10)]);
    assert(p.subrange(3, 5) =~= seq![digit(s % 3600 / 60 / 10), digit(s % 3600 / 60 % 10)]);
    assert(p.subrange(6, 8) =~= seq![digit(s % 60 / 10), digit(s % 60 % 10)]);
}

} // verus!
