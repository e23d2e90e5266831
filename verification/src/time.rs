//! Points in time as text, in the Gregorian calendar.
use crate::number::{
    decimal, digit, law_decimal_reads_back, law_padding_goes_in_front, law_zeros_in_front, padded,
    push_zero_padded, read_decimal,
};
use std::time::SystemTime;
use vstd::prelude::*;

verus! {

/// Whether a year has a 29th of February.
pub open spec fn leap(y: int) -> bool {
    y % 4 == 0 && (y % 100 != 0 || y % 400 == 0)
}

/// The days of a year.
pub open spec fn days_in_year(y: int) -> int {
    if leap(y) {
        366
    } else {
        365
    }
}

/// The days of a month.
pub open spec fn days_in_month(y: int, m: int) -> int {
    if m == 2 {
        if leap(y) {
            29
        } else {
            28
        }
    } else if m == 4 || m == 6 || m == 9 || m == 11 {
        30
    } else {
        31
    }
}

/// The days from the first of January 1970 to the first of January of a later year.
pub open spec fn year_start(y: int) -> int
    decreases y - 1970,
{
    if y <= 1970 {
        0
    } else {
        year_start(y - 1) + days_in_year(y - 1)
    }
}

/// The days of a year that lie before a month.
pub open spec fn month_start(y: int, m: int) -> int
    decreases m,
{
    if m <= 1 {
        0
    } else {
        month_start(y, m - 1) + days_in_month(y, m - 1)
    }
}

/// A day of the Gregorian calendar.
#[derive(Clone, Copy, Debug, PartialEq, Eq, Structural)]
pub struct Date {
    pub year: u64,
    pub month: u64,
    pub day: u64,
}

impl Date {
    /// Whether the calendar, from 1970 on, has this day.
    pub open spec fn valid(self) -> bool {
        &&& 1970 <= self.year
        &&& 1 <= self.month <= 12
        &&& 1 <= self.day <= days_in_month(self.year as int, self.month as int)
    }

    /// The days from the first of January 1970 to this day.
    pub open spec fn number(self) -> int {
        year_start(self.year as int) + month_start(self.year as int, self.month as int) + self.day
            - 1
    }
}

/// The days before the first of January of the year 2147483648: years are shown as far as a
/// signed 32-bit number goes.
pub const DAYS: u64 = 784351576777;

/// The seconds before that day: those that can be shown.
pub const SECONDS: u64 = 67767976233532800;

/// `year_start` without recursion.
proof fn lemma_year_start(y: int)
    requires
        1970 <= y,
    ensures
        year_start(y) == 365 * (y - 1970) + (y - 1) / 4 - (y - 1) / 100 + (y - 1) / 400 - 477,
    decreases y,
{
    if y > 1970 {
        lemma_year_start(y - 1);
    }
}

/// Later years start later.
proof fn lemma_years_in_order(a: int, b: int)
    requires
        1970 <= a < b,
    ensures
        year_start(a) + days_in_year(a) <= year_start(b),
    decreases b,
{
    if a < b - 1 {
        lemma_years_in_order(a, b - 1);
    }
}

/// Later months start later, and all lie within the year.
proof fn lemma_months_in_order(y: int, a: int, b: int)
    requires
        1 <= a < b <= 13,
    ensures
        month_start(y, a) + days_in_month(y, a) <= month_start(y, b),
    decreases b,
{
    if a < b - 1 {
        lemma_months_in_order(y, a, b - 1);
    }
}

/// The months make up the year.
proof fn lemma_twelve_months(y: int)
    ensures
        month_start(y, 13) == days_in_year(y),
{
    reveal_with_fuel(month_start, 14);
}

/// Computes `leap`.
fn is_leap(y: u64) -> (r: bool)
    ensures
        r == leap(y as int),
{
    y % 4 == 0 && (y % 100 != 0 || y % 400 == 0)
}

/// Computes `days_in_month`.
fn month_days(leap_year: bool, m: u64) -> (r: u64)
    ensures
        forall|y: int| leap(y) == leap_year ==> r == #[trigger] days_in_month(y, m as int),
        28 <= r <= 31,
{
    if m == 2 {
        if leap_year {
            29
        } else {
            28
        }
    } else if m == 4 || m == 6 || m == 9 || m == 11 {
        30
    } else {
        31
    }
}

/// The day that lies so many days after the first of January 1970.
pub fn date_of(days: u64) -> (r: Date)
    requires
        days < DAYS,
    ensures
        r.valid(),
        r.number() == days,
        r.year <= i32::MAX,
{
    let mut y: u64 = 1970;
    let mut remaining: u64 = days;
    loop
        invariant
            1970 <= y < 2147483648,
            remaining <= days < DAYS,
            year_start(y as int) + remaining == days,
        ensures
            1970 <= y < 2147483648,
            year_start(y as int) + remaining == days,
            remaining < days_in_year(y as int),
        decreases remaining,
    {
        let length: u64 = if is_leap(y) {
            366
        } else {
            365
        };
        if remaining < length {
            break;
        }
        proof {
            lemma_year_start(2147483648);
            assert(year_start(y + 1) == year_start(y as int) + days_in_year(y as int));
        }
        remaining -= length;
        y += 1;
    }
    let leap_year = is_leap(y);
    let mut m: u64 = 1;
    let ghost in_year = remaining;
    proof {
        lemma_twelve_months(y as int);
    }
    while m < 12 && remaining >= month_days(leap_year, m)
        invariant
            leap_year == leap(y as int),
            1 <= m <= 12,
            in_year < month_start(y as int, 13),
            month_start(y as int, m as int) + remaining == in_year,
        decreases 12 - m,
    {
        let length = month_days(leap_year, m);
        assert(length == days_in_month(y as int, m as int));
        remaining -= length;
        m += 1;
    }
    proof {
        assert(month_start(y as int, 13) == month_start(y as int, 12) + days_in_month(y as int, 12));
        if m < 12 {
            assert(remaining < days_in_month(y as int, m as int));
        }
    }
    Date { year: y, month: m, day: remaining + 1 }
}

/// Two valid days stand in the calendar's order exactly when their numbers do.
pub proof fn law_calendar_order(a: Date, b: Date)
    requires
        a.valid(),
        b.valid(),
    ensures
        a.number() < b.number() <==> (a.year < b.year || (a.year == b.year && (a.month < b.month
            || (a.month == b.month && a.day < b.day)))),
        a.number() == b.number() <==> a == b,
{
    lemma_earlier(a, b);
    lemma_earlier(b, a);
}

/// An earlier day has the smaller number.
proof fn lemma_earlier(a: Date, b: Date)
    requires
        a.valid(),
        b.valid(),
    ensures
        (a.year < b.year || (a.year == b.year && (a.month < b.month || (a.month == b.month && a.day
            < b.day)))) ==> a.number() < b.number(),
{
    let y = a.year as int;
    if a.year < b.year {
        lemma_years_in_order(y, b.year as int);
        lemma_twelve_months(y);
        lemma_months_in_order(y, a.month as int, 13);
        if b.month > 1 {
            lemma_months_in_order(b.year as int, 1, b.month as int);
        }
    } else if a.year == b.year && a.month < b.month {
        lemma_months_in_order(y, a.month as int, b.month as int);
    }
}

/// A number in two digits.
pub open spec fn two_digits(n: nat) -> Seq<char> {
    padded(decimal(n), 2, '0')
}

/// A date, and the seconds into the day, as text: `YYYY-MM-DD hh:mm`.
pub open spec fn date_time_text(date: Date, second: nat) -> Seq<char> {
    padded(decimal(date.year as nat), 4, '0') + "-"@ + two_digits(date.month as nat) + "-"@
        + two_digits(date.day as nat) + " "@ + two_digits(second / 3600) + ":"@ + two_digits(
        second % 3600 / 60,
    )
}

/// Whether `text` shows the point in time `secs` seconds after the start of 1970: the date
/// is that of the day, and the time of day is in hours and minutes.
pub open spec fn shows_seconds(text: Seq<char>, secs: nat) -> bool {
    exists|date: Date| #[trigger]
        date.valid() && date.number() == secs / 86400 && text == date_time_text(
            date,
            secs % 86400,
        )
}

/// A point in time, given in seconds after the start of 1970, as text.
pub fn format_seconds(secs: u64) -> (r: String)
    requires
        secs < SECONDS,
    ensures
        shows_seconds(r@, secs as nat),
{
    let date = date_of(secs / 86400);
    let second = secs % 86400;
    let mut out = String::new();
    push_zero_padded(&mut out, date.year, 4);
    out.push('-');
    push_zero_padded(&mut out, date.month, 2);
    out.push('-');
    push_zero_padded(&mut out, date.day, 2);
    out.push(' ');
    push_zero_padded(&mut out, second / 3600, 2);
    out.push(':');
    push_zero_padded(&mut out, (second % 3600) / 60, 2);
    proof {
        reveal_strlit("-");
        reveal_strlit(" ");
        reveal_strlit(":");
        assert(out@ =~= date_time_text(date, second as nat));
        assert(date.valid());
    }
    out
}

/// A point in time of the standard library.
#[verifier::external_type_specification]
#[verifier::external_body]
pub struct ExSystemTime(SystemTime);

/// The whole seconds from the start of 1970 (UTC) to a point in time; nothing for a point
/// that lies before.
pub uninterp spec fn unix_seconds(t: SystemTime) -> Option<u64>;

/// Calls `SystemTime::duration_since` with `SystemTime::UNIX_EPOCH`, which measures the time
/// since the start of 1970 and fails for an earlier point in time. The result is a function
/// of the point in time, and is named `unix_seconds`.
#[verifier::external_body]
pub(crate) fn seconds_since_epoch(t: &SystemTime) -> (r: Option<u64>)
    ensures
        r == unix_seconds(*t),
{
    match t.duration_since(SystemTime::UNIX_EPOCH) {
        Ok(d) => Some(d.as_secs()),
        Err(_) => None,
    }
}

/// The seconds that stand for a point in time: those since the start of 1970, and zero for
/// an earlier one.
pub open spec fn shown_seconds(since_epoch: Option<u64>) -> u64 {
    match since_epoch {
        Some(secs) => secs,
        None => 0,
    }
}

/// A point in time as text, where the year can be shown.
pub fn format_time(t: &SystemTime) -> (r: Option<String>)
    ensures
        r is Some <==> shown_seconds(unix_seconds(*t)) < SECONDS,
        r matches Some(text) ==> shows_seconds(text@, shown_seconds(unix_seconds(*t)) as nat),
{
    let secs = match seconds_since_epoch(t) {
        Some(s) => s,
        None => 0,
    };
    if secs < SECONDS {
        Some(format_seconds(secs))
    } else {
        None
    }
}

/// Up to the year 9999 every point in time takes sixteen characters.
pub proof fn law_time_text_width(text: Seq<char>, date: Date, second: nat)
    requires
        date.valid(),
        date.year <= 9999,
        second < 86400,
        text == date_time_text(date, second),
    ensures
        text.len() == 16,
{
    reveal_strlit("-");
    reveal_strlit(" ");
    reveal_strlit(":");
    reveal_with_fuel(decimal, 5);
}

/// Every point in time that can be shown is shown in one way only.
pub proof fn law_time_text_unique(a: Seq<char>, b: Seq<char>, secs: nat)
    requires
        shows_seconds(a, secs),
        shows_seconds(b, secs),
    ensures
        a == b,
{
    let x = choose|x: Date| #[trigger]
        x.valid() && x.number() == secs / 86400 && a == date_time_text(x, secs % 86400);
    let y = choose|y: Date| #[trigger]
        y.valid() && y.number() == secs / 86400 && b == date_time_text(y, secs % 86400);
    law_calendar_order(x, y);
}

/// The last second of the year 9999.
pub const LAST_FOUR_DIGIT_SECOND: u64 = 253402300799;

/// Whether two texts are equal in front of the place `k`, and the first one is smaller there:
/// it has the smaller character, or it ends.
pub open spec fn smaller_at(a: Seq<char>, b: Seq<char>, k: int) -> bool {
    &&& 0 <= k <= a.len()
    &&& k < b.len()
    &&& forall|i: int| 0 <= i < k ==> a[i] == b[i]
    &&& k < a.len() ==> a[k] < b[k]
}

/// Whether a text is sorted before another one, character by character.
pub open spec fn sorted_before(a: Seq<char>, b: Seq<char>) -> bool {
    exists|k: int| smaller_at(a, b, k)
}

/// Of two texts not each is sorted before the other, and no text before itself.
proof fn lemma_sorted_one_way(a: Seq<char>, b: Seq<char>)
    requires
        sorted_before(a, b),
    ensures
        a != b,
        !sorted_before(b, a),
{
    let k = choose|k: int| smaller_at(a, b, k);
    if sorted_before(b, a) {
        let j = choose|j: int| smaller_at(b, a, j);
        if j < k {
            assert(a[j] == b[j]);
        } else if k < j {
            assert(a[k] == b[k]);
        }
    }
}

/// Two digits of a text that show a smaller number make it the smaller text.
proof fn lemma_smaller_digits(a: Seq<char>, b: Seq<char>, k: int, n: nat, m: nat)
    requires
        n < m < 100,
        0 <= k,
        k + 1 < a.len(),
        k + 1 < b.len(),
        forall|i: int| 0 <= i < k ==> a[i] == b[i],
        a[k] == digit(n / 10),
        a[k + 1] == digit(n % 10),
        b[k] == digit(m / 10),
        b[k + 1] == digit(m % 10),
    ensures
        sorted_before(a, b),
{
    if n / 10 < m / 10 {
        assert(smaller_at(a, b, k));
    } else {
        assert(n / 10 == m / 10 && n % 10 < m % 10);
        assert(smaller_at(a, b, k + 1));
    }
}

/// A number below a hundred in two digits.
proof fn lemma_two_digits(n: nat)
    requires
        n < 100,
    ensures
        two_digits(n) == seq![digit(n / 10), digit(n % 10)],
{
    reveal_with_fuel(decimal, 2);
    assert(two_digits(n) =~= seq![digit(n / 10), digit(n % 10)]);
}

/// A year of at most four digits, in two times two digits.
proof fn lemma_four_digits(n: nat)
    requires
        n < 10000,
    ensures
        padded(decimal(n), 4, '0') == seq![
            digit(n / 100 / 10),
            digit(n / 100 % 10),
            digit(n % 100 / 10),
            digit(n % 100 % 10),
        ],
{
    reveal_with_fuel(decimal, 4);
    assert(n / 10 / 10 == n / 100);
    assert(n / 10 % 10 == n % 100 / 10);
    assert(n % 100 % 10 == n % 10);
    assert(padded(decimal(n), 4, '0') =~= seq![
        digit(n / 100 / 10),
        digit(n / 100 % 10),
        digit(n % 100 / 10),
        digit(n % 100 % 10),
    ]);
}

/// A text of the form of a point in time, whose year stands in two times two digits.
spec fn in_digits(c: nat, y: nat, m: nat, d: nat, h: nat, i: nat) -> Seq<char> {
    seq![
        digit(c / 10),
        digit(c % 10),
        digit(y / 10),
        digit(y % 10),
        '-',
        digit(m / 10),
        digit(m % 10),
        '-',
        digit(d / 10),
        digit(d % 10),
        ' ',
        digit(h / 10),
        digit(h % 10),
        ':',
        digit(i / 10),
        digit(i % 10),
    ]
}

/// The characters of a point in time of a year of at most four digits.
proof fn lemma_time_text(date: Date, second: nat)
    requires
        date.valid(),
        date.year <= 9999,
        second < 86400,
    ensures
        date_time_text(date, second) == in_digits(
            date.year as nat / 100,
            date.year as nat % 100,
            date.month as nat,
            date.day as nat,
            second / 60 / 60,
            second / 60 % 60,
        ),
{
    let y = date.year as nat;
    let h = second / 3600;
    let i = second % 3600 / 60;
    lemma_minute_of_day(second);
    reveal_strlit("-");
    reveal_strlit(" ");
    reveal_strlit(":");
    lemma_four_digits(y);
    lemma_two_digits(date.month as nat);
    lemma_two_digits(date.day as nat);
    lemma_two_digits(h);
    lemma_two_digits(i);
    assert(date_time_text(date, second) =~= in_digits(
        y / 100,
        y % 100,
        date.month as nat,
        date.day as nat,
        h,
        i,
    ));
}

/// The hour and the minute, counted in minutes.
proof fn lemma_minute_of_day(second: nat)
    requires
        second < 86400,
    ensures
        second / 3600 == second / 60 / 60,
        second % 3600 / 60 == second / 60 % 60,
        second / 60 / 60 < 24,
{
}

/// The day and the minute of the day, counted in minutes.
proof fn lemma_day_of_minute(secs: nat)
    ensures
        secs / 86400 == secs / 60 / 1440,
        secs % 86400 / 60 == secs / 60 % 1440,
{
}

/// Texts of this form sort by the numbers in them.
proof fn lemma_digits_sort(
    a: (nat, nat, nat, nat, nat, nat),
    b: (nat, nat, nat, nat, nat, nat),
)
    requires
        a.0 < 100 && a.1 < 100 && a.2 < 100 && a.3 < 100 && a.4 < 100 && a.5 < 100,
        b.0 < 100 && b.1 < 100 && b.2 < 100 && b.3 < 100 && b.4 < 100 && b.5 < 100,
        a.0 < b.0 || (a.0 == b.0 && (a.1 < b.1 || (a.1 == b.1 && (a.2 < b.2 || (a.2 == b.2 && (a.3
            < b.3 || (a.3 == b.3 && (a.4 < b.4 || (a.4 == b.4 && a.5 < b.5))))))))),
    ensures
        sorted_before(
            in_digits(a.0, a.1, a.2, a.3, a.4, a.5),
            in_digits(b.0, b.1, b.2, b.3, b.4, b.5),
        ),
{
    let s = in_digits(a.0, a.1, a.2, a.3, a.4, a.5);
    let t = in_digits(b.0, b.1, b.2, b.3, b.4, b.5);
    if a.0 < b.0 {
        lemma_smaller_digits(s, t, 0, a.0, b.0);
    } else if a.1 < b.1 {
        lemma_smaller_digits(s, t, 2, a.1, b.1);
    } else if a.2 < b.2 {
        lemma_smaller_digits(s, t, 5, a.2, b.2);
    } else if a.3 < b.3 {
        lemma_smaller_digits(s, t, 8, a.3, b.3);
    } else if a.4 < b.4 {
        lemma_smaller_digits(s, t, 11, a.4, b.4);
    } else {
        lemma_smaller_digits(s, t, 14, a.5, b.5);
    }
}

/// An earlier minute is shown by the smaller text.
proof fn lemma_earlier_is_smaller(x: Date, s: nat, y: Date, t: nat)
    requires
        x.valid(),
        y.valid(),
        x.year <= 9999,
        y.year <= 9999,
        s < 86400,
        t < 86400,
        x.number() < y.number() || (x == y && s / 60 < t / 60),
    ensures
        sorted_before(date_time_text(x, s), date_time_text(y, t)),
{
    lemma_time_text(x, s);
    lemma_time_text(y, t);
    lemma_minute_of_day(s);
    lemma_minute_of_day(t);
    law_calendar_order(x, y);
    let (m, n) = (s / 60, t / 60);
    assert(m < n ==> m / 60 < n / 60 || (m / 60 == n / 60 && m % 60 < n % 60));
    lemma_digits_sort(
        (
            x.year as nat / 100,
            x.year as nat % 100,
            x.month as nat,
            x.day as nat,
            m / 60,
            m % 60,
        ),
        (
            y.year as nat / 100,
            y.year as nat % 100,
            y.month as nat,
            y.day as nat,
            n / 60,
            n % 60,
        ),
    );
}

/// Up to the last second of the year 9999 a year has at most four digits.
proof fn lemma_four_digit_year(date: Date, secs: nat)
    requires
        date.valid(),
        date.number() == secs / 86400,
        secs <= LAST_FOUR_DIGIT_SECOND,
    ensures
        date.year <= 9999,
{
    lemma_year_start(10000);
    if date.year > 10000 {
        lemma_years_in_order(10000, date.year as int);
    }
    if date.month > 1 {
        lemma_months_in_order(date.year as int, 1, date.month as int);
    }
}

/// Up to the year 9999 the texts sort as the points in time do, minute by minute: a text is
/// sorted before another one just if its minute is earlier, and the texts are equal just
/// within one minute.
pub proof fn law_time_texts_sort(a: Seq<char>, s: nat, b: Seq<char>, t: nat)
    requires
        shows_seconds(a, s),
        shows_seconds(b, t),
        s <= LAST_FOUR_DIGIT_SECOND,
        t <= LAST_FOUR_DIGIT_SECOND,
    ensures
        sorted_before(a, b) <==> s / 60 < t / 60,
        a == b <==> s / 60 == t / 60,
{
    let x = choose|x: Date| #[trigger]
        x.valid() && x.number() == s / 86400 && a == date_time_text(x, s % 86400);
    let y = choose|y: Date| #[trigger]
        y.valid() && y.number() == t / 86400 && b == date_time_text(y, t % 86400);
    lemma_four_digit_year(x, s);
    lemma_four_digit_year(y, t);
    law_calendar_order(x, y);
    lemma_day_of_minute(s);
    lemma_day_of_minute(t);
    let (m, n) = (s / 60, t / 60);
    if m < n {
        assert(m / 1440 < n / 1440 || (m / 1440 == n / 1440 && m % 1440 < n % 1440));
        lemma_earlier_is_smaller(x, s % 86400, y, t % 86400);
        lemma_sorted_one_way(a, b);
    } else if n < m {
        assert(n / 1440 < m / 1440 || (m / 1440 == n / 1440 && n % 1440 < m % 1440));
        lemma_earlier_is_smaller(y, t % 86400, x, s % 86400);
        lemma_sorted_one_way(b, a);
    } else {
        lemma_time_text(x, s % 86400);
        lemma_time_text(y, t % 86400);
        if sorted_before(a, b) {
            lemma_sorted_one_way(a, b);
        }
    }
}

/// The twelve months: each has its length, with a 29th of February in a leap year, and starts
/// where the months in front of it end.
pub proof fn law_twelve_months(y: int, m: int)
    requires
        1 <= m <= 12,
    ensures
        ({
            let lengths = seq![31int, 28, 31, 30, 31, 30, 31, 31, 30, 31, 30, 31];
            let starts = seq![0int, 31, 59, 90, 120, 151, 181, 212, 243, 273, 304, 334];
            &&& days_in_month(y, m) == lengths[m - 1] + (if m == 2 && leap(y) {
                1int
            } else {
                0int
            })
            &&& month_start(y, m) == starts[m - 1] + (if m > 2 && leap(y) {
                1int
            } else {
                0int
            })
        }),
{
    reveal_with_fuel(month_start, 13);
}

/// Every fourth year is a leap year, but of the full hundreds only every fourth: none of four
/// years in a row is one unless it can be divided by four, and 400 years have 146097 days.
pub proof fn law_leap_years(y: int)
    ensures
        leap(y) ==> y % 4 == 0,
        y % 4 == 0 && y % 100 != 0 ==> leap(y),
        y % 100 == 0 ==> (leap(y) <==> y % 400 == 0),
        leap(y + 400) == leap(y),
        1970 <= y ==> year_start(y + 1) - year_start(y) == (if leap(y) {
            366int
        } else {
            365int
        }),
        1970 <= y ==> year_start(y + 400) - year_start(y) == 146097,
        year_start(1970) == 0,
{
    if 1970 <= y {
        lemma_year_start(y);
        lemma_year_start(y + 400);
        assert((y + 399) / 4 == (y - 1) / 4 + 100);
        assert((y + 399) / 100 == (y - 1) / 100 + 4);
        assert((y + 399) / 400 == (y - 1) / 400 + 1);
    }
}

/// The number of a day of the Gregorian calendar, counted from the first of January 1970, in
/// closed form: the year is taken to begin with March, so that the leap day is its last.
pub open spec fn day_number(y: int, m: int, d: int) -> int {
    let year = if m <= 2 {
        y - 1
    } else {
        y
    };
    let month = if m <= 2 {
        m + 9
    } else {
        m - 3
    };
    365 * year + year / 4 - year / 100 + year / 400 + (153 * month + 2) / 5 + d - 719469
}

/// The days are numbered as the Gregorian calendar has them.
pub proof fn law_days_are_numbered(date: Date)
    requires
        date.valid(),
    ensures
        date.number() == day_number(date.year as int, date.month as int, date.day as int),
{
    let y = date.year as int;
    let m = date.month as int;
    lemma_year_start(y);
    law_twelve_months(y, m);
    if leap(y) {
        assert(y / 4 == (y - 1) / 4 + 1);
        assert(y % 100 == 0 <==> y / 100 == (y - 1) / 100 + 1);
        assert(y % 400 == 0 <==> y / 400 == (y - 1) / 400 + 1);
    } else {
        assert(y % 4 != 0 ==> y / 4 == (y - 1) / 4);
        assert(y % 4 == 0 ==> y / 4 == (y - 1) / 4 + 1);
        assert(y % 4 == 0 ==> y % 100 == 0 && y % 400 != 0);
        assert(y % 100 == 0 ==> y / 100 == (y - 1) / 100 + 1);
        assert(y % 100 != 0 ==> y / 100 == (y - 1) / 100);
        assert(y / 400 == (y - 1) / 400);
    }
}

/// Two digits of a text as a number.
pub open spec fn two_at(text: Seq<char>, i: int) -> int {
    10 * (text[i] as int - 48) + (text[i + 1] as int - 48)
}

/// A point in time can be read back from its text. The year stands in front, in at least four
/// digits, and then `-MM-DD hh:mm`; day and month are days and months of that year, and the
/// day, the hour and the minute are those of the point in time.
pub proof fn law_time_text_reads_back(text: Seq<char>, secs: nat)
    requires
        shows_seconds(text, secs),
    ensures
        ({
            let n = text.len() - 12;
            let year = read_decimal(text.take(n));
            let month = two_at(text, n + 1);
            let day = two_at(text, n + 4);
            let hour = two_at(text, n + 7);
            let minute = two_at(text, n + 10);
            let lengths = seq![31int, 28, 31, 30, 31, 30, 31, 31, 30, 31, 30, 31];
            &&& n >= 4
            &&& forall|i: int|
                0 <= i < text.len() && i != n && i != n + 3 && i != n + 6 && i != n + 9 ==> '0'
                    <= #[trigger] text[i] <= '9'
            &&& text[n] == '-'
            &&& text[n + 3] == '-'
            &&& text[n + 6] == ' '
            &&& text[n + 9] == ':'
            &&& n > 4 ==> text[0] != '0'
            &&& 1 <= month <= 12
            &&& 1 <= day <= lengths[month - 1] + (if month == 2 && year % 4 == 0 && (year % 100
                != 0 || year % 400 == 0) {
                1int
            } else {
                0int
            })
            &&& 0 <= hour < 24
            &&& 0 <= minute < 60
            &&& (day_number(year, month, day) * 24 + hour) * 60 + minute == secs / 60
        }),
{
    let date = choose|date: Date| #[trigger]
        date.valid() && date.number() == secs / 86400 && text == date_time_text(
            date,
            secs % 86400,
        );
    let second = secs % 86400;
    let digits = padded(decimal(date.year as nat), 4, '0');
    let n = digits.len() as int;
    reveal_strlit("-");
    reveal_strlit(" ");
    reveal_strlit(":");
    law_days_are_numbered(date);
    law_twelve_months(date.year as int, date.month as int);
    law_decimal_reads_back(date.year as nat);
    law_zeros_in_front(decimal(date.year as nat), 4);
    law_padding_goes_in_front(decimal(date.year as nat), 4, '0');
    lemma_two_digits(date.month as nat);
    lemma_two_digits(date.day as nat);
    lemma_minute_of_day(second);
    lemma_day_of_minute(secs);
    lemma_two_digits(second / 3600);
    lemma_two_digits(second % 3600 / 60);
    assert(text.len() == n + 12);
    assert(text.take(n) =~= digits);
    assert(two_at(text, n + 1) == date.month);
    assert(two_at(text, n + 4) == date.day);
    assert(two_at(text, n + 7) == second / 60 / 60);
    assert(two_at(text, n + 10) == second / 60 % 60);
    assert forall|i: int| 0 <= i < n implies '0' <= #[trigger] text[i] <= '9' by {
        assert(text[i] == digits[i]);
        let k = n - decimal(date.year as nat).len();
        if i >= k {
            assert(digits[i] == digits.skip(k)[i - k]);
        }
    }
    if n > 4 {
        assert(text[0] == digits.skip(0)[0]);
    }
    assert(secs / 60 / 1440 * 1440 + secs / 60 % 1440 == secs / 60);
}

/// What cannot be shown begins with the year 2147483648, and a point in time before 1970 is
/// shown as the first second of 1970.
pub proof fn law_what_is_shown(secs: u64)
    ensures
        SECONDS == day_number(2147483648, 1, 1) * 86400,
        shown_seconds(Some(secs)) == secs,
        shown_seconds(None) == 0,
{
}

/// A valid day is a day of the calendar from 1970 on, and every such day is valid.
pub proof fn law_valid_days(date: Date)
    ensures
        date.valid() <==> {
            let lengths = seq![31int, 28, 31, 30, 31, 30, 31, 31, 30, 31, 30, 31];
            &&& date.year >= 1970
            &&& 1 <= date.month <= 12
            &&& 1 <= date.day <= lengths[date.month - 1] + (if date.month == 2 && date.year % 4
                == 0 && (date.year % 100 != 0 || date.year % 400 == 0) {
                1int
            } else {
                0int
            })
        },
{
    if 1 <= date.month <= 12 {
        law_twelve_months(date.year as int, date.month as int);
    }
}

} // verus!
