//! Timestamps: the seven numeric components of a timestamp token, and the
//! instant in epoch milliseconds that they name.

use chrono::TimeZone;
use chrono::Utc;
use vstd::prelude::*;
use crate::error::IngestError;
use crate::numeric::number_value;
use crate::text::chars_of;

verus! {

/// `c` is one of the ASCII digits `0` to `9`.
pub open spec fn is_date_digit(c: char) -> bool {
    '0' <= c && c <= '9'
}

/// The positions, in ascending order, of the characters among the first `n`
/// of `s` that are no digits. Every such character ends a component.
pub open spec fn delimiters(s: Seq<char>, n: int) -> Seq<int>
    decreases n,
{
    if n <= 0 {
        Seq::empty()
    } else if is_date_digit(s[n - 1]) {
        delimiters(s, n - 1)
    } else {
        delimiters(s, n - 1).push(n - 1)
    }
}

/// The digit run that the delimiter number `k` of `s` ends: it starts at
/// the beginning of `s`, or behind the delimiter before.
pub open spec fn date_field(s: Seq<char>, k: int) -> Seq<char> {
    let d = delimiters(s, s.len() as int);
    let start = if k == 0 {
        0
    } else {
        d[k - 1] + 1
    };
    s.subrange(start, d[k])
}

/// The most digits that component `k` may have: four for the year, three
/// for each of the others.
pub open spec fn date_field_limit(k: int) -> int {
    if k == 0 {
        4
    } else {
        3
    }
}

/// The seven components of the timestamp token `s`, where it has them.
///
/// A token is accepted when it holds at least eight characters that are no
/// digits, the eighth directly behind the seventh, and none of the seven
/// digit runs that the first seven end is longer than its limit. Each
/// component is the decimal value of its run; an empty run gives 0. What
/// follows the eighth delimiter is not looked at.
pub open spec fn date_components(s: Seq<char>) -> Option<Seq<u32>> {
    let d = delimiters(s, s.len() as int);
    if d.len() >= 8 && d[7] == d[6] + 1 && (forall|k: int|
        0 <= k < 7 ==> (#[trigger] date_field(s, k)).len() <= date_field_limit(k)) {
        Some(Seq::new(7, |k: int| number_value(date_field(s, k), 10) as u32))
    } else {
        None
    }
}

/// The place value of the next digit of component `k` once `len` digits of
/// it have been read: 10,000 at the start of the year, 1,000 at the start of
/// every other component, a tenth of the last after each digit, and 0 once
/// the component is longer than its limit.
pub open spec fn place_value(k: int, len: int) -> int {
    let left = date_field_limit(k) - len;
    if left == 4 {
        10000
    } else if left == 3 {
        1000
    } else if left == 2 {
        100
    } else if left == 1 {
        10
    } else if left == 0 {
        1
    } else {
        0
    }
}

/// `value` is what component `k` of `s` holds, as far as the first `n`
/// characters show it: the delimiter number `k` lies among them, the digit
/// run that it ends is within the limit of component `k`, and `value` is
/// what the run denotes.
pub open spec fn component_read(s: Seq<char>, n: int, k: int, value: u32) -> bool {
    let d = delimiters(s, n);
    let from = if k == 0 {
        0
    } else {
        d[k - 1] + 1
    };
    &&& 0 <= from <= d[k] < n
    &&& d[k] - from <= date_field_limit(k)
    &&& value == number_value(s.subrange(from, d[k]), 10)
}

/// The delimiters among the first `n` characters are the first of those
/// among the first `m`, for `n <= m`; the others lie in `n..m`. Each is the
/// position of a character that is no digit, and they ascend.
pub proof fn lemma_delimiters_extend(s: Seq<char>, n: int, m: int)
    requires
        0 <= n <= m <= s.len(),
    ensures
        delimiters(s, n).len() <= delimiters(s, m).len(),
        forall|j: int|
            0 <= j < delimiters(s, n).len() ==> delimiters(s, m)[j] == delimiters(s, n)[j],
        forall|j: int|
            delimiters(s, n).len() <= j < delimiters(s, m).len() ==> n <= (#[trigger] delimiters(
                s,
                m,
            )[j]) < m && !is_date_digit(s[delimiters(s, m)[j]]),
        forall|j: int, l: int|
            delimiters(s, n).len() <= j < l < delimiters(s, m).len() ==> delimiters(s, m)[j]
                < delimiters(s, m)[l],
    decreases m - n,
{
    if n < m {
        lemma_delimiters_extend(s, n, m - 1);
    }
}

/// Adding a digit at its place value extends the scaled number by that
/// digit.
proof fn lemma_place_step(v: int, digit: int, place: int, before: int)
    requires
        before == v * (10 * place),
    ensures
        before + digit * place == (v * 10 + digit) * place,
{
    assert(v * (10 * place) + digit * place == (v * 10 + digit) * place) by (nonlinear_arith);
}

/// Dividing the scaled number by its scale gives the number back.
proof fn lemma_place_divide(v: int, place: int, before: int)
    requires
        place > 0,
        before == v * (10 * place),
    ensures
        before / (place * 10) == v,
{
    assert((v * (10 * place)) / (place * 10) == v) by (nonlinear_arith)
        requires
            place > 0,
    ;
}

/// Reads the seven numeric components of a timestamp token: year, month,
/// day, hour, minute, second, milliseconds.
///
/// Every character that is no digit ends the current component, whatever
/// it is. The token is rejected with `IngestError::Format` where it ends
/// before an eighth such character, where a digit follows the seventh, and
/// where a component has more digits than its limit.
pub fn read_date(text: &str) -> (res: Result<[u32; 7], IngestError>)
    ensures
        match res {
            Ok(c) => date_components(text@) is Some && c@ == date_components(text@).unwrap(),
            Err(e) => e == IngestError::Format && date_components(text@) is None,
        },
{
    let chars = chars_of(text);
    let ghost s = chars@;
    let mut components: [u32; 7] = [0u32; 7];
    let mut current: usize = 0;
    let mut multiplier: u32 = 10000;
    let mut i: usize = 0;
    let ghost mut start: int = 0;
    while i < chars.len()
        invariant
            s == chars@,
            s == text@,
            0 <= start <= i <= chars.len(),
            current <= 7,
            current == delimiters(s, i as int).len(),
            start == if current == 0 {
                0
            } else {
                delimiters(s, i as int)[current - 1] + 1
            },
            forall|j: int| start <= j < i ==> is_date_digit(s[j]),
            current == 7 ==> start == i,
            multiplier == place_value(current as int, i - start),
            current < 7 ==> components[current as int] + 10 * multiplier <= 100000,
            current < 7 && multiplier > 0 ==> components[current as int] == number_value(
                s.subrange(start, i as int),
                10,
            ) * (10 * multiplier),
            forall|k: int| current < k < 7 ==> components[k] == 0,
            forall|k: int|
                0 <= k < current ==> component_read(s, i as int, k, #[trigger] components[k]),
        decreases chars.len() - i,
    {
        let c = chars[i];
        if '0' <= c && c <= '9' {
            if current >= 7 {
                proof {
                    lemma_delimiters_extend(s, i as int, s.len() as int);
                    lemma_delimiters_extend(s, 0, s.len() as int);
                    let d = delimiters(s, s.len() as int);
                    if d.len() >= 8 {
                        assert(d[6] == i - 1);
                        assert(i <= d[7]);
                        assert(!is_date_digit(s[d[7]]));
                    }
                }
                return Err(IngestError::Format);
            }
            let digit: u32 = (c as u32) - 0x30;
            assert(digit * multiplier <= 9 * multiplier) by (nonlinear_arith)
                requires
                    digit <= 9,
                    multiplier >= 0,
            ;
            let ghost run = s.subrange(start, i as int);
            let ghost grown = s.subrange(start, i + 1);
            let ghost before = components[current as int];
            let ghost place = multiplier;
            components[current] = components[current] + digit * multiplier;
            multiplier = multiplier / 10;
            proof {
                assert(grown.drop_last() =~= run);
                assert(grown.last() == c);
                assert(number_value(grown, 10) == number_value(run, 10) * 10 + digit);
                let v = number_value(run, 10);
                if place > 0 {
                    lemma_place_step(v, digit as int, place as int, before as int);
                    assert(place >= 10 ==> 10 * multiplier == place);
                }
                assert(delimiters(s, i + 1) == delimiters(s, i as int));
            }
            i = i + 1;
        } else {
            proof {
                assert(delimiters(s, i + 1) == delimiters(s, i as int).push(i as int));
                lemma_delimiters_extend(s, i + 1, s.len() as int);
                lemma_delimiters_extend(s, i as int, i + 1);
            }
            if current >= 7 {
                proof {
                    let d = delimiters(s, s.len() as int);
                    assert(d[7] == i);
                    assert(d[6] == i - 1);
                    assert forall|k: int| 0 <= k < 7 implies (#[trigger] date_field(
                        s,
                        k,
                    )).len() <= date_field_limit(k) && components[k] == number_value(
                        date_field(s, k),
                        10,
                    ) by {
                        let near = delimiters(s, i + 1);
                        assert(component_read(s, i as int, k, components[k]));
                        assert(near[k] == delimiters(s, i as int)[k]);
                        assert(d[k] == near[k]);
                        if k > 0 {
                            assert(near[k - 1] == delimiters(s, i as int)[k - 1]);
                            assert(d[k - 1] == near[k - 1]);
                        }
                    }
                    assert(components@ =~= date_components(s).unwrap());
                }
                return Ok(components);
            }
            if multiplier == 0 {
                proof {
                    let d = delimiters(s, s.len() as int);
                    assert(d[current as int] == i);
                    if current > 0 {
                        assert(d[current - 1] == delimiters(s, i as int)[current - 1]);
                    }
                    assert(date_field(s, current as int) =~= s.subrange(start, i as int));
                    assert(date_field(s, current as int).len() > date_field_limit(
                        current as int,
                    ));
                }
                return Err(IngestError::Format);
            }
            let ghost before = components[current as int];
            let ghost run = s.subrange(start, i as int);
            components[current] = components[current] / (multiplier * 10);
            proof {
                let v = number_value(run, 10);
                lemma_place_divide(v, multiplier as int, before as int);
                assert(components[current as int] == v);
                let d = delimiters(s, i + 1);
                assert(d[current as int] == i);
                assert forall|k: int| 0 <= k <= current implies component_read(
                    s,
                    i + 1,
                    k,
                    #[trigger] components[k],
                ) by {
                    if k < current {
                        assert(component_read(s, i as int, k, components[k]));
                        assert(d[k] == delimiters(s, i as int)[k]);
                    }
                    if k > 0 {
                        assert(d[k - 1] == delimiters(s, i as int)[k - 1]);
                    }
                }
                assert(number_value(s.subrange(i + 1, i + 1), 10) == 0);
            }
            current = current + 1;
            multiplier = 1000;
            i = i + 1;
            proof {
                start = i as int;
            }
        }
    }
    proof {
        assert(delimiters(s, s.len() as int).len() < 8);
    }
    Err(IngestError::Format)
}

/// `year` is a leap year of the proleptic Gregorian calendar, in which the
/// year 0 is the year before the year 1.
pub open spec fn is_leap_year(year: int) -> bool {
    year % 4 == 0 && (year % 100 != 0 || year % 400 == 0)
}

/// The number of days of the month `month` (1 to 12) of `year`.
pub open spec fn days_in_month(year: int, month: int) -> int {
    if month == 2 {
        if is_leap_year(year) {
            29
        } else {
            28
        }
    } else if month == 4 || month == 6 || month == 9 || month == 11 {
        30
    } else {
        31
    }
}

/// The first and the last year that a date can have.
pub open spec fn year_in_range(year: int) -> bool {
    -262143 <= year <= 262142
}

/// The calendar fields name an instant: the day exists in its month, the
/// time of day is below 24:00:00, with no leap second, and the year is one
/// that a date can have.
pub open spec fn names_instant(
    year: int,
    month: int,
    day: int,
    hour: int,
    minute: int,
    second: int,
) -> bool {
    &&& year_in_range(year)
    &&& 1 <= month <= 12
    &&& 1 <= day <= days_in_month(year, month)
    &&& 0 <= hour < 24
    &&& 0 <= minute < 60
    &&& 0 <= second < 60
}

/// The number of leap years from the year 1 through `year`; for a year
/// before the year 1, less the number of leap years behind it up to the
/// year 0.
pub open spec fn leap_years_through(year: int) -> int {
    year / 4 - year / 100 + year / 400
}

/// The number of days from 1 January 1970 to 1 January of `year`.
pub open spec fn days_before_year(year: int) -> int {
    365 * (year - 1970) + leap_years_through(year - 1) - leap_years_through(1969)
}

/// The number of days of `year` that lie before the first of `month`.
pub open spec fn days_before_month(year: int, month: int) -> int
    decreases month,
{
    if month <= 1 {
        0
    } else {
        days_before_month(year, month - 1) + days_in_month(year, month - 1)
    }
}

/// The milliseconds, leap seconds not counted, from 1970-01-01T00:00:00
/// UTC to the UTC instant with these calendar fields.
pub open spec fn epoch_millis_of(
    year: int,
    month: int,
    day: int,
    hour: int,
    minute: int,
    second: int,
) -> int {
    let days = days_before_year(year) + days_before_month(year, month) + (day - 1);
    ((days * 86400) + hour * 3600 + minute * 60 + second) * 1000
}

/// At most eleven months of at most 31 days lie before a month.
pub proof fn lemma_days_before_month(year: int, month: int)
    requires
        1 <= month <= 12,
    ensures
        0 <= days_before_month(year, month) <= 31 * (month - 1),
    decreases month,
{
    if month > 1 {
        lemma_days_before_month(year, month - 1);
    }
}

/// The instants that calendar fields can name lie far within the 64-bit
/// range: a millisecond component can always be added.
pub proof fn lemma_epoch_millis_bounded(
    year: int,
    month: int,
    day: int,
    hour: int,
    minute: int,
    second: int,
)
    requires
        names_instant(year, month, day, hour, minute, second),
    ensures
        -8_400_000_000_000_000 <= epoch_millis_of(year, month, day, hour, minute, second)
            <= 8_400_000_000_000_000,
{
    lemma_days_before_month(year, month);
}

/// Asks chrono for the UTC instant with these calendar fields:
/// `Utc.with_ymd_and_hms(..)`, of which the earliest mapping is taken,
/// counted by `DateTime::timestamp_millis`.
///
/// Taken from chrono unproved: there is an instant exactly for the fields
/// that `names_instant` admits, and its count is `epoch_millis_of`. chrono
/// builds the date with `NaiveDate::from_ymd_opt`, which gives none for a
/// day that does not exist in the proleptic Gregorian calendar and for a
/// year out of its range, and the time with `NaiveTime::from_hms_opt`,
/// which gives none from hour 24, minute 60 or second 60 on. UTC maps
/// every such date and time to one instant, and `timestamp_millis` is
/// documented as its non-leap milliseconds since 1 January 1970 UTC.
#[verifier::external_body]
fn utc_instant(year: i32, month: u32, day: u32, hour: u32, minute: u32, second: u32) -> (millis:
    Option<i64>)
    ensures
        millis is Some <==> names_instant(
            year as int,
            month as int,
            day as int,
            hour as int,
            minute as int,
            second as int,
        ),
        millis matches Some(t) ==> t == epoch_millis_of(
            year as int,
            month as int,
            day as int,
            hour as int,
            minute as int,
            second as int,
        ),
{
    match Utc.with_ymd_and_hms(year, month, day, hour, minute, second).earliest() {
        Some(instant) => Some(instant.timestamp_millis()),
        None => None,
    }
}

/// The timestamp in epoch milliseconds that seven date components name:
/// the UTC instant of the first six, plus the seventh.
pub open spec fn timestamp_of(c: Seq<u32>) -> Result<i64, IngestError> {
    if names_instant(c[0] as int, c[1] as int, c[2] as int, c[3] as int, c[4] as int, c[5] as int) {
        Ok(
            (epoch_millis_of(
                c[0] as int,
                c[1] as int,
                c[2] as int,
                c[3] as int,
                c[4] as int,
                c[5] as int,
            ) + c[6]) as i64,
        )
    } else {
        Err(IngestError::InvalidCalendarDate)
    }
}

/// Turns seven date components into epoch milliseconds: components 0 to 5
/// are year, month, day, hour, minute and second of a UTC instant, and
/// component 6 is added to its epoch milliseconds, whatever it is. Fails
/// with `IngestError::InvalidCalendarDate` exactly where the first six
/// name no instant: a month that is not 1 to 12, a day that its month does
/// not have, a time of day from 24:00:00 on, a year beyond 262142.
pub fn date_components_to_timestamp(c: [u32; 7]) -> (res: Result<i64, IngestError>)
    ensures
        res == timestamp_of(c@),
        res is Ok <==> names_instant(
            c[0] as int,
            c[1] as int,
            c[2] as int,
            c[3] as int,
            c[4] as int,
            c[5] as int,
        ),
{
    if c[0] > 0x7fff_ffff {
        return Err(IngestError::InvalidCalendarDate);
    }
    match utc_instant(c[0] as i32, c[1], c[2], c[3], c[4], c[5]) {
        Some(instant) => {
            proof {
                lemma_epoch_millis_bounded(
                    c[0] as int,
                    c[1] as int,
                    c[2] as int,
                    c[3] as int,
                    c[4] as int,
                    c[5] as int,
                );
            }
            Ok(instant + c[6] as i64)
        },
        None => Err(IngestError::InvalidCalendarDate),
    }
}

} // verus!
