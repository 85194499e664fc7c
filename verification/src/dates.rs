//! Days as the aggregate metrics write them: `YYYY-MM-DD`.

use vstd::prelude::*;
use vstd::utf8::encode_utf8;

verus! {

/// The year that stands for a year that cannot be read.
pub const SENTINEL_YEAR: i32 = 2020;

/// The month, and the day, that stand for one that cannot be read.
pub const SENTINEL_PART: u32 = 1;

pub open spec fn is_digit(b: u8) -> bool {
    48 <= b <= 57
}

/// The number that the decimal digits `s` write.
pub open spec fn digits_value(s: Seq<u8>) -> nat
    decreases s.len(),
{
    if s.len() == 0 {
        0
    } else {
        digits_value(s.drop_last()) * 10 + (s.last() - 48) as nat
    }
}

/// The number that `s` writes, if `s` is one or more decimal digits, with or
/// without a plus sign before them, and the number is at most `max`.
pub open spec fn parse_number(s: Seq<u8>, max: nat) -> Option<nat> {
    let body = unsigned_part(s);
    if body.len() > 0 && all_digits(body) && digits_value(body) <= max {
        Some(digits_value(body))
    } else {
        None
    }
}

/// `s` without the plus sign that it may begin with.
pub open spec fn unsigned_part(s: Seq<u8>) -> Seq<u8> {
    if s.len() > 0 && s[0] == 43 {
        s.skip(1)
    } else {
        s
    }
}

pub open spec fn all_digits(s: Seq<u8>) -> bool {
    forall|i: int| 0 <= i < s.len() ==> is_digit(#[trigger] s[i])
}

/// The place of the first hyphen at or after `from`; the length of `s`
/// where there is none.
pub open spec fn next_hyphen(s: Seq<u8>, from: int) -> int
    decreases s.len() - from,
{
    if from >= s.len() {
        s.len() as int
    } else if s[from] == 45 {
        from
    } else {
        next_hyphen(s, from + 1)
    }
}

/// Year, month and day of a text of three parts or more that hyphens
/// separate. A part that is not a number stands as its sentinel: 2020 for
/// the year, 1 for the month and for the day. A text of fewer parts is the
/// first day of 2020.
pub open spec fn spec_parse_date(s: Seq<u8>) -> (i32, u32, u32) {
    let a = next_hyphen(s, 0);
    let b = next_hyphen(s, a + 1);
    let c = next_hyphen(s, b + 1);
    if a >= s.len() || b >= s.len() {
        (SENTINEL_YEAR, SENTINEL_PART, SENTINEL_PART)
    } else {
        (
            match parse_number(s.subrange(0, a), i32::MAX as nat) {
                Some(y) => y as i32,
                None => SENTINEL_YEAR,
            },
            match parse_number(s.subrange(a + 1, b), u32::MAX as nat) {
                Some(m) => m as u32,
                None => SENTINEL_PART,
            },
            match parse_number(s.subrange(b + 1, c), u32::MAX as nat) {
                Some(d) => d as u32,
                None => SENTINEL_PART,
            },
        )
    }
}

proof fn lemma_digits_grow(s: Seq<u8>, k: int)
    requires
        0 <= k <= s.len(),
        forall|i: int| 0 <= i < s.len() ==> is_digit(#[trigger] s[i]),
    ensures
        digits_value(s.take(k)) <= digits_value(s),
    decreases s.len() - k,
{
    if k < s.len() {
        lemma_digits_grow(s, k + 1);
        assert(s.take(k + 1).drop_last() =~= s.take(k));
    } else {
        assert(s.take(k) =~= s);
    }
}

fn find_hyphen(bytes: &[u8], from: usize) -> (at: usize)
    requires
        from <= bytes@.len(),
    ensures
        at == next_hyphen(bytes@, from as int),
        from <= at <= bytes@.len(),
{
    let mut k: usize = from;
    while k < bytes.len() && bytes[k] != 45
        invariant
            from <= k <= bytes@.len(),
            next_hyphen(bytes@, from as int) == next_hyphen(bytes@, k as int),
        decreases bytes@.len() - k,
    {
        k += 1;
    }
    k
}

fn read_number(bytes: &[u8], from: usize, to: usize, max: u64) -> (number: Option<u64>)
    requires
        from <= to <= bytes@.len(),
        max <= u32::MAX,
    ensures
        match number {
            Some(n) => parse_number(bytes@.subrange(from as int, to as int), max as nat) == Some(
                n as nat,
            ),
            None => parse_number(bytes@.subrange(from as int, to as int), max as nat) is None,
        },
{
    let ghost part = bytes@.subrange(from as int, to as int);
    let start: usize = if from < to && bytes[from] == 43 {
        from + 1
    } else {
        from
    };
    let ghost body = bytes@.subrange(start as int, to as int);
    proof {
        if from < to && part[0] == 43 {
            assert(part.skip(1) =~= body);
        } else {
            assert(part =~= body);
        }
    }
    if start == to {
        return None;
    }
    let mut value: u64 = 0;
    let mut k: usize = start;
    proof {
        assert(body.take(0) =~= Seq::<u8>::empty());
    }
    while k < to
        invariant
            start <= k <= to <= bytes@.len(),
            from <= start,
            body == bytes@.subrange(start as int, to as int),
            part == bytes@.subrange(from as int, to as int),
            body == unsigned_part(part),
            max <= u32::MAX,
            forall|i: int| 0 <= i < k - start ==> is_digit(#[trigger] body[i]),
            value == digits_value(body.take(k - start)),
            value <= max,
        decreases to - k,
    {
        let b: u8 = bytes[k];
        if b < 48 || b > 57 {
            proof {
                assert(!is_digit(body[k - start]));
            }
            return None;
        }
        let next: u64 = value * 10 + (b - 48) as u64;
        proof {
            assert(body.take(k - start + 1).drop_last() =~= body.take(k - start));
            assert(body.take(k - start + 1).last() == b);
            assert(next == digits_value(body.take(k - start + 1)));
        }
        if next > max {
            proof {
                if all_digits(body) {
                    lemma_digits_grow(body, k - start + 1);
                }
            }
            return None;
        }
        value = next;
        k += 1;
    }
    proof {
        assert(body.take(to - start) =~= body);
    }
    Some(value)
}

/// Year, month and day of `text`.
pub fn parse_date(text: &str) -> (date: (i32, u32, u32))
    ensures
        date == spec_parse_date(encode_utf8(text@)),
{
    let bytes = text.as_bytes();
    let n: usize = bytes.len();
    let a = find_hyphen(bytes, 0);
    if a >= n {
        return (SENTINEL_YEAR, SENTINEL_PART, SENTINEL_PART);
    }
    let b = find_hyphen(bytes, a + 1);
    if b >= n {
        return (SENTINEL_YEAR, SENTINEL_PART, SENTINEL_PART);
    }
    let c = find_hyphen(bytes, b + 1);
    let year: i32 = match read_number(bytes, 0, a, i32::MAX as u64) {
        Some(y) => y as i32,
        None => SENTINEL_YEAR,
    };
    let month: u32 = match read_number(bytes, a + 1, b, u32::MAX as u64) {
        Some(m) => m as u32,
        None => SENTINEL_PART,
    };
    let day: u32 = match read_number(bytes, b + 1, c, u32::MAX as u64) {
        Some(d) => d as u32,
        None => SENTINEL_PART,
    };
    (year, month, day)
}

/// The short name of a month; a question mark for a number that is none.
pub fn month_name(month: u32) -> (name: &'static str)
    ensures
        name@ == (if month == 1 {
            "Jan"@
        } else if month == 2 {
            "Feb"@
        } else if month == 3 {
            "Mar"@
        } else if month == 4 {
            "Apr"@
        } else if month == 5 {
            "May"@
        } else if month == 6 {
            "Jun"@
        } else if month == 7 {
            "Jul"@
        } else if month == 8 {
            "Aug"@
        } else if month == 9 {
            "Sep"@
        } else if month == 10 {
            "Oct"@
        } else if month == 11 {
            "Nov"@
        } else if month == 12 {
            "Dec"@
        } else {
            "?"@
        }),
{
    if month == 1 {
        "Jan"
    } else if month == 2 {
        "Feb"
    } else if month == 3 {
        "Mar"
    } else if month == 4 {
        "Apr"
    } else if month == 5 {
        "May"
    } else if month == 6 {
        "Jun"
    } else if month == 7 {
        "Jul"
    } else if month == 8 {
        "Aug"
    } else if month == 9 {
        "Sep"
    } else if month == 10 {
        "Oct"
    } else if month == 11 {
        "Nov"
    } else if month == 12 {
        "Dec"
    } else {
        "?"
    }
}

/// `a / b` rounded towards zero.
pub open spec fn spec_quot(a: int, b: int) -> int {
    if a >= 0 {
        a / b
    } else {
        -((-a) / b)
    }
}

/// What is left of `a` when `b` is taken from it `spec_quot(a, b)` times.
pub open spec fn spec_rest(a: int, b: int) -> int {
    a - spec_quot(a, b) * b
}

fn quot(a: i64, b: i64) -> (q: i64)
    requires
        b > 0,
        a > i64::MIN,
    ensures
        q == spec_quot(a as int, b as int),
{
    if a >= 0 {
        a / b
    } else {
        let q: i64 = (-a) / b;
        -q
    }
}

/// What the months before month `month` of a year shift the day of the week
/// by.
pub open spec fn month_shift(month: int) -> int {
    if month == 1 {
        0
    } else if month == 2 {
        3
    } else if month == 3 {
        2
    } else if month == 4 {
        5
    } else if month == 5 {
        0
    } else if month == 6 {
        3
    } else if month == 7 {
        5
    } else if month == 8 {
        1
    } else if month == 9 {
        4
    } else if month == 10 {
        6
    } else if month == 11 {
        2
    } else {
        4
    }
}

/// The day of the week of a day of the Gregorian calendar, 0 for Monday to
/// 6 for Sunday: the year, counted from March, with its leap days, the
/// shift of the month and the day of the month, by sevens.
pub open spec fn spec_day_of_week(year: i32, month: u32, day: u32) -> int {
    let y = if month < 3 {
        year - 1
    } else {
        year as int
    };
    let sum = y + spec_quot(y, 4) - spec_quot(y, 100) + spec_quot(y, 400) + month_shift(
        month as int,
    ) + day;
    spec_rest(spec_rest(sum, 7) + 6, 7)
}

pub fn day_of_week(year: i32, month: u32, day: u32) -> (weekday: u32)
    requires
        1 <= month <= 12,
    ensures
        weekday == spec_day_of_week(year, month, day),
        weekday < 7,
{
    let y: i64 = if month < 3 {
        year as i64 - 1
    } else {
        year as i64
    };
    let shift: i64 = if month == 1 {
        0
    } else if month == 2 {
        3
    } else if month == 3 {
        2
    } else if month == 4 {
        5
    } else if month == 5 {
        0
    } else if month == 6 {
        3
    } else if month == 7 {
        5
    } else if month == 8 {
        1
    } else if month == 9 {
        4
    } else if month == 10 {
        6
    } else if month == 11 {
        2
    } else {
        4
    };
    let sum: i64 = y + quot(y, 4) - quot(y, 100) + quot(y, 400) + shift + day as i64;
    let sevens: i64 = quot(sum, 7);
    let first: i64 = sum - sevens * 7;
    let moved: i64 = first + 6;
    let weekday: i64 = moved - quot(moved, 7) * 7;
    weekday as u32
}

/// The number by which the release heatmap places a day: 365 for every
/// year, the leap days up to the year, the days of the months since March,
/// and the day of the month. January and February count as the two months
/// after December of their own year, so the number rises by one from day to
/// day only from 1 March to 31 December of a year and within its January
/// and February; it is not a count of days across the turn of a year or
/// from February to March.
pub open spec fn spec_day_number(year: i32, month: u32, day: u32) -> int {
    let m = if month > 2 {
        month - 3
    } else {
        month + 9
    };
    365 * year + spec_quot(year as int, 4) - spec_quot(year as int, 100) + spec_quot(
        year as int,
        400,
    ) + (153 * m + 2) / 5 + day - 1
}

pub fn days_from_epoch(year: i32, month: u32, day: u32) -> (days: i64)
    ensures
        days == spec_day_number(year, month, day),
{
    let y: i64 = year as i64;
    let m: i64 = if month > 2 {
        month as i64 - 3
    } else {
        month as i64 + 9
    };
    365 * y + quot(y, 4) - quot(y, 100) + quot(y, 400) + (153 * m + 2) / 5 + day as i64 - 1
}

} // verus!
