//! Calendar arithmetic for the simulator's time stamps: the textual dates of
//! the ephemeris files ("23 Apr 2026 06:30:00.000") and the epochs of TLE sets
//! (YYDDD.DDDDDDDD).
//!
//! Julian dates are split into an integer part computed here and the
//! fraction of a day, which the caller adds.

use vstd::prelude::*;
use crate::text::{is_digit, parsed_i32, parse_i32, split_words, split_on, words_from, pieces_from, texts};

verus! {

/// Month number of a three-letter English month abbreviation ("Jan" is 1),
/// 1 for anything else.
pub open spec fn month_of(t: Seq<u8>) -> i32 {
    if t == seq![74u8, 97, 110] {
        1
    } else if t == seq![70u8, 101, 98] {
        2
    } else if t == seq![77u8, 97, 114] {
        3
    } else if t == seq![65u8, 112, 114] {
        4
    } else if t == seq![77u8, 97, 121] {
        5
    } else if t == seq![74u8, 117, 110] {
        6
    } else if t == seq![74u8, 117, 108] {
        7
    } else if t == seq![65u8, 117, 103] {
        8
    } else if t == seq![83u8, 101, 112] {
        9
    } else if t == seq![79u8, 99, 116] {
        10
    } else if t == seq![78u8, 111, 118] {
        11
    } else if t == seq![68u8, 101, 99] {
        12
    } else {
        1
    }
}

fn is_word3(t: &[u8], a: u8, b: u8, c: u8) -> (r: bool)
    ensures
        r == (t@ == seq![a, b, c]),
{
    if t.len() == 3 && t[0] == a && t[1] == b && t[2] == c {
        assert(t@ =~= seq![a, b, c]);
        true
    } else {
        false
    }
}

/// The twelve English month abbreviations in calendar order, as ASCII
/// bytes: "Jan", "Feb", "Mar", "Apr", "May", "Jun", "Jul", "Aug", "Sep",
/// "Oct", "Nov", "Dec".
pub open spec fn month_abbreviations() -> Seq<Seq<u8>> {
    seq![
        seq![74u8, 97, 110],
        seq![70u8, 101, 98],
        seq![77u8, 97, 114],
        seq![65u8, 112, 114],
        seq![77u8, 97, 121],
        seq![74u8, 117, 110],
        seq![74u8, 117, 108],
        seq![65u8, 117, 103],
        seq![83u8, 101, 112],
        seq![79u8, 99, 116],
        seq![78u8, 111, 118],
        seq![68u8, 101, 99],
    ]
}

/// The abbreviations name the months in calendar order: the `k`-th one
/// ("Jan" first) is month `k + 1`, so no two of them share a month number.
pub proof fn lemma_months_in_calendar_order()
    ensures
        forall|k: int| 0 <= k < 12 ==> month_of(#[trigger] month_abbreviations()[k]) == k + 1,
        forall|a: int, b: int|
            0 <= a < 12 && 0 <= b < 12 && month_of(#[trigger] month_abbreviations()[a]) == month_of(
                #[trigger] month_abbreviations()[b],
            ) ==> a == b,
        forall|t: Seq<u8>| 1 <= #[trigger] month_of(t) <= 12,
{
    let m = month_abbreviations();
    assert(month_of(m[0]) == 1);
    assert(month_of(m[1]) == 2);
    assert(month_of(m[2]) == 3);
    assert(month_of(m[3]) == 4);
    assert(month_of(m[4]) == 5);
    assert(month_of(m[5]) == 6);
    assert(month_of(m[6]) == 7);
    assert(month_of(m[7]) == 8);
    assert(month_of(m[8]) == 9);
    assert(month_of(m[9]) == 10);
    assert(month_of(m[10]) == 11);
    assert(month_of(m[11]) == 12);
}

/// Month number of a three-letter month abbreviation, 1 when unknown.
pub fn month_number(t: &[u8]) -> (m: i32)
    ensures
        m == month_of(t@),
        1 <= m <= 12,
        forall|k: int| 0 <= k < 12 && t@ == #[trigger] month_abbreviations()[k] ==> m == k + 1,
{
    proof {
        lemma_months_in_calendar_order();
    }
    if is_word3(t, 74, 97, 110) {
        1
    } else if is_word3(t, 70, 101, 98) {
        2
    } else if is_word3(t, 77, 97, 114) {
        3
    } else if is_word3(t, 65, 112, 114) {
        4
    } else if is_word3(t, 77, 97, 121) {
        5
    } else if is_word3(t, 74, 117, 110) {
        6
    } else if is_word3(t, 74, 117, 108) {
        7
    } else if is_word3(t, 65, 117, 103) {
        8
    } else if is_word3(t, 83, 101, 112) {
        9
    } else if is_word3(t, 79, 99, 116) {
        10
    } else if is_word3(t, 78, 111, 118) {
        11
    } else if is_word3(t, 68, 101, 99) {
        12
    } else {
        1
    }
}

/// The fields of a textual time stamp "DD Mon YYYY hh:mm:ss.sss".
pub struct DateTimeFields {
    /// Day of the month (1 when the text is not an integer).
    pub day: i32,
    /// Month number (1 when the abbreviation is unknown).
    pub month: i32,
    /// Year (2026 when the text is not an integer).
    pub year: i32,
    /// The `:`-separated pieces of the clock time, still as text.
    pub clock: Vec<Vec<u8>>,
}

pub open spec fn or_default(v: Option<i32>, default: i32) -> i32 {
    match v {
        Some(x) => x,
        None => default,
    }
}

/// Splits a time stamp into its fields: the first four words are day, month,
/// year and clock time; with fewer than four words there is no time stamp.
pub fn date_time_fields(text: &[u8]) -> (r: Option<DateTimeFields>)
    ensures
        r is None <==> words_from(text@, 0).len() < 4,
        r matches Some(f) ==> {
            let w = words_from(text@, 0);
            &&& f.day == or_default(parsed_i32(w[0]), 1)
            &&& f.month == month_of(w[1])
            &&& f.year == or_default(parsed_i32(w[2]), 2026)
            &&& texts(f.clock@) == pieces_from(w[3], 0, 58)
        },
{
    let words = split_words(text);
    if words.len() < 4 {
        return None;
    }
    proof {
        assert(texts(words@)[0] == words@[0]@);
        assert(texts(words@)[1] == words@[1]@);
        assert(texts(words@)[2] == words@[2]@);
        assert(texts(words@)[3] == words@[3]@);
    }
    let day = match parse_i32(words[0].as_slice()) {
        Some(v) => v,
        None => 1,
    };
    let month = month_number(words[1].as_slice());
    let year = match parse_i32(words[2].as_slice()) {
        Some(v) => v,
        None => 2026,
    };
    let clock = split_on(words[3].as_slice(), 58);
    Some(DateTimeFields { day, month, year, clock })
}

/// Integer part of the Julian-date sum for a Gregorian calendar date
/// (Meeus): the Julian date at the start of the day, plus 1524.5.
pub open spec fn day_number(y: int, m: int, d: int) -> int {
    let yy = if m <= 2 { y - 1 } else { y };
    let mm = if m <= 2 { m + 12 } else { m };
    let a = yy / 100;
    let b = 2 - a + a / 4;
    (1461 * (yy + 4716)) / 4 + (306001 * (mm + 1)) / 10000 + d + b
}

/// Gregorian leap years: divisible by 4, except centuries not divisible by 400.
pub open spec fn is_leap_year(y: int) -> bool {
    y % 4 == 0 && (y % 100 != 0 || y % 400 == 0)
}

/// Length of month `m` (1 to 12) of year `y` in the Gregorian calendar.
pub open spec fn month_length(y: int, m: int) -> int {
    if m == 2 {
        if is_leap_year(y) { 29 } else { 28 }
    } else if m == 4 || m == 6 || m == 9 || m == 11 {
        30
    } else {
        31
    }
}

/// The day numbers count days of the Gregorian calendar: the next day of a
/// month is one more, the first of the next month is the length of the
/// month more (28 or 29 for February, by the leap-year rule), and the first
/// of January follows the first of December by 31 days.
pub proof fn lemma_day_number_counts_days(y: int, m: int, d: int)
    requires
        1 <= m <= 12,
    ensures
        day_number(y, m, d + 1) == day_number(y, m, d) + 1,
        m <= 11 ==> day_number(y, m + 1, 1) == day_number(y, m, 1) + month_length(y, m),
        m == 12 ==> day_number(y + 1, 1, 1) == day_number(y, 12, 1) + 31,
{
    if m == 2 {
        let f1 = (1461 * (y + 4716)) / 4;
        let f0 = (1461 * (y - 1 + 4716)) / 4;
        assert(f1 == f0 + 365 + (if y % 4 == 0 { 1int } else { 0int }));
        let a1 = y / 100;
        let a0 = (y - 1) / 100;
        assert(a1 == a0 + (if y % 100 == 0 { 1int } else { 0int }));
        assert(a1 / 4 == a0 / 4 + (if y % 400 == 0 { 1int } else { 0int }));
        assert((306001 * (3 + 1)) / 10000 == 122);
        assert((306001 * (14 + 1)) / 10000 == 459);
    } else if m == 12 {
        assert((1461 * (y + 1 - 1 + 4716)) / 4 == (1461 * (y + 4716)) / 4);
        assert((306001 * (13 + 1)) / 10000 == 428);
        assert((306001 * (12 + 1)) / 10000 == 397);
    } else if m == 1 {
        assert((306001 * (15 + 1)) / 10000 == 489);
        assert((306001 * (14 + 1)) / 10000 == 459);
    } else {
        assert((306001 * (4 + 1)) / 10000 == 153);
        assert((306001 * (5 + 1)) / 10000 == 183);
        assert((306001 * (6 + 1)) / 10000 == 214);
        assert((306001 * (7 + 1)) / 10000 == 244);
        assert((306001 * (8 + 1)) / 10000 == 275);
        assert((306001 * (9 + 1)) / 10000 == 306);
        assert((306001 * (10 + 1)) / 10000 == 336);
        assert((306001 * (11 + 1)) / 10000 == 367);
        assert((306001 * (12 + 1)) / 10000 == 397);
        assert((306001 * (3 + 1)) / 10000 == 122);
    }
}

/// Floor of `n / k`.
fn floor_div(n: i64, k: i64) -> (q: i64)
    requires
        0 < k <= 10000,
        -0x1_0000_0000_0000 <= n <= 0x1_0000_0000_0000,
    ensures
        q == n / k,
{
    if n >= 0 {
        let q = n / k;
        assert(q == n / k) by (nonlinear_arith)
            requires
                n >= 0,
                k > 0,
                q == n / k,
        ;
        q
    } else {
        let m = -n;
        let c = (m + k - 1) / k;
        proof {
            lemma_floor_of_negative(n as int, k as int, c as int);
        }
        -c
    }
}

proof fn lemma_floor_of_negative(n: int, k: int, c: int)
    requires
        n < 0,
        k > 0,
        c == (-n + k - 1) / k,
    ensures
        -c == n / k,
{
    let m = -n;
    let r = (m + k - 1) % k;
    let q = n / k;
    let s = n % k;
    assert(m + k - 1 == c * k + r && 0 <= r < k) by (nonlinear_arith)
        requires
            k > 0,
            c == (m + k - 1) / k,
            r == (m + k - 1) % k,
    ;
    assert(n == q * k + s && 0 <= s < k) by (nonlinear_arith)
        requires
            k > 0,
            q == n / k,
            s == n % k,
    ;
    assert((c + q) * k == k - 1 - r - s) by (nonlinear_arith)
        requires
            m + k - 1 == c * k + r,
            n == q * k + s,
            m == -n,
    ;
    assert(c + q == 0) by (nonlinear_arith)
        requires
            (c + q) * k == k - 1 - r - s,
            0 <= r < k,
            0 <= s < k,
            k > 0,
    ;
}

/// Integer part of the Julian-date sum for day `d` of month `m` (1 to 12)
/// of year `y`: the Julian date of that day's start is this minus 1524.5.
pub fn date_day_number(y: i32, m: i32, d: i32) -> (r: i64)
    requires
        1 <= m <= 12,
        !(m <= 2 && y == i32::MIN),
    ensures
        r == day_number(y as int, m as int, d as int),
{
    let yy: i64 = if m <= 2 { y as i64 - 1 } else { y as i64 };
    let mm: i64 = if m <= 2 { m as i64 + 12 } else { m as i64 };
    let a = floor_div(yy, 100);
    let b = 2 - a + floor_div(a, 4);
    let f1 = floor_div(1461 * (yy + 4716), 4);
    let f2 = (306001 * (mm + 1)) / 10000;
    f1 + f2 + d as i64 + b
}

/// Year of a TLE epoch from its two-digit year: 57 to 99 are 1957 to 1999,
/// anything below 57 is in the 2000s.
pub open spec fn epoch_year(two_digits: int) -> int {
    if two_digits < 57 {
        2000 + two_digits
    } else {
        1900 + two_digits
    }
}

/// A TLE epoch "YYDDD.DDDDDDDD" split into its year and its day-of-year text.
pub struct TleEpoch {
    /// Full year.
    pub year: i32,
    /// The day of the year (with fraction), still as text.
    pub day_text: Vec<u8>,
}

/// Splits a TLE epoch: an epoch shorter than five bytes has no fields; the
/// first two bytes are the year (0 when not an integer) and the rest the day.
pub fn tle_epoch(epoch: &[u8]) -> (r: Option<TleEpoch>)
    ensures
        r is None <==> epoch.len() < 5,
        r matches Some(e) ==> {
            &&& e.year == epoch_year(or_default(parsed_i32(epoch@.take(2)), 0) as int)
            &&& e.day_text@ == epoch@.skip(2)
        },
        r matches Some(e) ==> (is_digit(epoch@[0]) && is_digit(epoch@[1]) ==> {
            let yy = (epoch@[0] - 48) * 10 + (epoch@[1] - 48);
            e.year == if yy <= 56 { 2000 + yy } else { 1900 + yy }
        }),
{
    proof {
        if epoch.len() >= 2 && is_digit(epoch@[0]) && is_digit(epoch@[1]) {
            lemma_epoch_year_pivot(epoch@);
        }
    }
    if epoch.len() < 5 {
        return None;
    }
    let head = crate::text::copy_range(epoch, 0, 2);
    let two = match parse_i32(head.as_slice()) {
        Some(v) => v,
        None => 0,
    };
    proof {
        assert(head@ =~= epoch@.take(2));
        if let Some(v) = parsed_i32(head@) {
            lemma_two_byte_integer_range(head@);
        }
    }
    let year = if two < 57 { 2000 + two } else { 1900 + two };
    let day_text = crate::text::copy_range(epoch, 2, epoch.len());
    assert(day_text@ =~= epoch@.skip(2));
    Some(TleEpoch { year, day_text })
}

/// The two-digit year of a TLE epoch follows the NORAD pivot: 00 to 56 are
/// the years 2000 to 2056, 57 to 99 the years 1957 to 1999.
pub proof fn lemma_epoch_year_pivot(epoch: Seq<u8>)
    requires
        epoch.len() >= 2,
        is_digit(epoch[0]),
        is_digit(epoch[1]),
    ensures
        ({
            let yy = (epoch[0] - 48) * 10 + (epoch[1] - 48);
            &&& parsed_i32(epoch.take(2)) == Some(yy as i32)
            &&& epoch_year(or_default(parsed_i32(epoch.take(2)), 0) as int) == if yy <= 56 {
                2000 + yy
            } else {
                1900 + yy
            }
        }),
{
    let s = epoch.take(2);
    assert(s[0] == epoch[0] && s[1] == epoch[1]);
    assert(crate::text::all_digits(s));
    assert(s.drop_last() =~= seq![epoch[0]]);
    assert(s.drop_last().drop_last() =~= Seq::<u8>::empty());
    assert(crate::text::digits_value(s.drop_last().drop_last()) == 0);
    assert(crate::text::digits_value(s.drop_last()) == epoch[0] - 48);
    assert(crate::text::digits_value(s) == (epoch[0] - 48) * 10 + (epoch[1] - 48));
}

proof fn lemma_two_byte_integer_range(s: Seq<u8>)
    requires
        s.len() == 2,
        parsed_i32(s) is Some,
    ensures
        -9 <= parsed_i32(s)->0 <= 99,
{
    reveal_with_fuel(crate::text::digits_value, 3);
    let d = if s[0] == 45 || s[0] == 43 { s.skip(1) } else { s };
    assert(crate::text::all_digits(d));
    assert(crate::text::is_digit(d[0]));
    if d.len() == 1 {
        assert(d.drop_last().len() == 0);
    } else {
        assert(d.len() == 2);
        assert(crate::text::is_digit(d[1]));
        assert(d.drop_last() =~= seq![d[0]]);
        assert(d.drop_last().drop_last().len() == 0);
    }
}

/// Integer part of the Julian date of a TLE epoch year's January 1.5 reference:
/// `367 y - floor(7 (y + 1) / 4)`; the Julian date adds 275/9 + 1721013.5.
pub open spec fn jan1_part(y: int) -> int {
    367 * y - (7 * (y + 1)) / 4
}

/// Consecutive epoch years' reference dates are 365 or 366 days apart,
/// 366 exactly when the later year is divisible by four (the rule of the
/// formula `367 y - floor(7 (y + 1) / 4)`, which has no century exception).
pub proof fn lemma_jan1_year_lengths(y: int)
    ensures
        jan1_part(y + 1) - jan1_part(y) == if (y + 1) % 4 == 0 { 366int } else { 365int },
{
    let x = y + 1;
    assert((7 * (x + 1)) / 4 - (7 * x) / 4 == if x % 4 == 0 { 1int } else { 2int });
}

/// Integer part of a TLE epoch year's reference Julian date (see `jan1_part`).
pub fn jan1_day_part(year: i32) -> (r: i64)
    ensures
        r == jan1_part(year as int),
{
    let y = year as i64;
    367 * y - floor_div(7 * (y + 1), 4)
}

} // verus!
