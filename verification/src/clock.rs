//! The minutes that bound a query, as Grafana writes them and as Graphite reads them.

use crate::text::{digit_char, number_of};
use vstd::prelude::*;

verus! {

/// How Graphite wants the bounds of a query: hour, minute, year, month and day.
pub const GRAPHITE_LAYOUT: &'static str = "%H:%M_%Y%m%d";

/// A minute as a clock and a calendar on the wall show it, in whatever zone they hang.
#[derive(Clone, Copy, Debug, PartialEq, Eq, Structural)]
pub struct WallClock {
    pub year: u16,
    pub month: u8,
    pub day: u8,
    pub hour: u8,
    pub minute: u8,
}

/// Whether the Gregorian year has a 29th of February.
pub open spec fn is_leap(year: int) -> bool {
    year % 4 == 0 && (year % 100 != 0 || year % 400 == 0)
}

/// The length of a month.
pub open spec fn days_in_month(year: int, month: int) -> int {
    if month == 2 {
        if is_leap(year) {
            29
        } else {
            28
        }
    } else if month == 4 || month == 6 || month == 9 || month == 11 {
        30
    } else {
        31
    }
}

/// The two digits of a number below one hundred.
pub open spec fn two_digits(n: int) -> Seq<char> {
    seq![digit_char((n / 10) as nat), digit_char((n % 10) as nat)]
}

impl WallClock {
    /// The minute exists, in a year of at most four digits.
    pub open spec fn wf(self) -> bool {
        &&& self.year <= 9999
        &&& 1 <= self.month <= 12
        &&& 1 <= self.day <= days_in_month(self.year as int, self.month as int)
        &&& self.hour < 24
        &&& self.minute < 60
    }

    /// The four digits of the year.
    pub open spec fn year_digits(self) -> Seq<char> {
        two_digits(self.year as int / 100) + two_digits(self.year as int % 100)
    }

    /// The minute in Graphite's notation.
    pub open spec fn graphite_text(self) -> Seq<char> {
        two_digits(self.hour as int) + seq![':'] + two_digits(self.minute as int) + seq!['_']
            + self.year_digits() + two_digits(self.month as int) + two_digits(self.day as int)
    }

    /// The beginning of an RFC 3339 text for a second of this minute, up to its seconds.
    pub open spec fn rfc3339_text(self, separator: char, second: int) -> Seq<char> {
        self.year_digits() + seq!['-'] + two_digits(self.month as int) + seq!['-'] + two_digits(
            self.day as int,
        ) + seq![separator] + two_digits(self.hour as int) + seq![':'] + two_digits(
            self.minute as int,
        ) + seq![':'] + two_digits(second)
    }

    /// `text` is an RFC 3339 time in this minute, in whatever zone. A space may stand between the
    /// date and the time, the letters may be small, and each minute may have a leap second.
    pub open spec fn is_written_in(self, text: Seq<char>) -> bool {
        exists|separator: char, second: int, fraction: Seq<char>, zone: Seq<char>|
            #![trigger self.rfc3339_text(separator, second), is_fraction(fraction), is_zone(zone)]
            {
                &&& separator == 'T' || separator == 't' || separator == ' '
                &&& 0 <= second <= 60
                &&& is_fraction(fraction)
                &&& is_zone(zone)
                &&& text == self.rfc3339_text(separator, second) + fraction + zone
            }
    }
}

/// A fraction of a second: nothing, or a dot and at least one digit.
pub open spec fn is_fraction(text: Seq<char>) -> bool {
    text.len() == 0 || (text.len() >= 2 && text[0] == '.' && forall|i: int|
        1 <= i < text.len() ==> '0' <= #[trigger] text[i] <= '9')
}

/// The distance of a zone from universal time.
pub open spec fn offset_text(sign: char, hours: int, minutes: int) -> Seq<char> {
    seq![sign] + two_digits(hours) + seq![':'] + two_digits(minutes)
}

/// A zone: universal time, or less than a day before or behind it. The minus may be a hyphen or
/// the sign of its own.
pub open spec fn is_zone(text: Seq<char>) -> bool {
    ||| text == seq!['Z']
    ||| text == seq!['z']
    ||| exists|sign: char, hours: int, minutes: int|
        {
            &&& sign == '+' || sign == '-' || sign == '\u{2212}'
            &&& 0 <= hours < 24
            &&& 0 <= minutes < 60
            &&& text == #[trigger] offset_text(sign, hours, minutes)
        }
}

/// The minute that an RFC 3339 text shows, in the zone that the text gives; nothing where the text
/// is no such time.
pub open spec fn rfc3339_minute(text: Seq<char>) -> Option<WallClock> {
    if exists|t: WallClock| t.wf() && #[trigger] t.is_written_in(text) {
        Some(choose|t: WallClock| t.wf() && #[trigger] t.is_written_in(text))
    } else {
        None
    }
}

/// Parses `text` with `chrono::DateTime::parse_from_rfc3339`.
///
/// Trusted: it succeeds if and only if the text is an RFC 3339 time, as `is_written_in` has it, of
/// a date and a time that exist; and the year, month, day, hour and minute that it yields in the
/// text's own zone are those that the text shows.
#[verifier::external_body]
fn parse_rfc3339(text: &str) -> (r: Option<WallClock>)
    ensures
        r matches Some(t) ==> t.wf() && t.is_written_in(text@),
        r is None ==> forall|t: WallClock| t.wf() ==> !(#[trigger] t.is_written_in(text@)),
{
    let time = chrono::DateTime::parse_from_rfc3339(text).ok()?;
    Some(WallClock {
        year: chrono::Datelike::year(&time) as u16,
        month: chrono::Datelike::month(&time) as u8,
        day: chrono::Datelike::day(&time) as u8,
        hour: chrono::Timelike::hour(&time) as u8,
        minute: chrono::Timelike::minute(&time) as u8,
    })
}

/// The minute that an RFC 3339 text shows, if it is such a text.
pub fn read_minute(text: &str) -> (r: Option<WallClock>)
    ensures
        r == rfc3339_minute(text@),
        r matches Some(t) ==> t.wf() && t.is_written_in(text@),
{
    let r: Option<WallClock> = parse_rfc3339(text);
    proof {
        match r {
            Some(t) => law_text_shows_one_minute(t, text@),
            None => {},
        }
    }
    r
}

/// Formats the minute with `chrono::DateTime::format`.
///
/// Trusted: for this layout it writes the zero-padded hour, a colon, the minute, an underscore,
/// the four digits of the year, the month and the day.
#[verifier::external_body]
fn format_clock(time: WallClock, layout: &str) -> (r: String)
    requires
        time.wf(),
        layout@ == GRAPHITE_LAYOUT@,
    ensures
        r@ == time.graphite_text(),
{
    let date = chrono::NaiveDate::from_ymd_opt(time.year.into(), time.month.into(), time.day.into());
    let local = date.and_then(|d| d.and_hms_opt(time.hour.into(), time.minute.into(), 0)).unwrap();
    local.and_utc().fixed_offset().format(layout).to_string()
}

/// The minute in Graphite's notation.
pub fn graphite_time(time: WallClock) -> (r: String)
    requires
        time.wf(),
    ensures
        r@ == time.graphite_text(),
{
    format_clock(time, GRAPHITE_LAYOUT)
}

/// Where an RFC 3339 text has the year, the month, the day, the hour and the minute.
proof fn lemma_places(time: WallClock, text: Seq<char>)
    requires
        time.is_written_in(text),
    ensures
        text.len() >= 20,
        text.subrange(0, 4) == time.year_digits(),
        text.subrange(5, 7) == two_digits(time.month as int),
        text.subrange(8, 10) == two_digits(time.day as int),
        text.subrange(11, 13) == two_digits(time.hour as int),
        text.subrange(14, 16) == two_digits(time.minute as int),
{
    let (separator, second, fraction, zone) = choose|
        separator: char,
        second: int,
        fraction: Seq<char>,
        zone: Seq<char>,
    |
        #![trigger time.rfc3339_text(separator, second), is_fraction(fraction), is_zone(zone)]
        is_fraction(fraction) && is_zone(zone) && text == time.rfc3339_text(separator, second)
            + fraction + zone;
    assert(text.subrange(0, 4) =~= time.year_digits());
    assert(text.subrange(5, 7) =~= two_digits(time.month as int));
    assert(text.subrange(8, 10) =~= two_digits(time.day as int));
    assert(text.subrange(11, 13) =~= two_digits(time.hour as int));
    assert(text.subrange(14, 16) =~= two_digits(time.minute as int));
}

/// Two digits stand for one number.
proof fn lemma_two_digits(a: int, b: int)
    requires
        0 <= a < 100,
        0 <= b < 100,
        two_digits(a) == two_digits(b),
    ensures
        a == b,
{
    assert(two_digits(a)[0] == two_digits(b)[0]);
    assert(two_digits(a)[1] == two_digits(b)[1]);
}

/// Four digits stand for one year.
proof fn lemma_year_digits(a: WallClock, b: WallClock)
    requires
        a.year <= 9999,
        b.year <= 9999,
        a.year_digits() == b.year_digits(),
    ensures
        a.year == b.year,
{
    let (x, y) = (a.year as int, b.year as int);
    assert(a.year_digits().subrange(0, 2) =~= two_digits(x / 100));
    assert(a.year_digits().subrange(2, 4) =~= two_digits(x % 100));
    assert(b.year_digits().subrange(0, 2) =~= two_digits(y / 100));
    assert(b.year_digits().subrange(2, 4) =~= two_digits(y % 100));
    lemma_two_digits(x / 100, y / 100);
    lemma_two_digits(x % 100, y % 100);
}

/// A text shows at most one minute.
proof fn lemma_same_minute(a: WallClock, b: WallClock, text: Seq<char>)
    requires
        a.wf(),
        b.wf(),
        a.is_written_in(text),
        b.is_written_in(text),
    ensures
        a == b,
{
    lemma_places(a, text);
    lemma_places(b, text);
    lemma_year_digits(a, b);
    lemma_two_digits(a.month as int, b.month as int);
    lemma_two_digits(a.day as int, b.day as int);
    lemma_two_digits(a.hour as int, b.hour as int);
    lemma_two_digits(a.minute as int, b.minute as int);
}

/// A text shows at most one minute, and that is the one that is read.
pub proof fn law_text_shows_one_minute(time: WallClock, text: Seq<char>)
    requires
        time.wf(),
        time.is_written_in(text),
    ensures
        rfc3339_minute(text) == Some(time),
{
    lemma_same_minute(time, rfc3339_minute(text)->0, text);
}

/// Graphite is given the very digits that the RFC 3339 text shows.
pub proof fn law_graphite_text_is_written(time: WallClock, text: Seq<char>)
    requires
        time.is_written_in(text),
    ensures
        time.graphite_text() == text.subrange(11, 13) + seq![':'] + text.subrange(14, 16)
            + seq!['_'] + text.subrange(0, 4) + text.subrange(5, 7) + text.subrange(8, 10),
{
    lemma_places(time, text);
}

/// Two digits stand for the number that they write.
proof fn lemma_number_of_two(n: int)
    requires
        0 <= n < 100,
    ensures
        two_digits(n).len() == 2,
        number_of(two_digits(n)) == n,
{
    reveal_with_fuel(number_of, 3);
    assert(two_digits(n).drop_last() =~= seq![digit_char((n / 10) as nat)]);
    assert(two_digits(n).drop_last().drop_last() =~= Seq::empty());
}

/// The number of two digits is written with these digits.
proof fn lemma_two_of_number(digits: Seq<char>)
    requires
        digits.len() == 2,
        '0' <= digits[0] <= '9',
        '0' <= digits[1] <= '9',
    ensures
        0 <= number_of(digits) < 100,
        two_digits(number_of(digits)) == digits,
{
    reveal_with_fuel(number_of, 3);
    assert(digits.drop_last() =~= seq![digits[0]]);
    assert(digits.drop_last().drop_last() =~= Seq::empty());
    assert(two_digits(number_of(digits)) =~= digits);
}

/// The number of four digits is that of the first two, a hundred times, and that of the others.
proof fn lemma_number_of_four(digits: Seq<char>)
    requires
        digits.len() == 4,
    ensures
        number_of(digits) == 100 * number_of(digits.subrange(0, 2)) + number_of(
            digits.subrange(2, 4),
        ),
{
    reveal_with_fuel(number_of, 5);
    let (a, b) = (digits.subrange(0, 2), digits.subrange(2, 4));
    assert(b.drop_last() =~= seq![digits[2]]);
    assert(b.drop_last().drop_last() =~= Seq::empty());
    assert(digits.drop_last().drop_last() =~= a);
}

/// Graphite's notation has fourteen characters: two digits of the hour, a colon, two of the
/// minute, an underscore, four of the year, two of the month and two of the day.
pub proof fn law_graphite_text(time: WallClock)
    requires
        time.wf(),
    ensures
        time.graphite_text().len() == 14,
        number_of(time.graphite_text().subrange(0, 2)) == time.hour,
        time.graphite_text()[2] == ':',
        number_of(time.graphite_text().subrange(3, 5)) == time.minute,
        time.graphite_text()[5] == '_',
        number_of(time.graphite_text().subrange(6, 10)) == time.year,
        number_of(time.graphite_text().subrange(10, 12)) == time.month,
        number_of(time.graphite_text().subrange(12, 14)) == time.day,
{
    let text = time.graphite_text();
    let year = time.year_digits();
    lemma_numbers(time);
    assert(text.subrange(0, 2) =~= two_digits(time.hour as int));
    assert(text.subrange(3, 5) =~= two_digits(time.minute as int));
    assert(text.subrange(6, 10) =~= year);
    assert(text.subrange(10, 12) =~= two_digits(time.month as int));
    assert(text.subrange(12, 14) =~= two_digits(time.day as int));
}

/// Whether the text has digits in all places from `start` up to `end`.
pub open spec fn digits_between(text: Seq<char>, start: int, end: int) -> bool {
    forall|i: int| start <= i < end ==> '0' <= #[trigger] text[i] <= '9'
}

/// A text with a date and a time that exist, at their places and with their signs between them,
/// with or without a fraction of a second, and in universal time or in a zone less than a day away
/// from it, is read, and as what its digits say.
pub proof fn law_times_are_read(text: Seq<char>, fraction: Seq<char>, zone: Seq<char>)
    requires
        text.len() == 19 + fraction.len() + zone.len(),
        text.subrange(19, text.len() as int) == fraction + zone,
        digits_between(text, 0, 4),
        text[4] == '-',
        digits_between(text, 5, 7),
        text[7] == '-',
        digits_between(text, 8, 10),
        text[10] == 'T' || text[10] == 't' || text[10] == ' ',
        digits_between(text, 11, 13),
        text[13] == ':',
        digits_between(text, 14, 16),
        text[16] == ':',
        digits_between(text, 17, 19),
        1 <= number_of(text.subrange(5, 7)) <= 12,
        ({
            let year = number_of(text.subrange(0, 4));
            let month = number_of(text.subrange(5, 7));
            1 <= number_of(text.subrange(8, 10)) <= if month == 2 {
                if year % 4 == 0 && (year % 100 != 0 || year % 400 == 0) {
                    29int
                } else {
                    28
                }
            } else if month == 4 || month == 6 || month == 9 || month == 11 {
                30
            } else {
                31
            }
        }),
        number_of(text.subrange(11, 13)) < 24,
        number_of(text.subrange(14, 16)) < 60,
        number_of(text.subrange(17, 19)) <= 60,
        fraction.len() == 0 || (fraction.len() >= 2 && fraction[0] == '.' && digits_between(
            fraction,
            1,
            fraction.len() as int,
        )),
        zone == seq!['Z'] || zone == seq!['z'] || (zone.len() == 6 && (zone[0] == '+' || zone[0]
            == '-' || zone[0] == '\u{2212}') && digits_between(zone, 1, 3) && number_of(zone.subrange(1, 3)) < 24 && zone[3]
            == ':' && digits_between(zone, 4, 6) && number_of(zone.subrange(4, 6)) < 60),
    ensures
        rfc3339_minute(text) is Some,
        rfc3339_minute(text)->0.wf(),
        rfc3339_minute(text)->0.year == number_of(text.subrange(0, 4)),
        rfc3339_minute(text)->0.month == number_of(text.subrange(5, 7)),
        rfc3339_minute(text)->0.day == number_of(text.subrange(8, 10)),
        rfc3339_minute(text)->0.hour == number_of(text.subrange(11, 13)),
        rfc3339_minute(text)->0.minute == number_of(text.subrange(14, 16)),
{
    let year = text.subrange(0, 4);
    lemma_two_of_number(year.subrange(0, 2));
    lemma_two_of_number(year.subrange(2, 4));
    lemma_number_of_four(year);
    lemma_two_of_number(text.subrange(5, 7));
    lemma_two_of_number(text.subrange(8, 10));
    lemma_two_of_number(text.subrange(11, 13));
    lemma_two_of_number(text.subrange(14, 16));
    lemma_two_of_number(text.subrange(17, 19));
    let time = WallClock {
        year: number_of(year) as u16,
        month: number_of(text.subrange(5, 7)) as u8,
        day: number_of(text.subrange(8, 10)) as u8,
        hour: number_of(text.subrange(11, 13)) as u8,
        minute: number_of(text.subrange(14, 16)) as u8,
    };
    let second = number_of(text.subrange(17, 19));
    assert(time.year_digits() =~= year);
    let head = time.rfc3339_text(text[10], second);
    assert(head =~= text.subrange(0, 19)) by {
        lemma_head(text);
    }
    assert(is_fraction(fraction));
    if zone.len() == 6 {
        let (hours, minutes) = (zone.subrange(1, 3), zone.subrange(4, 6));
        lemma_two_of_number(hours);
        lemma_two_of_number(minutes);
        assert(zone =~= offset_text(zone[0], number_of(hours), number_of(minutes)));
    }
    assert(is_zone(zone));
    assert(text =~= text.subrange(0, 19) + text.subrange(19, text.len() as int));
    assert(text =~= head + fraction + zone);
    assert(time.is_written_in(text));
    law_text_shows_one_minute(time, text);
}

/// The parts of the beginning of a text, put together.
proof fn lemma_head(text: Seq<char>)
    requires
        text.len() >= 19,
        text[4] == '-',
        text[7] == '-',
        text[13] == ':',
        text[16] == ':',
    ensures
        text.subrange(0, 19) == text.subrange(0, 4) + seq!['-'] + text.subrange(5, 7) + seq!['-']
            + text.subrange(8, 10) + seq![text[10]] + text.subrange(11, 13) + seq![':']
            + text.subrange(14, 16) + seq![':'] + text.subrange(17, 19),
{
    assert(text.subrange(0, 19) =~= text.subrange(0, 4) + seq!['-'] + text.subrange(5, 7) + seq![
        '-',
    ] + text.subrange(8, 10) + seq![text[10]] + text.subrange(11, 13) + seq![':']
        + text.subrange(14, 16) + seq![':'] + text.subrange(17, 19));
}

/// A minute exists if and only if the Gregorian calendar and the clock have it, in a year of at
/// most four digits.
pub proof fn law_existing_minutes(time: WallClock)
    ensures
        time.wf() <==> {
            &&& time.year <= 9999
            &&& 1 <= time.month <= 12
            &&& time.day >= 1
            &&& time.day <= 31
            &&& time.day == 31 ==> time.month != 2 && time.month != 4 && time.month != 6 && time.month
                != 9 && time.month != 11
            &&& time.day == 30 ==> time.month != 2
            &&& time.day == 29 && time.month == 2 ==> time.year % 4 == 0 && (time.year % 100 != 0
                || time.year % 400 == 0)
            &&& time.hour <= 23
            &&& time.minute <= 59
        },
{
}

/// Only a text with a date and a time that exist, at their places and with their signs between
/// them, with a fraction of a second or without, and with a zone, is read, and as what its digits
/// say. The fraction and the zone are the result.
pub proof fn law_only_times_are_read(text: Seq<char>) -> (r: (Seq<char>, Seq<char>))
    requires
        rfc3339_minute(text) is Some,
    ensures
        text.len() == 19 + r.0.len() + r.1.len(),
        text.subrange(19, text.len() as int) == r.0 + r.1,
        rfc3339_minute(text)->0.wf(),
        rfc3339_minute(text)->0.year == number_of(text.subrange(0, 4)),
        text[4] == '-',
        rfc3339_minute(text)->0.month == number_of(text.subrange(5, 7)),
        text[7] == '-',
        rfc3339_minute(text)->0.day == number_of(text.subrange(8, 10)),
        text[10] == 'T' || text[10] == 't' || text[10] == ' ',
        rfc3339_minute(text)->0.hour == number_of(text.subrange(11, 13)),
        text[13] == ':',
        rfc3339_minute(text)->0.minute == number_of(text.subrange(14, 16)),
        text[16] == ':',
        number_of(text.subrange(17, 19)) <= 60,
        r.0.len() == 0 || (r.0.len() >= 2 && r.0[0] == '.' && digits_between(
            r.0,
            1,
            r.0.len() as int,
        )),
        r.1 == seq!['Z'] || r.1 == seq!['z'] || (r.1.len() == 6 && (r.1[0] == '+' || r.1[0] == '-'
            || r.1[0] == '\u{2212}') && number_of(r.1.subrange(1, 3)) < 24 && r.1[3] == ':'
            && number_of(r.1.subrange(4, 6)) < 60),
{
    let time = rfc3339_minute(text)->0;
    let (separator, second, fraction, zone) = choose|
        separator: char,
        second: int,
        fraction: Seq<char>,
        zone: Seq<char>,
    |
        #![trigger time.rfc3339_text(separator, second), is_fraction(fraction), is_zone(zone)]
        {
            &&& separator == 'T' || separator == 't' || separator == ' '
            &&& 0 <= second <= 60
            &&& is_fraction(fraction)
            &&& is_zone(zone)
            &&& text == time.rfc3339_text(separator, second) + fraction + zone
        };
    let head = time.rfc3339_text(separator, second);
    lemma_places(time, text);
    lemma_numbers(time);
    lemma_number_of_two(second);
    assert(head.len() == 19);
    assert(head.subrange(17, 19) =~= two_digits(second));
    assert(text.subrange(17, 19) =~= head.subrange(17, 19));
    assert(head[4] == '-' && head[7] == '-' && head[10] == separator && head[13] == ':' && head[16]
        == ':');
    assert forall|i: int| 0 <= i < 19 implies text[i] == head[i] by {}
    assert(text.subrange(19, text.len() as int) =~= fraction + zone);
    if zone != seq!['Z'] && zone != seq!['z'] {
        let (sign, hours, minutes) = choose|sign: char, hours: int, minutes: int|
            {
                &&& sign == '+' || sign == '-' || sign == '\u{2212}'
                &&& 0 <= hours < 24
                &&& 0 <= minutes < 60
                &&& zone == #[trigger] offset_text(sign, hours, minutes)
            };
        lemma_number_of_two(hours);
        lemma_number_of_two(minutes);
        assert(zone.subrange(1, 3) =~= two_digits(hours));
        assert(zone.subrange(4, 6) =~= two_digits(minutes));
    }
    (fraction, zone)
}

/// The digits of a minute stand for its numbers.
proof fn lemma_numbers(time: WallClock)
    requires
        time.wf(),
    ensures
        number_of(time.year_digits()) == time.year,
        number_of(two_digits(time.month as int)) == time.month,
        number_of(two_digits(time.day as int)) == time.day,
        number_of(two_digits(time.hour as int)) == time.hour,
        number_of(two_digits(time.minute as int)) == time.minute,
{
    let year = time.year_digits();
    lemma_number_of_two(time.hour as int);
    lemma_number_of_two(time.minute as int);
    lemma_number_of_two(time.month as int);
    lemma_number_of_two(time.day as int);
    lemma_number_of_two(time.year as int / 100);
    lemma_number_of_two(time.year as int % 100);
    lemma_number_of_four(year);
    assert(year.subrange(0, 2) =~= two_digits(time.year as int / 100));
    assert(year.subrange(2, 4) =~= two_digits(time.year as int % 100));
}

} // verus!
