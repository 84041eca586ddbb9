//! The name of the output file where none was asked for.
use vstd::prelude::*;

use crate::text;

verus! {

/// A moment of the local calendar and clock.
#[derive(Debug, Clone, Copy, PartialEq, Eq, Structural)]
pub struct Moment {
    pub year: i32,
    pub month: u32,
    pub day: u32,
    pub hour: u32,
    pub minute: u32,
    pub second: u32,
}

/// The year has a 29th of February.
pub open spec fn is_leap_year(year: int) -> bool {
    year % 4 == 0 && (year % 100 != 0 || year % 400 == 0)
}

/// The number of days of a month.
pub open spec fn days_in_month(year: int, month: int) -> int {
    if month == 2 {
        if is_leap_year(year) {
            29
        } else {
            28
        }
    } else if month == 4 || month == 6 || month == 9 || month == 11 {
        30
    } else {
        31
    }
}

impl Moment {
    /// The moment exists, in the years that `chrono` knows.
    pub open spec fn exists_in_calendar(self) -> bool {
        &&& -262143 <= self.year <= 262142
        &&& 1 <= self.month <= 12
        &&& 1 <= self.day <= days_in_month(self.year as int, self.month as int)
        &&& self.hour < 24
        &&& self.minute < 60
        &&& self.second < 60
    }
}

/// A number in decimal, with zeros in front up to `width` digits.
pub open spec fn padded(n: nat, width: nat) -> Seq<char>
    decreases n + width,
{
    if n == 0 && width == 0 {
        Seq::empty()
    } else {
        padded(
            n / 10,
            if width == 0 {
                0
            } else {
                (width - 1) as nat
            },
        ).push(text::digit((n % 10) as int))
    }
}

/// A year with at least four digits, and with a sign where four do not hold it.
pub open spec fn year_text(year: int) -> Seq<char> {
    if 0 <= year <= 9999 {
        padded(year as nat, 4)
    } else if year < 0 {
        seq!['-'] + padded((-year) as nat, 4)
    } else {
        seq!['+'] + padded(year as nat, 4)
    }
}

/// Year, month and day, an underscore, hour, minute and second.
pub open spec fn stamp_text(moment: Moment) -> Seq<char> {
    year_text(moment.year as int) + padded(moment.month as nat, 2) + padded(moment.day as nat, 2)
        + seq!['_'] + padded(moment.hour as nat, 2) + padded(moment.minute as nat, 2) + padded(
        moment.second as nat,
        2,
    )
}

/// How a moment is written.
pub open spec fn stamp_format() -> Seq<char> {
    "%Y%m%d_%H%M%S"@
}

/// Writes a moment with `chrono::NaiveDateTime::format`. There is a result if
/// `NaiveDate::from_ymd_opt` and `and_hms_opt` know the moment, and it holds the
/// year, the month, the day, an underscore, the hour, the minute and the second
/// in decimal: the year with four digits, or a sign and at least four, the others
/// with two.
#[verifier::external_body]
fn format_moment(moment: Moment, format: &str) -> (written: Option<String>)
    requires
        format@ == stamp_format(),
    ensures
        written is Some <==> moment.exists_in_calendar(),
        written matches Some(stamp) ==> stamp@ == stamp_text(moment),
{
    let date = chrono::NaiveDate::from_ymd_opt(moment.year, moment.month, moment.day)?;
    let time = date.and_hms_opt(moment.hour, moment.minute, moment.second)?;
    Some(time.format(format).to_string())
}

/// The name of the output file for a moment.
pub open spec fn output_name(moment: Moment) -> Seq<char> {
    "output_"@ + stamp_text(moment) + ".log"@
}

/// The name of the output file for a stamp.
pub fn name_with_stamp(stamp: &str) -> (name: String)
    ensures
        name@ == "output_"@ + stamp@ + ".log"@,
{
    let opened = text::joined("output_", stamp);
    text::joined(opened.as_str(), ".log")
}

/// The name of the output file for a moment; `None` if there is no such moment.
pub fn default_output_name(moment: Moment) -> (name: Option<String>)
    ensures
        name is Some <==> moment.exists_in_calendar(),
        name matches Some(text) ==> text@ == output_name(moment),
        name matches Some(text) ==> text@ == "output_"@ + stamp_text(moment) + ".log"@,
{
    match format_moment(moment, "%Y%m%d_%H%M%S") {
        Some(stamp) => Some(name_with_stamp(stamp.as_str())),
        None => None,
    }
}

/// `c` is a decimal digit.
pub open spec fn is_digit(c: char) -> bool {
    '0' <= c <= '9'
}

proof fn lemma_two_digits(n: nat)
    requires
        n < 100,
    ensures
        padded(n, 2) == seq![text::digit((n / 10) as int), text::digit((n % 10) as int)],
        is_digit(text::digit((n / 10) as int)),
        is_digit(text::digit((n % 10) as int)),
{
    reveal_with_fuel(padded, 3);
    assert(n / 10 / 10 == 0);
    assert((n / 10) % 10 == n / 10);
    assert(padded(n, 2) =~= seq![text::digit((n / 10) as int), text::digit((n % 10) as int)]);
}

proof fn lemma_four_digits(n: nat)
    requires
        n < 10000,
    ensures
        padded(n, 4) == padded(n / 100, 2) + padded(n % 100, 2),
{
    reveal_with_fuel(padded, 5);
    lemma_two_digits(n / 100);
    lemma_two_digits(n % 100);
    assert(n / 10 / 10 == n / 100);
    assert((n / 10) % 10 == (n % 100) / 10);
    assert(n % 10 == (n % 100) % 10);
    assert(n / 10 / 10 / 10 / 10 == 0);
    assert((n / 100) % 10 == (n / 10 / 10) % 10);
    assert(n / 10 / 10 / 10 == (n / 100) / 10);
    assert((n / 10 / 10 / 10) % 10 == n / 10 / 10 / 10);
    assert(padded(n, 4) =~= padded(n / 100, 2) + padded(n % 100, 2));
}

/// In the years that four digits hold, a stamp has fourteen digits, eight of them
/// in front of an underscore and six behind it.
pub proof fn lemma_stamp_has_fourteen_digits(moment: Moment)
    requires
        moment.exists_in_calendar(),
        0 <= moment.year <= 9999,
    ensures
        stamp_text(moment).len() == 15,
        stamp_text(moment)[8] == '_',
        forall|i: int| 0 <= i < 15 && i != 8 ==> is_digit(#[trigger] stamp_text(moment)[i]),
{
    lemma_four_digits(moment.year as nat);
    lemma_two_digits(moment.year as nat / 100);
    lemma_two_digits(moment.year as nat % 100);
    lemma_two_digits(moment.month as nat);
    lemma_two_digits(moment.day as nat);
    lemma_two_digits(moment.hour as nat);
    lemma_two_digits(moment.minute as nat);
    lemma_two_digits(moment.second as nat);
}

proof fn lemma_two_digits_tell_apart(m: nat, n: nat)
    requires
        m < 100,
        n < 100,
        padded(m, 2)[0] == padded(n, 2)[0],
        padded(m, 2)[1] == padded(n, 2)[1],
    ensures
        m == n,
{
    lemma_two_digits(m);
    lemma_two_digits(n);
    assert(text::digit((m / 10) as int) as int == '0' as int + m / 10);
    assert(text::digit((n / 10) as int) as int == '0' as int + n / 10);
    assert(text::digit((m % 10) as int) as int == '0' as int + m % 10);
    assert(text::digit((n % 10) as int) as int == '0' as int + n % 10);
}

/// Different moments give different names.
pub proof fn lemma_names_tell_moments_apart(one: Moment, other: Moment)
    requires
        one.exists_in_calendar(),
        other.exists_in_calendar(),
        0 <= one.year <= 9999,
        0 <= other.year <= 9999,
        output_name(one) == output_name(other),
    ensures
        one == other,
{
    lemma_stamp_has_fourteen_digits(one);
    lemma_stamp_has_fourteen_digits(other);
    let at = "output_"@.len() as int;
    let s = stamp_text(one);
    let t = stamp_text(other);
    assert forall|i: int| 0 <= i < 15 implies s[i] == t[i] by {
        assert(output_name(one)[at + i] == s[i]);
        assert(output_name(other)[at + i] == t[i]);
    }
    assert(s =~= t);
    lemma_fields(one);
    lemma_fields(other);
    lemma_two_digits_tell_apart(one.year as nat / 100, other.year as nat / 100);
    lemma_two_digits_tell_apart(one.year as nat % 100, other.year as nat % 100);
    lemma_two_digits_tell_apart(one.month as nat, other.month as nat);
    lemma_two_digits_tell_apart(one.day as nat, other.day as nat);
    lemma_two_digits_tell_apart(one.hour as nat, other.hour as nat);
    lemma_two_digits_tell_apart(one.minute as nat, other.minute as nat);
    lemma_two_digits_tell_apart(one.second as nat, other.second as nat);
}

/// Where the parts of a moment stand in its stamp.
proof fn lemma_fields(moment: Moment)
    requires
        moment.exists_in_calendar(),
        0 <= moment.year <= 9999,
    ensures
        stamp_text(moment).subrange(0, 2) == padded(moment.year as nat / 100, 2),
        stamp_text(moment).subrange(2, 4) == padded(moment.year as nat % 100, 2),
        stamp_text(moment).subrange(4, 6) == padded(moment.month as nat, 2),
        stamp_text(moment).subrange(6, 8) == padded(moment.day as nat, 2),
        stamp_text(moment).subrange(9, 11) == padded(moment.hour as nat, 2),
        stamp_text(moment).subrange(11, 13) == padded(moment.minute as nat, 2),
        stamp_text(moment).subrange(13, 15) == padded(moment.second as nat, 2),
{
    lemma_four_digits(moment.year as nat);
    lemma_two_digits(moment.year as nat / 100);
    lemma_two_digits(moment.year as nat % 100);
    lemma_two_digits(moment.month as nat);
    lemma_two_digits(moment.day as nat);
    lemma_two_digits(moment.hour as nat);
    lemma_two_digits(moment.minute as nat);
    lemma_two_digits(moment.second as nat);
    let s = stamp_text(moment);
    assert(s.subrange(0, 2) =~= padded(moment.year as nat / 100, 2));
    assert(s.subrange(2, 4) =~= padded(moment.year as nat % 100, 2));
    assert(s.subrange(4, 6) =~= padded(moment.month as nat, 2));
    assert(s.subrange(6, 8) =~= padded(moment.day as nat, 2));
    assert(s.subrange(9, 11) =~= padded(moment.hour as nat, 2));
    assert(s.subrange(11, 13) =~= padded(moment.minute as nat, 2));
    assert(s.subrange(13, 15) =~= padded(moment.second as nat, 2));
}

/// A padded number reads as that number, and has the digits that it is padded to.
proof fn lemma_padded_reads_back(n: nat, width: nat)
    ensures
        text::number_in(padded(n, width)) == n,
        padded(n, width).len() >= width,
    decreases n + width,
{
    if n == 0 && width == 0 {
    } else {
        let rest: nat = if width == 0 {
            0
        } else {
            (width - 1) as nat
        };
        let d = (n % 10) as int;
        assert(text::digit(d) as int == '0' as int + d);
        assert(n / 10 + rest < n + width);
        lemma_padded_reads_back(n / 10, rest);
        assert(padded(n, width).drop_last() =~= padded(n / 10, rest));
        assert(n == 10 * (n / 10) + n % 10);
    }
}

/// In the years that four digits hold, a stamp reads as the moment: four digits for
/// the year, two for the month and two for the day, and behind the underscore two for
/// the hour, two for the minute and two for the second.
pub proof fn lemma_stamp_reads_back(moment: Moment)
    requires
        moment.exists_in_calendar(),
        0 <= moment.year <= 9999,
    ensures
        text::number_in(stamp_text(moment).subrange(0, 4)) == moment.year,
        text::number_in(stamp_text(moment).subrange(4, 6)) == moment.month,
        text::number_in(stamp_text(moment).subrange(6, 8)) == moment.day,
        text::number_in(stamp_text(moment).subrange(9, 11)) == moment.hour,
        text::number_in(stamp_text(moment).subrange(11, 13)) == moment.minute,
        text::number_in(stamp_text(moment).subrange(13, 15)) == moment.second,
{
    lemma_fields(moment);
    lemma_four_digits(moment.year as nat);
    lemma_stamp_has_fourteen_digits(moment);
    let s = stamp_text(moment);
    assert(s.subrange(0, 4) =~= s.subrange(0, 2) + s.subrange(2, 4));
    lemma_padded_reads_back(moment.year as nat, 4);
    lemma_padded_reads_back(moment.month as nat, 2);
    lemma_padded_reads_back(moment.day as nat, 2);
    lemma_padded_reads_back(moment.hour as nat, 2);
    lemma_padded_reads_back(moment.minute as nat, 2);
    lemma_padded_reads_back(moment.second as nat, 2);
}

/// A moment exists where its day is one of its month: every month has a 28th, all but
/// February a 30th, seven of them a 31st, and February in leap years a 29th.
pub proof fn lemma_which_moments_exist(moment: Moment)
    ensures
        moment.exists_in_calendar() <==> {
            let (y, m, d) = (moment.year as int, moment.month, moment.day);
            &&& -262143 <= y <= 262142
            &&& 1 <= m <= 12
            &&& {
                ||| 1 <= d <= 28
                ||| 1 <= d <= 30 && m != 2
                ||| d == 31 && (m == 1 || m == 3 || m == 5 || m == 7 || m == 8 || m == 10 || m == 12)
                ||| d == 29 && m == 2 && y % 4 == 0 && (y % 100 != 0 || y % 400 == 0)
            }
            &&& moment.hour <= 23 && moment.minute <= 59 && moment.second <= 59
        },
{
}

/// A year reads as that year: up to four digits it is written with four, and any other
/// with its sign.
pub proof fn lemma_year_reads_back(year: int)
    ensures
        0 <= year <= 9999 ==> text::number_in(year_text(year)) == year && year_text(year).len() == 4,
        year < 0 ==> year_text(year)[0] == '-' && text::number_in(year_text(year).skip(1)) == -year
            && year_text(year).len() >= 5,
        year > 9999 ==> year_text(year)[0] == '+' && text::number_in(year_text(year).skip(1))
            == year && year_text(year).len() >= 5,
{
    if year < 0 {
        lemma_padded_reads_back((-year) as nat, 4);
        assert(year_text(year).skip(1) =~= padded((-year) as nat, 4));
    } else {
        lemma_padded_reads_back(year as nat, 4);
        if year > 9999 {
            assert(year_text(year).skip(1) =~= padded(year as nat, 4));
        } else {
            lemma_four_digits(year as nat);
            lemma_two_digits(year as nat / 100);
            lemma_two_digits(year as nat % 100);
        }
    }
}

/// A stamp begins with the year and goes on with the rest of the moment, two digits for each
/// part and an underscore before the hour.
pub proof fn lemma_stamp_begins_with_the_year(moment: Moment)
    requires
        moment.exists_in_calendar(),
    ensures
        ({
            let s = stamp_text(moment);
            let at = year_text(moment.year as int).len() as int;
            &&& s.len() == at + 11
            &&& s.take(at) == year_text(moment.year as int)
            &&& text::number_in(s.subrange(at, at + 2)) == moment.month
            &&& text::number_in(s.subrange(at + 2, at + 4)) == moment.day
            &&& s[at + 4] == '_'
            &&& text::number_in(s.subrange(at + 5, at + 7)) == moment.hour
            &&& text::number_in(s.subrange(at + 7, at + 9)) == moment.minute
            &&& text::number_in(s.subrange(at + 9, at + 11)) == moment.second
        }),
{
    let s = stamp_text(moment);
    let at = year_text(moment.year as int).len() as int;
    lemma_two_digits(moment.month as nat);
    lemma_two_digits(moment.day as nat);
    lemma_two_digits(moment.hour as nat);
    lemma_two_digits(moment.minute as nat);
    lemma_two_digits(moment.second as nat);
    lemma_padded_reads_back(moment.month as nat, 2);
    lemma_padded_reads_back(moment.day as nat, 2);
    lemma_padded_reads_back(moment.hour as nat, 2);
    lemma_padded_reads_back(moment.minute as nat, 2);
    lemma_padded_reads_back(moment.second as nat, 2);
    assert(s.take(at) =~= year_text(moment.year as int));
    assert(s.subrange(at, at + 2) =~= padded(moment.month as nat, 2));
    assert(s.subrange(at + 2, at + 4) =~= padded(moment.day as nat, 2));
    assert(s.subrange(at + 5, at + 7) =~= padded(moment.hour as nat, 2));
    assert(s.subrange(at + 7, at + 9) =~= padded(moment.minute as nat, 2));
    assert(s.subrange(at + 9, at + 11) =~= padded(moment.second as nat, 2));
}

} // verus!
