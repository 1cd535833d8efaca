//! Where the fields of a time stand in its RFC 3339 text.

use vstd::prelude::*;

use crate::dates;
use crate::dates::UtcTime;
use crate::text::decimal;

verus! {

proof fn lemma_two_digits_value(n: int)
    requires
        0 <= n < 100,
    ensures
        dates::two_digits(n).len() == 2,
        decimal::digits_value(dates::two_digits(n)) == n,
{
    reveal_with_fuel(decimal::digits_value, 3);
    let s = dates::two_digits(n);
    assert(s.drop_last().drop_last().len() == 0);
    assert(s.drop_last().last() == s[0]);
    assert(s.last() == s[1]);
}

proof fn lemma_three_digits_value(n: int)
    requires
        0 <= n,
    ensures
        dates::three_digits(n).len() == 3,
        decimal::digits_value(dates::three_digits(n)) == n % 1000,
{
    reveal_with_fuel(decimal::digits_value, 4);
    let s = dates::three_digits(n);
    assert(s.drop_last().drop_last().drop_last().len() == 0);
    assert(s.drop_last().drop_last().last() == s[0]);
    assert(s.drop_last().last() == s[1]);
    assert(s.last() == s[2]);
    let (a, b, c) = (n / 100 % 10, n / 10 % 10, n % 10);
    assert(decimal::digits_value(s) == (a * 10 + b) * 10 + c);
    let q = n / 1000;
    let r = n % 1000;
    assert(n / 100 == 10 * q + r / 100);
    assert(n / 10 == 100 * q + r / 10);
    assert((10 * q + r / 100) % 10 == r / 100 % 10);
    assert((100 * q + r / 10) % 10 == r / 10 % 10);
    assert((1000 * q + r) % 10 == r % 10);
    assert(r / 10 == 10 * (r / 100) + r / 10 % 10);
}

/// The digits of two numbers one after the other: the first counts for each digit of the second.
proof fn lemma_value_of_two(a: Seq<char>, b: Seq<char>, power: int)
    requires
        b.len() == 2 && power == 100 || b.len() == 3 && power == 1000,
    ensures
        decimal::digits_value(a + b) == decimal::digits_value(a) * power + decimal::digits_value(b),
{
    reveal_with_fuel(decimal::digits_value, 4);
    let s = a + b;
    assert(s.last() == b.last());
    assert(s.drop_last() =~= a + b.drop_last());
    let t = a + b.drop_last();
    assert(t.last() == b.drop_last().last());
    assert(t.drop_last() =~= a + b.drop_last().drop_last());
    let u = a + b.drop_last().drop_last();
    if b.len() == 2 {
        assert(u =~= a);
        assert(b.drop_last().drop_last().len() == 0);
    } else {
        assert(u.last() == b.drop_last().drop_last().last());
        assert(u.drop_last() =~= a);
        assert(b.drop_last().drop_last().drop_last().len() == 0);
    }
}

/// The text of a time on a whole second in the years 0 to 9999 has 25 characters: four digits for
/// the year and two for the month, the day, the hour, the minute and the second, with `-`, `T` and
/// `:` between them, and the offset of UTC at the end.
pub proof fn law_text_of_whole_second(t: UtcTime)
    requires
        t.valid(),
        0 <= t.year <= 9999,
        t.nanosecond == 0,
    ensures
        ({
            let s = dates::rfc3339_text(t);
            &&& s.len() == 25
            &&& decimal::digits_value(s.subrange(0, 4)) == t.year
            &&& s[4] == '-' && decimal::digits_value(s.subrange(5, 7)) == t.month
            &&& s[7] == '-' && decimal::digits_value(s.subrange(8, 10)) == t.day
            &&& s[10] == 'T' && decimal::digits_value(s.subrange(11, 13)) == t.hour
            &&& s[13] == ':' && decimal::digits_value(s.subrange(14, 16)) == t.minute
            &&& s[16] == ':' && decimal::digits_value(s.subrange(17, 19)) == t.second
            &&& s.skip(19) == seq!['+', '0', '0', ':', '0', '0']
        }),
{
    let s = dates::rfc3339_text(t);
    let y = t.year as int;
    lemma_characters(t);
    lemma_last_two_digits(y);
    lemma_two_digits_value(y / 100);
    lemma_two_digits_value(y % 100);
    lemma_value_of_two(dates::two_digits(y / 100), dates::two_digits(y % 100), 100);
    assert(s.subrange(0, 4) =~= dates::two_digits(y / 100) + dates::two_digits(y % 100));
    lemma_field_value(s, 5, t.month as int);
    lemma_field_value(s, 8, t.day as int);
    lemma_field_value(s, 11, t.hour as int);
    lemma_field_value(s, 14, t.minute as int);
    lemma_field_value(s, 17, t.second as int);
    assert(s.skip(19) =~= seq!['+', '0', '0', ':', '0', '0']);
}

proof fn lemma_last_two_digits(y: int)
    requires
        0 <= y,
    ensures
        dates::two_digits(y) == dates::two_digits(y % 100),
{
    let q = y / 100;
    let r = y % 100;
    assert(y / 10 == 10 * q + r / 10);
    assert((10 * q + r / 10) % 10 == r / 10 % 10);
    assert((100 * q + r) % 10 == r % 10);
    assert(dates::two_digits(y) =~= dates::two_digits(r));
}

proof fn lemma_field_value(s: Seq<char>, p: int, n: int)
    requires
        0 <= n < 100,
        0 <= p && p + 2 <= s.len(),
        s[p] == dates::two_digits(n)[0],
        s[p + 1] == dates::two_digits(n)[1],
    ensures
        decimal::digits_value(s.subrange(p, p + 2)) == n,
{
    lemma_two_digits_value(n);
    assert(s.subrange(p, p + 2) =~= dates::two_digits(n));
}

#[verifier::spinoff_prover]
proof fn lemma_characters(t: UtcTime)
    requires
        0 <= t.year <= 9999,
        t.nanosecond == 0,
    ensures
        ({
            let s = dates::rfc3339_text(t);
            let (a, b) = (
                dates::two_digits(t.year as int / 100),
                dates::two_digits(t.year as int),
            );
            let (c, d) = (dates::two_digits(t.month as int), dates::two_digits(t.day as int));
            let (e, f) = (dates::two_digits(t.hour as int), dates::two_digits(t.minute as int));
            let g = dates::two_digits(t.second as int);
            &&& s.len() == 25
            &&& s[0] == a[0] && s[1] == a[1] && s[2] == b[0] && s[3] == b[1] && s[4] == '-'
            &&& s[5] == c[0] && s[6] == c[1] && s[7] == '-' && s[8] == d[0] && s[9] == d[1]
            &&& s[10] == 'T' && s[11] == e[0] && s[12] == e[1] && s[13] == ':'
            &&& s[14] == f[0] && s[15] == f[1] && s[16] == ':' && s[17] == g[0] && s[18] == g[1]
            &&& s[19] == '+' && s[20] == '0' && s[21] == '0' && s[22] == ':' && s[23] == '0'
            &&& s[24] == '0'
        }),
{
}

/// A fraction of a second stands after the second: a point and three, six or nine digits, as few as
/// hold all of it. The rest of the text is that of the whole second.
pub proof fn law_text_of_fraction(t: UtcTime)
    requires
        t.valid(),
        0 <= t.year <= 9999,
        0 < t.nanosecond < 1_000_000_000,
    ensures
        ({
            let s = dates::rfc3339_text(t);
            let whole = dates::rfc3339_text(UtcTime { nanosecond: 0, ..t });
            let n = t.nanosecond as int;
            let digits = s.subrange(20, s.len() - 6);
            &&& s.take(19) == whole.take(19)
            &&& s[19] == '.'
            &&& s.skip(s.len() - 6) == whole.skip(19)
            &&& n % 1_000_000 == 0 ==> digits.len() == 3 && decimal::digits_value(digits)
                * 1_000_000 == n
            &&& n % 1_000_000 != 0 && n % 1_000 == 0 ==> digits.len() == 6 && decimal::digits_value(
                digits,
            ) * 1_000 == n
            &&& n % 1_000 != 0 ==> digits.len() == 9 && decimal::digits_value(digits) == n
        }),
{
    let s = dates::rfc3339_text(t);
    let first = UtcTime { nanosecond: 0, ..t };
    let whole = dates::rfc3339_text(first);
    let n = t.nanosecond as int;
    let end = seq!['+', '0', '0', ':', '0', '0'];
    let head = upto_second(t, t.second as int);
    let middle = dates::fraction_text(n);
    lemma_three_parts(t);
    lemma_three_parts(first);
    assert(upto_second(first, t.second as int) == head);
    assert(s.take(19) =~= head);
    assert(whole.take(19) =~= head);
    assert(s.skip(s.len() - 6) =~= end);
    assert(whole.skip(19) =~= end);
    let digits = s.subrange(20, s.len() - 6);
    assert(digits =~= middle.skip(1));
    lemma_fraction_digits(n);
}

proof fn lemma_fraction_digits(n: int)
    requires
        0 < n < 1_000_000_000,
    ensures
        ({
            let digits = dates::fraction_text(n).skip(1);
            &&& dates::fraction_text(n).len() > 0
            &&& dates::fraction_text(n)[0] == '.'
            &&& n % 1_000_000 == 0 ==> digits.len() == 3 && decimal::digits_value(digits)
                * 1_000_000 == n
            &&& n % 1_000_000 != 0 && n % 1_000 == 0 ==> digits.len() == 6 && decimal::digits_value(
                digits,
            ) * 1_000 == n
            &&& n % 1_000 != 0 ==> digits.len() == 9 && decimal::digits_value(digits) == n
        }),
{
    let digits = dates::fraction_text(n).skip(1);
    let a = dates::three_digits(n / 1_000_000);
    let b = dates::three_digits(n / 1_000);
    let c = dates::three_digits(n);
    lemma_three_digits_value(n / 1_000_000);
    lemma_three_digits_value(n / 1_000);
    lemma_three_digits_value(n);
    lemma_value_of_two(a, b, 1000);
    lemma_value_of_two(a + b, c, 1000);
    assert(n / 1_000_000 % 1000 == n / 1_000_000);
    assert(n / 1_000 / 1_000 == n / 1_000_000);
    assert(n / 1_000 == 1_000 * (n / 1_000_000) + n / 1_000 % 1_000);
    if n % 1_000_000 == 0 {
        assert(digits =~= a);
    } else if n % 1_000 == 0 {
        assert(digits =~= a + b);
    } else {
        assert(digits =~= a + b + c);
    }
}

/// The text of a time up to the given second.
spec fn upto_second(t: UtcTime, second: int) -> Seq<char> {
    dates::year_text(t.year as int) + seq!['-'] + dates::two_digits(t.month as int) + seq!['-']
        + dates::two_digits(t.day as int) + seq!['T'] + dates::two_digits(t.hour as int) + seq![':']
        + dates::two_digits(t.minute as int) + seq![':'] + dates::two_digits(second)
}

proof fn lemma_three_parts(t: UtcTime)
    requires
        0 <= t.year <= 9999,
    ensures
        upto_second(t, t.second as int).len() == 19,
        t.nanosecond < 1_000_000_000 ==> dates::rfc3339_text(t) == upto_second(t, t.second as int)
            + dates::fraction_text(t.nanosecond as int) + seq!['+', '0', '0', ':', '0', '0'],
        t.nanosecond >= 1_000_000_000 ==> dates::rfc3339_text(t) == upto_second(t, t.second + 1)
            + dates::fraction_text(t.nanosecond - 1_000_000_000) + seq!['+', '0', '0', ':', '0', '0'],
{
}

/// During a leap second the text has second 60, and the fraction of that second.
pub proof fn law_text_of_leap_second(t: UtcTime)
    requires
        t.valid(),
        t.nanosecond >= 1_000_000_000,
        0 <= t.year <= 9999,
    ensures
        ({
            let s = dates::rfc3339_text(t);
            let before = dates::rfc3339_text(
                UtcTime { nanosecond: (t.nanosecond - 1_000_000_000) as u32, ..t },
            );
            &&& s.take(17) == before.take(17)
            &&& s.skip(19) == before.skip(19)
            &&& s[17] == '6' && s[18] == '0'
        }),
{
    let s = dates::rfc3339_text(t);
    let earlier = UtcTime { nanosecond: (t.nanosecond - 1_000_000_000) as u32, ..t };
    let before = dates::rfc3339_text(earlier);
    let end = seq!['+', '0', '0', ':', '0', '0'];
    lemma_three_parts(t);
    lemma_three_parts(earlier);
    let head = upto_second(t, 60);
    let other = upto_second(earlier, 59);
    assert(head.len() == 19 && other.len() == 19);
    assert(head.take(17) =~= other.take(17));
    assert(head.skip(17) =~= dates::two_digits(60));
    assert(head[17] == head.skip(17)[0] && head[18] == head.skip(17)[1]);
    let rest = dates::fraction_text(t.nanosecond - 1_000_000_000) + end;
    assert(s =~= head + rest);
    assert(before =~= other + rest);
    assert(s.take(17) =~= head.take(17));
    assert(before.take(17) =~= other.take(17));
    assert(s.skip(19) =~= rest);
    assert(before.skip(19) =~= rest);
}

/// A year above 9999 stands with a plus sign and all its digits, one below 0 with a minus sign and
/// four digits or more.
pub proof fn law_text_of_far_year(t: UtcTime)
    ensures
        t.year > 9999 ==> dates::rfc3339_text(t) == seq!['+'] + decimal::decimal(t.year as int)
            + dates::rfc3339_text(UtcTime { year: 0, ..t }).skip(4),
        -9999 <= t.year < 0 ==> dates::rfc3339_text(t) == seq!['-'] + dates::rfc3339_text(
            UtcTime { year: (-t.year) as i32, ..t },
        ),
        t.year < -9999 ==> dates::rfc3339_text(t) == decimal::decimal(t.year as int)
            + dates::rfc3339_text(UtcTime { year: 0, ..t }).skip(4),
{
    let first = UtcTime { year: 0, ..t };
    let rest = after_year(t);
    lemma_year_stands_first(t);
    lemma_year_stands_first(first);
    assert(after_year(first) == rest);
    assert(dates::rfc3339_text(first).skip(4) =~= rest);
    if -9999 <= t.year < 0 {
        let there = UtcTime { year: (-t.year) as i32, ..t };
        lemma_year_stands_first(there);
        assert(after_year(there) == rest);
        assert(dates::year_text(t.year as int) =~= seq!['-'] + dates::year_text(
            there.year as int,
        ));
        assert((seq!['-'] + dates::year_text(there.year as int)) + rest =~= seq!['-'] + (
        dates::year_text(there.year as int) + rest));
    }
}

/// What follows the year in the text of a time.
spec fn after_year(t: UtcTime) -> Seq<char> {
    let leap = t.nanosecond >= 1_000_000_000;
    let second = if leap {
        t.second + 1
    } else {
        t.second as int
    };
    let nanos = if leap {
        t.nanosecond - 1_000_000_000
    } else {
        t.nanosecond as int
    };
    seq!['-'] + dates::two_digits(t.month as int) + seq!['-'] + dates::two_digits(t.day as int)
        + seq!['T'] + dates::two_digits(t.hour as int) + seq![':'] + dates::two_digits(
        t.minute as int,
    ) + seq![':'] + dates::two_digits(second) + dates::fraction_text(nanos) + seq![
        '+',
        '0',
        '0',
        ':',
        '0',
        '0',
    ]
}

#[verifier::spinoff_prover]
proof fn lemma_year_stands_first(t: UtcTime)
    ensures
        dates::rfc3339_text(t) == dates::year_text(t.year as int) + after_year(t),
{
    assert(dates::rfc3339_text(t) =~= dates::year_text(t.year as int) + after_year(t));
}

/// A year has a 29th of February if it is divisible by 4, but of the centuries only each fourth;
/// April, June, September and November have 30 days, and February has 28 or 29.
pub proof fn law_days_of_month(year: int, month: int, day: int)
    ensures
        dates::is_date(year, month, day) ==> 1 <= month <= 12 && 1 <= day <= 31,
        dates::is_date(year, month, 31) ==> month == 1 || month == 3 || month == 5 || month == 7
            || month == 8 || month == 10 || month == 12,
        !dates::is_date(year, 2, 30),
        dates::is_date(year, 2, 29) ==> year % 4 == 0 && (year % 100 == 0 ==> year % 400 == 0),
        0 <= year <= 9999 && year % 4 == 0 && (year % 100 == 0 ==> year % 400 == 0)
            ==> dates::is_date(year, 2, 29),
        0 <= year <= 9999 && 1 <= month <= 12 && 1 <= day <= 28 ==> dates::is_date(
            year,
            month,
            day,
        ),
        0 <= year <= 9999 && 1 <= month <= 12 && month != 2 && 1 <= day <= 30 ==> dates::is_date(
            year,
            month,
            day,
        ),
        0 <= year <= 9999 && (month == 1 || month == 3 || month == 5 || month == 7 || month == 8
            || month == 10 || month == 12) ==> dates::is_date(year, month, 31),
{
}

} // verus!
