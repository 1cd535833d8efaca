//! The RFC 3339 texts of times in UTC sort as the times do.

use vstd::prelude::*;

use crate::dates;
use crate::dates::UtcTime;
use crate::text::words;

verus! {

/// `a` is before `b`.
pub open spec fn earlier(a: UtcTime, b: UtcTime) -> bool {
    if a.year != b.year {
        a.year < b.year
    } else if a.month != b.month {
        a.month < b.month
    } else if a.day != b.day {
        a.day < b.day
    } else if a.hour != b.hour {
        a.hour < b.hour
    } else if a.minute != b.minute {
        a.minute < b.minute
    } else if a.second != b.second {
        a.second < b.second
    } else {
        a.nanosecond < b.nanosecond
    }
}

/// Texts whose front parts are equally long are ordered by these, or else by what follows.
proof fn lemma_order_parts(a: Seq<char>, x: Seq<char>, b: Seq<char>, y: Seq<char>)
    requires
        a.len() == b.len(),
    ensures
        words::precedes(a + x, b + y) == (if a == b {
            words::precedes(x, y)
        } else {
            words::precedes(a, b)
        }),
    decreases a.len(),
{
    if a.len() == 0 {
        assert(a =~= b);
        assert(a + x =~= x);
        assert(b + y =~= y);
    } else {
        lemma_order_parts(a.skip(1), x, b.skip(1), y);
        assert((a + x).skip(1) =~= a.skip(1) + x);
        assert((b + y).skip(1) =~= b.skip(1) + y);
        if a[0] == b[0] {
            if a.skip(1) == b.skip(1) {
                assert(a =~= seq![a[0]] + a.skip(1));
                assert(b =~= seq![b[0]] + b.skip(1));
            }
        }
    }
}

/// Two digits are ordered as their numbers.
proof fn lemma_two_digits(m: int, n: int)
    requires
        0 <= m < n < 100,
    ensures
        words::precedes(dates::two_digits(m), dates::two_digits(n)),
        dates::two_digits(m) != dates::two_digits(n),
{
    let a = dates::two_digits(m);
    let b = dates::two_digits(n);
    assert(a.skip(1) =~= seq![a[1]]);
    assert(b.skip(1) =~= seq![b[1]]);
    if a[0] == b[0] {
        assert(m / 10 == n / 10);
        assert(a[1] != b[1]);
        assert(words::precedes(a.skip(1), b.skip(1)));
    } else {
        assert(a[0] < b[0]);
    }
}

/// Three digits are one digit, and then two.
proof fn lemma_last_two(n: int)
    requires
        0 <= n < 1000,
    ensures
        n / 100 % 10 == n / 100,
        dates::three_digits(n) == seq![dates::three_digits(n)[0]] + dates::two_digits(n % 100),
{
    let q = n / 100;
    let r = n % 100;
    assert(n / 10 == 10 * q + r / 10);
    assert((10 * q + r / 10) % 10 == r / 10 % 10);
    assert((100 * q + r) % 10 == r % 10);
    assert(dates::three_digits(n) =~= seq![dates::three_digits(n)[0]] + dates::two_digits(n % 100));
}

/// Three digits are ordered as their numbers.
proof fn lemma_three_digits(m: int, n: int)
    requires
        0 <= m < n < 1000,
    ensures
        words::precedes(dates::three_digits(m), dates::three_digits(n)),
        dates::three_digits(m) != dates::three_digits(n),
{
    let a = dates::three_digits(m);
    let b = dates::three_digits(n);
    assert(m / 100 <= n / 100);
    lemma_last_two(m);
    lemma_last_two(n);
    if m / 100 == n / 100 {
        assert(m % 100 < n % 100);
        lemma_two_digits(m % 100, n % 100);
        lemma_order_parts(
            seq![a[0]],
            dates::two_digits(m % 100),
            seq![b[0]],
            dates::two_digits(n % 100),
        );
        if a == b {
            assert(a.skip(1) =~= dates::two_digits(m % 100));
            assert(b.skip(1) =~= dates::two_digits(n % 100));
        }
    } else {
        assert(a[0] != b[0]);
        assert(a[0] < b[0]);
    }
}

/// Times of day are ordered by the first field in which they differ.
proof fn lemma_field(m: int, x: Seq<char>, n: int, y: Seq<char>)
    requires
        0 <= m < 100,
        0 <= n < 100,
    ensures
        m < n ==> words::precedes(dates::two_digits(m) + x, dates::two_digits(n) + y),
        m == n ==> words::precedes(dates::two_digits(m) + x, dates::two_digits(n) + y) == words::precedes(x, y),
{
    lemma_order_parts(dates::two_digits(m), x, dates::two_digits(n), y);
    if m < n {
        lemma_two_digits(m, n);
    }
}

/// A common character at the front does not matter.
proof fn lemma_separator(c: char, x: Seq<char>, y: Seq<char>)
    ensures
        words::precedes(seq![c] + x, seq![c] + y) == words::precedes(x, y),
{
    lemma_order_parts(seq![c], x, seq![c], y);
}

/// The offset at the end of a text in UTC.
spec fn offset() -> Seq<char> {
    seq!['+', '0', '0', ':', '0', '0']
}

/// The digits of a fraction after the first `k` groups, with the offset.
spec fn fraction_rest(nanos: int, k: int) -> Seq<char>
    decreases 3 - k,
{
    if k >= 3 || (k == 2 && nanos % 1_000 == 0) || (k == 1 && nanos % 1_000_000 == 0) {
        offset()
    } else if k == 2 {
        dates::three_digits(nanos) + offset()
    } else if k == 1 {
        dates::three_digits(nanos / 1_000) + fraction_rest(nanos, 2)
    } else {
        dates::three_digits(nanos / 1_000_000) + fraction_rest(nanos, 1)
    }
}

/// The offset comes before anything that starts with a digit.
proof fn lemma_offset_first(x: Seq<char>)
    requires
        x.len() > 0,
        '0' <= x[0] <= '9',
    ensures
        words::precedes(offset(), x),
{
}

/// Three digits depend on the last three digits of the number only.
proof fn lemma_last_three(n: int)
    requires
        n >= 0,
    ensures
        dates::three_digits(n) == dates::three_digits(n % 1000),
{
    let q = n / 1000;
    let r = n % 1000;
    assert(n / 100 == 10 * q + r / 100);
    assert(n / 10 == 100 * q + r / 10);
    assert((10 * q + r / 100) % 10 == r / 100 % 10);
    assert((100 * q + r / 10) % 10 == r / 10 % 10);
    assert((1000 * q + r) % 10 == r % 10);
}

proof fn lemma_fraction(m: int, n: int)
    requires
        0 <= m < n < 1_000_000_000,
    ensures
        words::precedes(dates::fraction_text(m) + offset(), dates::fraction_text(n) + offset()),
{
    let a = dates::fraction_text(m) + offset();
    let b = dates::fraction_text(n) + offset();
    lemma_fraction_text(n);
    assert(b[0] == '.');
    if m == 0 {
        assert(a[0] == '+');
    } else {
        lemma_fraction_text(m);
        lemma_separator('.', fraction_rest(m, 0), fraction_rest(n, 0));
        let (m1, n1) = (m / 1_000_000, n / 1_000_000);
        lemma_order_parts(
            dates::three_digits(m1),
            fraction_rest(m, 1),
            dates::three_digits(n1),
            fraction_rest(n, 1),
        );
        if m1 < n1 {
            lemma_three_digits(m1, n1);
        } else {
            lemma_second_group(m, n);
        }
    }
}

/// The groups of three digits after the first one.
proof fn lemma_groups(n: int)
    requires
        n >= 0,
    ensures
        n / 1_000 % 1_000 == n % 1_000_000 / 1_000,
        n % 1_000 == n % 1_000_000 % 1_000,
        n % 1_000_000 == 1_000 * (n % 1_000_000 / 1_000) + n % 1_000,
{
    let q = n / 1_000_000;
    let r = n % 1_000_000;
    assert(n == 1_000_000 * q + r);
    assert(n / 1_000 == 1_000 * q + r / 1_000);
    assert((1_000 * q + r / 1_000) % 1_000 == r / 1_000);
    assert((1_000_000 * q + r) % 1_000 == r % 1_000);
}

/// Fractions with the same first group are ordered by the rest.
proof fn lemma_second_group(m: int, n: int)
    requires
        0 < m < n < 1_000_000_000,
        m / 1_000_000 == n / 1_000_000,
    ensures
        words::precedes(fraction_rest(m, 1), fraction_rest(n, 1)),
{
    lemma_groups(m);
    lemma_groups(n);
    let (m2, n2) = (m % 1_000_000 / 1_000, n % 1_000_000 / 1_000);
    lemma_last_three(m / 1_000);
    lemma_last_three(n / 1_000);
    assert(m % 1_000_000 < n % 1_000_000);
    assert(fraction_rest(n, 1) == dates::three_digits(n2) + fraction_rest(n, 2));
    if m % 1_000_000 == 0 {
        assert(fraction_rest(m, 1) == offset());
        lemma_digit(n2);
        lemma_offset_first(fraction_rest(n, 1));
    } else {
        assert(fraction_rest(m, 1) == dates::three_digits(m2) + fraction_rest(m, 2));
        lemma_order_parts(
            dates::three_digits(m2),
            fraction_rest(m, 2),
            dates::three_digits(n2),
            fraction_rest(n, 2),
        );
        if m2 < n2 {
            lemma_three_digits(m2, n2);
        } else {
            lemma_third_group(m, n);
        }
    }
}

/// Three digits start with a digit.
proof fn lemma_digit(n: int)
    requires
        n >= 0,
    ensures
        '0' <= dates::three_digits(n)[0] <= '9',
{
}

/// Fractions with the same first two groups are ordered by the third.
proof fn lemma_third_group(m: int, n: int)
    requires
        0 < m < n < 1_000_000_000,
        m % 1_000 < n % 1_000,
    ensures
        words::precedes(fraction_rest(m, 2), fraction_rest(n, 2)),
{
    lemma_last_three(m);
    lemma_last_three(n);
    assert(fraction_rest(n, 2) == dates::three_digits(n % 1_000) + offset());
    if m % 1_000 == 0 {
        assert(fraction_rest(m, 2) == offset());
        lemma_digit(n % 1_000);
        lemma_offset_first(fraction_rest(n, 2));
    } else {
        lemma_order_parts(
            dates::three_digits(m % 1_000),
            offset(),
            dates::three_digits(n % 1_000),
            offset(),
        );
        lemma_three_digits(m % 1_000, n % 1_000);
    }
}

/// A fraction is a point and the groups of its digits.
proof fn lemma_fraction_text(n: int)
    requires
        0 < n < 1_000_000_000,
    ensures
        dates::fraction_text(n) + offset() == seq!['.'] + fraction_rest(n, 0),
{
    reveal_with_fuel(fraction_rest, 3);
    assert(dates::fraction_text(n) + offset() =~= seq!['.'] + fraction_rest(n, 0));
}

/// Second and fraction as they are written: a leap second is second 60.
spec fn written_second(t: UtcTime) -> (int, int) {
    if t.nanosecond >= 1_000_000_000 {
        (t.second + 1, t.nanosecond - 1_000_000_000)
    } else {
        (t.second as int, t.nanosecond as int)
    }
}

#[verifier::opaque]
spec fn second_part(t: UtcTime) -> Seq<char> {
    dates::two_digits(written_second(t).0) + (dates::fraction_text(written_second(t).1) + offset())
}

#[verifier::opaque]
spec fn minute_part(t: UtcTime) -> Seq<char> {
    dates::two_digits(t.minute as int) + (seq![':'] + second_part(t))
}

#[verifier::opaque]
spec fn hour_part(t: UtcTime) -> Seq<char> {
    dates::two_digits(t.hour as int) + (seq![':'] + minute_part(t))
}

#[verifier::opaque]
spec fn day_part(t: UtcTime) -> Seq<char> {
    dates::two_digits(t.day as int) + (seq!['T'] + hour_part(t))
}

#[verifier::opaque]
spec fn month_part(t: UtcTime) -> Seq<char> {
    dates::two_digits(t.month as int) + (seq!['-'] + day_part(t))
}

/// Putting texts together is associative.
proof fn lemma_regroup(a: Seq<char>, b: Seq<char>, c: Seq<char>)
    ensures
        (a + b) + c == a + (b + c),
{
    assert((a + b) + c =~= a + (b + c));
}

proof fn lemma_text_parts(t: UtcTime)
    requires
        0 <= t.year <= 9999,
    ensures
        dates::rfc3339_text(t) == dates::two_digits(t.year as int / 100) + (dates::two_digits(
            t.year as int,
        ) + (seq!['-'] + month_part(t))),
{
    reveal(second_part);
    reveal(minute_part);
    reveal(hour_part);
    reveal(day_part);
    reveal(month_part);
    let century = dates::two_digits(t.year as int / 100);
    let year = dates::two_digits(t.year as int);
    let p0 = century + year;
    let p1 = p0 + seq!['-'];
    let p2 = p1 + dates::two_digits(t.month as int);
    let p3 = p2 + seq!['-'];
    let p4 = p3 + dates::two_digits(t.day as int);
    let p5 = p4 + seq!['T'];
    let p6 = p5 + dates::two_digits(t.hour as int);
    let p7 = p6 + seq![':'];
    let p8 = p7 + dates::two_digits(t.minute as int);
    let p9 = p8 + seq![':'];
    let second = dates::two_digits(written_second(t).0);
    let fraction = dates::fraction_text(written_second(t).1);
    assert(dates::rfc3339_text(t) == p9 + second + fraction + offset());
    lemma_regroup(p9 + second, fraction, offset());
    lemma_regroup(p9, second, fraction + offset());
    lemma_regroup(p8, seq![':'], second_part(t));
    lemma_regroup(p7, dates::two_digits(t.minute as int), seq![':'] + second_part(t));
    lemma_regroup(p6, seq![':'], minute_part(t));
    lemma_regroup(p5, dates::two_digits(t.hour as int), seq![':'] + minute_part(t));
    lemma_regroup(p4, seq!['T'], hour_part(t));
    lemma_regroup(p3, dates::two_digits(t.day as int), seq!['T'] + hour_part(t));
    lemma_regroup(p2, seq!['-'], day_part(t));
    lemma_regroup(p1, dates::two_digits(t.month as int), seq!['-'] + day_part(t));
    lemma_regroup(p0, seq!['-'], month_part(t));
    lemma_regroup(century, year, seq!['-'] + month_part(t));
}

/// Two digits depend on the last two digits of the number only.
proof fn lemma_year_digits(n: int)
    requires
        n >= 0,
    ensures
        dates::two_digits(n) == dates::two_digits(n % 100),
{
    let q = n / 100;
    let r = n % 100;
    assert(n / 10 == 10 * q + r / 10);
    assert((10 * q + r / 10) % 10 == r / 10 % 10);
    assert((100 * q + r) % 10 == r % 10);
}

proof fn lemma_days(a: UtcTime, b: UtcTime)
    requires
        a.valid(),
        b.valid(),
        a.year == b.year,
        earlier(a, b),
    ensures
        words::precedes(month_part(a), month_part(b)),
{
    reveal(second_part);
    reveal(minute_part);
    reveal(hour_part);
    reveal(day_part);
    reveal(month_part);
    lemma_field(a.month as int, seq!['-'] + day_part(a), b.month as int, seq!['-'] + day_part(b));
    lemma_separator('-', day_part(a), day_part(b));
    lemma_field(a.day as int, seq!['T'] + hour_part(a), b.day as int, seq!['T'] + hour_part(b));
    lemma_separator('T', hour_part(a), hour_part(b));
    lemma_field(
        a.hour as int,
        seq![':'] + minute_part(a),
        b.hour as int,
        seq![':'] + minute_part(b),
    );
    lemma_separator(':', minute_part(a), minute_part(b));
    lemma_field(
        a.minute as int,
        seq![':'] + second_part(a),
        b.minute as int,
        seq![':'] + second_part(b),
    );
    lemma_separator(':', second_part(a), second_part(b));
    let (sa, na) = written_second(a);
    let (sb, nb) = written_second(b);
    lemma_field(
        sa,
        dates::fraction_text(na) + offset(),
        sb,
        dates::fraction_text(nb) + offset(),
    );
    if sa == sb && na < nb {
        lemma_fraction(na, nb);
    }
}

/// Of two valid times in the years 0 to 9999, the earlier one has the RFC 3339 text that comes
/// first: comparing normalized dates as texts compares them as times.
pub proof fn law_texts_sort_as_times(a: UtcTime, b: UtcTime)
    requires
        a.valid(),
        b.valid(),
        0 <= a.year <= 9999,
        0 <= b.year <= 9999,
        earlier(a, b),
    ensures
        words::precedes(dates::rfc3339_text(a), dates::rfc3339_text(b)),
{
    lemma_text_parts(a);
    lemma_text_parts(b);
    let (ya, yb) = (a.year as int, b.year as int);
    lemma_year_digits(ya);
    lemma_year_digits(yb);
    lemma_field(
        ya / 100,
        dates::two_digits(ya) + (seq!['-'] + month_part(a)),
        yb / 100,
        dates::two_digits(yb) + (seq!['-'] + month_part(b)),
    );
    lemma_field(ya % 100, seq!['-'] + month_part(a), yb % 100, seq!['-'] + month_part(b));
    lemma_separator('-', month_part(a), month_part(b));
    if ya == yb {
        lemma_days(a, b);
    }
}

} // verus!
