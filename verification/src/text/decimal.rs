//! Integers in decimal notation.

use vstd::prelude::*;

verus! {

/// The character for a digit.
pub open spec fn digit_char(d: int) -> char {
    ('0' as int + d) as char
}

/// The value of a digit.
pub open spec fn digit_value(c: char) -> int {
    c as int - '0' as int
}

/// The decimal digits of `n`, without leading zeros.
pub open spec fn digits(n: nat) -> Seq<char>
    decreases n,
{
    if n < 10 {
        seq![digit_char(n as int)]
    } else {
        digits(n / 10).push(digit_char((n % 10) as int))
    }
}

/// `n` in decimal notation.
pub open spec fn decimal(n: int) -> Seq<char> {
    if n < 0 {
        seq!['-'] + digits((-n) as nat)
    } else {
        digits(n as nat)
    }
}

/// The one-character text for a digit.
fn digit_text(d: u64) -> (s: &'static str)
    requires
        d < 10,
    ensures
        s@ == seq![digit_char(d as int)],
{
    proof {
        reveal_strlit("0");
        reveal_strlit("1");
        reveal_strlit("2");
        reveal_strlit("3");
        reveal_strlit("4");
        reveal_strlit("5");
        reveal_strlit("6");
        reveal_strlit("7");
        reveal_strlit("8");
        reveal_strlit("9");
    }
    let s = match d {
        0 => "0",
        1 => "1",
        2 => "2",
        3 => "3",
        4 => "4",
        5 => "5",
        6 => "6",
        7 => "7",
        8 => "8",
        _ => "9",
    };
    proof {
        assert(s@ =~= seq![digit_char(d as int)]);
    }
    s
}

/// Appends the decimal digits of `n`.
pub fn append_digits(out: &mut String, n: u64)
    ensures
        final(out)@ == old(out)@ + digits(n as nat),
    decreases n,
{
    if n < 10 {
        out.append(digit_text(n));
    } else {
        append_digits(out, n / 10);
        out.append(digit_text(n % 10));
        proof {
            assert(out@ =~= old(out)@ + digits(n as nat));
        }
    }
}

/// Appends `n` in decimal notation.
pub fn append_decimal(out: &mut String, n: i64)
    ensures
        final(out)@ == old(out)@ + decimal(n as int),
{
    if n < 0 {
        out.append("-");
        proof {
            reveal_strlit("-");
            assert("-"@ =~= seq!['-']);
        }
        let magnitude: u64 = (-(n + 1)) as u64 + 1;
        append_digits(out, magnitude);
        proof {
            assert(out@ =~= old(out)@ + decimal(n as int));
        }
    } else {
        append_digits(out, n as u64);
    }
}

/// `s` consists of decimal digits, at least one.
pub open spec fn is_digits(s: Seq<char>) -> bool {
    s.len() > 0 && forall|i: int| 0 <= i < s.len() ==> '0' <= #[trigger] s[i] <= '9'
}

/// The number that decimal digits stand for.
pub open spec fn digits_value(s: Seq<char>) -> int
    decreases s.len(),
{
    if s.len() == 0 {
        0
    } else {
        digits_value(s.drop_last()) * 10 + digit_value(s.last())
    }
}

/// The integer that `s` denotes: digits, with a sign before them or none.
pub open spec fn integer_value(s: Seq<char>) -> Option<int> {
    if is_digits(s) {
        Some(digits_value(s))
    } else if s.len() > 0 && s[0] == '+' && is_digits(s.skip(1)) {
        Some(digits_value(s.skip(1)))
    } else if s.len() > 0 && s[0] == '-' && is_digits(s.skip(1)) {
        Some(-digits_value(s.skip(1)))
    } else {
        None
    }
}

/// The 64-bit integer that `s` denotes, if it denotes one.
pub open spec fn i64_value(s: Seq<char>) -> Option<int> {
    match integer_value(s) {
        Some(n) if i64::MIN <= n <= i64::MAX => Some(n),
        _ => None,
    }
}

/// Digits stand for no negative number, and more digits for no smaller one.
proof fn lemma_digits_value(s: Seq<char>, k: int)
    requires
        0 <= k <= s.len(),
        forall|i: int| 0 <= i < s.len() ==> '0' <= #[trigger] s[i] <= '9',
    ensures
        0 <= digits_value(s.take(k)) <= digits_value(s),
    decreases s.len(),
{
    if k == s.len() {
        assert(s.take(k) =~= s);
        if s.len() > 0 {
            lemma_digits_value(s.drop_last(), k - 1);
            assert(s.drop_last().take(k - 1) =~= s.drop_last());
            assert('0' <= s[s.len() - 1] <= '9');
        }
    } else {
        lemma_digits_value(s.drop_last(), k);
        assert(s.drop_last().take(k) =~= s.take(k));
        assert('0' <= s[s.len() - 1] <= '9');
    }
}

/// Reads the 64-bit integer that a text denotes.
pub fn parse_i64(s: &str) -> (r: Option<i64>)
    ensures
        r is Some <==> i64_value(s@) is Some,
        r matches Some(n) ==> i64_value(s@) == Some(n as int),
{
    let v = crate::text::chars_of(s);
    let n: usize = v.len();
    if n == 0 {
        return None;
    }
    let negative = v[0] == '-';
    let from: usize = if v[0] == '-' || v[0] == '+' {
        1
    } else {
        0
    };
    let ghost body = s@.skip(from as int);
    let mut value: i128 = 0;
    let mut i: usize = from;
    proof {
        assert(s@.skip(0) =~= s@);
        assert(body.take(0) =~= Seq::<char>::empty());
    }
    if from == n {
        return None;
    }
    while i < n
        invariant
            from <= i <= n,
            n == v@.len(),
            v@ == s@,
            from <= 1,
            from < n,
            body == s@.skip(from as int),
            from == (if s@[0] == '-' || s@[0] == '+' {
                1int
            } else {
                0int
            }),
            forall|j: int| 0 <= j < i - from ==> '0' <= #[trigger] body[j] <= '9',
            value == digits_value(body.take(i - from)),
            0 <= value <= 0x8000_0000_0000_0000,
        decreases n - i,
    {
        let c = v[i];
        proof {
            assert(body[i - from] == c);
        }
        if c < '0' || c > '9' {
            proof {
                assert(!is_digits(body));
                if from == 1 {
                    assert(!('0' <= s@[0] <= '9'));
                    assert(!is_digits(s@));
                } else {
                    assert(s@.skip(0) =~= s@);
                }
            }
            return None;
        }
        value = value * 10 + (c as u32 - '0' as u32) as i128;
        i += 1;
        proof {
            assert(body.take(i - from).drop_last() =~= body.take(i - from - 1));
            assert(body.take(i - from).last() == c);
        }
        if value > 0x8000_0000_0000_0000 {
            proof {
                if is_digits(body) {
                    lemma_digits_value(body, i - from);
                }
                if from == 1 {
                    assert(!('0' <= s@[0] <= '9'));
                    assert(!is_digits(s@));
                } else {
                    assert(s@.skip(0) =~= s@);
                }
            }
            return None;
        }
    }
    proof {
        assert(body.take(n - from) =~= body);
        assert(is_digits(body));
        if from == 1 {
            assert(!('0' <= s@[0] <= '9'));
            assert(!is_digits(s@));
        } else {
            assert(s@.skip(0) =~= s@);
        }
    }
    if negative {
        Some((-value) as i64)
    } else if value <= 0x7fff_ffff_ffff_ffff {
        Some(value as i64)
    } else {
        None
    }
}

/// The digits of a number stand for that number.
proof fn lemma_digits_round_trip(n: nat)
    ensures
        is_digits(digits(n)),
        digits_value(digits(n)) == n,
    decreases n,
{
    if n < 10 {
        let s = digits(n);
        assert(s.drop_last() =~= Seq::<char>::empty());
        assert(digits_value(s.drop_last()) == 0);
        assert(digits_value(s) == digit_value(s.last()));
    } else {
        lemma_digits_round_trip(n / 10);
        let s = digits(n);
        assert(s.drop_last() =~= digits(n / 10));
        assert forall|i: int| 0 <= i < s.len() implies '0' <= #[trigger] s[i] <= '9' by {
            if i < s.len() - 1 {
                assert(s[i] == digits(n / 10)[i]);
            }
        }
    }
}

/// Reading the decimal notation of an integer gives that integer back.
pub proof fn law_decimal_round_trip(n: int)
    ensures
        integer_value(decimal(n)) == Some(n),
        i64::MIN <= n <= i64::MAX ==> i64_value(decimal(n)) == Some(n),
{
    let m = if n < 0 {
        -n
    } else {
        n
    };
    lemma_digits_round_trip(m as nat);
    if n < 0 {
        assert(decimal(n)[0] == '-');
        assert(!is_digits(decimal(n)));
        assert(decimal(n).skip(1) =~= digits(m as nat));
    }
}

} // verus!
