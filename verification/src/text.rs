//! Decimal numbers as text.

use vstd::prelude::*;

verus! {

/// The characters of several strings.
pub open spec fn views(strings: Seq<String>) -> Seq<Seq<char>> {
    strings.map_values(|s: String| s@)
}

/// The character of a decimal digit.
pub open spec fn digit_char(d: nat) -> char {
    (48 + d) as char
}

/// Whether `c` is one of the characters `0` to `9`.
pub open spec fn is_digit(c: char) -> bool {
    '0' <= c <= '9'
}

/// The number that a decimal digit stands for.
pub open spec fn digit_value(c: char) -> nat {
    (c as int - 48) as nat
}

/// The usual decimal notation of `n`, without leading zeros.
pub open spec fn decimal(n: nat) -> Seq<char>
    decreases n,
{
    if n < 10 {
        seq![digit_char(n)]
    } else {
        decimal(n / 10).push(digit_char(n % 10))
    }
}

/// Whether `s` is one or more decimal digits.
pub open spec fn all_digits(s: Seq<char>) -> bool {
    s.len() > 0 && forall|i: int| 0 <= i < s.len() ==> is_digit(#[trigger] s[i])
}

/// The number that the digits of `s` denote, most significant digit first.
pub open spec fn digits_value(s: Seq<char>) -> nat
    decreases s.len(),
{
    if s.len() == 0 {
        0
    } else {
        10 * digits_value(s.drop_last()) + digit_value(s.last())
    }
}

/// What remains of `s` without one leading plus sign.
pub open spec fn without_plus(s: Seq<char>) -> Seq<char> {
    if s.len() > 0 && s[0] == '+' {
        s.drop_first()
    } else {
        s
    }
}

/// The unsigned number that `s` denotes: an optional plus sign and then one or more decimal
/// digits, whose value fits in 64 bits. `None` for every other text.
pub open spec fn unsigned_value(s: Seq<char>) -> Option<u64> {
    let digits = without_plus(s);
    if all_digits(digits) && digits_value(digits) <= u64::MAX {
        Some(digits_value(digits) as u64)
    } else {
        None
    }
}

/// The text of one decimal digit.
fn digit_text(d: u64) -> (r: &'static str)
    requires
        d < 10,
    ensures
        r@ == seq![digit_char(d as nat)],
{
    proof {
        reveal_strlit("0");
        reveal_strlit("1");
        reveal_strlit("2");
        reveal_strlit("3");
        reveal_strlit("4");
        reveal_strlit("5");
        reveal_strlit("6");
        reveal_strlit("7");
        reveal_strlit("8");
        reveal_strlit("9");
    }
    if d == 0 {
        "0"
    } else if d == 1 {
        "1"
    } else if d == 2 {
        "2"
    } else if d == 3 {
        "3"
    } else if d == 4 {
        "4"
    } else if d == 5 {
        "5"
    } else if d == 6 {
        "6"
    } else if d == 7 {
        "7"
    } else if d == 8 {
        "8"
    } else {
        "9"
    }
}

/// Appends the decimal notation of `n` to `out`.
pub fn push_decimal(out: &mut String, n: u64)
    ensures
        final(out)@ == old(out)@ + decimal(n as nat),
    decreases n,
{
    if n >= 10 {
        push_decimal(out, n / 10);
    }
    out.append(digit_text(n % 10));
    assert(out@ =~= old(out)@ + decimal(n as nat));
}

/// The decimal notation of a signed number.
pub open spec fn signed_decimal(n: int) -> Seq<char> {
    if n < 0 {
        "-"@ + decimal((-n) as nat)
    } else {
        decimal(n as nat)
    }
}

/// Appends the decimal notation of the signed number `n` to `out`.
pub fn push_signed_decimal(out: &mut String, n: i32)
    ensures
        final(out)@ == old(out)@ + signed_decimal(n as int),
{
    let wide: i64 = n as i64;
    if wide < 0 {
        out.append("-");
        push_decimal(out, (-wide) as u64);
        assert(out@ =~= old(out)@ + signed_decimal(n as int));
    } else {
        push_decimal(out, wide as u64);
    }
}

/// Reading further digits never makes the value smaller.
proof fn lemma_prefix_value(s: Seq<char>, n: int)
    requires
        0 <= n <= s.len(),
    ensures
        digits_value(s.take(n)) <= digits_value(s),
    decreases s.len() - n,
{
    if n < s.len() {
        lemma_prefix_value(s, n + 1);
        assert(s.take(n + 1).drop_last() =~= s.take(n));
    } else {
        assert(s.take(n) =~= s);
    }
}

/// The unsigned number that `text` denotes, if it denotes one.
pub fn parse_unsigned(text: &str) -> (r: Option<u64>)
    ensures
        r == unsigned_value(text@),
{
    let ghost digits = without_plus(text@);
    let ghost skipped = text@.len() - digits.len();
    let mut value: u64 = 0;
    let mut first: bool = true;
    let mut seen: bool = false;
    let ghost mut count: int = 0;
    for c in it: text.chars()
        invariant
            it.seq() == text@,
            digits == without_plus(text@),
            skipped == text@.len() - digits.len(),
            first == (it.index() == 0),
            count == (if it.index() == 0 {
                0
            } else {
                it.index() - skipped
            }),
            0 <= count <= digits.len(),
            seen == (count > 0),
            forall|i: int| 0 <= i < count ==> is_digit(#[trigger] digits[i]),
            value == digits_value(digits.take(count)),
    {
        if first && c == '+' {
            first = false;
        } else {
            proof {
                assert(digits[count] == c);
                assert(digits.take(count + 1).drop_last() =~= digits.take(count));
                lemma_prefix_value(digits, count + 1);
            }
            if c < '0' || c > '9' {
                return None;
            }
            let digit: u64 = c as u64 - 48;
            if value > (u64::MAX - digit) / 10 {
                return None;
            }
            value = value * 10 + digit;
            proof {
                count = count + 1;
            }
            first = false;
            seen = true;
        }
    }
    assert(digits.take(count) =~= digits);
    if seen {
        Some(value)
    } else {
        None
    }
}

/// The decimal notation of a number is one or more digits that denote that number.
pub proof fn law_decimal_denotes(n: nat)
    ensures
        all_digits(decimal(n)),
        digits_value(decimal(n)) == n,
    decreases n,
{
    if n < 10 {
        assert(decimal(n).drop_last() =~= Seq::<char>::empty());
        assert(digits_value(Seq::<char>::empty()) == 0);
    } else {
        law_decimal_denotes(n / 10);
        assert(decimal(n).drop_last() =~= decimal(n / 10));
    }
}

/// Reading back the decimal notation of a 64-bit number gives that number.
pub proof fn law_parse_undoes_decimal(n: u64)
    ensures
        unsigned_value(decimal(n as nat)) == Some(n),
{
    law_decimal_denotes(n as nat);
    assert(is_digit(decimal(n as nat)[0]));
}

/// Different numbers have different decimal notations.
pub proof fn law_decimal_injective(m: nat, n: nat)
    ensures
        decimal(m) == decimal(n) <==> m == n,
{
    law_decimal_denotes(m);
    law_decimal_denotes(n);
}

/// Decimal notation is positional: a number below ten is one digit, and multiplying by ten and
/// adding a digit writes that digit behind.
pub proof fn law_decimal_is_positional(n: nat, d: nat)
    requires
        d < 10,
    ensures
        decimal(d) == seq![(48 + d) as char],
        n > 0 ==> decimal(10 * n + d) == decimal(n) + seq![(48 + d) as char],
        n > 0 ==> decimal(n)[0] != '0',
    decreases n,
{
    assert((10 * n + d) / 10 == n && (10 * n + d) % 10 == d);
    assert(n > 0 ==> decimal(10 * n + d) =~= decimal(n) + seq![(48 + d) as char]);
    if n >= 10 {
        law_decimal_is_positional(n / 10, d);
        assert(decimal(n)[0] == decimal(n / 10)[0]);
    }
}

/// A negative number has a minus sign in front of the notation of its opposite, and every other
/// number has no sign.
pub proof fn law_sign_is_written(n: nat)
    ensures
        signed_decimal(n as int) == decimal(n),
        n > 0 ==> signed_decimal(-n) == seq!['-'] + decimal(n),
{
    reveal_strlit("-");
    assert("-"@ =~= seq!['-']);
}

/// The value of a digit written behind others is that of the others, ten times, and of the digit.
proof fn lemma_digits_value_push(s: Seq<char>, c: char)
    ensures
        digits_value(s.push(c)) == 10 * digits_value(s) + digit_value(c),
{
    assert(s.push(c).drop_last() =~= s);
}

/// One more digit behind a number makes it ten times as large, and adds the digit, as long as it
/// fits in 64 bits. What does not fit is not read, however many digits follow.
pub proof fn law_numbers_are_read_digit_by_digit(s: Seq<char>, c: char)
    requires
        s.len() > 0,
        forall|i: int| 0 <= i < s.len() ==> '0' <= #[trigger] s[i] <= '9',
        '0' <= c <= '9',
    ensures
        unsigned_value(seq![c]) == Some((c as int - '0' as int) as u64),
        unsigned_value(s) is None ==> unsigned_value(s.push(c)) is None,
        unsigned_value(s) matches Some(v) ==> unsigned_value(s.push(c)) == (if 10 * v + (c as int
            - '0' as int) <= u64::MAX {
            Some((10 * v + (c as int - '0' as int)) as u64)
        } else {
            None
        }),
{
    lemma_digits_value_push(s, c);
    lemma_digits_value_push(Seq::empty(), c);
    assert(Seq::<char>::empty().push(c) =~= seq![c]);
    assert(s[0] != '+');
    assert(all_digits(s));
    assert(all_digits(s.push(c)));
    assert(all_digits(seq![c]));
}

/// A plus sign in front of a number makes no difference.
pub proof fn law_plus_makes_no_difference(s: Seq<char>)
    requires
        s.len() > 0,
        s[0] != '+',
    ensures
        unsigned_value(seq!['+'] + s) == unsigned_value(s),
{
    assert((seq!['+'] + s).drop_first() =~= s);
}

/// A text is not a number if it is empty or a plus sign alone, or if anything but a digit is in
/// it, other than a plus sign at its beginning.
pub proof fn law_other_texts_are_no_numbers(s: Seq<char>, i: int)
    requires
        s.len() == 0 || s == seq!['+'] || (0 <= i < s.len() && !('0' <= s[i] <= '9') && !(i == 0
            && s[i] == '+')),
    ensures
        unsigned_value(s) is None,
{
    let digits = without_plus(s);
    if s.len() > 0 && s != seq!['+'] {
        let k = if s[0] == '+' {
            i - 1
        } else {
            i
        };
        assert(digits[k] == s[i]);
        assert(!is_digit(digits[k]));
    }
}

/// There are as many texts as strings, and each is the text of the string in its place.
pub proof fn law_views_keep_every_text(strings: Seq<String>)
    ensures
        views(strings).len() == strings.len(),
        forall|i: int| 0 <= i < strings.len() ==> #[trigger] views(strings)[i] == strings[i]@,
{
}

} // verus!
