//! Small text helpers: comparing strings, decimal numbers, and building messages.

use vstd::prelude::*;

verus! {

/// Appends one character to `s` (`String::push`).
#[verifier::external_body]
pub(crate) fn push_char(s: &mut String, c: char)
    ensures
        final(s)@ == old(s)@.push(c),
{
    s.push(c)
}

/// The two texts are equal.
pub fn text_is(a: &str, b: &str) -> (r: bool)
    ensures
        r == (a@ == b@),
{
    let n = a.unicode_len();
    if n != b.unicode_len() {
        return false;
    }
    let mut i: usize = 0;
    while i < n
        invariant
            n == a@.len(),
            n == b@.len(),
            i <= n,
            forall|j: int| 0 <= j < i ==> a@[j] == b@[j],
        decreases n - i,
    {
        if a.get_char(i) != b.get_char(i) {
            return false;
        }
        i += 1;
    }
    assert(a@ =~= b@);
    true
}

/// The character of decimal digit `d`.
pub open spec fn digit_char(d: int) -> char {
    if d == 0 {
        '0'
    } else if d == 1 {
        '1'
    } else if d == 2 {
        '2'
    } else if d == 3 {
        '3'
    } else if d == 4 {
        '4'
    } else if d == 5 {
        '5'
    } else if d == 6 {
        '6'
    } else if d == 7 {
        '7'
    } else if d == 8 {
        '8'
    } else {
        '9'
    }
}

/// The value of a decimal digit character, if it is one.
pub open spec fn digit_value(c: char) -> Option<int> {
    if c == '0' {
        Some(0)
    } else if c == '1' {
        Some(1)
    } else if c == '2' {
        Some(2)
    } else if c == '3' {
        Some(3)
    } else if c == '4' {
        Some(4)
    } else if c == '5' {
        Some(5)
    } else if c == '6' {
        Some(6)
    } else if c == '7' {
        Some(7)
    } else if c == '8' {
        Some(8)
    } else if c == '9' {
        Some(9)
    } else {
        None
    }
}

/// The decimal digits of `n`, without leading zeros (`"0"` for zero).
pub open spec fn digits_of(n: nat) -> Seq<char>
    decreases n,
{
    if n < 10 {
        seq![digit_char(n as int)]
    } else {
        digits_of(n / 10).push(digit_char((n % 10) as int))
    }
}

/// How `Display` writes an integer.
pub open spec fn decimal(n: int) -> Seq<char> {
    if n < 0 {
        seq!['-'] + digits_of((-n) as nat)
    } else {
        digits_of(n as nat)
    }
}

fn digit(d: u64) -> (c: char)
    requires
        d < 10,
    ensures
        c == digit_char(d as int),
{
    if d == 0 {
        '0'
    } else if d == 1 {
        '1'
    } else if d == 2 {
        '2'
    } else if d == 3 {
        '3'
    } else if d == 4 {
        '4'
    } else if d == 5 {
        '5'
    } else if d == 6 {
        '6'
    } else if d == 7 {
        '7'
    } else if d == 8 {
        '8'
    } else {
        '9'
    }
}

/// Appends the decimal digits of `n`.
pub fn push_digits(s: &mut String, n: u64)
    ensures
        final(s)@ == old(s)@ + digits_of(n as nat),
    decreases n,
{
    if n >= 10 {
        push_digits(s, n / 10);
    }
    push_char(s, digit(n % 10));
}

/// Appends `n` as `Display` writes it.
pub fn push_decimal(s: &mut String, n: i64)
    ensures
        final(s)@ == old(s)@ + decimal(n as int),
{
    if n < 0 {
        push_char(s, '-');
        let m: u64 = if n == i64::MIN { 9_223_372_036_854_775_808u64 } else { (-n) as u64 };
        push_digits(s, m);
    } else {
        push_digits(s, n as u64);
    }
}

/// Appends `t`.
pub fn push_text(s: &mut String, t: &str)
    ensures
        final(s)@ == old(s)@ + t@,
{
    s.append(t);
}

/// A new string holding `t`.
pub fn text_of(t: &str) -> (s: String)
    ensures
        s@ == t@,
{
    String::from_str(t)
}

/// The value of a run of decimal digits, if every character is a digit.
pub open spec fn digits_value(s: Seq<char>) -> Option<int>
    decreases s.len(),
{
    if s.len() == 0 {
        Some(0)
    } else {
        match (digits_value(s.drop_last()), digit_value(s.last())) {
            (Some(v), Some(d)) => Some(v * 10 + d),
            _ => None,
        }
    }
}

/// What `str::parse` gives for an unsigned integer type whose largest value is `max`: an optional
/// `+`, then at least one decimal digit, and nothing else; `None` when the text is not of that
/// form or the value exceeds `max`.
pub open spec fn parse_unsigned(s: Seq<char>, max: int) -> Option<int> {
    let body = if s.len() > 0 && s[0] == '+' { s.drop_first() } else { s };
    if body.len() == 0 {
        None
    } else {
        match digits_value(body) {
            Some(v) => if v <= max { Some(v) } else { None },
            None => None,
        }
    }
}

proof fn lemma_digits_value_nonneg(s: Seq<char>)
    ensures
        digits_value(s) matches Some(v) ==> v >= 0,
    decreases s.len(),
{
    if s.len() > 0 {
        lemma_digits_value_nonneg(s.drop_last());
    }
}

/// `str::parse::<u64>`-style parsing with an upper bound: the value of `text` if it is an optional
/// `+` followed by decimal digits whose value is at most `max`.
pub fn parse_unsigned_text(text: &str, max: u64) -> (r: Option<u64>)
    ensures
        r == (match parse_unsigned(text@, max as int) {
            Some(v) => Some(v as u64),
            None => None::<u64>,
        }),
        r matches Some(v) ==> parse_unsigned(text@, max as int) == Some(v as int),
        r is None ==> parse_unsigned(text@, max as int) is None,
{
    let n = text.unicode_len();
    let mut i: usize = 0;
    if n > 0 && text.get_char(0) == '+' {
        i = 1;
    }
    let ghost body = if text@.len() > 0 && text@[0] == '+' { text@.drop_first() } else { text@ };
    let start = i;
    proof {
        assert(body =~= text@.subrange(start as int, n as int));
    }
    if i == n {
        return None;
    }
    let mut value: u64 = 0;
    let mut overflow = false;
    while i < n
        invariant
            n == text@.len(),
            start <= i <= n,
            body == text@.subrange(start as int, n as int),
            body == (if text@.len() > 0 && text@[0] == '+' { text@.drop_first() } else { text@ }),
            !overflow ==> digits_value(text@.subrange(start as int, i as int)) == Some(value as int),
            overflow ==> (match digits_value(text@.subrange(start as int, i as int)) {
                Some(v) => v > max,
                None => true,
            }),
            !overflow ==> value <= max,
        decreases n - i,
    {
        let c = text.get_char(i);
        let ghost pre = text@.subrange(start as int, i as int);
        proof {
            assert(text@.subrange(start as int, i + 1).drop_last() =~= pre);
            assert(text@.subrange(start as int, i + 1).last() == c);
        }
        let d: Option<u64> = if c == '0' {
            Some(0)
        } else if c == '1' {
            Some(1)
        } else if c == '2' {
            Some(2)
        } else if c == '3' {
            Some(3)
        } else if c == '4' {
            Some(4)
        } else if c == '5' {
            Some(5)
        } else if c == '6' {
            Some(6)
        } else if c == '7' {
            Some(7)
        } else if c == '8' {
            Some(8)
        } else if c == '9' {
            Some(9)
        } else {
            None
        };
        match d {
            None => {
                proof {
                    assert(digits_value(text@.subrange(start as int, i + 1)) is None);
                    assert(text@.subrange(start as int, n as int).subrange(0, i + 1 - start) =~= text@.subrange(start as int, i + 1));
                    lemma_digits_none_extends(text@.subrange(start as int, i + 1), text@.subrange(start as int, n as int));
                    assert(digits_value(body) is None);
                    assert(body.len() > 0);
                    assert(body == (if text@.len() > 0 && text@[0] == '+' { text@.drop_first() } else { text@ }));
                    assert(parse_unsigned(text@, max as int) is None);
                }
                return None;
            },
            Some(dv) => {
                if !overflow {
                    if dv > max || value > (max - dv) / 10 {
                        overflow = true;
                        proof {
                            if dv <= max {
                                assert(value * 10 + dv > max) by (nonlinear_arith)
                                    requires
                                        value > (max - dv) / 10,
                                        dv <= max,
                                ;
                            }
                        }
                    } else {
                        proof {
                            assert(value * 10 + dv <= max) by (nonlinear_arith)
                                requires
                                    value <= (max - dv) / 10,
                                    dv < 10,
                                    dv <= max,
                            ;
                        }
                        value = value * 10 + dv;
                    }
                } else {
                    proof {
                        lemma_digits_value_nonneg(pre);
                        if let Some(v) = digits_value(pre) {
                            assert(v * 10 + dv > max) by (nonlinear_arith)
                                requires
                                    v > max,
                                    max >= 0,
                                    dv >= 0,
                            ;
                        }
                    }
                }
            },
        }
        i += 1;
    }
    if overflow {
        proof {
            assert(text@.subrange(start as int, n as int) == body);
        }
        None
    } else {
        proof {
            assert(text@.subrange(start as int, n as int) == body);
        }
        Some(value)
    }
}

/// A text with a non-digit in its first part has no digit value, however it goes on.
proof fn lemma_digits_none_extends(prefix: Seq<char>, s: Seq<char>)
    requires
        digits_value(prefix) is None,
        prefix.len() <= s.len(),
        s.subrange(0, prefix.len() as int) == prefix,
    ensures
        digits_value(s) is None,
    decreases s.len(),
{
    if s.len() > prefix.len() {
        assert(s.drop_last().subrange(0, prefix.len() as int) =~= prefix);
        lemma_digits_none_extends(prefix, s.drop_last());
    } else {
        assert(s =~= prefix);
    }
}

/// Each digit's character reads back as that digit.
pub proof fn lemma_digit_char_value(d: int)
    requires
        0 <= d < 10,
    ensures
        digit_value(digit_char(d)) == Some(d),
{
}

/// The decimal digits of `n` read back as `n`: every character is the digit it stands for.
pub proof fn lemma_digits_read_back(n: nat)
    ensures
        digits_value(digits_of(n)) == Some(n as int),
        digits_of(n).len() >= 1,
    decreases n,
{
    if n < 10 {
        lemma_digit_char_value(n as int);
        let s = digits_of(n);
        assert(s.drop_last() =~= Seq::<char>::empty());
        assert(digits_value(s.drop_last()) == Some(0int));
        assert(s.last() == digit_char(n as int));
        assert(digits_value(s) == Some(0 * 10 + n as int));
    } else {
        lemma_digits_read_back(n / 10);
        lemma_digit_char_value((n % 10) as int);
        let s = digits_of(n);
        assert(s.drop_last() =~= digits_of(n / 10));
        assert(s.last() == digit_char((n % 10) as int));
        assert((n / 10) * 10 + n % 10 == n);
        assert(digits_value(s) == Some((n / 10) as int * 10 + (n % 10) as int));
    }
}

/// How `Display` writes an integer reads back as that integer: digits after an optional minus.
pub proof fn lemma_decimal_read_back(n: int)
    ensures
        n >= 0 ==> digits_value(decimal(n)) == Some(n),
        n < 0 ==> decimal(n)[0] == '-' && digits_value(decimal(n).drop_first()) == Some(-n),
{
    if n >= 0 {
        lemma_digits_read_back(n as nat);
    } else {
        lemma_digits_read_back((-n) as nat);
        assert(decimal(n).drop_first() =~= digits_of((-n) as nat));
    }
}

} // verus!
