//! Whole numbers written in decimal digits.

use crate::text::characters;
use vstd::prelude::*;

verus! {

/// The character for one decimal digit.
pub open spec fn digit(d: int) -> char {
    (48 + d) as char
}

/// A natural number in decimal digits, without leading zeros.
pub open spec fn digits(n: nat) -> Seq<char>
    decreases n,
{
    if n < 10 {
        seq![digit(n as int)]
    } else {
        digits(n / 10).push(digit((n % 10) as int))
    }
}

/// A whole number in decimal digits, with a sign where it is negative.
pub open spec fn integer_text(n: int) -> Seq<char> {
    if n < 0 {
        seq!['-'] + digits((-n) as nat)
    } else {
        digits(n as nat)
    }
}

/// A natural number in at least `width` decimal digits.
pub open spec fn padded_digits(n: nat, width: nat) -> Seq<char> {
    let written = digits(n);
    if written.len() < width {
        Seq::new((width - written.len()) as nat, |i: int| '0') + written
    } else {
        written
    }
}

/// Every character is a decimal digit.
pub open spec fn all_digits(s: Seq<char>) -> bool {
    forall|i: int| 0 <= i < s.len() ==> '0' <= #[trigger] s[i] <= '9'
}

/// The number that decimal digits stand for.
pub open spec fn digits_value(s: Seq<char>) -> int
    decreases s.len(),
{
    if s.len() == 0 {
        0
    } else {
        10 * digits_value(s.drop_last()) + (s.last() as int - 48)
    }
}

/// The digits of a text that may start with a sign.
pub open spec fn unsigned_part(s: Seq<char>) -> Seq<char> {
    if s.len() > 0 && (s[0] == '-' || s[0] == '+') {
        s.skip(1)
    } else {
        s
    }
}

/// The number that a text stands for: decimal digits, after a sign or none, within the
/// range of `i64`.
pub open spec fn parsed_integer(s: Seq<char>) -> Option<i64> {
    let body = unsigned_part(s);
    let size = digits_value(body);
    let number = if s.len() > 0 && s[0] == '-' {
        -size
    } else {
        size
    };
    if body.len() > 0 && all_digits(body) && i64::MIN <= number <= i64::MAX {
        Some(number as i64)
    } else {
        None
    }
}

fn digit_text(d: u64) -> (text: &'static str)
    requires
        d < 10,
    ensures
        text@ == seq![digit(d as int)],
{
    proof {
        reveal_strlit("0");
        reveal_strlit("1");
        reveal_strlit("2");
        reveal_strlit("3");
        reveal_strlit("4");
        reveal_strlit("5");
        reveal_strlit("6");
        reveal_strlit("7");
        reveal_strlit("8");
        reveal_strlit("9");
    }
    let text = match d {
        0 => "0",
        1 => "1",
        2 => "2",
        3 => "3",
        4 => "4",
        5 => "5",
        6 => "6",
        7 => "7",
        8 => "8",
        _ => "9",
    };
    assert(text@ =~= seq![digit(d as int)]);
    text
}

/// Writes a natural number in decimal digits.
pub fn natural_text(n: u64) -> (text: String)
    ensures
        text@ == digits(n as nat),
    decreases n,
{
    if n < 10 {
        digit_text(n).to_owned()
    } else {
        let text = natural_text(n / 10).concat(digit_text(n % 10));
        assert(text@ =~= digits(n as nat));
        text
    }
}

/// Writes a whole number in decimal digits.
pub fn write_integer(n: i64) -> (text: String)
    ensures
        text@ == integer_text(n as int),
{
    if n < 0 {
        proof {
            reveal_strlit("-");
        }
        let size: u64 = if n == i64::MIN {
            0x8000_0000_0000_0000
        } else {
            (-n) as u64
        };
        let text = "-".to_owned().concat(natural_text(size).as_str());
        assert(text@ =~= integer_text(n as int));
        text
    } else {
        natural_text(n as u64)
    }
}

proof fn lemma_prefix_value(s: Seq<char>, k: int)
    requires
        all_digits(s),
        0 <= k <= s.len(),
    ensures
        0 <= digits_value(s.take(k)) <= digits_value(s),
    decreases s.len(),
{
    if s.len() == 0 {
        assert(s.take(k) =~= s);
    } else {
        assert('0' <= s.last() <= '9');
        lemma_prefix_value(s.drop_last(), s.len() - 1);
        assert(s.drop_last().take(s.len() - 1) =~= s.drop_last());
        if k == s.len() {
            assert(s.take(k) =~= s);
        } else {
            lemma_prefix_value(s.drop_last(), k);
            assert(s.drop_last().take(k) =~= s.take(k));
        }
    }
}

/// Reads a whole number.
pub fn parse_integer(text: &str) -> (number: Option<i64>)
    ensures
        number == parsed_integer(text@),
{
    let chars = characters(text);
    let ghost body = unsigned_part(text@);
    let signed = chars.len() > 0 && (chars[0] == '-' || chars[0] == '+');
    let negative = chars.len() > 0 && chars[0] == '-';
    let start: usize = if signed {
        1
    } else {
        0
    };
    assert(body =~= text@.skip(start as int));
    if start == chars.len() {
        return None;
    }
    let mut i: usize = start;
    while i < chars.len() && '0' <= chars[i] && chars[i] <= '9'
        invariant
            chars@ == text@,
            body == text@.skip(start as int),
            start <= i <= chars.len(),
            all_digits(body.take(i - start)),
        decreases chars.len() - i,
    {
        assert(body.take(i + 1 - start) =~= body.take(i - start).push(chars[i as int]));
        i = i + 1;
    }
    if i < chars.len() {
        assert(body[i - start] == chars[i as int]);
        return None;
    }
    assert(body.take(i - start) =~= body);
    let limit: u64 = 0x8000_0000_0000_0000;
    let mut size: u64 = 0;
    let mut k: usize = start;
    assert(body.take(0) =~= Seq::<char>::empty());
    while k < chars.len()
        invariant
            chars@ == text@,
            body == text@.skip(start as int),
            all_digits(body),
            start <= k <= chars.len(),
            limit == 0x8000_0000_0000_0000,
            size <= limit,
            size == digits_value(body.take(k - start)),
            parsed_integer(text@) is Some ==> digits_value(body) <= limit,
        decreases chars.len() - k,
    {
        assert(body[k - start] == chars[k as int]);
        let d: u64 = chars[k] as u64 - 48;
        proof {
            assert(body.take(k + 1 - start).drop_last() =~= body.take(k - start));
            lemma_prefix_value(body, k + 1 - start);
        }
        if size > (limit - d) / 10 {
            return None;
        }
        size = 10 * size + d;
        k = k + 1;
    }
    assert(body.take(k - start) =~= body);
    if negative {
        if size == limit {
            Some(i64::MIN)
        } else {
            Some(-(size as i64))
        }
    } else if size == limit {
        None
    } else {
        Some(size as i64)
    }
}

/// Reading back a number that was written gives the number.
pub proof fn law_written_integer_reads_back(n: int)
    requires
        i64::MIN <= n <= i64::MAX,
    ensures
        parsed_integer(integer_text(n)) == Some(n as i64),
{
    let size: nat = if n < 0 {
        (-n) as nat
    } else {
        n as nat
    };
    lemma_digits(size);
    if n < 0 {
        assert(unsigned_part(integer_text(n)) =~= digits(size));
    }
}

/// Written digits are digits, stand for the number, and start with no sign.
pub proof fn lemma_digits(n: nat)
    ensures
        digits(n).len() > 0,
        all_digits(digits(n)),
        digits_value(digits(n)) == n,
        digits(n)[0] != '-',
        digits(n)[0] != '+',
    decreases n,
{
    if n < 10 {
        assert(digits(n).drop_last() =~= Seq::<char>::empty());
        assert(digits_value(digits(n).drop_last()) == 0);
    } else {
        lemma_digits(n / 10);
        assert(digits(n).drop_last() =~= digits(n / 10));
    }
}

} // verus!
