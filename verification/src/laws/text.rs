//! Texts: their order, their ends, their pieces.

use crate::decimal::{
    all_digits, digits_value, integer_text, law_written_integer_reads_back, parsed_integer,
    unsigned_part,
};
use crate::text::{
    joined, lemma_without_leading, lemma_without_trailing, pieces, text_before, trimmed,
    white_space, without_leading, without_trailing,
};
use vstd::prelude::*;

verus! {

/// Where two texts first differ decides which comes first; a text comes before what goes on from
/// it.
pub proof fn law_first_difference_orders_texts(a: Seq<char>, b: Seq<char>, i: int)
    requires
        0 <= i <= a.len(),
        i < b.len(),
        a.take(i) == b.take(i),
        i == a.len() || a[i] != b[i],
    ensures
        text_before(a, b) == (i == a.len() || a[i] < b[i]),
    decreases i,
{
    if i > 0 {
        assert(a[0] == a.take(i)[0] && b[0] == b.take(i)[0]);
        assert(a.skip(1).take(i - 1) =~= a.take(i).skip(1));
        assert(b.skip(1).take(i - 1) =~= b.take(i).skip(1));
        if i < a.len() {
            assert(a.skip(1)[i - 1] == a[i]);
        }
        assert(b.skip(1)[i - 1] == b[i]);
        law_first_difference_orders_texts(a.skip(1), b.skip(1), i - 1);
    }
}

/// Trimming takes white space off both ends of a text, and nothing else.
pub proof fn law_trimming_takes_white_space_alone(s: Seq<char>)
    ensures
        exists|i: int, j: int|
            0 <= i <= j <= s.len() && trimmed(s) == #[trigger] s.subrange(i, j) && (forall|k: int|
                0 <= k < s.len() && (k < i || j <= k) ==> white_space(#[trigger] s[k])) && (i < j
                ==> !white_space(s[i]) && !white_space(s[j - 1])),
{
    let blank = |c: char| white_space(c);
    let i = lemma_leading_dropped(s, blank);
    let rest = without_leading(s, blank);
    let n = lemma_trailing_dropped(rest, blank);
    let j = i + n;
    assert(rest.take(n) =~= s.subrange(i, j));
    assert forall|k: int| 0 <= k < s.len() && (k < i || j <= k) implies white_space(
        #[trigger] s[k],
    ) by {
        if k < i {
            assert(blank(s[k]));
        } else {
            assert(rest[k - i] == s[k]);
            assert(blank(rest[k - i]));
        }
    }
    lemma_without_leading(s, blank);
    lemma_without_trailing(rest, blank);
    if i < j {
        assert(rest[0] == s[i]);
        assert(trimmed(s).last() == s[j - 1]);
    }
    assert(trimmed(s) == s.subrange(i, j));
}

proof fn lemma_leading_dropped(s: Seq<char>, drop: spec_fn(char) -> bool) -> (i: int)
    ensures
        0 <= i <= s.len(),
        without_leading(s, drop) == s.skip(i),
        forall|k: int| 0 <= k < i ==> drop(#[trigger] s[k]),
    decreases s.len(),
{
    if s.len() > 0 && drop(s[0]) {
        let rest = s.skip(1);
        let i = lemma_leading_dropped(rest, drop);
        assert(rest.skip(i) =~= s.skip(i + 1));
        assert forall|k: int| 0 <= k < i + 1 implies drop(#[trigger] s[k]) by {
            if k > 0 {
                assert(rest[k - 1] == s[k]);
            }
        }
        i + 1
    } else {
        assert(s.skip(0) =~= s);
        0
    }
}

/// What is dropped at the end of a text is characters to drop.
pub proof fn lemma_trailing_dropped(s: Seq<char>, drop: spec_fn(char) -> bool) -> (n: int)
    ensures
        0 <= n <= s.len(),
        without_trailing(s, drop) == s.take(n),
        forall|k: int| n <= k < s.len() ==> drop(#[trigger] s[k]),
    decreases s.len(),
{
    if s.len() > 0 && drop(s.last()) {
        let rest = s.drop_last();
        let n = lemma_trailing_dropped(rest, drop);
        assert(rest.take(n) =~= s.take(n));
        assert forall|k: int| n <= k < s.len() implies drop(#[trigger] s[k]) by {
            if k < rest.len() {
                assert(rest[k] == s[k]);
            }
        }
        n
    } else {
        assert(s.take(s.len() as int) =~= s);
        s.len() as int
    }
}

/// Texts in one stand one after the other, with the separator between any two.
pub proof fn law_joining_sets_a_separator_between(
    parts: Seq<Seq<char>>,
    part: Seq<char>,
    separator: Seq<char>,
)
    ensures
        joined(Seq::<Seq<char>>::empty(), separator) == Seq::<char>::empty(),
        joined(seq![part], separator) == part,
        parts.len() > 0 ==> joined(parts.push(part), separator) == joined(parts, separator)
            + separator + part,
{
    assert(parts.push(part).drop_last() =~= parts);
}

/// The pieces of a text hold no separator, and joined by it they are the text again.
pub proof fn law_pieces_make_the_text(s: Seq<char>, separator: char)
    ensures
        pieces(s, separator).len() > 0,
        joined(pieces(s, separator), seq![separator]) == s,
        forall|i: int|
            0 <= i < pieces(s, separator).len() ==> !(#[trigger] pieces(s, separator)[i]).contains(
                separator,
            ),
    decreases s.len(),
{
    let all = pieces(s, separator);
    let sep = seq![separator];
    if s.len() > 0 {
        let shorter = s.drop_last();
        let before = pieces(shorter, separator);
        law_pieces_make_the_text(shorter, separator);
        if s.last() == separator {
            law_joining_sets_a_separator_between(before, Seq::empty(), sep);
            assert(joined(all, sep) =~= s);
        } else {
            let front = before.drop_last();
            let grown = before.last().push(s.last());
            assert(before =~= front.push(before.last()));
            law_joining_sets_a_separator_between(front, before.last(), sep);
            law_joining_sets_a_separator_between(front, grown, sep);
            if front.len() == 0 {
                assert(before =~= seq![before.last()]);
                assert(all =~= seq![grown]);
            }
            assert(joined(all, sep) =~= joined(before, sep).push(s.last()));
            assert(s =~= shorter.push(s.last()));
            assert forall|i: int| 0 <= i < all.len() implies !(#[trigger] all[i]).contains(
                separator,
            ) by {
                if i < front.len() {
                    assert(all[i] == before[i]);
                } else {
                    assert(!before[before.len() - 1].contains(separator));
                    if grown.contains(separator) {
                        let k = choose|k: int| 0 <= k < grown.len() && grown[k] == separator;
                        assert(before.last()[k] == separator);
                    }
                }
            }
        }
    } else {
        assert(all[0] =~= Seq::empty());
        assert(joined(all, sep) =~= s);
    }
}

/// A further digit makes a number ten times as large and adds to it, as long as it stays in range.
/// A number is read back from the way in which it is written.
pub proof fn law_digits_are_read_by_tens(digits: Seq<char>, d: char, n: i64)
    requires
        all_digits(digits),
        '0' <= d <= '9',
    ensures
        digits.len() > 0 && parsed_integer(digits) is Some ==> (match parsed_integer(
            digits.push(d),
        ) {
            Some(m) => m == 10 * parsed_integer(digits)->0 + (d as int - 48),
            None => 10 * parsed_integer(digits)->0 + (d as int - 48) > i64::MAX,
        }),
        parsed_integer(seq![d]) == Some((d as int - 48) as i64),
        parsed_integer(integer_text(n as int)) == Some(n),
        parsed_integer(Seq::<char>::empty()) is None,
{
    law_written_integer_reads_back(n as int);
    assert(digits.push(d).drop_last() =~= digits);
    assert(seq![d].drop_last() =~= Seq::<char>::empty());
    reveal_with_fuel(digits_value, 2);
    assert(unsigned_part(seq![d]) =~= seq![d]);
    if digits.len() > 0 {
        lemma_digits_are_natural(digits);
        assert(unsigned_part(digits) =~= digits);
        assert(unsigned_part(digits.push(d)) =~= digits.push(d));
        assert('0' <= digits[0] <= '9');
        assert(digits.push(d)[0] == digits[0]);
        assert(all_digits(digits.push(d)));
    }
}

proof fn lemma_digits_are_natural(digits: Seq<char>)
    requires
        all_digits(digits),
    ensures
        digits_value(digits) >= 0,
    decreases digits.len(),
{
    if digits.len() > 0 {
        assert('0' <= digits[digits.len() - 1] <= '9');
        assert forall|i: int| 0 <= i < digits.drop_last().len() implies '0'
            <= #[trigger] digits.drop_last()[i] <= '9' by {
            assert('0' <= digits[i] <= '9');
        }
        lemma_digits_are_natural(digits.drop_last());
    }
}

} // verus!
