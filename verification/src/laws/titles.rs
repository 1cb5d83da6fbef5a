//! Titles: what is kept of them, and which mark numbers a season.

use crate::decimal::parsed_integer;
use crate::laws::{lemma_filter_picks, picks, those};
use crate::laws::text::{law_trimming_takes_white_space_alone, lemma_trailing_dropped};
use crate::text::{lowercase, trimmed, white_space, without_leading, without_trailing};
use crate::titles::{
    captured, key_char, ordinal_value, replaced, season_number, show_title, single_spaced, tidied,
    title_key, without_closing_mark, without_season_marks, CAPTURED_LETTER, CAPTURED_ORDINAL,
    CAPTURED_SEASON, COUR_AND_NUMBER, FINAL_SEASON, LETTER_AND_NUMBER, NUMBERED_SEASON,
    ORDINAL_SEASON, PART_AND_NUMBER, SEASON_AND_NUMBER,
};
use vstd::prelude::*;

verus! {

/// The letters from a to z and the digits.
pub open spec fn letter_or_digit() -> spec_fn(char) -> bool {
    |c: char| 'a' <= c <= 'z' || '0' <= c <= '9'
}

/// The key of a title is every letter from a to z and every digit of the title of its show in lower
/// case, in their order and as often as they stand there: nothing is cut off, changed or added.
pub proof fn law_title_key_keeps_every_letter(title: Seq<char>)
    ensures
        picks(lowercase(show_title(title)), title_key(title), those(letter_or_digit())),
{
    let low = lowercase(show_title(title));
    lemma_filter_picks(low, letter_or_digit());
    lemma_same_filter(low);
}

proof fn lemma_same_filter(s: Seq<char>)
    ensures
        s.filter(letter_or_digit()) == s.filter(|c: char| key_char(c)),
    decreases s.len(),
{
    reveal(Seq::filter);
    if s.len() > 0 {
        lemma_same_filter(s.drop_last());
    }
}

/// Two titles have one key exactly where the letters and digits of the titles of their shows, in
/// lower case, are the same sequence.
pub proof fn law_equal_keys_mean_equal_letters(a: Seq<char>, b: Seq<char>)
    ensures
        title_key(a) == title_key(b) <==> lowercase(show_title(a)).filter(letter_or_digit())
            == lowercase(show_title(b)).filter(letter_or_digit()),
{
    lemma_same_filter(lowercase(show_title(a)));
    lemma_same_filter(lowercase(show_title(b)));
}

/// A text that is neither blank at its ends nor spaced by anything but single spaces, and that no
/// colon or dash closes.
pub open spec fn is_tidy(title: Seq<char>) -> bool {
    &&& title.len() > 0 ==> !white_space(title[0]) && !white_space(title.last())
    &&& title.len() > 0 ==> title.last() != ':' && title.last() != '-'
    &&& forall|i: int| 0 <= i < title.len() && white_space(#[trigger] title[i]) ==> title[i] == ' '
    &&& forall|i: int, j: int|
        0 <= i && j == i + 1 && j < title.len() && #[trigger] title[i] == ' '
            ==> #[trigger] title[j] != ' '
}

proof fn lemma_tidy_spaces(s: Seq<char>)
    requires
        forall|i: int| 0 <= i < s.len() && white_space(#[trigger] s[i]) ==> s[i] == ' ',
        forall|i: int, j: int|
            0 <= i && j == i + 1 && j < s.len() && #[trigger] s[i] == ' '
                ==> #[trigger] s[j] != ' ',
    ensures
        single_spaced(s) == s,
    decreases s.len(),
{
    if s.len() > 0 {
        let shorter = s.drop_last();
        assert forall|i: int| 0 <= i < shorter.len() && white_space(#[trigger] shorter[i]) implies
            shorter[i] == ' ' by {
            assert(shorter[i] == s[i]);
        }
        assert forall|i: int, j: int|
            0 <= i && j == i + 1 && j < shorter.len() && #[trigger] shorter[i] == ' ' implies
            #[trigger] shorter[j] != ' ' by {
            assert(shorter[i] == s[i] && shorter[j] == s[j]);
        }
        lemma_tidy_spaces(shorter);
        if s.len() > 1 && white_space(s.last()) {
            assert(s[s.len() - 1] == ' ');
            assert(s[s.len() - 2] != ' ');
        }
        assert(s =~= shorter.push(s.last()));
    }
}

proof fn lemma_tidy_ends(s: Seq<char>)
    requires
        s.len() > 0 ==> !white_space(s[0]) && !white_space(s.last()),
    ensures
        trimmed(s) == s,
        without_trailing(s, |c: char| white_space(c)) == s,
{
    let blank = |c: char| white_space(c);
    assert(without_leading(s, blank) == s);
}

/// Tidying leaves a tidy title as it is, and takes one colon or dash off its end, with the space
/// in front of it.
pub proof fn law_tidy_titles_stay(title: Seq<char>)
    requires
        is_tidy(title),
    ensures
        tidied(title) == title,
        tidied(title.push(':')) == title,
        tidied(title.push('-')) == title,
        tidied(title.push(' ').push('-')) == title,
{
    let blank = |c: char| white_space(c);
    lemma_tidy_spaces(title);
    lemma_tidy_ends(title);
    let a = title.push(':');
    let b = title.push('-');
    let c = title.push(' ').push('-');
    assert(a.drop_last() =~= title);
    assert(b.drop_last() =~= title);
    assert(c.drop_last() =~= title.push(' '));
    assert(title.push(' ').drop_last() =~= title);
    assert(without_trailing(title.push(' '), blank) == without_trailing(title, blank));
    assert(without_trailing(a, blank) == a);
    assert(without_trailing(b, blank) == b);
    assert(without_trailing(c, blank) == c);
}

/// A tidy title in which no mark of a season occurs is the title of its show, letter for letter.
pub proof fn law_unmarked_titles_stay(title: Seq<char>)
    requires
        is_tidy(title),
        replaced(FINAL_SEASON@, title, ""@) == title,
        replaced(SEASON_AND_NUMBER@, title, ""@) == title,
        replaced(LETTER_AND_NUMBER@, title, ""@) == title,
        replaced(NUMBERED_SEASON@, title, ""@) == title,
        replaced(PART_AND_NUMBER@, title, ""@) == title,
        replaced(COUR_AND_NUMBER@, title, ""@) == title,
        replaced(ORDINAL_SEASON@, title, ""@) == title,
    ensures
        show_title(title) == title,
{
    law_tidy_titles_stay(title);
}

/// The marks come off a title by turns: what each turn leaves is what the next one sees, and what
/// the last one leaves is tidied.
pub proof fn law_marks_come_off_by_turns(title: Seq<char>, left: Seq<Seq<char>>)
    requires
        left.len() == 8,
        left[0] == title,
        left[1] == replaced(FINAL_SEASON@, left[0], ""@),
        left[2] == replaced(SEASON_AND_NUMBER@, left[1], ""@),
        left[3] == replaced(LETTER_AND_NUMBER@, left[2], ""@),
        left[4] == replaced(NUMBERED_SEASON@, left[3], ""@),
        left[5] == replaced(PART_AND_NUMBER@, left[4], ""@),
        left[6] == replaced(COUR_AND_NUMBER@, left[5], ""@),
        left[7] == replaced(ORDINAL_SEASON@, left[6], ""@),
    ensures
        show_title(title) == tidied(left[7]),
        is_tidy(left[7]) ==> show_title(title) == left[7],
{
    assert(without_season_marks(title) == left[7]);
    if is_tidy(left[7]) {
        law_tidy_titles_stay(left[7]);
    }
}

/// The first kind of mark that occurs numbers the season: the word and a number, the letter and a
/// number, an ordinal number in digits, an ordinal word. Digits give the number that they write.
pub proof fn law_first_mark_numbers_the_season(title: Seq<char>, digits: Seq<char>)
    ensures
        captured(CAPTURED_SEASON@, title) == Some(Some(digits)) ==> season_number(title)
            == parsed_integer(digits),
        captured(CAPTURED_SEASON@, title) is None && captured(CAPTURED_LETTER@, title) == Some(
            Some(digits),
        ) ==> season_number(title) == parsed_integer(digits),
        captured(CAPTURED_SEASON@, title) is None && captured(CAPTURED_LETTER@, title) is None
            && captured(CAPTURED_ORDINAL@, title) == Some(Some(digits)) ==> season_number(title)
            == parsed_integer(digits),
        captured(CAPTURED_SEASON@, title) is None && captured(CAPTURED_LETTER@, title) is None
            && captured(CAPTURED_ORDINAL@, title) is None && captured(ORDINAL_SEASON@, title)
            == Some(Some(digits)) ==> season_number(title) == ordinal_value(lowercase(digits)),
        captured(CAPTURED_SEASON@, title) is None && captured(CAPTURED_LETTER@, title) is None
            && captured(CAPTURED_ORDINAL@, title) is None && captured(ORDINAL_SEASON@, title)
            is None ==> season_number(title) is None,
{
}

/// Characters other than white space.
pub open spec fn is_letter() -> spec_fn(char) -> bool {
    |c: char| !white_space(c)
}

proof fn lemma_no_letters(s: Seq<char>)
    requires
        forall|k: int| 0 <= k < s.len() ==> white_space(#[trigger] s[k]),
    ensures
        s.filter(is_letter()).len() == 0,
    decreases s.len(),
{
    reveal(Seq::filter);
    if s.len() > 0 {
        assert(white_space(s[s.len() - 1]));
        assert forall|k: int| 0 <= k < s.drop_last().len() implies white_space(
            #[trigger] s.drop_last()[k],
        ) by {
            assert(s.drop_last()[k] == s[k]);
        }
        lemma_no_letters(s.drop_last());
    }
}

proof fn lemma_spacing_keeps_letters(s: Seq<char>)
    ensures
        single_spaced(s).filter(is_letter()) == s.filter(is_letter()),
    decreases s.len(),
{
    reveal(Seq::filter);
    if s.len() > 0 {
        let before = single_spaced(s.drop_last());
        lemma_spacing_keeps_letters(s.drop_last());
        assert(white_space(' '));
        assert(before.push(' ').drop_last() =~= before);
        assert(before.push(s.last()).drop_last() =~= before);
    }
}

proof fn lemma_trimming_keeps_letters(s: Seq<char>)
    ensures
        trimmed(s).filter(is_letter()) == s.filter(is_letter()),
{
    law_trimming_takes_white_space_alone(s);
    let (i, j) = choose|i: int, j: int|
        0 <= i <= j <= s.len() && trimmed(s) == #[trigger] s.subrange(i, j) && (forall|k: int|
            0 <= k < s.len() && (k < i || j <= k) ==> white_space(#[trigger] s[k])) && (i < j
            ==> !white_space(s[i]) && !white_space(s[j - 1]));
    let (a, b, c) = (s.subrange(0, i), s.subrange(i, j), s.subrange(j, s.len() as int));
    assert(s =~= a + b + c);
    assert forall|k: int| 0 <= k < a.len() implies white_space(#[trigger] a[k]) by {
        assert(a[k] == s[k]);
    }
    assert forall|k: int| 0 <= k < c.len() implies white_space(#[trigger] c[k]) by {
        assert(c[k] == s[j + k]);
    }
    lemma_no_letters(a);
    lemma_no_letters(c);
    Seq::filter_distributes_over_add(a + b, c, is_letter());
    Seq::filter_distributes_over_add(a, b, is_letter());
    assert(s.filter(is_letter()) =~= b.filter(is_letter()));
}

proof fn lemma_trailing_gone(s: Seq<char>, tail: Seq<char>)
    requires
        s.len() > 0 ==> !white_space(s.last()),
        forall|k: int| 0 <= k < tail.len() ==> white_space(#[trigger] tail[k]),
    ensures
        without_trailing(s + tail, |c: char| white_space(c)) == s,
    decreases tail.len(),
{
    let all = s + tail;
    if tail.len() > 0 {
        assert(white_space(tail[tail.len() - 1]));
        assert(all.drop_last() =~= s + tail.drop_last());
        assert forall|k: int| 0 <= k < tail.drop_last().len() implies white_space(
            #[trigger] tail.drop_last()[k],
        ) by {
            assert(tail.drop_last()[k] == tail[k]);
        }
        lemma_trailing_gone(s, tail.drop_last());
    } else {
        assert(all =~= s);
    }
}

/// Tidying a title takes no character off it but white space and one colon or dash at its end.
pub proof fn law_tidying_keeps_every_character(title: Seq<char>, tail: Seq<char>)
    requires
        title.len() > 0 ==> !white_space(title.last()),
        forall|k: int| 0 <= k < tail.len() ==> white_space(#[trigger] tail[k]),
    ensures
        tidied(title + tail).filter(is_letter()) == (if title.len() > 0 && (title.last() == ':'
            || title.last() == '-') {
            title.drop_last()
        } else {
            title
        }).filter(is_letter()),
{
    let blank = |c: char| white_space(c);
    let all = title + tail;
    lemma_trailing_gone(title, tail);
    let open = without_closing_mark(all);
    lemma_spacing_keeps_letters(open);
    lemma_trimming_keeps_letters(single_spaced(open));
    lemma_no_letters(tail);
    Seq::filter_distributes_over_add(title, tail, is_letter());
    assert(all.filter(is_letter()) =~= title.filter(is_letter()));
    if title.len() > 0 && (title.last() == ':' || title.last() == '-') {
        let core = title.drop_last();
        let n = lemma_trailing_dropped(core, blank);
        let rest = core.skip(n);
        assert forall|k: int| 0 <= k < rest.len() implies white_space(#[trigger] rest[k]) by {
            assert(rest[k] == core[n + k]);
            assert(blank(core[n + k]));
        }
        lemma_no_letters(rest);
        Seq::filter_distributes_over_add(core.take(n), rest, is_letter());
        assert(core =~= core.take(n) + rest);
        assert(core.filter(is_letter()) =~= core.take(n).filter(is_letter()));
    }
}

} // verus!
