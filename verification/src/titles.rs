//! Titles of shows and seasons: what names the show, and what only marks the season.

use crate::decimal::{all_digits, parse_integer, parsed_integer};
use crate::text::{
    ascii_lower, ascii_lowered, held, is_ascii_text, law_trimming_is_final,
    lemma_trimmed_is_inside, lowercase, same_text, to_lower, trim, trimmed, white_space,
    without_trailing,
};
use regex::Regex;
use vstd::prelude::*;

verus! {

/// Marks a last season in words.
pub const FINAL_SEASON: &'static str = r"(?i)\b(?:the\s+)?final\s+season\b";

/// Marks a season by a number after the word.
pub const SEASON_AND_NUMBER: &'static str = r"(?i)\bseason\s+\d+\b";

/// Marks a season by a letter and a number.
pub const LETTER_AND_NUMBER: &'static str = r"(?i)\bs\d+\b";

/// Marks a season by an ordinal number in digits.
pub const NUMBERED_SEASON: &'static str = r"(?i)\b\d+(?:st|nd|rd|th)\s+season\b";

/// Marks a part of a season.
pub const PART_AND_NUMBER: &'static str = r"(?i)\bpart\s+\d+\b";

/// Marks a broadcast quarter of a season.
pub const COUR_AND_NUMBER: &'static str = r"(?i)\bcour\s+\d+\b";

/// Marks a season by an ordinal number in words, and captures the word.
pub const ORDINAL_SEASON: &'static str =
    r"(?i)\b(second|third|fourth|fifth|sixth|seventh|eighth|ninth|tenth)\s+season\b";

/// As `SEASON_AND_NUMBER`, and captures the number.
pub const CAPTURED_SEASON: &'static str = r"(?i)\bseason\s+(\d+)\b";

/// As `LETTER_AND_NUMBER`, and captures the number.
pub const CAPTURED_LETTER: &'static str = r"(?i)\bs(\d+)\b";

/// As `NUMBERED_SEASON`, and captures the number.
pub const CAPTURED_ORDINAL: &'static str = r"(?i)\b(\d+)(?:st|nd|rd|th)\s+season\b";

/// A colon or a dash that ends a text, with the white space around it.
pub const CLOSING_MARK: &'static str = r"\s*[:-]\s*$";

/// A run of white space.
pub const WHITE_SPACE_RUN: &'static str = r"\s+";

/// A run of characters other than lower-case letters and digits.
pub const NON_KEY_RUN: &'static str = r"[^a-z0-9]+";

/// The patterns that are looked for in titles.
pub open spec fn title_pattern(p: Seq<char>) -> bool {
    ||| p == FINAL_SEASON@
    ||| p == SEASON_AND_NUMBER@
    ||| p == LETTER_AND_NUMBER@
    ||| p == NUMBERED_SEASON@
    ||| p == PART_AND_NUMBER@
    ||| p == COUR_AND_NUMBER@
    ||| p == ORDINAL_SEASON@
    ||| p == CAPTURED_SEASON@
    ||| p == CAPTURED_LETTER@
    ||| p == CAPTURED_ORDINAL@
    ||| p == CLOSING_MARK@
    ||| p == WHITE_SPACE_RUN@
    ||| p == NON_KEY_RUN@
}

/// A text in which every match of a pattern gives way to a replacement.
pub uninterp spec fn replaced(
    pattern: Seq<char>,
    text: Seq<char>,
    replacement: Seq<char>,
) -> Seq<char>;

/// What the first group of a pattern captures in its first match: `None` where the pattern does
/// not match, `Some(None)` where the group has no part in the match.
pub uninterp spec fn captured(pattern: Seq<char>, text: Seq<char>) -> Option<Option<Seq<char>>>;

/// A text with each run of white space as one space.
pub open spec fn single_spaced(s: Seq<char>) -> Seq<char>
    decreases s.len(),
{
    if s.len() == 0 {
        s
    } else {
        let before = single_spaced(s.drop_last());
        if !white_space(s.last()) {
            before.push(s.last())
        } else if before.len() > 0 && before.last() == ' ' {
            before
        } else {
            before.push(' ')
        }
    }
}

/// A text without one colon or dash at its end, and without the white space around it.
pub open spec fn without_closing_mark(s: Seq<char>) -> Seq<char> {
    let blank = |c: char| white_space(c);
    let rest = without_trailing(s, blank);
    if rest.len() > 0 && (rest.last() == ':' || rest.last() == '-') {
        without_trailing(rest.drop_last(), blank)
    } else {
        s
    }
}

/// A lower-case letter or a digit.
pub open spec fn key_char(c: char) -> bool {
    'a' <= c <= 'z' || '0' <= c <= '9'
}

/// The lower-case letters and digits of a text.
pub open spec fn key_chars(s: Seq<char>) -> Seq<char> {
    s.filter(|c: char| key_char(c))
}

/// Decimal digits, at least one.
pub open spec fn is_numeral(n: Seq<char>) -> bool {
    n.len() > 0 && all_digits(n)
}

/// What makes an ordinal number of digits.
pub open spec fn ordinal_ending(ending: Seq<char>) -> bool {
    ending == "st"@ || ending == "nd"@ || ending == "rd"@ || ending == "th"@
}

/// The ordinal number that a word stands for, as titles write it.
pub open spec fn word_number(word: Seq<char>) -> Option<i64> {
    if word == "Second"@ {
        Some(2)
    } else if word == "Third"@ {
        Some(3)
    } else if word == "Fourth"@ {
        Some(4)
    } else if word == "Fifth"@ {
        Some(5)
    } else if word == "Sixth"@ {
        Some(6)
    } else if word == "Seventh"@ {
        Some(7)
    } else if word == "Eighth"@ {
        Some(8)
    } else if word == "Ninth"@ {
        Some(9)
    } else if word == "Tenth"@ {
        Some(10)
    } else {
        None
    }
}

/// The marks that can follow a title, to tell a season of the show.
pub enum SeasonMark {
    /// The last season, in words.
    Final,
    /// The word and a number.
    Season(Seq<char>),
    /// The letter and a number.
    Letter(Seq<char>),
    /// An ordinal number, in digits with their ending, and the word.
    Ordinal(Seq<char>, Seq<char>),
    /// A part and its number.
    Part(Seq<char>),
    /// A broadcast quarter and its number.
    Cour(Seq<char>),
    /// An ordinal number in words, and the word.
    Word(Seq<char>),
}

impl SeasonMark {
    /// The numbers are numbers, and the words ordinal numbers.
    pub open spec fn is_proper(self) -> bool {
        match self {
            SeasonMark::Final => true,
            SeasonMark::Season(n) => is_numeral(n),
            SeasonMark::Letter(n) => is_numeral(n),
            SeasonMark::Ordinal(n, ending) => is_numeral(n) && ordinal_ending(ending),
            SeasonMark::Part(n) => is_numeral(n),
            SeasonMark::Cour(n) => is_numeral(n),
            SeasonMark::Word(word) => word_number(word) is Some,
        }
    }

    /// The mark as it follows a title.
    pub open spec fn text(self) -> Seq<char> {
        match self {
            SeasonMark::Final => " The Final Season"@,
            SeasonMark::Season(n) => " Season "@ + n,
            SeasonMark::Letter(n) => " S"@ + n,
            SeasonMark::Ordinal(n, ending) => " "@ + n + ending + " Season"@,
            SeasonMark::Part(n) => " Part "@ + n,
            SeasonMark::Cour(n) => " Cour "@ + n,
            SeasonMark::Word(word) => " "@ + word + " Season"@,
        }
    }

    /// When the mark is looked for.
    pub open spec fn turn(self) -> int {
        match self {
            SeasonMark::Final => 0,
            SeasonMark::Season(_) => 1,
            SeasonMark::Letter(_) => 2,
            SeasonMark::Ordinal(_, _) => 3,
            SeasonMark::Part(_) => 4,
            SeasonMark::Cour(_) => 5,
            SeasonMark::Word(_) => 6,
        }
    }

    /// When the mark is looked for to number a season, the marks without a number last.
    pub open spec fn number_turn(self) -> int {
        match self {
            SeasonMark::Season(_) => 0,
            SeasonMark::Letter(_) => 1,
            SeasonMark::Ordinal(_, _) => 2,
            SeasonMark::Word(_) => 3,
            _ => 4,
        }
    }

    /// The number that the mark gives a season.
    pub open spec fn number(self) -> Option<i64> {
        match self {
            SeasonMark::Season(n) => parsed_integer(n),
            SeasonMark::Letter(n) => parsed_integer(n),
            SeasonMark::Ordinal(n, _) => parsed_integer(n),
            SeasonMark::Word(word) => word_number(word),
            _ => None,
        }
    }

    /// What is captured of the mark at a turn.
    pub open spec fn written(self, turn: int) -> Option<Option<Seq<char>>> {
        match self {
            SeasonMark::Season(n) if turn == 0 => Some(Some(n)),
            SeasonMark::Letter(n) if turn == 1 => Some(Some(n)),
            SeasonMark::Ordinal(n, _) if turn == 2 => Some(Some(n)),
            SeasonMark::Word(word) if turn == 3 => Some(Some(word)),
            _ => None,
        }
    }
}

/// When a pattern is looked for to number a season.
pub open spec fn number_pattern_turn(p: Seq<char>) -> int {
    if p == CAPTURED_SEASON@ {
        0
    } else if p == CAPTURED_LETTER@ {
        1
    } else if p == CAPTURED_ORDINAL@ {
        2
    } else {
        3
    }
}

/// The patterns that number a season.
pub open spec fn number_pattern(p: Seq<char>) -> bool {
    ||| p == CAPTURED_SEASON@
    ||| p == CAPTURED_LETTER@
    ||| p == CAPTURED_ORDINAL@
    ||| p == ORDINAL_SEASON@
}

/// The letter with which the word for a season starts, in whatever case; the long form of the
/// letter counts as the same.
pub open spec fn is_s(c: char) -> bool {
    c == 's' || c == 'S' || c == '\u{17f}'
}

/// A title plainly marks no season at a turn or before: it lacks the letter that every mark has, or
/// it is in ASCII and lacks digits and the turn is one of a mark in digits.
pub open spec fn is_plain(title: Seq<char>, turn: int) -> bool {
    ||| forall|i: int| 0 <= i < title.len() ==> !is_s(#[trigger] title[i])
    ||| turn < 3 && is_ascii_text(title) && forall|i: int|
        0 <= i < title.len() ==> !('0' <= #[trigger] title[i] <= '9')
}

/// What was captured, or else what another part gives.
pub open spec fn first_of(
    group: Option<Option<Seq<char>>>,
    other: Option<Option<Seq<char>>>,
) -> Option<Option<Seq<char>>> {
    if group is Some {
        group
    } else {
        other
    }
}

/// When the mark of a pattern is looked for.
pub open spec fn pattern_turn(p: Seq<char>) -> int {
    if p == FINAL_SEASON@ {
        0
    } else if p == SEASON_AND_NUMBER@ {
        1
    } else if p == LETTER_AND_NUMBER@ {
        2
    } else if p == NUMBERED_SEASON@ {
        3
    } else if p == PART_AND_NUMBER@ {
        4
    } else if p == COUR_AND_NUMBER@ {
        5
    } else {
        6
    }
}

/// The patterns of the marks that are taken off titles.
pub open spec fn mark_pattern(p: Seq<char>) -> bool {
    ||| p == FINAL_SEASON@
    ||| p == SEASON_AND_NUMBER@
    ||| p == LETTER_AND_NUMBER@
    ||| p == NUMBERED_SEASON@
    ||| p == PART_AND_NUMBER@
    ||| p == COUR_AND_NUMBER@
    ||| p == ORDINAL_SEASON@
}

/// A title that is followed by a mark.
pub open spec fn with_mark(title: Seq<char>, mark: SeasonMark) -> Seq<char> {
    title + mark.text()
}

/// A title and a mark are not taken for a last season together.
pub open spec fn fits(title: Seq<char>, mark: SeasonMark) -> bool {
    mark is Season ==> !ends_in_final(title)
}

/// A pattern takes the mark at the end of a text off, all but the space in front of it, where it is
/// the mark's own, and leaves the mark where its turn comes before; the title in front of the mark
/// becomes what it becomes alone.
pub open spec fn takes_off(
    pattern: Seq<char>,
    title: Seq<char>,
    mark: SeasonMark,
    result: Seq<char>,
) -> bool {
    let rest = replaced(pattern, title, ""@);
    if pattern_turn(pattern) < mark.turn() {
        result == with_mark(rest, mark)
    } else {
        result == rest.push(' ')
    }
}

/// A letter, a digit or the low line, in ASCII.
pub open spec fn ascii_word_char(c: char) -> bool {
    'a' <= c <= 'z' || 'A' <= c <= 'Z' || '0' <= c <= '9' || c == '_'
}

/// A title ends in the word "final", in whatever case. So does, by this count, a title in which a
/// letter outside ASCII stands right before these five.
pub open spec fn ends_in_final(title: Seq<char>) -> bool {
    let rest = without_trailing(title, |c: char| white_space(c));
    let at = rest.len() - 5;
    &&& at >= 0
    &&& rest[at] == 'f' || rest[at] == 'F'
    &&& rest[at + 1] == 'i' || rest[at + 1] == 'I'
    &&& rest[at + 2] == 'n' || rest[at + 2] == 'N'
    &&& rest[at + 3] == 'a' || rest[at + 3] == 'A'
    &&& rest[at + 4] == 'l' || rest[at + 4] == 'L'
    &&& !(at > 0 && ascii_word_char(rest[at - 1]))
}

/// Calls `regex::Regex::new` and `regex::Regex::replace_all`. The patterns are well formed, so that
/// `Regex::new` accepts them. The result is stated for the patterns that speak of single
/// characters; for the others it depends on the pattern, the text and the replacement alone. Of
/// these it is stated what becomes of a mark at the end of a title, and of a space there: the
/// matches in the title in front of it are those of the title alone.
#[verifier::external_body]
fn replace_all(pattern: &str, text: &str, replacement: &str) -> (result: String)
    requires
        title_pattern(pattern@),
    ensures
        result@ == replaced(pattern@, text@, replacement@),
        pattern@ == WHITE_SPACE_RUN@ && replacement@ == " "@ ==> result@ == single_spaced(text@),
        pattern@ == CLOSING_MARK@ && replacement@ == ""@ ==> result@ == without_closing_mark(text@),
        pattern@ == NON_KEY_RUN@ && replacement@ == ""@ ==> result@ == key_chars(text@),
        mark_pattern(pattern@) && replacement@ == ""@ ==> forall|t: Seq<char>, m: SeasonMark|
            m.is_proper() && pattern_turn(pattern@) <= m.turn() && (pattern@ == FINAL_SEASON@
                ==> fits(t, m)) && text@ == #[trigger] with_mark(t, m) ==> takes_off(
                pattern@,
                t,
                m,
                result@,
            ),
        mark_pattern(pattern@) && replacement@ == ""@ ==> forall|t: Seq<char>|
            text@ == #[trigger] t.push(' ') ==> result@ == replaced(pattern@, t, ""@).push(' '),
{
    Regex::new(pattern).unwrap().replace_all(text, replacement).into_owned()
}

/// What a captured group holds.
pub open spec fn held_group(group: Option<Option<String>>) -> Option<Option<Seq<char>>> {
    match group {
        Some(group) => Some(held(group)),
        None => None,
    }
}

/// Calls `regex::Regex::new`, `regex::Regex::captures` and `regex::Captures::get`. What is captured
/// depends on the pattern and the text alone. Of a title with a mark at its end it is stated what
/// the patterns whose turn comes no later than the mark's capture: what they capture in the title
/// alone, or else the number of the mark where it is theirs. In a title that lacks the letters or
/// digits that a pattern asks for, nothing is captured.
#[verifier::external_body]
fn capture(pattern: &str, text: &str) -> (group: Option<Option<String>>)
    requires
        title_pattern(pattern@),
    ensures
        held_group(group) == captured(pattern@, text@),
        number_pattern(pattern@) ==> forall|t: Seq<char>, m: SeasonMark|
            m.is_proper() && number_pattern_turn(pattern@) <= m.number_turn() && text@
                == #[trigger] with_mark(t, m) ==> held_group(group) == first_of(
                captured(pattern@, t),
                m.written(number_pattern_turn(pattern@)),
            ) && (is_plain(t, number_pattern_turn(pattern@)) ==> held_group(group) == m.written(
                number_pattern_turn(pattern@),
            )),
        number_pattern(pattern@) && is_plain(text@, number_pattern_turn(pattern@)) ==> held_group(
            group,
        ) is None,
{
    let found = Regex::new(pattern).unwrap();
    found.captures(text).map(|caps| caps.get(1).map(|group| group.as_str().to_string()))
}

/// A title without the words that mark a season.
pub open spec fn without_season_marks(title: Seq<char>) -> Seq<char> {
    let a = replaced(FINAL_SEASON@, title, ""@);
    let b = replaced(SEASON_AND_NUMBER@, a, ""@);
    let c = replaced(LETTER_AND_NUMBER@, b, ""@);
    let d = replaced(NUMBERED_SEASON@, c, ""@);
    let e = replaced(PART_AND_NUMBER@, d, ""@);
    let f = replaced(COUR_AND_NUMBER@, e, ""@);
    replaced(ORDINAL_SEASON@, f, ""@)
}

/// A title without a closing colon or dash, its words one space apart.
pub open spec fn tidied(title: Seq<char>) -> Seq<char> {
    trimmed(single_spaced(without_closing_mark(title)))
}

/// The title of the show that a season belongs to.
pub open spec fn show_title(title: Seq<char>) -> Seq<char> {
    tidied(without_season_marks(title))
}

/// What the titles of all seasons of a show have in common.
pub open spec fn title_key(title: Seq<char>) -> Seq<char> {
    key_chars(lowercase(show_title(title)))
}

/// Takes a closing colon or dash off a title and sets its words one space apart.
pub fn tidy_title(title: &str) -> (tidy: String)
    ensures
        tidy@ == tidied(title@),
{
    let open = replace_all(CLOSING_MARK, title, "");
    let spaced = replace_all(WHITE_SPACE_RUN, open.as_str(), " ");
    trim(spaced.as_str()).to_owned()
}

/// The title of the show that a season belongs to: the title of the season without the words that
/// mark it.
///
/// A mark behind the title makes no difference, but for the word and a number behind a title that
/// ends in "final", which makes it the last season.
pub fn base_show_title(title: &str) -> (base: String)
    ensures
        base@ == show_title(title@),
        forall|t: Seq<char>, m: SeasonMark|
            m.is_proper() && fits(t, m) && title@ == #[trigger] with_mark(t, m) ==> base@
                == show_title(t),
{
    let a = replace_all(FINAL_SEASON, title, "");
    let b = replace_all(SEASON_AND_NUMBER, a.as_str(), "");
    let c = replace_all(LETTER_AND_NUMBER, b.as_str(), "");
    let d = replace_all(NUMBERED_SEASON, c.as_str(), "");
    let e = replace_all(PART_AND_NUMBER, d.as_str(), "");
    let f = replace_all(COUR_AND_NUMBER, e.as_str(), "");
    let g = replace_all(ORDINAL_SEASON, f.as_str(), "");
    proof {
        assert forall|t: Seq<char>, m: SeasonMark|
            m.is_proper() && fits(t, m) && title@ == #[trigger] with_mark(t, m) implies tidied(g@)
            == show_title(t) by {
            lemma_patterns_differ();
            assert(takes_off(FINAL_SEASON@, t, m, a@));
            lemma_closing_space(without_season_marks(t));
        }
    }
    tidy_title(g.as_str())
}

/// The letters and digits by which the seasons of a show are recognised.
pub fn normalize_title_key(title: &str) -> (key: String)
    ensures
        key@ == title_key(title@),
        forall|t: Seq<char>, m: SeasonMark|
            m.is_proper() && fits(t, m) && title@ == #[trigger] with_mark(t, m) ==> key@
                == title_key(t),
{
    replace_all(NON_KEY_RUN, to_lower(base_show_title(title).as_str()).as_str(), "")
}

/// The patterns of the marks are looked for at different turns.
proof fn lemma_patterns_differ()
    ensures
        pattern_turn(SEASON_AND_NUMBER@) == 1,
        pattern_turn(LETTER_AND_NUMBER@) == 2,
        pattern_turn(NUMBERED_SEASON@) == 3,
        pattern_turn(PART_AND_NUMBER@) == 4,
        pattern_turn(COUR_AND_NUMBER@) == 5,
        pattern_turn(ORDINAL_SEASON@) == 6,
{
    reveal_strlit(r"(?i)\b(?:the\s+)?final\s+season\b");
    reveal_strlit(r"(?i)\bseason\s+\d+\b");
    reveal_strlit(r"(?i)\bs\d+\b");
    reveal_strlit(r"(?i)\b\d+(?:st|nd|rd|th)\s+season\b");
    reveal_strlit(r"(?i)\bpart\s+\d+\b");
    reveal_strlit(r"(?i)\bcour\s+\d+\b");
    reveal_strlit(
        r"(?i)\b(second|third|fourth|fifth|sixth|seventh|eighth|ninth|tenth)\s+season\b",
    );
    assert(PART_AND_NUMBER@[6] == 'p');
    assert(COUR_AND_NUMBER@[6] == 'c');
    assert(SEASON_AND_NUMBER@[7] == 'e');
    assert(LETTER_AND_NUMBER@[6] == 's');
    assert(LETTER_AND_NUMBER@[7] == '\\');
    assert(FINAL_SEASON@[6] == '(');
    assert(FINAL_SEASON@[7] == '?');
    assert(ORDINAL_SEASON@[6] == '(');
    assert(ORDINAL_SEASON@[7] == 's');
    assert(NUMBERED_SEASON@[6] == '\\');
}

/// A space at the end of a title is gone once the title is tidied.
proof fn lemma_closing_space(s: Seq<char>)
    ensures
        tidied(s.push(' ')) == tidied(s),
{
    let blank = |c: char| white_space(c);
    assert(s.push(' ').drop_last() =~= s);
    let rest = without_trailing(s, blank);
    assert(without_trailing(s.push(' '), blank) == rest);
    if !(rest.len() > 0 && (rest.last() == ':' || rest.last() == '-')) {
        let spaced = single_spaced(s);
        if !(spaced.len() > 0 && spaced.last() == ' ') {
            lemma_trimmed_space(spaced);
        }
    }
}

proof fn lemma_trimmed_space(s: Seq<char>)
    ensures
        trimmed(s.push(' ')) == trimmed(s),
    decreases s.len(),
{
    assert(s.push(' ').drop_last() =~= s);
    if s.len() == 0 {
        assert(s.push(' ').skip(1) =~= s);
    } else if white_space(s[0]) {
        assert(s.push(' ').skip(1) =~= s.skip(1).push(' '));
        lemma_trimmed_space(s.skip(1));
    }
}

/// The number that an ordinal word stands for.
pub open spec fn ordinal_value(word: Seq<char>) -> Option<i64> {
    if word == "second"@ {
        Some(2)
    } else if word == "third"@ {
        Some(3)
    } else if word == "fourth"@ {
        Some(4)
    } else if word == "fifth"@ {
        Some(5)
    } else if word == "sixth"@ {
        Some(6)
    } else if word == "seventh"@ {
        Some(7)
    } else if word == "eighth"@ {
        Some(8)
    } else if word == "ninth"@ {
        Some(9)
    } else if word == "tenth"@ {
        Some(10)
    } else {
        None
    }
}

/// The number that an ordinal word in lower case stands for.
pub fn ordinal_number(word: &str) -> (number: Option<i64>)
    ensures
        number == ordinal_value(word@),
{
    if same_text(word, "second") {
        Some(2)
    } else if same_text(word, "third") {
        Some(3)
    } else if same_text(word, "fourth") {
        Some(4)
    } else if same_text(word, "fifth") {
        Some(5)
    } else if same_text(word, "sixth") {
        Some(6)
    } else if same_text(word, "seventh") {
        Some(7)
    } else if same_text(word, "eighth") {
        Some(8)
    } else if same_text(word, "ninth") {
        Some(9)
    } else if same_text(word, "tenth") {
        Some(10)
    } else {
        None
    }
}

/// The number that captured digits stand for.
pub open spec fn captured_number(group: Option<Seq<char>>) -> Option<i64> {
    match group {
        Some(digits) => parsed_integer(digits),
        None => None,
    }
}

/// The number that marks of a season give, by what was captured of each: of a number after the
/// word, of a number after the letter, of an ordinal number in digits, of an ordinal word in lower
/// case.
/// The first mark that occurs decides, also where its number is out of range.
pub open spec fn marked(
    season: Option<Option<Seq<char>>>,
    letter: Option<Option<Seq<char>>>,
    ordinal: Option<Option<Seq<char>>>,
    word: Option<Option<Seq<char>>>,
) -> Option<i64> {
    match (season, letter, ordinal, word) {
        (Some(group), _, _, _) => captured_number(group),
        (None, Some(group), _, _) => captured_number(group),
        (None, None, Some(group), _) => captured_number(group),
        (None, None, None, Some(Some(word))) => ordinal_value(word),
        _ => None,
    }
}

/// What was captured, in lower case.
pub open spec fn lowered(group: Option<Option<Seq<char>>>) -> Option<Option<Seq<char>>> {
    match group {
        Some(Some(word)) => Some(Some(lowercase(word))),
        _ => group,
    }
}

/// The number of the season that a title marks.
pub open spec fn season_number(title: Seq<char>) -> Option<i64> {
    marked(
        captured(CAPTURED_SEASON@, title),
        captured(CAPTURED_LETTER@, title),
        captured(CAPTURED_ORDINAL@, title),
        lowered(captured(ORDINAL_SEASON@, title)),
    )
}

/// Reads the number in what a pattern captured.
fn number_in(group: &Option<String>) -> (number: Option<i64>)
    ensures
        number == captured_number(held(*group)),
{
    match group {
        Some(digits) => parse_integer(digits.as_str()),
        None => None,
    }
}

/// The number that marks of a season give, by what was captured of each, the word in lower case.
pub fn marked_number(
    season: &Option<Option<String>>,
    letter: &Option<Option<String>>,
    ordinal: &Option<Option<String>>,
    word: &Option<Option<String>>,
) -> (number: Option<i64>)
    ensures
        number == marked(
            held_group(*season),
            held_group(*letter),
            held_group(*ordinal),
            held_group(*word),
        ),
{
    if let Some(group) = season {
        return number_in(group);
    }
    if let Some(group) = letter {
        return number_in(group);
    }
    if let Some(group) = ordinal {
        return number_in(group);
    }
    match word {
        Some(Some(word)) => ordinal_number(word.as_str()),
        _ => None,
    }
}

/// The number of the season that a title with a mark at its end marks: the mark counts at its turn,
/// unless the title marks a season before.
pub open spec fn number_with_mark(title: Seq<char>, mark: SeasonMark) -> Option<i64> {
    marked(
        first_of(captured(CAPTURED_SEASON@, title), mark.written(0)),
        first_of(captured(CAPTURED_LETTER@, title), mark.written(1)),
        first_of(captured(CAPTURED_ORDINAL@, title), mark.written(2)),
        lowered(first_of(captured(ORDINAL_SEASON@, title), mark.written(3))),
    )
}

/// A title marks no season by a number.
pub open spec fn is_unmarked(title: Seq<char>) -> bool {
    &&& captured(CAPTURED_SEASON@, title) is None
    &&& captured(CAPTURED_LETTER@, title) is None
    &&& captured(CAPTURED_ORDINAL@, title) is None
    &&& captured(ORDINAL_SEASON@, title) is None
}

/// The number of the season that a title marks, if it marks one.
///
/// Where a mark stands at its end, and none before, it is the number of that mark. A title without
/// an S marks no season.
pub fn season_number_of(title: &str) -> (number: Option<i64>)
    ensures
        number == season_number(title@),
        forall|t: Seq<char>, m: SeasonMark|
            m.is_proper() && title@ == #[trigger] with_mark(t, m) ==> number == number_with_mark(
                t,
                m,
            ) && (is_unmarked(t) || is_plain(t, m.number_turn()) ==> number == m.number()),
        is_plain(title@, 3) ==> number is None,
{
    let season = capture(CAPTURED_SEASON, title);
    let letter = capture(CAPTURED_LETTER, title);
    let ordinal = capture(CAPTURED_ORDINAL, title);
    let word = match capture(ORDINAL_SEASON, title) {
        Some(Some(word)) => {
            proof {
                lemma_ordinal_word(word@);
            }
            Some(Some(to_lower(word.as_str())))
        },
        other => other,
    };
    proof {
        lemma_number_patterns_differ();
    }
    marked_number(&season, &letter, &ordinal, &word)
}

/// The patterns that number a season are looked for at different turns.
proof fn lemma_number_patterns_differ()
    ensures
        number_pattern_turn(CAPTURED_LETTER@) == 1,
        number_pattern_turn(CAPTURED_ORDINAL@) == 2,
        number_pattern_turn(ORDINAL_SEASON@) == 3,
{
    reveal_strlit(r"(?i)\bseason\s+(\d+)\b");
    reveal_strlit(r"(?i)\bs(\d+)\b");
    reveal_strlit(r"(?i)\b(\d+)(?:st|nd|rd|th)\s+season\b");
    reveal_strlit(
        r"(?i)\b(second|third|fourth|fifth|sixth|seventh|eighth|ninth|tenth)\s+season\b",
    );
    assert(CAPTURED_SEASON@[7] == 'e');
    assert(CAPTURED_LETTER@[7] == '(');
    assert(CAPTURED_LETTER@[6] == 's');
    assert(CAPTURED_ORDINAL@[6] == '(');
    assert(CAPTURED_ORDINAL@[7] == '\\');
    assert(ORDINAL_SEASON@[6] == '(');
    assert(ORDINAL_SEASON@[7] == 's');
}

/// An ordinal word stands for one number, in lower case too.
proof fn lemma_ordinal_word(word: Seq<char>)
    ensures
        word_number(word) is Some ==> is_ascii_text(word) && ordinal_value(ascii_lowered(word))
            == word_number(word),
{
    reveal_strlit("Second");
    reveal_strlit("Third");
    reveal_strlit("Fourth");
    reveal_strlit("Fifth");
    reveal_strlit("Sixth");
    reveal_strlit("Seventh");
    reveal_strlit("Eighth");
    reveal_strlit("Ninth");
    reveal_strlit("Tenth");
    reveal_strlit("second");
    reveal_strlit("third");
    reveal_strlit("fourth");
    reveal_strlit("fifth");
    reveal_strlit("sixth");
    reveal_strlit("seventh");
    reveal_strlit("eighth");
    reveal_strlit("ninth");
    reveal_strlit("tenth");
    let low = ascii_lowered(word);
    if word == "Second"@ {
        assert(low =~= "second"@);
    } else if word == "Third"@ {
        assert(low =~= "third"@);
    } else if word == "Fourth"@ {
        assert(low =~= "fourth"@);
    } else if word == "Fifth"@ {
        assert(low =~= "fifth"@);
    } else if word == "Sixth"@ {
        assert(low =~= "sixth"@);
    } else if word == "Seventh"@ {
        assert(low =~= "seventh"@);
    } else if word == "Eighth"@ {
        assert(low =~= "eighth"@);
    } else if word == "Ninth"@ {
        assert(low =~= "ninth"@);
    } else if word == "Tenth"@ {
        assert(low =~= "tenth"@);
    }
    if low.len() > 1 {
        assert(low[0] == ascii_lower(word[0]));
        assert(low[1] == ascii_lower(word[1]));
    }
}

/// The key of a title holds lower-case letters and digits alone.
pub proof fn law_title_keys_are_plain(title: Seq<char>, i: int)
    requires
        0 <= i < title_key(title).len(),
    ensures
        key_char(title_key(title)[i]),
{
    lowercase(show_title(title)).lemma_filter_pred(|c: char| key_char(c), i);
}

/// White space stands alone and is a space.
pub open spec fn is_single_spaced(s: Seq<char>) -> bool {
    &&& forall|i: int| 0 <= i < s.len() && white_space(#[trigger] s[i]) ==> s[i] == ' '
    &&& forall|i: int, j: int|
        0 <= i && j == i + 1 && j < s.len() && white_space(#[trigger] s[i]) ==> !white_space(
            #[trigger] s[j],
        )
}

proof fn lemma_single_spaced(s: Seq<char>)
    ensures
        is_single_spaced(single_spaced(s)),
    decreases s.len(),
{
    if s.len() > 0 {
        lemma_single_spaced(s.drop_last());
        let before = single_spaced(s.drop_last());
        let all = single_spaced(s);
        assert forall|i: int, j: int|
            0 <= i && j == i + 1 && j < all.len() && white_space(#[trigger] all[i]) implies
            !white_space(#[trigger] all[j]) by {
            assert(before[i] == all[i]);
            if j < before.len() {
                assert(before[j] == all[j]);
            }
        }
    }
}

/// The title of a show has no white space at its ends, and one space between its words.
pub proof fn law_show_titles_are_tidy(title: Seq<char>)
    ensures
        trimmed(show_title(title)) == show_title(title),
        is_single_spaced(show_title(title)),
{
    let spaced = single_spaced(without_closing_mark(without_season_marks(title)));
    let tidy = show_title(title);
    law_trimming_is_final(spaced);
    lemma_single_spaced(without_closing_mark(without_season_marks(title)));
    lemma_trimmed_is_inside(spaced);
    let k = choose|k: int|
        0 <= k && k + tidy.len() <= spaced.len() && tidy == #[trigger] spaced.subrange(
            k,
            k + tidy.len(),
        );
    assert forall|i: int| 0 <= i < tidy.len() && white_space(#[trigger] tidy[i]) implies tidy[i]
        == ' ' by {
        assert(tidy[i] == spaced[k + i]);
    }
    assert forall|i: int, j: int|
        0 <= i && j == i + 1 && j < tidy.len() && white_space(#[trigger] tidy[i]) implies
        !white_space(#[trigger] tidy[j]) by {
        assert(tidy[i] == spaced[k + i]);
        assert(tidy[j] == spaced[k + j]);
    }
}

} // verus!
