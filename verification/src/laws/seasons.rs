//! The order of seasons and the numbers that they get.

use crate::json::Json;
use crate::laws::law_ties_keep_their_order;
use crate::ordering::{key_before, law_sorting_orders, law_sorting_permutes};
use crate::seasons::{by_season, highest, in_order, lemma_numbering_prefix, numbering};
use crate::text::{lemma_before_total, text_before};
use crate::titles::season_number;
use vstd::prelude::*;

verus! {

/// A season's year for its place among the seasons is a number: the member "season_year", or else
/// "year", or else zero.
pub open spec fn placed_by_year(season: Json, year: int) -> bool {
    match (season.integer_at("season_year"@), season.integer_at("year"@)) {
        (Some(y), _) => year == y,
        (None, Some(y)) => year == y,
        (None, None) => year == 0,
    }
}

/// A season's number for its place among the seasons: the one in its title, or else one.
pub open spec fn placed_by_number(season: Json, number: int) -> bool {
    match season_number(season.text_or_empty("title"@)) {
        Some(n) => number == n,
        None => number == 1,
    }
}

/// Of two seasons, the one with the smaller year stands first; in one year the one whose start date
/// comes first in alphabetical order; on one date the one with the smaller number in its title.
pub proof fn law_seasons_stand_by_year_date_and_number(
    seasons: Seq<Json>,
    i: int,
    j: int,
    years: (int, int),
    numbers: (int, int),
)
    requires
        0 <= i < j < in_order(seasons).len(),
        placed_by_year(in_order(seasons)[i], years.0),
        placed_by_year(in_order(seasons)[j], years.1),
        placed_by_number(in_order(seasons)[i], numbers.0),
        placed_by_number(in_order(seasons)[j], numbers.1),
    ensures
        years.0 <= years.1,
        ({
            let a = in_order(seasons)[i].text_or_empty("start_date"@);
            let b = in_order(seasons)[j].text_or_empty("start_date"@);
            years.0 == years.1 ==> (text_before(a, b) || a == b && numbers.0 <= numbers.1)
        }),
{
    let (a, b) = (in_order(seasons)[i], in_order(seasons)[j]);
    law_sorting_orders(seasons, by_season());
    assert(!key_before(by_season()(b), by_season()(a)));
    lemma_before_total(
        a.text_or_empty("start_date"@),
        b.text_or_empty("start_date"@),
    );
}

/// Seasons of one year, one start date and one number stand in the order in which they are given.
pub proof fn law_like_seasons_keep_their_order(
    seasons: Seq<Json>,
    i: int,
    j: int,
    year: int,
    number: int,
)
    requires
        0 <= i < j < in_order(seasons).len(),
        placed_by_year(in_order(seasons)[i], year),
        placed_by_year(in_order(seasons)[j], year),
        placed_by_number(in_order(seasons)[i], number),
        placed_by_number(in_order(seasons)[j], number),
        in_order(seasons)[i].text_or_empty("start_date"@) == in_order(seasons)[j].text_or_empty(
            "start_date"@,
        ),
    ensures
        exists|a: int, b: int|
            0 <= a < b < seasons.len() && #[trigger] seasons[a] == in_order(seasons)[i]
                && #[trigger] seasons[b] == in_order(seasons)[j],
{
    law_ties_keep_their_order(seasons, by_season(), i, j);
}

/// Putting seasons in order neither adds nor drops nor repeats one.
pub proof fn law_ordering_permutes_seasons(seasons: Seq<Json>)
    ensures
        in_order(seasons).to_multiset() == seasons.to_multiset(),
        in_order(seasons).len() == seasons.len(),
{
    law_sorting_permutes(seasons, by_season());
    law_sorting_orders(seasons, by_season());
}

/// A season whose title holds a number gets that number.
pub proof fn law_numbered_seasons_keep_their_number(ordered: Seq<Json>, i: int)
    requires
        0 <= i < ordered.len(),
        season_number(ordered[i].text_or_empty("title"@)) is Some,
    ensures
        numbering(ordered)[i] == season_number(ordered[i].text_or_empty("title"@))->0,
{
    lemma_numbering_prefix(ordered, i + 1);
    lemma_numbering_prefix(ordered, ordered.len() as int);
    lemma_numbering_prefix(ordered.take(i + 1).drop_last(), i);
    assert(numbering(ordered)[i] == numbering(ordered.take(i + 1))[i]);
    assert(ordered.take(i + 1).last() == ordered[i]);
}

/// A season whose title holds no number is numbered one where it is the first, and else one above
/// an earlier season, as no earlier season has a higher number than that one.
pub proof fn law_other_seasons_get_the_next_number(ordered: Seq<Json>, j: int)
    requires
        0 <= j < ordered.len(),
        season_number(ordered[j].text_or_empty("title"@)) is None,
    ensures
        j == 0 ==> numbering(ordered)[j] == 1,
        forall|i: int| 0 <= i < j ==> #[trigger] numbering(ordered)[i] < numbering(ordered)[j],
        j > 0 ==> exists|i: int|
            0 <= i < j && #[trigger] numbering(ordered)[i] + 1 == numbering(ordered)[j],
{
    lemma_numbering_prefix(ordered, j + 1);
    lemma_numbering_prefix(ordered, j);
    lemma_numbering_prefix(ordered, ordered.len() as int);
    assert(ordered.take(j + 1).drop_last() =~= ordered.take(j));
    let before = numbering(ordered.take(j));
    lemma_numbering_prefix(ordered.take(j), j);
    assert(before == numbering(ordered).take(j));
    assert(ordered.take(j + 1).last() == ordered[j]);
    assert(numbering(ordered)[j] == numbering(ordered.take(j + 1))[j]);
    assert(numbering(ordered)[j] == highest(before) + 1);
    lemma_highest_is_reached(before);
    assert forall|i: int| 0 <= i < j implies #[trigger] numbering(ordered)[i] < numbering(
        ordered,
    )[j] by {
        assert(before[i] == numbering(ordered)[i]);
    }
    if j > 0 {
        let i = choose|i: int| 0 <= i < before.len() && #[trigger] before[i] == highest(before);
        assert(numbering(ordered)[i] == before[i]);
    }
}

proof fn lemma_highest_is_reached(numbers: Seq<int>)
    ensures
        numbers.len() == 0 ==> highest(numbers) == 0,
        numbers.len() > 0 ==> exists|i: int|
            0 <= i < numbers.len() && #[trigger] numbers[i] == highest(numbers),
        forall|i: int| 0 <= i < numbers.len() ==> #[trigger] numbers[i] <= highest(numbers),
    decreases numbers.len(),
{
    if numbers.len() > 0 {
        let shorter = numbers.drop_last();
        lemma_highest_is_reached(shorter);
        assert forall|i: int| 0 <= i < numbers.len() implies #[trigger] numbers[i] <= highest(
            numbers,
        ) by {
            if i < shorter.len() {
                assert(shorter[i] == numbers[i]);
            }
        }
        if highest(numbers) == numbers.last() {
            assert(numbers[numbers.len() - 1] == highest(numbers));
        } else {
            let i = choose|i: int|
                0 <= i < shorter.len() && #[trigger] shorter[i] == highest(shorter);
            assert(numbers[i] == highest(numbers));
        }
    }
}

} // verus!
