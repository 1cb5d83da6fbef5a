//! The seasons of a show: their order, and the numbers that they are given.

use crate::json::{int_field, lemma_models, models, string_or_empty, Json, Value};
use crate::models::AnimeMetadata;
use crate::ordering::{
    key_before, law_sorting_keeps_order, law_sorting_orders, lemma_sorted_positions, sorted_by,
    sorted_positions, KeyModel, SortKey,
};
use crate::titles::{season_number, season_number_of};
use vstd::prelude::*;

verus! {

/// The year by which a season is sorted.
pub open spec fn sort_year(season: Json) -> int {
    match season.integer_at("season_year"@) {
        Some(year) => year as int,
        None => match season.integer_at("year"@) {
            Some(year) => year as int,
            None => 0,
        },
    }
}

/// The season number of a title, or the first.
pub open spec fn number_or_first(title: Seq<char>) -> int {
    match season_number(title) {
        Some(n) => n as int,
        None => 1,
    }
}

/// What seasons are sorted by: the year, the day of the start, the number in the title.
pub open spec fn season_key(season: Json) -> KeyModel {
    KeyModel {
        major: sort_year(season),
        minor: 0,
        text: season.text_or_empty("start_date"@),
        last: number_or_first(season.text_or_empty("title"@)),
    }
}

/// The sort key as a function.
pub open spec fn by_season() -> spec_fn(Json) -> KeyModel {
    |season: Json| season_key(season)
}

/// Seasons in the order in which they were shown.
pub open spec fn in_order(seasons: Seq<Json>) -> Seq<Json> {
    sorted_by(seasons, by_season())
}

/// The number that a title gives its season, or the first.
pub(crate) fn title_number_or_first(title: &str) -> (number: i64)
    ensures
        number == number_or_first(title@),
{
    match season_number_of(title) {
        Some(n) => n,
        None => 1,
    }
}

fn metadata_sort_key(item: &Value) -> (key: SortKey)
    ensures
        key@ == season_key(item@),
{
    let year = match int_field(item, "season_year") {
        Some(year) => year,
        None => match int_field(item, "year") {
            Some(year) => year,
            None => 0,
        },
    };
    SortKey {
        major: year,
        minor: 0,
        text: string_or_empty(item, "start_date").to_owned(),
        last: title_number_or_first(string_or_empty(item, "title")),
    }
}

/// Puts seasons in the order in which they were shown: by year, by the day of the start, by the
/// number in the title.
pub fn sorted_seasons(seasons: &[AnimeMetadata]) -> (ordered: Vec<AnimeMetadata>)
    ensures
        models(ordered@) == in_order(models(seasons@)),
        ordered@.len() == seasons@.len(),
{
    let ghost documents = models(seasons@);
    proof {
        lemma_models(seasons@);
    }
    let mut keys: Vec<SortKey> = Vec::new();
    let mut i: usize = 0;
    while i < seasons.len()
        invariant
            documents == models(seasons@),
            i <= seasons@.len(),
            keys@.len() == i,
            forall|k: int| 0 <= k < i ==> (#[trigger] keys@[k])@ == season_key(documents[k]),
        decreases seasons@.len() - i,
    {
        proof {
            lemma_models(seasons@);
        }
        keys.push(metadata_sort_key(&seasons[i]));
        i = i + 1;
    }
    let ghost key = |k: usize| by_season()(documents[k as int]);
    let order = sorted_positions(&keys, Ghost(key));
    let mut ordered: Vec<Value> = Vec::new();
    let mut k: usize = 0;
    while k < order.len()
        invariant
            documents == models(seasons@),
            k <= order@.len(),
            ordered@.len() == k,
            forall|j: int| 0 <= j < order@.len() ==> #[trigger] order@[j] < seasons@.len(),
            forall|j: int|
                0 <= j < k ==> (#[trigger] ordered@[j])@ == documents[order@[j] as int],
        decreases order@.len() - k,
    {
        proof {
            lemma_models(seasons@);
        }
        ordered.push(seasons[order[k]].clone());
        k = k + 1;
    }
    proof {
        lemma_sorted_positions(documents, by_season());
        lemma_models(ordered@);
        assert(models(ordered@) =~= order@.map_values(|i: usize| documents[i as int]));
    }
    ordered
}

/// The highest of some numbers, or zero where there are none.
pub open spec fn highest(numbers: Seq<int>) -> int
    decreases numbers.len(),
{
    if numbers.len() == 0 {
        0
    } else if numbers.len() == 1 || numbers.last() >= highest(numbers.drop_last()) {
        numbers.last()
    } else {
        highest(numbers.drop_last())
    }
}

/// The numbers of seasons that stand in order: the one in the title, or else the one after the
/// highest that an earlier season has.
pub open spec fn numbering(ordered: Seq<Json>) -> Seq<int>
    decreases ordered.len(),
{
    if ordered.len() == 0 {
        Seq::empty()
    } else {
        let before = numbering(ordered.drop_last());
        before.push(
            match season_number(ordered.last().text_or_empty("title"@)) {
                Some(n) => n as int,
                None => highest(before) + 1,
            },
        )
    }
}

/// Every season in order has a number within range.
pub open spec fn numbering_fits(ordered: Seq<Json>) -> bool {
    forall|i: int| 0 <= i < ordered.len() ==> #[trigger] numbering(ordered)[i] <= i64::MAX
}

/// The numbers of a sequence, without a bound.
pub open spec fn unbounded(numbers: Seq<i64>) -> Seq<int> {
    numbers.map_values(|n: i64| n as int)
}

/// The number after the highest that is taken, where there is one.
fn next_later_season_number(used: &Vec<i64>) -> (next: Option<i64>)
    ensures
        match next {
            Some(n) => n == highest(unbounded(used@)) + 1,
            None => highest(unbounded(used@)) == i64::MAX,
        },
{
    let ghost all = unbounded(used@);
    let mut top: i64 = 0;
    let mut i: usize = 0;
    while i < used.len()
        invariant
            all == unbounded(used@),
            i <= used@.len(),
            top == highest(all.take(i as int)),
        decreases used@.len() - i,
    {
        assert(all.take(i + 1).drop_last() =~= all.take(i as int));
        if i == 0 || used[i] >= top {
            top = used[i];
        }
        i = i + 1;
    }
    assert(all.take(i as int) =~= all);
    if top == i64::MAX {
        None
    } else {
        Some(top + 1)
    }
}

/// Gives seasons that stand in order their numbers, unless one falls out of range.
pub fn number_seasons(ordered: &Vec<Value>) -> (numbers: Option<Vec<i64>>)
    ensures
        numbers is Some == numbering_fits(models(ordered@)),
        numbers matches Some(n) ==> unbounded(n@) == numbering(models(ordered@)) && n@.len()
            == ordered@.len(),
{
    let ghost documents = models(ordered@);
    let mut numbers: Vec<i64> = Vec::new();
    let mut i: usize = 0;
    assert(unbounded(numbers@) =~= numbering(documents.take(0)));
    while i < ordered.len()
        invariant
            documents == models(ordered@),
            i <= ordered@.len(),
            numbers@.len() == i,
            unbounded(numbers@) == numbering(documents.take(i as int)),
        decreases ordered@.len() - i,
    {
        proof {
            lemma_models(ordered@);
            assert(documents.take(i + 1).drop_last() =~= documents.take(i as int));
            lemma_numbering_prefix(documents, i + 1);
        }
        let title = string_or_empty(&ordered[i], "title");
        let number = match season_number_of(title) {
            Some(n) => n,
            None => match next_later_season_number(&numbers) {
                Some(n) => n,
                None => {
                    proof {
                        let through = numbering(documents.take(i + 1));
                        lemma_numbering_prefix(documents.take(i as int), i as int);
                        assert(through[i as int] == highest(unbounded(numbers@)) + 1);
                        assert(numbering(documents)[i as int] == through[i as int]);
                    }
                    return None;
                },
            },
        };
        let ghost before = numbers@;
        numbers.push(number);
        assert(unbounded(numbers@) =~= unbounded(before).push(number as int));
        i = i + 1;
    }
    proof {
        lemma_models(ordered@);
        assert(documents.take(i as int) =~= documents);
        assert forall|k: int| 0 <= k < documents.len() implies #[trigger] numbering(documents)[k]
            <= i64::MAX by {
            assert(unbounded(numbers@)[k] == numbers@[k]);
        }
    }
    Some(numbers)
}

/// The number of a season depends on the seasons before it alone.
pub proof fn lemma_numbering_prefix(ordered: Seq<Json>, k: int)
    requires
        0 <= k <= ordered.len(),
    ensures
        numbering(ordered.take(k)) == numbering(ordered).take(k),
        numbering(ordered).len() == ordered.len(),
    decreases ordered.len(),
{
    if ordered.len() == 0 {
        assert(ordered.take(k) =~= ordered);
        assert(numbering(ordered).take(k) =~= numbering(ordered));
    } else {
        let shorter = ordered.drop_last();
        lemma_numbering_prefix(shorter, shorter.len() as int);
        if k == ordered.len() {
            assert(ordered.take(k) =~= ordered);
            assert(numbering(ordered).take(k) =~= numbering(ordered));
        } else {
            lemma_numbering_prefix(shorter, k);
            assert(shorter.take(k) =~= ordered.take(k));
            assert(numbering(ordered).take(k) =~= numbering(shorter).take(k));
        }
    }
}

/// The highest number is at least each of the numbers.
proof fn lemma_highest(numbers: Seq<int>, i: int)
    requires
        0 <= i < numbers.len(),
    ensures
        numbers[i] <= highest(numbers),
    decreases numbers.len(),
{
    if i < numbers.len() - 1 {
        lemma_highest(numbers.drop_last(), i);
    }
}

/// A season without a number in its title is numbered after every earlier season.
pub proof fn law_unnumbered_season_comes_after(ordered: Seq<Json>, i: int, j: int)
    requires
        0 <= i < j < ordered.len(),
        season_number(ordered[j].text_or_empty("title"@)) is None,
    ensures
        numbering(ordered)[i] < numbering(ordered)[j],
{
    lemma_numbering_prefix(ordered, j + 1);
    lemma_numbering_prefix(ordered, j);
    assert(ordered.take(j + 1).drop_last() =~= ordered.take(j));
    let before = numbering(ordered.take(j));
    assert(before == numbering(ordered).take(j));
    assert(numbering(ordered)[j] == numbering(ordered.take(j + 1))[j]);
    lemma_highest(before, i);
}

/// Seasons whose titles hold no number are counted from one.
pub proof fn law_unnumbered_seasons_are_counted(ordered: Seq<Json>)
    requires
        forall|i: int|
            0 <= i < ordered.len() ==> season_number(
                (#[trigger] ordered[i]).text_or_empty("title"@),
            ) is None,
    ensures
        numbering(ordered).len() == ordered.len(),
        forall|i: int| 0 <= i < ordered.len() ==> #[trigger] numbering(ordered)[i] == i + 1,
        highest(numbering(ordered)) == ordered.len(),
    decreases ordered.len(),
{
    if ordered.len() > 0 {
        let shorter = ordered.drop_last();
        assert forall|i: int| 0 <= i < shorter.len() implies season_number(
            (#[trigger] shorter[i]).text_or_empty("title"@),
        ) is None by {
            assert(shorter[i] == ordered[i]);
        }
        law_unnumbered_seasons_are_counted(shorter);
        assert(ordered.last() == ordered[ordered.len() - 1]);
        assert(numbering(ordered).drop_last() =~= numbering(shorter));
    }
}

/// Seasons in order stand by their years, and putting them in order again changes nothing.
pub proof fn law_seasons_stand_by_year(seasons: Seq<Json>)
    ensures
        in_order(in_order(seasons)) == in_order(seasons),
        in_order(seasons).len() == seasons.len(),
        forall|i: int, j: int|
            0 <= i < j < in_order(seasons).len() ==> sort_year(#[trigger] in_order(seasons)[i])
                <= sort_year(#[trigger] in_order(seasons)[j]),
{
    law_sorting_orders(seasons, by_season());
    law_sorting_keeps_order(in_order(seasons), by_season());
    assert forall|i: int, j: int| 0 <= i < j < in_order(seasons).len() implies sort_year(
        #[trigger] in_order(seasons)[i],
    ) <= sort_year(#[trigger] in_order(seasons)[j]) by {
        assert(!key_before(by_season()(in_order(seasons)[j]), by_season()(in_order(seasons)[i])));
    }
}

} // verus!
