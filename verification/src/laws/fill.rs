//! Which dates and pictures are filled in.

use crate::dates::{date_text, days_later, leading_date, midnight_text, year_text, CalendarDate};
use crate::fill::{
    all_images, answers, artwork, chosen_image, dating, first_image, image_row,
    image_rows, picturing, season_artwork, season_images, season_start,
    show_artwork, with_episodes, ImageRow, LookupModel,
};
use crate::json::Json;
use crate::laws::{lemma_picks_last, lemma_picks_nothing, picked_at, picks};
use crate::seasons::{in_order, lemma_numbering_prefix, numbering};
use crate::titles::{key_char, law_title_keys_are_plain, title_key};
use vstd::prelude::*;

verus! {

/// A member is set in a document that was an object, and nothing else is changed.
pub open spec fn only_sets(before: Json, after: Json, key: Seq<char>, text: Seq<char>) -> bool {
    &&& after is Fields
    &&& after.field(key) == Some(Json::Text(text))
    &&& forall|other: Seq<char>| other != key ==> #[trigger] after.field(other) == before.field(
        other,
    )
}

/// A member holds a text that is not empty.
pub open spec fn already_has(episode: Json, key: Seq<char>) -> bool {
    episode.field(key) matches Some(Json::Text(text)) && text.len() > 0
}

/// A season starts on a date, by what it says, and has a number.
pub open spec fn starts_on(
    ordered: Seq<Json>,
    i: int,
    number: int,
    start: CalendarDate,
) -> bool {
    &&& 0 <= i < ordered.len()
    &&& numbering(ordered)[i] == number
    &&& leading_date(ordered[i].text_at("start_date"@)) == Some(start)
}

proof fn lemma_season_start(ordered: Seq<Json>, numbers: Seq<int>, number: int, i: int)
    requires
        ordered.len() == numbers.len(),
        0 <= i < ordered.len(),
        numbers[i] == number,
        leading_date(ordered[i].text_at("start_date"@)) is Some,
        forall|j: int|
            i < j < ordered.len() && #[trigger] numbers[j] == number ==> leading_date(
                ordered[j].text_at("start_date"@),
            ) is None,
    ensures
        season_start(ordered, numbers, number) == leading_date(
            ordered[i].text_at("start_date"@),
        ),
    decreases ordered.len(),
{
    if i < ordered.len() - 1 {
        let (a, b) = (ordered.drop_last(), numbers.drop_last());
        assert(numbers[ordered.len() - 1] == numbers.last());
        assert forall|j: int|
            i < j < a.len() && #[trigger] b[j] == number implies leading_date(
            a[j].text_at("start_date"@),
        ) is None by {
            assert(b[j] == numbers[j] && a[j] == ordered[j]);
        }
        lemma_season_start(a, b, number, i);
    }
}

proof fn lemma_no_season_start(ordered: Seq<Json>, numbers: Seq<int>, number: int)
    requires
        ordered.len() == numbers.len(),
        forall|j: int|
            0 <= j < ordered.len() && #[trigger] numbers[j] == number ==> leading_date(
                ordered[j].text_at("start_date"@),
            ) is None,
    ensures
        season_start(ordered, numbers, number) is None,
    decreases ordered.len(),
{
    if ordered.len() > 0 {
        let (a, b) = (ordered.drop_last(), numbers.drop_last());
        assert(numbers[ordered.len() - 1] == numbers.last());
        assert forall|j: int|
            0 <= j < a.len() && #[trigger] b[j] == number implies leading_date(
            a[j].text_at("start_date"@),
        ) is None by {
            assert(b[j] == numbers[j] && a[j] == ordered[j]);
        }
        lemma_no_season_start(a, b, number);
    }
}

/// An episode without an air date is dated by its own season: the first episode on the day on which
/// the last season with that number starts, and each further one a day later. Seasons with other
/// numbers have no part in it.
pub proof fn law_episodes_are_dated_by_their_season(
    seasons: Seq<Json>,
    episode: Json,
    season: i64,
    number: i64,
    i: int,
    start: CalendarDate,
)
    requires
        episode is Fields,
        !already_has(episode, "aired_at"@),
        episode.integer_at("season_number"@) == Some(season),
        episode.integer_at("number"@) == Some(number),
        number >= 1,
        starts_on(in_order(seasons), i, season as int, start),
        forall|j: int|
            i < j < in_order(seasons).len() && #[trigger] numbering(in_order(seasons))[j] == season
                ==> leading_date(in_order(seasons)[j].text_at("start_date"@)) is None,
    ensures
        match days_later(start, (number - 1) as nat) {
            Some(day) => only_sets(
                episode,
                dating(seasons)(episode),
                "aired_at"@,
                midnight_text(day),
            ),
            None => dating(seasons)(episode) == episode,
        },
{
    let ordered = in_order(seasons);
    lemma_numbering_prefix(ordered, ordered.len() as int);
    lemma_season_start(ordered, numbering(ordered), season as int, i);
}

/// An episode stays as it is where it has an air date, where it lacks a season or a number, where
/// its number is below one, and where no season with its number has a start date.
pub proof fn law_other_episodes_are_not_dated(seasons: Seq<Json>, episode: Json)
    requires
        ({
            ||| already_has(episode, "aired_at"@)
            ||| episode.integer_at("season_number"@) is None
            ||| episode.integer_at("number"@) is None
            ||| episode.integer_at("number"@)->0 < 1
            ||| forall|j: int|
                0 <= j < in_order(seasons).len() && #[trigger] numbering(in_order(seasons))[j]
                    == episode.integer_at("season_number"@)->0 ==> leading_date(
                    in_order(seasons)[j].text_at("start_date"@),
                ) is None
        }),
    ensures
        dating(seasons)(episode) == episode,
{
    let ordered = in_order(seasons);
    lemma_numbering_prefix(ordered, ordered.len() as int);
    if !already_has(episode, "aired_at"@) && episode.integer_at("season_number"@) is Some
        && episode.integer_at("number"@) is Some && episode.integer_at("number"@)->0 >= 1 {
        lemma_no_season_start(
            ordered,
            numbering(ordered),
            episode.integer_at("season_number"@)->0 as int,
        );
    }
}

/// Filling in goes through the episodes of a show one by one and leaves everything else.
pub proof fn law_filling_goes_through_the_episodes(
    show: Json,
    change: spec_fn(Json) -> Json,
    rows: Seq<Json>,
    k: int,
    key: Seq<char>,
)
    requires
        show.field("episodes"@) == Some(Json::List(rows)),
        0 <= k < rows.len(),
        key != "episodes"@,
    ensures
        with_episodes(show, change).field("episodes"@) matches Some(Json::List(filled))
            && filled.len() == rows.len() && filled[k] == change(rows[k]),
        with_episodes(show, change).field(key) == show.field(key),
{
}

/// There is an episode at a place of a source.
pub open spec fn has_episode(ordered: Seq<Json>, i: int, k: int) -> bool {
    &&& 0 <= i < ordered.len()
    &&& ordered[i].list_at("episodes"@) matches Some(rows) && 0 <= k < rows.len()
}

/// The episode at a place of a source.
pub open spec fn episode_at(ordered: Seq<Json>, i: int, k: int) -> Json {
    ordered[i].list_at("episodes"@)->0[k]
}

/// An episode of a source has a number of its season, its own or else the one of the source.
pub open spec fn is_of_season(ordered: Seq<Json>, i: int, k: int, number: int) -> bool {
    match episode_at(ordered, i, k).integer_at("season_number"@) {
        Some(own) => own == number,
        None => numbering(ordered)[i] == number,
    }
}

/// An episode of a source is of the season that an episode names, if it names one.
pub open spec fn same_season(ordered: Seq<Json>, i: int, k: int, episode: Json) -> bool {
    episode.integer_at("season_number"@) matches Some(s) ==> is_of_season(ordered, i, k, s as int)
}

/// Two episodes have one number.
pub open spec fn same_number(a: Json, b: Json) -> bool {
    a.integer_at("number"@) is Some && a.integer_at("number"@) == b.integer_at("number"@)
}

/// Two episodes have titles with one key.
pub open spec fn same_title(a: Json, b: Json) -> bool {
    match (a.text_at("title"@), b.text_at("title"@)) {
        (Some(x), Some(y)) => title_key(x) == title_key(y),
        _ => false,
    }
}

/// Two episodes were shown on one day.
pub open spec fn same_day(a: Json, b: Json) -> bool {
    match (leading_date(a.text_at("aired_at"@)), leading_date(b.text_at("aired_at"@))) {
        (Some(x), Some(y)) => date_text(x) == date_text(y),
        _ => false,
    }
}

/// An episode of a source with a picture is like an episode, the more the smaller the level: of one
/// season and number, of one season and title, of one number, of one title, of one day.
pub open spec fn is_like(
    ordered: Seq<Json>,
    i: int,
    k: int,
    episode: Json,
    level: int,
) -> bool {
    let other = episode_at(ordered, i, k);
    &&& has_episode(ordered, i, k)
    &&& other.text_at("thumbnail"@) is Some
    &&& if level == 0 {
        same_season(ordered, i, k, episode) && same_number(other, episode)
    } else if level == 1 {
        same_season(ordered, i, k, episode) && same_title(other, episode)
    } else if level == 2 {
        same_number(other, episode)
    } else if level == 3 {
        same_title(other, episode)
    } else {
        level == 4 && same_day(other, episode)
    }
}

/// No episode of a source is like an episode at a level.
pub open spec fn none_is_like(ordered: Seq<Json>, episode: Json, level: int) -> bool {
    forall|i: int, k: int| !#[trigger] is_like(ordered, i, k, episode, level)
}

/// One place of a source comes before another.
pub open spec fn comes_before(a: (int, int), b: (int, int)) -> bool {
    a.0 < b.0 || a.0 == b.0 && a.1 < b.1
}

/// Where the episodes with a picture stand.
spec fn images_at(
    ordered: Seq<Json>,
    numbers: Seq<int>,
    rows: Seq<ImageRow>,
    at: Seq<(int, int)>,
) -> bool {
    &&& at.len() == rows.len()
    &&& forall|p: int|
        0 <= p < at.len() ==> has_episode(ordered, (#[trigger] at[p]).0, at[p].1) && image_row(
            episode_at(ordered, at[p].0, at[p].1),
            numbers[at[p].0],
        ) == Some(rows[p])
    &&& forall|p: int, q: int|
        0 <= p < q < at.len() ==> comes_before(#[trigger] at[p], #[trigger] at[q])
    &&& forall|i: int, k: int|
        #[trigger] has_episode(ordered, i, k) && episode_at(ordered, i, k).text_at("thumbnail"@)
            is Some ==> at.contains((i, k))
}

spec fn image_pick(season: int) -> spec_fn(Json) -> Option<ImageRow> {
    |episode: Json| image_row(episode, season)
}

proof fn lemma_image_rows_picked(episodes: Seq<Json>, season: int)
    ensures
        picks(episodes, image_rows(episodes, season), image_pick(season)),
    decreases episodes.len(),
{
    if episodes.len() == 0 {
        lemma_picks_nothing(episodes, image_rows(episodes, season), image_pick(season));
    } else {
        lemma_image_rows_picked(episodes.drop_last(), season);
        lemma_picks_last(
            episodes,
            image_rows(episodes.drop_last(), season),
            image_pick(season),
        );
    }
}

proof fn lemma_season_images_picked(season: Json, number: int) -> (at: Seq<int>)
    ensures
        match season.list_at("episodes"@) {
            Some(rows) => picked_at(
                rows,
                season_images(season, number),
                image_pick(number),
                at,
            ),
            None => at.len() == 0 && season_images(season, number).len() == 0,
        },
{
    match season.list_at("episodes"@) {
        Some(rows) => {
            lemma_image_rows_picked(rows, number);
            choose|at: Seq<int>| #[trigger]
                picked_at(rows, season_images(season, number), image_pick(number), at)
        },
        None => Seq::empty(),
    }
}

proof fn lemma_all_images_at(ordered: Seq<Json>, numbers: Seq<int>) -> (at: Seq<(int, int)>)
    requires
        ordered.len() == numbers.len(),
    ensures
        images_at(ordered, numbers, all_images(ordered, numbers), at),
    decreases ordered.len(),
{
    let all = all_images(ordered, numbers);
    if ordered.len() == 0 {
        Seq::empty()
    } else {
        let shorter = ordered.drop_last();
        let front = numbers.drop_last();
        let before = all_images(shorter, front);
        let old = lemma_all_images_at(shorter, front);
        let season = ordered.last();
        let n = ordered.len() - 1;
        let here = season_images(season, numbers.last());
        let own = lemma_season_images_picked(season, numbers.last());
        let fresh = Seq::new(own.len(), |k: int| (n, own[k]));
        let at = old + fresh;
        assert forall|p: int| 0 <= p < at.len() implies has_episode(
            ordered,
            (#[trigger] at[p]).0,
            at[p].1,
        ) && image_row(episode_at(ordered, at[p].0, at[p].1), numbers[at[p].0]) == Some(
            all[p],
        ) by {
            if p < old.len() {
                assert(at[p] == old[p]);
                assert(has_episode(shorter, old[p].0, old[p].1));
                assert(shorter[old[p].0] == ordered[old[p].0]);
                assert(front[old[p].0] == numbers[old[p].0]);
            } else {
                let k = p - old.len();
                assert(at[p] == (n, own[k]));
                assert(0 <= own[k]);
                assert(image_pick(numbers.last())(season.list_at("episodes"@)->0[own[k]]) == Some(
                    here[k],
                ));
            }
        }
        assert forall|p: int, q: int| 0 <= p < q < at.len() implies comes_before(
            #[trigger] at[p],
            #[trigger] at[q],
        ) by {
            if q < old.len() {
                assert(at[p] == old[p] && at[q] == old[q]);
            } else if p < old.len() {
                assert(at[p] == old[p] && at[q].0 == n);
                assert(has_episode(shorter, old[p].0, old[p].1));
            } else {
                assert(at[p] == (n, own[p - old.len()]) && at[q] == (n, own[q - old.len()]));
                assert(own[p - old.len()] < own[q - old.len()]);
            }
        }
        assert forall|i: int, k: int|
            #[trigger] has_episode(ordered, i, k) && episode_at(ordered, i, k).text_at(
                "thumbnail"@,
            ) is Some implies at.contains((i, k)) by {
            if i < n {
                assert(shorter[i] == ordered[i]);
                assert(has_episode(shorter, i, k));
                let p = choose|p: int| 0 <= p < old.len() && old[p] == (i, k);
                assert(at[p] == (i, k));
            } else {
                let rows = season.list_at("episodes"@)->0;
                assert(image_pick(numbers.last())(rows[k]) is Some);
                let m = choose|m: int| 0 <= m < own.len() && own[m] == k;
                assert(at[old.len() + m] == (i, k));
            }
        }
        at
    }
}

proof fn lemma_first_answer(rows: Seq<ImageRow>, season: Option<i64>, key: LookupModel, p: int)
    requires
        0 <= p < rows.len(),
        answers(rows[p], season, key),
        forall|q: int| 0 <= q < p ==> !answers(#[trigger] rows[q], season, key),
    ensures
        first_image(rows, season, key) == Some(rows[p].image),
    decreases rows.len(),
{
    if p > 0 {
        assert(!answers(rows[0], season, key));
        let rest = rows.skip(1);
        assert(rest[p - 1] == rows[p]);
        assert forall|q: int| 0 <= q < p - 1 implies !answers(#[trigger] rest[q], season, key) by {
            assert(rest[q] == rows[q + 1]);
        }
        lemma_first_answer(rest, season, key, p - 1);
    }
}

proof fn lemma_no_answer(rows: Seq<ImageRow>, season: Option<i64>, key: LookupModel)
    requires
        forall|q: int| 0 <= q < rows.len() ==> !answers(#[trigger] rows[q], season, key),
    ensures
        first_image(rows, season, key) is None,
    decreases rows.len(),
{
    if rows.len() > 0 {
        assert(!answers(rows[0], season, key));
        let rest = rows.skip(1);
        assert forall|q: int| 0 <= q < rest.len() implies !answers(
            #[trigger] rest[q],
            season,
            key,
        ) by {
            assert(rest[q] == rows[q + 1]);
        }
        lemma_no_answer(rest, season, key);
    }
}

/// No written day is the key of a title.
proof fn lemma_day_is_no_key(date: CalendarDate, title: Seq<char>)
    ensures
        date_text(date) != title_key(title),
{
    let at = year_text(date.year as int).len() as int;
    assert(date_text(date)[at] == '-');
    if date_text(date) == title_key(title) {
        law_title_keys_are_plain(title, at);
        assert(!key_char('-'));
    }
}

/// What is looked up at a level, where there is something to look up.
spec fn lookup_at(episode: Json, level: int) -> Option<LookupModel> {
    if level == 0 || level == 2 {
        match episode.integer_at("number"@) {
            Some(n) => Some(LookupModel::Number(n)),
            None => None,
        }
    } else if level == 1 || level == 3 {
        match episode.text_at("title"@) {
            Some(title) => Some(LookupModel::Text(title_key(title))),
            None => None,
        }
    } else {
        match leading_date(episode.text_at("aired_at"@)) {
            Some(date) => Some(LookupModel::Text(date_text(date))),
            None => None,
        }
    }
}

/// The season in which is looked at a level.
spec fn season_at(episode: Json, level: int) -> Option<i64> {
    if level <= 1 {
        episode.integer_at("season_number"@)
    } else {
        None
    }
}

/// What is found at a level.
spec fn found_at_level(rows: Seq<ImageRow>, episode: Json, level: int) -> Option<Seq<char>> {
    match lookup_at(episode, level) {
        Some(key) => first_image(rows, season_at(episode, level), key),
        None => None,
    }
}

/// A row answers at a level where its episode is like the episode at the level.
proof fn lemma_likeness(
    ordered: Seq<Json>,
    i: int,
    k: int,
    row: ImageRow,
    episode: Json,
    level: int,
)
    requires
        has_episode(ordered, i, k),
        image_row(episode_at(ordered, i, k), numbering(ordered)[i]) == Some(row),
        0 <= level <= 4,
    ensures
        is_like(ordered, i, k, episode, level) <==> (lookup_at(episode, level) is Some && answers(
            row,
            season_at(episode, level),
            lookup_at(episode, level)->0,
        )),
{
    let other = episode_at(ordered, i, k);
    if let Some(date) = leading_date(other.text_at("aired_at"@)) {
        if let Some(title) = episode.text_at("title"@) {
            lemma_day_is_no_key(date, title);
        }
    }
    if let Some(date) = leading_date(episode.text_at("aired_at"@)) {
        if let Some(title) = other.text_at("title"@) {
            lemma_day_is_no_key(date, title);
        }
    }
}

proof fn lemma_nothing_at_level(sources: Seq<Json>, episode: Json, level: int)
    requires
        0 <= level <= 4,
        none_is_like(in_order(sources), episode, level),
    ensures
        found_at_level(
            all_images(in_order(sources), numbering(in_order(sources))),
            episode,
            level,
        ) is None,
{
    let ordered = in_order(sources);
    let numbers = numbering(ordered);
    let rows = all_images(ordered, numbers);
    lemma_numbering_prefix(ordered, ordered.len() as int);
    let at = lemma_all_images_at(ordered, numbers);
    if let Some(key) = lookup_at(episode, level) {
        let season = season_at(episode, level);
        assert forall|q: int| 0 <= q < rows.len() implies !answers(
            #[trigger] rows[q],
            season,
            key,
        ) by {
            assert(has_episode(ordered, at[q].0, at[q].1));
            lemma_likeness(ordered, at[q].0, at[q].1, rows[q], episode, level);
            assert(!is_like(ordered, at[q].0, at[q].1, episode, level));
        }
        lemma_no_answer(rows, season, key);
    }
}

proof fn lemma_first_at_level(sources: Seq<Json>, episode: Json, level: int, i: int, k: int)
    requires
        0 <= level <= 4,
        is_like(in_order(sources), i, k, episode, level),
        forall|a: int, b: int|
            comes_before((a, b), (i, k)) ==> !#[trigger] is_like(
                in_order(sources),
                a,
                b,
                episode,
                level,
            ),
    ensures
        found_at_level(
            all_images(in_order(sources), numbering(in_order(sources))),
            episode,
            level,
        ) == episode_at(in_order(sources), i, k).text_at("thumbnail"@),
{
    let ordered = in_order(sources);
    let numbers = numbering(ordered);
    let rows = all_images(ordered, numbers);
    lemma_numbering_prefix(ordered, ordered.len() as int);
    let at = lemma_all_images_at(ordered, numbers);
    assert(has_episode(ordered, i, k));
    assert(at.contains((i, k)));
    let p = choose|p: int| 0 <= p < at.len() && at[p] == (i, k);
    lemma_likeness(ordered, i, k, rows[p], episode, level);
    let key = lookup_at(episode, level)->0;
    let season = season_at(episode, level);
    assert forall|q: int| 0 <= q < p implies !answers(#[trigger] rows[q], season, key) by {
        assert(comes_before(at[q], at[p]));
        assert(has_episode(ordered, at[q].0, at[q].1));
        lemma_likeness(ordered, at[q].0, at[q].1, rows[q], episode, level);
        assert(!is_like(ordered, at[q].0, at[q].1, episode, level));
    }
    lemma_first_answer(rows, season, key, p);
}

/// The chosen picture is what is found at the first level, or else season and show artwork.
proof fn lemma_chosen(sources: Seq<Json>, episode: Json)
    ensures
        ({
            let ordered = in_order(sources);
            let rows = all_images(ordered, numbering(ordered));
            let seasonal = match episode.integer_at("season_number"@) {
                Some(s) => season_artwork(ordered, numbering(ordered), s as int),
                None => None,
            };
            chosen_image(episode, sources) == (if found_at_level(rows, episode, 0) is Some {
                found_at_level(rows, episode, 0)
            } else if found_at_level(rows, episode, 1) is Some {
                found_at_level(rows, episode, 1)
            } else if found_at_level(rows, episode, 2) is Some {
                found_at_level(rows, episode, 2)
            } else if found_at_level(rows, episode, 3) is Some {
                found_at_level(rows, episode, 3)
            } else if found_at_level(rows, episode, 4) is Some {
                found_at_level(rows, episode, 4)
            } else if seasonal is Some {
                seasonal
            } else {
                show_artwork(sources)
            })
        }),
{
}

/// An episode without a picture gets that of the episode of a source that is most like it: of one
/// season and number; or else of one season and title; or else of one number; or else of one title;
/// or else of one day. Of several at the best level it is the first, in the order of the sources.
pub proof fn law_pictures_come_from_the_likest_episode(
    sources: Seq<Json>,
    episode: Json,
    level: int,
    i: int,
    k: int,
)
    requires
        episode is Fields,
        !already_has(episode, "thumbnail"@),
        0 <= level <= 4,
        forall|l: int|
            0 <= l < level ==> #[trigger] none_is_like(in_order(sources), episode, l),
        is_like(in_order(sources), i, k, episode, level),
        forall|a: int, b: int|
            comes_before((a, b), (i, k)) ==> !#[trigger] is_like(
                in_order(sources),
                a,
                b,
                episode,
                level,
            ),
    ensures
        only_sets(
            episode,
            picturing(sources)(episode),
            "thumbnail"@,
            episode_at(in_order(sources), i, k).text_at("thumbnail"@)->0,
        ),
{
    let ordered = in_order(sources);
    lemma_chosen(sources, episode);
    lemma_first_at_level(sources, episode, level, i, k);
    if level > 0 {
        assert(none_is_like(ordered, episode, 0));
        lemma_nothing_at_level(sources, episode, 0);
    }
    if level > 1 {
        assert(none_is_like(ordered, episode, 1));
        lemma_nothing_at_level(sources, episode, 1);
    }
    if level > 2 {
        assert(none_is_like(ordered, episode, 2));
        lemma_nothing_at_level(sources, episode, 2);
    }
    if level > 3 {
        assert(none_is_like(ordered, episode, 3));
        lemma_nothing_at_level(sources, episode, 3);
    }
}

/// No episode of a source is like an episode at any level.
pub open spec fn is_unlike_all(sources: Seq<Json>, episode: Json) -> bool {
    forall|l: int| 0 <= l <= 4 ==> #[trigger] none_is_like(in_order(sources), episode, l)
}

proof fn lemma_nothing_found(sources: Seq<Json>, episode: Json)
    requires
        is_unlike_all(sources, episode),
    ensures
        ({
            let rows = all_images(in_order(sources), numbering(in_order(sources)));
            forall|l: int| 0 <= l <= 4 ==> #[trigger] found_at_level(rows, episode, l) is None
        }),
{
    let rows = all_images(in_order(sources), numbering(in_order(sources)));
    assert forall|l: int| 0 <= l <= 4 implies #[trigger] found_at_level(
        rows,
        episode,
        l,
    ) is None by {
        assert(none_is_like(in_order(sources), episode, l));
        lemma_nothing_at_level(sources, episode, l);
    }
}

/// A document has a picture of its own: the poster, or else the banner.
pub open spec fn own_picture(document: Json, image: Seq<char>) -> bool {
    match document.text_at("poster"@) {
        Some(poster) => image == poster,
        None => document.text_at("banner"@) == Some(image),
    }
}

/// A document has neither a poster nor a banner.
pub open spec fn lacks_picture(document: Json) -> bool {
    document.text_at("poster"@) is None && document.text_at("banner"@) is None
}

proof fn lemma_season_artwork_first(ordered: Seq<Json>, numbers: Seq<int>, number: int, i: int)
    requires
        ordered.len() == numbers.len(),
        0 <= i < ordered.len(),
        numbers[i] == number,
        artwork(ordered[i]) is Some,
        forall|j: int|
            0 <= j < i && #[trigger] numbers[j] == number ==> artwork(ordered[j]) is None,
    ensures
        season_artwork(ordered, numbers, number) == artwork(ordered[i]),
    decreases ordered.len(),
{
    let (a, b) = (ordered.drop_last(), numbers.drop_last());
    if i < a.len() {
        assert forall|j: int| 0 <= j < i && #[trigger] b[j] == number implies artwork(
            a[j],
        ) is None by {
            assert(b[j] == numbers[j] && a[j] == ordered[j]);
        }
        lemma_season_artwork_first(a, b, number, i);
    } else {
        assert forall|j: int| 0 <= j < a.len() && #[trigger] b[j] == number implies artwork(
            a[j],
        ) is None by {
            assert(b[j] == numbers[j] && a[j] == ordered[j]);
        }
        lemma_no_season_artwork(a, b, number);
    }
}

proof fn lemma_no_season_artwork(ordered: Seq<Json>, numbers: Seq<int>, number: int)
    requires
        ordered.len() == numbers.len(),
        forall|j: int|
            0 <= j < ordered.len() && #[trigger] numbers[j] == number ==> artwork(
                ordered[j],
            ) is None,
    ensures
        season_artwork(ordered, numbers, number) is None,
    decreases ordered.len(),
{
    if ordered.len() > 0 {
        let (a, b) = (ordered.drop_last(), numbers.drop_last());
        assert(numbers[ordered.len() - 1] == numbers.last());
        assert forall|j: int| 0 <= j < a.len() && #[trigger] b[j] == number implies artwork(
            a[j],
        ) is None by {
            assert(b[j] == numbers[j] && a[j] == ordered[j]);
        }
        lemma_no_season_artwork(a, b, number);
    }
}

/// Where no episode of a source is like an episode without a picture, it gets the poster, or else
/// the banner, of the first season of its number that has one.
pub proof fn law_season_artwork_comes_first(
    sources: Seq<Json>,
    episode: Json,
    season: i64,
    i: int,
    image: Seq<char>,
)
    requires
        episode is Fields,
        !already_has(episode, "thumbnail"@),
        is_unlike_all(sources, episode),
        episode.integer_at("season_number"@) == Some(season),
        0 <= i < in_order(sources).len(),
        numbering(in_order(sources))[i] == season,
        own_picture(in_order(sources)[i], image),
        forall|j: int|
            0 <= j < i && #[trigger] numbering(in_order(sources))[j] == season ==> lacks_picture(
                in_order(sources)[j],
            ),
    ensures
        only_sets(episode, picturing(sources)(episode), "thumbnail"@, image),
{
    let ordered = in_order(sources);
    let numbers = numbering(ordered);
    let rows = all_images(ordered, numbers);
    lemma_numbering_prefix(ordered, ordered.len() as int);
    lemma_nothing_found(sources, episode);
    lemma_chosen(sources, episode);
    assert(found_at_level(rows, episode, 0) is None);
    assert(found_at_level(rows, episode, 1) is None);
    assert(found_at_level(rows, episode, 2) is None);
    assert(found_at_level(rows, episode, 3) is None);
    assert(found_at_level(rows, episode, 4) is None);
    assert(artwork(ordered[i]) == Some(image));
    lemma_season_artwork_first(ordered, numbers, season as int, i);
}

/// No season of the number that an episode names has a picture of its own.
pub open spec fn season_lacks_picture(sources: Seq<Json>, episode: Json) -> bool {
    episode.integer_at("season_number"@) matches Some(season) ==> forall|j: int|
        0 <= j < in_order(sources).len() && #[trigger] numbering(in_order(sources))[j] == season
            ==> lacks_picture(in_order(sources)[j])
}

proof fn lemma_show_artwork_first(sources: Seq<Json>, i: int)
    requires
        0 <= i < sources.len(),
        artwork(sources[i]) is Some,
        forall|j: int| 0 <= j < i ==> artwork(#[trigger] sources[j]) is None,
    ensures
        show_artwork(sources) == artwork(sources[i]),
    decreases sources.len(),
{
    let shorter = sources.drop_last();
    if i < shorter.len() {
        assert(shorter[i] == sources[i]);
        assert forall|j: int| 0 <= j < i implies artwork(#[trigger] shorter[j]) is None by {
            assert(shorter[j] == sources[j]);
        }
        lemma_show_artwork_first(shorter, i);
    } else {
        assert forall|j: int| 0 <= j < shorter.len() implies artwork(
            #[trigger] shorter[j],
        ) is None by {
            assert(shorter[j] == sources[j]);
        }
        lemma_no_show_artwork(shorter);
    }
}

proof fn lemma_no_show_artwork(sources: Seq<Json>)
    requires
        forall|j: int| 0 <= j < sources.len() ==> artwork(#[trigger] sources[j]) is None,
    ensures
        show_artwork(sources) is None,
    decreases sources.len(),
{
    if sources.len() > 0 {
        assert(artwork(sources[sources.len() - 1]) is None);
        let shorter = sources.drop_last();
        assert forall|j: int| 0 <= j < shorter.len() implies artwork(
            #[trigger] shorter[j],
        ) is None by {
            assert(shorter[j] == sources[j]);
        }
        lemma_no_show_artwork(shorter);
    }
}

proof fn lemma_season_has_none(sources: Seq<Json>, episode: Json)
    requires
        is_unlike_all(sources, episode),
        season_lacks_picture(sources, episode),
    ensures
        chosen_image(episode, sources) == show_artwork(sources),
{
    let ordered = in_order(sources);
    let numbers = numbering(ordered);
    let rows = all_images(ordered, numbers);
    lemma_numbering_prefix(ordered, ordered.len() as int);
    lemma_nothing_found(sources, episode);
    lemma_chosen(sources, episode);
    assert(found_at_level(rows, episode, 0) is None);
    assert(found_at_level(rows, episode, 1) is None);
    assert(found_at_level(rows, episode, 2) is None);
    assert(found_at_level(rows, episode, 3) is None);
    assert(found_at_level(rows, episode, 4) is None);
    if let Some(season) = episode.integer_at("season_number"@) {
        assert forall|j: int| 0 <= j < ordered.len() && #[trigger] numbers[j] == season implies
            artwork(ordered[j]) is None by {
            assert(lacks_picture(ordered[j]));
        }
        lemma_no_season_artwork(ordered, numbers, season as int);
    }
}

/// The artwork of any other season is taken only where no season of the episode's number has one:
/// then it is that of the first source, in the order in which they are given, that has one.
pub proof fn law_show_artwork_comes_last(
    sources: Seq<Json>,
    episode: Json,
    i: int,
    image: Seq<char>,
)
    requires
        episode is Fields,
        !already_has(episode, "thumbnail"@),
        is_unlike_all(sources, episode),
        season_lacks_picture(sources, episode),
        0 <= i < sources.len(),
        own_picture(sources[i], image),
        forall|j: int| 0 <= j < i ==> lacks_picture(#[trigger] sources[j]),
    ensures
        only_sets(episode, picturing(sources)(episode), "thumbnail"@, image),
{
    lemma_season_has_none(sources, episode);
    assert(artwork(sources[i]) == Some(image));
    assert forall|j: int| 0 <= j < i implies artwork(#[trigger] sources[j]) is None by {
        assert(lacks_picture(sources[j]));
    }
    lemma_show_artwork_first(sources, i);
}

/// An episode stays as it is where it has a picture, and where the sources have none for it.
pub proof fn law_other_episodes_get_no_picture(sources: Seq<Json>, episode: Json)
    requires
        already_has(episode, "thumbnail"@) || is_unlike_all(sources, episode) && forall|j: int|
            0 <= j < sources.len() ==> lacks_picture(#[trigger] sources[j]),
    ensures
        picturing(sources)(episode) == episode,
{
    if !already_has(episode, "thumbnail"@) {
        let ordered = in_order(sources);
        crate::ordering::law_sorting_keeps_items(sources, crate::seasons::by_season());
        assert forall|j: int| 0 <= j < ordered.len() implies lacks_picture(
            #[trigger] ordered[j],
        ) by {
            assert(ordered.contains(ordered[j]));
            let m = choose|m: int| 0 <= m < sources.len() && sources[m] == ordered[j];
            assert(lacks_picture(sources[m]));
        }
        lemma_season_has_none(sources, episode);
        assert forall|j: int| 0 <= j < sources.len() implies artwork(
            #[trigger] sources[j],
        ) is None by {
            assert(lacks_picture(sources[j]));
        }
        lemma_no_show_artwork(sources);
    }
}

} // verus!
