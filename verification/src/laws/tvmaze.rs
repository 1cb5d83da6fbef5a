//! Which show at TVMaze is taken, and what is taken over from it.

use crate::combine::first_given;
use crate::dates::{leading_date, leading_year, midnight_text};
use crate::decimal::integer_text;
use crate::json::Json;
use crate::json_text::compact;
use crate::laws::{lemma_picks_last, lemma_picks_nothing, picks};
use crate::text::{percent_encoded, without_leading, without_trailing};
use crate::titles::title_key;
use crate::tvmaze::{
    best, candidate, candidates, episodes_path, identifier_text, image_source, is_off,
    law_best_show_fits_best, law_no_reply_holds_a_better_show, mapped_episode, mapped_episodes,
    nearest, noted, position, results_in, search_path, season_years, show_score, with_results,
    year_score, years, CandidateModel,
};
use vstd::prelude::*;

verus! {

/// The years of seasons are all that they give, by "season_year", by "year" and by the date on
/// which they start.
pub open spec fn given_years() -> spec_fn(Json) -> Seq<i64> {
    |season: Json|
        (match season.integer_at("season_year"@) {
            Some(year) => seq![year],
            None => Seq::empty(),
        }) + (match season.integer_at("year"@) {
            Some(year) => seq![year],
            None => Seq::empty(),
        }) + (match leading_date(season.text_at("start_date"@)) {
            Some(date) => seq![date.year as i64],
            None => Seq::empty(),
        })
}

/// The years that are looked for are all that the seasons give.
pub proof fn law_all_years_of_the_seasons_count(seasons: Seq<Json>)
    ensures
        years(seasons) == seasons.map_values(given_years()).flatten(),
    decreases seasons.len(),
{
    let parts = seasons.map_values(given_years());
    if seasons.len() > 0 {
        law_all_years_of_the_seasons_count(seasons.drop_last());
        let before = seasons.drop_last().map_values(given_years());
        before.lemma_flatten_push(parts.last());
        assert(parts =~= before.push(parts.last()));
        assert(season_years(seasons.last()) =~= parts.last());
    } else {
        assert(parts =~= Seq::empty());
    }
}

/// How far a year is from another.
pub open spec fn is_apart(a: i64, b: i64, distance: int) -> bool {
    distance >= 0 && (a - b == distance || b - a == distance)
}

proof fn lemma_nearest_year(year: i64, all: Seq<i64>, i: int, distance: int)
    requires
        0 <= i < all.len(),
        is_apart(year, all[i], distance),
        forall|k: int, d: int|
            0 <= k < all.len() && #[trigger] is_apart(year, all[k], d) ==> distance <= d,
    ensures
        nearest(year as int, all) == distance,
{
    lemma_nearest_bounds(year, all);
    let m = choose|m: int|
        0 <= m < all.len() && is_apart(year, #[trigger] all[m], nearest(year as int, all));
    let d = nearest(year as int, all);
    assert(is_apart(year, all[m], d));
}

proof fn lemma_nearest_bounds(year: i64, all: Seq<i64>)
    requires
        all.len() > 0,
    ensures
        exists|m: int|
            0 <= m < all.len() && is_apart(year, #[trigger] all[m], nearest(year as int, all)),
        forall|k: int, d: int|
            0 <= k < all.len() && #[trigger] is_apart(year, all[k], d) ==> nearest(
                year as int,
                all,
            ) <= d,
    decreases all.len(),
{
    let last = all.len() - 1;
    if all.len() > 1 {
        let shorter = all.drop_last();
        lemma_nearest_bounds(year, shorter);
        let m = choose|m: int|
            0 <= m < shorter.len() && is_apart(
                year,
                #[trigger] shorter[m],
                nearest(year as int, shorter),
            );
        assert(all[m] == shorter[m]);
        if nearest(year as int, all) == nearest(year as int, shorter) {
            assert(is_apart(year, all[m], nearest(year as int, all)));
        } else {
            assert(is_apart(year, all[last], nearest(year as int, all)));
        }
        assert forall|k: int, d: int|
            0 <= k < all.len() && #[trigger] is_apart(year, all[k], d) implies nearest(
            year as int,
            all,
        ) <= d by {
            if k < last {
                assert(is_apart(year, shorter[k], d));
            }
        }
    } else {
        assert(is_apart(year, all[last], nearest(year as int, all)));
    }
}

/// A show scores a hundred for the Japanese language. It scores fifty more for a premiere in one of
/// the years that are looked for, or else twenty less the distance to the nearest of them, where
/// that is less than twenty.
pub proof fn law_shows_score_by_language_and_year(
    show: Json,
    all: Seq<i64>,
    premiere: i64,
    i: int,
    distance: int,
)
    requires
        leading_year(show.string_at("premiered"@)) == Some(premiere),
        0 <= i < all.len(),
        is_apart(premiere, all[i], distance),
        forall|k: int, d: int|
            0 <= k < all.len() && #[trigger] is_apart(premiere, all[k], d) ==> distance <= d,
    ensures
        show_score(show, all) == (if show.string_at("language"@) == Some("Japanese"@) {
            100int
        } else {
            0
        }) + (if distance == 0 {
            50int
        } else if distance < 20 {
            20 - distance
        } else {
            0
        }),
{
    lemma_nearest_year(premiere, all, i, distance);
    if distance == 0 {
        assert(all[i] == premiere);
        assert(all.contains(premiere));
    } else if all.contains(premiere) {
        let k = choose|k: int| 0 <= k < all.len() && all[k] == premiere;
        assert(is_apart(premiere, all[k], 0));
    }
}

/// A show without a premiere, or without a year to hold against it, scores by its language alone.
pub proof fn law_shows_without_a_year_score_by_language(show: Json, all: Seq<i64>)
    requires
        leading_year(show.string_at("premiered"@)) is None || all.len() == 0,
    ensures
        show_score(show, all) == (if show.string_at("language"@) == Some("Japanese"@) {
            100int
        } else {
            0
        }),
{
    assert(year_score(leading_year(show.string_at("premiered"@)), all) == 0);
}

/// A search result is considered where it holds a show with an identifier and a name whose key is
/// looked for.
pub proof fn law_named_shows_are_considered(result: Json, keys: Seq<Seq<char>>)
    ensures
        candidate(result, keys) is Some <==> (result.field("show"@) is Some && {
            let show = result.field("show"@)->0;
            show.integer_at("id"@) is Some && show.string_at("name"@) is Some && keys.contains(
                title_key(show.string_at("name"@)->0),
            )
        }),
        candidate(result, keys) matches Some(found) ==> Some(found.show) == result.field("show"@)
            && found.show.integer_at("id"@) == Some(found.id),
{
}

/// A show comes from a reply.
pub open spec fn comes_from(
    replies: Seq<Option<Json>>,
    keys: Seq<Seq<char>>,
    found: CandidateModel,
) -> bool {
    exists|i: int, k: int|
        0 <= i < replies.len() && 0 <= k < results_in(replies[i]).len() && candidate(
            #[trigger] results_in(replies[i])[k],
            keys,
        ) == Some(found)
}

proof fn lemma_noted_from(
    all: Seq<CandidateModel>,
    found: CandidateModel,
    wanted_years: Seq<i64>,
    m: int,
)
    requires
        0 <= m < noted(all, found, wanted_years).len(),
    ensures
        noted(all, found, wanted_years)[m] == found || all.contains(
            noted(all, found, wanted_years)[m],
        ),
        noted(all, found, wanted_years).len() > 0,
{
    let after = noted(all, found, wanted_years);
    lemma_position_in_range(all, found.id);
    if after[m] != found {
        assert(after[m] == all[m]);
    }
}

proof fn lemma_position_in_range(all: Seq<CandidateModel>, id: i64)
    ensures
        position(all, id) matches Some(i) ==> 0 <= i < all.len(),
    decreases all.len(),
{
    if all.len() > 0 {
        lemma_position_in_range(all.drop_last(), id);
    }
}

proof fn lemma_results_from(
    all: Seq<CandidateModel>,
    results: Seq<Json>,
    keys: Seq<Seq<char>>,
    wanted_years: Seq<i64>,
    m: int,
)
    requires
        0 <= m < with_results(all, results, keys, wanted_years).len(),
    ensures
        all.contains(with_results(all, results, keys, wanted_years)[m]) || exists|k: int|
            0 <= k < results.len() && candidate(#[trigger] results[k], keys) == Some(
                with_results(all, results, keys, wanted_years)[m],
            ),
    decreases results.len(),
{
    let found = with_results(all, results, keys, wanted_years)[m];
    if results.len() == 0 {
        assert(all[m] == found);
    } else {
        let shorter = results.drop_last();
        let before = with_results(all, shorter, keys, wanted_years);
        let inside = match candidate(results.last(), keys) {
            Some(fresh) => {
                lemma_noted_from(before, fresh, wanted_years, m);
                fresh != found
            },
            None => {
                assert(before[m] == found);
                true
            },
        };
        if inside {
            let n = choose|n: int| 0 <= n < before.len() && before[n] == found;
            lemma_results_from(all, shorter, keys, wanted_years, n);
            if !all.contains(found) {
                let k = choose|k: int|
                    0 <= k < shorter.len() && candidate(#[trigger] shorter[k], keys) == Some(
                        before[n],
                    );
                assert(candidate(results[k], keys) == Some(found));
            }
        } else {
            assert(candidate(results[results.len() - 1], keys) == Some(found));
        }
    }
}

proof fn lemma_candidates_from(
    replies: Seq<Option<Json>>,
    keys: Seq<Seq<char>>,
    wanted_years: Seq<i64>,
    m: int,
)
    requires
        0 <= m < candidates(replies, keys, wanted_years).len(),
    ensures
        comes_from(replies, keys, candidates(replies, keys, wanted_years)[m]),
    decreases replies.len(),
{
    let found = candidates(replies, keys, wanted_years)[m];
    let shorter = replies.drop_last();
    let before = candidates(shorter, keys, wanted_years);
    let results = results_in(replies.last());
    lemma_results_from(before, results, keys, wanted_years, m);
    if before.contains(found) {
        let n = choose|n: int| 0 <= n < before.len() && before[n] == found;
        lemma_candidates_from(shorter, keys, wanted_years, n);
        let (i, k) = choose|i: int, k: int|
            0 <= i < shorter.len() && 0 <= k < results_in(shorter[i]).len() && candidate(
                #[trigger] results_in(shorter[i])[k],
                keys,
            ) == Some(before[n]);
        assert(candidate(results_in(replies[i])[k], keys) == Some(found));
    } else {
        let k = choose|k: int|
            0 <= k < results.len() && candidate(#[trigger] results[k], keys) == Some(found);
        assert(candidate(results_in(replies[replies.len() - 1])[k], keys) == Some(found));
    }
}

/// The chosen show is in a reply, and none in a reply scores higher; one is chosen where a reply
/// holds a show to consider, and only there.
pub proof fn law_chosen_show_is_the_best_of_the_replies(
    replies: Seq<Option<Json>>,
    keys: Seq<Seq<char>>,
    wanted_years: Seq<i64>,
)
    ensures
        match best(candidates(replies, keys, wanted_years), wanted_years) {
            Some(chosen) => comes_from(replies, keys, chosen) && forall|i: int, k: int|
                0 <= i < replies.len() && 0 <= k < results_in(replies[i]).len() && candidate(
                    #[trigger] results_in(replies[i])[k],
                    keys,
                ) is Some ==> show_score(
                    candidate(results_in(replies[i])[k], keys)->0.show,
                    wanted_years,
                ) <= show_score(chosen.show, wanted_years),
            None => forall|i: int, k: int|
                0 <= i < replies.len() && 0 <= k < results_in(replies[i]).len() ==> candidate(
                    #[trigger] results_in(replies[i])[k],
                    keys,
                ) is None,
        },
{
    let all = candidates(replies, keys, wanted_years);
    law_best_show_fits_best(all, wanted_years);
    if let Some(chosen) = best(all, wanted_years) {
        let m = choose|m: int| 0 <= m < all.len() && all[m] == chosen;
        lemma_candidates_from(replies, keys, wanted_years, m);
    }
    assert forall|i: int, k: int|
        0 <= i < replies.len() && 0 <= k < results_in(replies[i]).len() && candidate(
            #[trigger] results_in(replies[i])[k],
            keys,
        ) is Some implies best(all, wanted_years) is Some && show_score(
        candidate(results_in(replies[i])[k], keys)->0.show,
        wanted_years,
    ) <= show_score(best(all, wanted_years)->0.show, wanted_years) by {
        law_no_reply_holds_a_better_show(replies, keys, wanted_years, i, k);
    }
}

/// A document has a picture: in full size, or else in the smaller one.
pub open spec fn has_picture(document: Json, image: Json) -> bool {
    document.field("image"@) matches Some(sizes) && match sizes.field("original"@) {
        Some(original) => image == original,
        None => sizes.field("medium"@) == Some(image),
    }
}

/// An episode was taken over from TVMaze: with its picture, number, title and the midnight of its
/// day, under its identifier without quotation marks, and with nothing else of its own.
pub open spec fn taken_over(episode: Json, row: Json, show_id: i64) -> bool {
    &&& row is Fields
    &&& row.field("thumbnail"@) matches Some(Json::Text(image)) && has_picture(
        episode,
        Json::Text(image),
    )
    &&& row.field("id"@) == Some(Json::Text(identifier_text(episode.field("id"@))))
    &&& row.field("anime_id"@) == Some(Json::Text(integer_text(show_id as int)))
    &&& row.field("season_number"@) == Some(Json::Null)
    &&& row.field("number"@) == (match episode.integer_at("number"@) {
        Some(n) => Some(Json::Integer(n as int)),
        None => Some(Json::Integer(0)),
    })
    &&& row.field("title"@) == (match episode.string_at("name"@) {
        Some(name) => Some(Json::Text(name)),
        None => Some(Json::Null),
    })
    &&& row.field("aired_at"@) == (match leading_date(episode.string_at("airdate"@)) {
        Some(date) => Some(Json::Text(midnight_text(date))),
        None => Some(Json::Null),
    })
    &&& row.field("synopsis"@) == Some(Json::Null)
    &&& row.field("source"@) == Some(Json::Text("TVMaze"@))
}

proof fn lemma_episode_names()
    ensures
        "id"@.len() == 2,
        "anime_id"@.len() == 8,
        "season_number"@.len() == 13,
        "number"@.len() == 6,
        "title"@.len() == 5,
        "synopsis"@.len() == 8,
        "thumbnail"@.len() == 9,
        "aired_at"@.len() == 8,
        "source"@.len() == 6,
        "anime_id"@ != "synopsis"@,
        "anime_id"@ != "aired_at"@,
        "synopsis"@ != "aired_at"@,
        "number"@ != "source"@,
{
    reveal_strlit("id");
    reveal_strlit("anime_id");
    reveal_strlit("season_number");
    reveal_strlit("number");
    reveal_strlit("title");
    reveal_strlit("synopsis");
    reveal_strlit("thumbnail");
    reveal_strlit("aired_at");
    reveal_strlit("source");
    assert("anime_id"@[1] == 'n');
    assert("synopsis"@[1] == 'y');
    assert("aired_at"@[1] == 'i');
    assert("number"@[0] == 'n');
    assert("source"@[0] == 's');
}

/// An episode is taken over where it has a picture that is a text, and only there.
pub proof fn law_pictured_episodes_are_taken_over(episode: Json, show_id: i64)
    ensures
        mapped_episode(episode, show_id) is Some <==> exists|image: Seq<char>| #[trigger]
            has_picture(episode, Json::Text(image)),
        mapped_episode(episode, show_id) matches Some(row) ==> taken_over(episode, row, show_id),
{
    lemma_episode_names();
    if let Some(row) = mapped_episode(episode, show_id) {
        let image = crate::tvmaze::picture(episode)->0->Text_0;
        assert(has_picture(episode, Json::Text(image)));
    }
}

/// Picks the episodes that are taken over.
pub open spec fn episode_pick(show_id: i64) -> spec_fn(Json) -> Option<Json> {
    |episode: Json| mapped_episode(episode, show_id)
}

/// The episodes are taken over in their order.
pub proof fn law_episodes_are_taken_over_in_order(episodes: Seq<Json>, show_id: i64)
    ensures
        picks(episodes, mapped_episodes(episodes, show_id), episode_pick(show_id)),
    decreases episodes.len(),
{
    if episodes.len() == 0 {
        lemma_picks_nothing(episodes, mapped_episodes(episodes, show_id), episode_pick(show_id));
    } else {
        law_episodes_are_taken_over_in_order(episodes.drop_last(), show_id);
        lemma_picks_last(
            episodes,
            mapped_episodes(episodes.drop_last(), show_id),
            episode_pick(show_id),
        );
    }
}

/// The identifier of an episode is its text in JSON without the quotation marks at its ends.
pub proof fn law_identifiers_lose_their_quotation_marks(id: Json)
    ensures
        identifier_text(Some(id)) == without_trailing(
            without_leading(compact(id), |c: char| c == '"'),
            |c: char| c == '"',
        ),
        identifier_text(None).len() == 0,
{
}

proof fn lemma_show_names()
    ensures
        "id"@.len() == 2,
        "title"@.len() == 5,
        "poster"@.len() == 6,
        "banner"@.len() == 6,
        "year"@.len() == 4,
        "season_year"@.len() == 11,
        "episode_count"@.len() == 13,
        "start_date"@.len() == 10,
        "site_url"@.len() == 8,
        "episodes"@.len() == 8,
        "source"@.len() == 6,
        "end_date"@.len() == 8,
        "synopsis"@.len() == 8,
        "season"@.len() == 6,
        "status"@.len() == 6,
        "rating"@.len() == 6,
        "genres"@.len() == 6,
        "tags"@.len() == 4,
        "rank"@.len() == 4,
        "popularity"@.len() == 10,
        "updated_at"@.len() == 10,
        "description"@.len() == 11,
        "trailer_url"@.len() == 11,
        "score"@.len() == 5,
        "staff"@.len() == 5,
        "original_title"@.len() == 14,
        "external_links"@.len() == 14,
        "alternative_titles"@.len() == 18,
        "content_type"@.len() == 12,
        "duration_minutes"@.len() == 16,
        "country_of_origin"@.len() == 17,
        "authors"@.len() == 7,
        "studios"@.len() == 7,
        "poster"@[0] == 'p',
        "banner"@[0] == 'b',
        "source"@[1] == 'o',
        "season"@[1] == 'e',
        "status"@[1] == 't',
        "source"@[0] == 's',
        "season"@[0] == 's',
        "status"@[0] == 's',
        "rating"@[0] == 'r',
        "genres"@[0] == 'g',
        "year"@[0] == 'y',
        "tags"@[0] == 't',
        "rank"@[0] == 'r',
        "start_date"@[0] == 's',
        "popularity"@[0] == 'p',
        "updated_at"@[0] == 'u',
        "site_url"@[0] == 's',
        "site_url"@[1] == 'i',
        "synopsis"@[0] == 's',
        "synopsis"@[1] == 'y',
        "episodes"@[0] == 'e',
        "episodes"@[1] == 'p',
        "end_date"@[0] == 'e',
        "end_date"@[1] == 'n',
        "season_year"@[0] == 's',
        "description"@[0] == 'd',
        "trailer_url"@[0] == 't',
        "title"@[0] == 't',
        "score"@[0] == 's',
        "staff"@[0] == 's',
{
    reveal_strlit("id");
    reveal_strlit("title");
    reveal_strlit("poster");
    reveal_strlit("banner");
    reveal_strlit("year");
    reveal_strlit("season_year");
    reveal_strlit("episode_count");
    reveal_strlit("start_date");
    reveal_strlit("site_url");
    reveal_strlit("episodes");
    reveal_strlit("source");
    reveal_strlit("end_date");
    reveal_strlit("synopsis");
    reveal_strlit("season");
    reveal_strlit("status");
    reveal_strlit("rating");
    reveal_strlit("genres");
    reveal_strlit("tags");
    reveal_strlit("rank");
    reveal_strlit("popularity");
    reveal_strlit("updated_at");
    reveal_strlit("description");
    reveal_strlit("trailer_url");
    reveal_strlit("score");
    reveal_strlit("staff");
    reveal_strlit("original_title");
    reveal_strlit("external_links");
    reveal_strlit("alternative_titles");
    reveal_strlit("content_type");
    reveal_strlit("duration_minutes");
    reveal_strlit("country_of_origin");
    reveal_strlit("authors");
    reveal_strlit("studios");
}

/// The chosen show is described by the episodes that were taken over, if there are any: under its
/// identifier and name (or else the first title of the seasons), with its picture, its address and
/// the year and date of its premiere.
pub proof fn law_chosen_show_is_described_by_its_episodes(
    show: CandidateModel,
    episodes: Seq<Json>,
    seasons: Seq<Json>,
)
    ensures
        match image_source(show, Json::List(episodes), seasons) {
            None => mapped_episodes(episodes, show.id).len() == 0,
            Some(source) => {
                &&& mapped_episodes(episodes, show.id).len() > 0
                &&& source is Fields
                &&& source.field("episodes"@) == Some(
                    Json::List(mapped_episodes(episodes, show.id)),
                )
                &&& source.field("episode_count"@) == Some(
                    Json::Integer(mapped_episodes(episodes, show.id).len() as int),
                )
                &&& source.field("id"@) == Some(Json::Text(integer_text(show.id as int)))
                &&& source.field("title"@) == Some(
                    Json::Text(
                        match (show.show.string_at("name"@), first_given(seasons, "title"@)) {
                            (Some(name), _) => name,
                            (None, Some(title)) => title,
                            (None, None) => Seq::empty(),
                        },
                    ),
                )
                &&& source.field("year"@) == source.field("season_year"@)
                &&& source.field("year"@) == (match leading_year(
                    show.show.string_at("premiered"@),
                ) {
                    Some(year) => Some(Json::Integer(year as int)),
                    None => Some(Json::Null),
                })
                &&& source.field("start_date"@) == (match show.show.string_at("premiered"@) {
                    Some(text) => Some(Json::Text(text)),
                    None => Some(Json::Null),
                })
                &&& source.field("site_url"@) == (match show.show.string_at("url"@) {
                    Some(text) => Some(Json::Text(text)),
                    None => Some(Json::Null),
                })
                &&& source.field("banner"@) == Some(Json::Null)
                &&& source.field("poster"@) matches Some(poster)
                &&& has_picture(show.show, poster) || poster == Json::Null
                &&& forall|image: Json| #[trigger]
                    has_picture(show.show, image) ==> poster == image
            },
        },
{
    lemma_show_names();
}

/// A reply that is no list describes nothing, and lists no results.
pub proof fn law_other_replies_describe_nothing(
    show: CandidateModel,
    reply: Json,
    seasons: Seq<Json>,
)
    requires
        !(reply is List),
    ensures
        image_source(show, reply, seasons) is None,
        results_in(Some(reply)).len() == 0,
        results_in(None).len() == 0,
{
}

/// TVMaze is asked for a show by its title in percent encoding, and for the episodes of a show by
/// its identifier. Nothing but "0", "false" and "no" switches it off.
pub proof fn law_requests_name_what_is_asked(query: Seq<char>, show_id: int, setting: Seq<char>)
    ensures
        search_path(query) == "search/shows?q="@ + percent_encoded(
            vstd::utf8::encode_utf8(query),
        ),
        episodes_path(show_id) == "shows/"@ + integer_text(show_id) + "/episodes"@,
        is_off(setting) <==> (setting == "0"@ || setting == "false"@ || setting == "no"@),
{
}

} // verus!
