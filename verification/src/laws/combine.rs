//! What a show says that is combined out of seasons.

use crate::combine::{
    aliases, all_rows, combined, combined_rows, given_texts, listed_texts, season_aliases,
    season_rows, show_episode, show_rows, total_count, unique, CombineError,
};
use crate::json::{text_list, Json};
use crate::laws::{lemma_picks_last, lemma_picks_nothing, picks};
use crate::seasons::{in_order, lemma_numbering_prefix, numbering};
use crate::text::{joined, trimmed};
use crate::titles::show_title;
use vstd::prelude::*;

verus! {

/// Seasons combine exactly where there is one, and the first of them in order is an object.
pub proof fn law_seasons_combine_unless_there_is_none(seasons: Seq<Json>)
    ensures
        seasons.len() == 0 <==> combined(seasons) == Err::<Json, CombineError>(
            CombineError::NoSeason,
        ),
        seasons.len() > 0 && !(in_order(seasons)[0] is Fields) <==> combined(seasons) == Err::<
            Json,
            CombineError,
        >(CombineError::NotAnObject),
        seasons.len() > 0 && in_order(seasons)[0] is Fields <==> combined(seasons) is Ok,
        combined(seasons) matches Ok(show) ==> show is Fields,
{
}

proof fn lemma_none_given(documents: Seq<Json>, key: Seq<char>)
    requires
        forall|k: int| 0 <= k < documents.len() ==> (#[trigger] documents[k]).text_at(key) is None,
    ensures
        given_texts(documents, key).len() == 0,
    decreases documents.len(),
{
    if documents.len() > 0 {
        let shorter = documents.drop_last();
        assert forall|k: int| 0 <= k < shorter.len() implies (#[trigger] shorter[k]).text_at(
            key,
        ) is None by {
            assert(shorter[k] == documents[k]);
        }
        assert(documents[documents.len() - 1].text_at(key) is None);
        lemma_none_given(shorter, key);
    }
}

proof fn lemma_first_is_given(documents: Seq<Json>, key: Seq<char>, i: int)
    requires
        0 <= i < documents.len(),
        documents[i].text_at(key) is Some,
        forall|k: int| 0 <= k < i ==> (#[trigger] documents[k]).text_at(key) is None,
    ensures
        given_texts(documents, key).len() > 0,
        given_texts(documents, key).first() == documents[i].text_at(key)->0,
    decreases documents.len(),
{
    let shorter = documents.drop_last();
    if i < shorter.len() {
        assert(shorter[i] == documents[i]);
        assert forall|k: int| 0 <= k < i implies (#[trigger] shorter[k]).text_at(key) is None by {
            assert(shorter[k] == documents[k]);
        }
        lemma_first_is_given(shorter, key, i);
    } else {
        assert forall|k: int| 0 <= k < shorter.len() implies (#[trigger] shorter[k]).text_at(
            key,
        ) is None by {
            assert(shorter[k] == documents[k]);
        }
        lemma_none_given(shorter, key);
    }
}

proof fn lemma_last_is_given(documents: Seq<Json>, key: Seq<char>, j: int)
    requires
        0 <= j < documents.len(),
        documents[j].text_at(key) is Some,
        forall|k: int| j < k < documents.len() ==> (#[trigger] documents[k]).text_at(key) is None,
    ensures
        given_texts(documents, key).len() > 0,
        given_texts(documents, key).last() == documents[j].text_at(key)->0,
    decreases documents.len(),
{
    let shorter = documents.drop_last();
    if j < shorter.len() {
        assert(documents[documents.len() - 1].text_at(key) is None);
        assert(shorter[j] == documents[j]);
        assert forall|k: int| j < k < shorter.len() implies (#[trigger] shorter[k]).text_at(
            key,
        ) is None by {
            assert(shorter[k] == documents[k]);
        }
        lemma_last_is_given(shorter, key, j);
    }
}

/// A show starts when the first of its seasons starts that says so.
pub proof fn law_show_starts_with_its_first_season(seasons: Seq<Json>, i: int)
    requires
        combined(seasons) is Ok,
        0 <= i < in_order(seasons).len(),
        in_order(seasons)[i].text_at("start_date"@) is Some,
        forall|k: int|
            0 <= k < i ==> (#[trigger] in_order(seasons)[k]).text_at("start_date"@) is None,
    ensures
        combined(seasons)->Ok_0.field("start_date"@) == Some(
            Json::Text(in_order(seasons)[i].text_at("start_date"@)->0),
        ),
{
    lemma_member_names();
    lemma_first_is_given(in_order(seasons), "start_date"@, i);
}

/// A show ends when the last of its seasons ends that says so.
pub proof fn law_show_ends_with_its_last_season(seasons: Seq<Json>, j: int)
    requires
        combined(seasons) is Ok,
        0 <= j < in_order(seasons).len(),
        in_order(seasons)[j].text_at("end_date"@) is Some,
        forall|k: int|
            j < k < in_order(seasons).len() ==> (#[trigger] in_order(seasons)[k]).text_at(
                "end_date"@,
            ) is None,
    ensures
        combined(seasons)->Ok_0.field("end_date"@) == Some(
            Json::Text(in_order(seasons)[j].text_at("end_date"@)->0),
        ),
{
    lemma_member_names();
    lemma_last_is_given(in_order(seasons), "end_date"@, j);
}

/// Where no season says when it starts, or none when it ends, the show does not either.
pub proof fn law_unknown_dates_stay_unknown(seasons: Seq<Json>)
    requires
        combined(seasons) is Ok,
    ensures
        (forall|k: int|
            0 <= k < in_order(seasons).len() ==> (#[trigger] in_order(seasons)[k]).text_at(
                "start_date"@,
            ) is None) ==> combined(seasons)->Ok_0.field("start_date"@) == Some(Json::Null),
        (forall|k: int|
            0 <= k < in_order(seasons).len() ==> (#[trigger] in_order(seasons)[k]).text_at(
                "end_date"@,
            ) is None) ==> combined(seasons)->Ok_0.field("end_date"@) == Some(Json::Null),
{
    lemma_member_names();
    let ordered = in_order(seasons);
    if forall|k: int|
        0 <= k < ordered.len() ==> (#[trigger] ordered[k]).text_at("start_date"@) is None {
        lemma_none_given(ordered, "start_date"@);
    }
    if forall|k: int|
        0 <= k < ordered.len() ==> (#[trigger] ordered[k]).text_at("end_date"@) is None {
        lemma_none_given(ordered, "end_date"@);
    }
}

/// The names of the members that seasons have a part in differ.
proof fn lemma_member_names()
    ensures
        "start_date"@.len() == 10,
        "end_date"@.len() == 8,
        "season"@.len() == 6,
        "season_year"@.len() == 11,
        "id"@.len() == 2,
        "title"@.len() == 5,
        "alternative_titles"@.len() == 18,
        "genres"@.len() == 6,
        "tags"@.len() == 4,
        "studios"@.len() == 7,
        "episodes"@.len() == 8,
        "episode_count"@.len() == 13,
        "season"@ != "genres"@,
        "end_date"@ != "episodes"@,
        "anime_id"@.len() == 8,
        "season_number"@.len() == 13,
        "episode_count"@ != "season_number"@,
{
    reveal_strlit("start_date");
    reveal_strlit("end_date");
    reveal_strlit("season");
    reveal_strlit("season_year");
    reveal_strlit("id");
    reveal_strlit("title");
    reveal_strlit("alternative_titles");
    reveal_strlit("genres");
    reveal_strlit("tags");
    reveal_strlit("studios");
    reveal_strlit("episodes");
    reveal_strlit("episode_count");
    reveal_strlit("anime_id");
    reveal_strlit("season_number");
    assert("season"@[0] == 's');
    assert("genres"@[0] == 'g');
    assert("end_date"@[1] == 'n');
    assert("episodes"@[1] == 'p');
    assert("episode_count"@[0] == 'e');
    assert("season_number"@[0] == 's');
}

/// Picks the identifiers of seasons.
pub open spec fn id_pick() -> spec_fn(Json) -> Option<Seq<char>> {
    |season: Json| season.text_at("id"@)
}

proof fn lemma_ids_are_picked(documents: Seq<Json>)
    ensures
        picks(documents, given_texts(documents, "id"@), id_pick()),
    decreases documents.len(),
{
    if documents.len() == 0 {
        lemma_picks_nothing(documents, given_texts(documents, "id"@), id_pick());
    } else {
        lemma_ids_are_picked(documents.drop_last());
        lemma_picks_last(documents, given_texts(documents.drop_last(), "id"@), id_pick());
    }
}

/// A show is named by the identifiers of its seasons in order, and by the title of its first season
/// without the mark of a season. It is of no one season, and of the year of its first season.
pub proof fn law_show_is_named_by_its_seasons(seasons: Seq<Json>)
    requires
        combined(seasons) is Ok,
    ensures
        exists|ids: Seq<Seq<char>>| #[trigger]
            picks(in_order(seasons), ids, id_pick()) && combined(seasons)->Ok_0.field("id"@)
                == Some(Json::Text("central:"@ + joined(ids, ","@))),
        combined(seasons)->Ok_0.field("title"@) == Some(
            Json::Text(show_title(in_order(seasons)[0].text_or_empty("title"@))),
        ),
        combined(seasons)->Ok_0.field("season"@) == Some(Json::Null),
        combined(seasons)->Ok_0.field("season_year"@) == (match in_order(seasons)[0].field(
            "year"@,
        ) {
            Some(year) => Some(year),
            None => Some(Json::Null),
        }),
{
    lemma_member_names();
    let ordered = in_order(seasons);
    lemma_ids_are_picked(ordered);
    assert(picks(ordered, given_texts(ordered, "id"@), id_pick()));
}

/// A text occurs at one of some positions.
pub open spec fn occurs_at(texts: Seq<Seq<char>>, at: Seq<int>, text: Seq<char>) -> bool {
    exists|k: int| 0 <= k < at.len() && texts[#[trigger] at[k]] == text
}

/// A list holds the texts that are not empty, each once and where it first occurs.
pub open spec fn holds_at(texts: Seq<Seq<char>>, list: Seq<Json>, at: Seq<int>) -> bool {
    &&& at.len() == list.len()
    &&& forall|k: int|
        0 <= k < at.len() ==> 0 <= #[trigger] at[k] < texts.len() && list[k] == Json::Text(
            texts[at[k]],
        ) && texts[at[k]].len() > 0
    &&& forall|k: int, l: int| 0 <= k < l < at.len() ==> #[trigger] at[k] < #[trigger] at[l]
    &&& forall|k: int, i: int|
        0 <= k < at.len() && 0 <= i < at[k] ==> #[trigger] texts[i] != texts[#[trigger] at[k]]
    &&& forall|i: int|
        0 <= i < texts.len() && (#[trigger] texts[i]).len() > 0 ==> occurs_at(texts, at, texts[i])
}

/// Texts without the white space at their ends.
pub open spec fn all_trimmed(texts: Seq<Seq<char>>) -> Seq<Seq<char>> {
    texts.map_values(|text: Seq<char>| trimmed(text))
}

/// A list is what texts are merged into: the trimmed texts that are not empty, each once and where
/// it first occurs.
pub open spec fn merges(texts: Seq<Seq<char>>, list: Json) -> bool {
    list matches Json::List(items) && exists|at: Seq<int>| #[trigger]
        holds_at(all_trimmed(texts), items, at)
}

/// The texts that are not empty, each where it first occurs.
spec fn firsts(texts: Seq<Seq<char>>) -> Seq<Seq<char>>
    decreases texts.len(),
{
    if texts.len() == 0 {
        Seq::empty()
    } else {
        let before = firsts(texts.drop_last());
        if texts.last().len() == 0 || before.contains(texts.last()) {
            before
        } else {
            before.push(texts.last())
        }
    }
}

/// The first occurrences stand at some positions.
spec fn firsts_at(texts: Seq<Seq<char>>, found: Seq<Seq<char>>, at: Seq<int>) -> bool {
    &&& at.len() == found.len()
    &&& forall|k: int|
        0 <= k < at.len() ==> 0 <= #[trigger] at[k] < texts.len() && found[k] == texts[at[k]]
            && found[k].len() > 0
    &&& forall|k: int, l: int| 0 <= k < l < at.len() ==> #[trigger] at[k] < #[trigger] at[l]
    &&& forall|k: int, i: int|
        0 <= k < at.len() && 0 <= i < at[k] ==> #[trigger] texts[i] != texts[#[trigger] at[k]]
    &&& forall|i: int|
        0 <= i < texts.len() && (#[trigger] texts[i]).len() > 0 ==> found.contains(texts[i])
}

proof fn lemma_firsts(texts: Seq<Seq<char>>) -> (at: Seq<int>)
    ensures
        firsts_at(texts, firsts(texts), at),
    decreases texts.len(),
{
    if texts.len() == 0 {
        Seq::<int>::empty()
    } else {
        let shorter = texts.drop_last();
        let before = firsts(shorter);
        let text = texts.last();
        let old = lemma_firsts(shorter);
        let last = texts.len() - 1;
        let found = firsts(texts);
        let fresh = text.len() > 0 && !before.contains(text);
        let at = if fresh {
            old.push(last)
        } else {
            old
        };
        assert forall|k: int| 0 <= k < at.len() implies 0 <= #[trigger] at[k] < texts.len()
            && found[k] == texts[at[k]] && found[k].len() > 0 by {
            if k < old.len() {
                assert(at[k] == old[k]);
                assert(shorter[old[k]] == texts[old[k]]);
            }
        }
        assert forall|k: int, l: int| 0 <= k < l < at.len() implies #[trigger] at[k]
            < #[trigger] at[l] by {
            assert(at[k] == old[k]);
            if l < old.len() {
                assert(at[l] == old[l]);
            }
        }
        assert forall|k: int, i: int| 0 <= k < at.len() && 0 <= i < at[k] implies
            #[trigger] texts[i] != texts[#[trigger] at[k]] by {
            assert(shorter[i] == texts[i]);
            if k < old.len() {
                assert(at[k] == old[k]);
                assert(shorter[old[k]] == texts[old[k]]);
            }
        }
        assert forall|i: int|
            0 <= i < texts.len() && (#[trigger] texts[i]).len() > 0 implies found.contains(
            texts[i],
        ) by {
            if i < last {
                assert(shorter[i] == texts[i]);
                let m = choose|m: int| 0 <= m < before.len() && before[m] == texts[i];
                assert(found[m] == texts[i]);
            } else if fresh {
                assert(found[before.len() as int] == text);
            }
        }
        at
    }
}

proof fn lemma_unique_firsts(values: Seq<Seq<char>>)
    ensures
        unique(values) == firsts(all_trimmed(values)),
    decreases values.len(),
{
    let all = all_trimmed(values);
    if values.len() > 0 {
        lemma_unique_firsts(values.drop_last());
        assert(all.drop_last() =~= all_trimmed(values.drop_last()));
        assert(all.last() == trimmed(values.last()));
    }
}

proof fn lemma_unique_merges(values: Seq<Seq<char>>)
    ensures
        merges(values, text_list(unique(values))),
{
    let all = all_trimmed(values);
    lemma_unique_firsts(values);
    let at = lemma_firsts(all);
    let items = text_list(unique(values))->List_0;
    assert forall|i: int| 0 <= i < all.len() && (#[trigger] all[i]).len() > 0 implies occurs_at(
        all,
        at,
        all[i],
    ) by {
        let k = choose|k: int| 0 <= k < firsts(all).len() && firsts(all)[k] == all[i];
        assert(all[at[k]] == all[i]);
    }
    assert(holds_at(all, items, at));
}

/// Picks what a season lists under a key.
pub open spec fn listing(key: Seq<char>) -> spec_fn(Json) -> Seq<Seq<char>> {
    |season: Json| season.texts_at(key)
}

proof fn lemma_listed(seasons: Seq<Json>, key: Seq<char>)
    ensures
        listed_texts(seasons, key) == seasons.map_values(listing(key)).flatten(),
    decreases seasons.len(),
{
    let parts = seasons.map_values(listing(key));
    if seasons.len() > 0 {
        lemma_listed(seasons.drop_last(), key);
        let before = seasons.drop_last().map_values(listing(key));
        before.lemma_flatten_push(parts.last());
        assert(parts =~= before.push(parts.last()));
    } else {
        assert(parts =~= Seq::empty());
    }
}

/// The genres, tags and studios of a show are those of its seasons, season after season.
pub proof fn law_show_has_what_its_seasons_list(seasons: Seq<Json>, key: Seq<char>)
    requires
        combined(seasons) is Ok,
        key == "genres"@ || key == "tags"@ || key == "studios"@,
    ensures
        combined(seasons)->Ok_0.field(key) matches Some(list) && merges(
            in_order(seasons).map_values(listing(key)).flatten(),
            list,
        ),
{
    lemma_member_names();
    let ordered = in_order(seasons);
    lemma_listed(ordered, key);
    lemma_unique_merges(listed_texts(ordered, key));
}

/// What a season is known by: its title, unless that is the show's own, and its other titles.
pub open spec fn known_by(own: Seq<char>) -> spec_fn(Json) -> Seq<Seq<char>> {
    |season: Json|
        match season.text_at("title"@) {
            Some(title) if title != own => seq![title] + season.texts_at("alternative_titles"@),
            _ => season.texts_at("alternative_titles"@),
        }
}

proof fn lemma_aliases(seasons: Seq<Json>, own: Seq<char>)
    ensures
        aliases(seasons, own) == seasons.map_values(known_by(own)).flatten(),
    decreases seasons.len(),
{
    let parts = seasons.map_values(known_by(own));
    if seasons.len() > 0 {
        lemma_aliases(seasons.drop_last(), own);
        let before = seasons.drop_last().map_values(known_by(own));
        before.lemma_flatten_push(parts.last());
        assert(parts =~= before.push(parts.last()));
        assert(season_aliases(seasons.last(), own) =~= parts.last());
    } else {
        assert(parts =~= Seq::empty());
    }
}

/// The other titles of a show are the titles and other titles of its seasons, but for its own.
pub proof fn law_show_is_known_by_the_titles_of_its_seasons(seasons: Seq<Json>)
    requires
        combined(seasons) is Ok,
    ensures
        ({
            let own = show_title(in_order(seasons)[0].text_or_empty("title"@));
            combined(seasons)->Ok_0.field("alternative_titles"@) matches Some(list) && merges(
                in_order(seasons).map_values(known_by(own)).flatten(),
                list,
            )
        }),
{
    lemma_member_names();
    let ordered = in_order(seasons);
    let own = show_title(ordered[0].text_or_empty("title"@));
    lemma_aliases(ordered, own);
    lemma_unique_merges(aliases(ordered, own));
}

/// An episode of a season became an episode of a show: it belongs to the show, it is named by its
/// season and its own name, it has a season number, its own or else the season's, and it is the
/// same in every other member.
pub open spec fn becomes(
    episode: Json,
    row: Json,
    season: Json,
    number: int,
    show_id: Seq<char>,
) -> bool {
    &&& row is Fields
    &&& row.field("anime_id"@) == Some(Json::Text(show_id))
    &&& row.field("id"@) == Some(
        Json::Text(season.text_or_empty("id"@) + ":"@ + episode.text_or_empty("id"@)),
    )
    &&& row.field("season_number"@) == (match episode.integer_at("season_number"@) {
        Some(own) => Some(Json::Integer(own as int)),
        None => Some(Json::Integer(number)),
    })
    &&& forall|key: Seq<char>|
        key != "anime_id"@ && key != "id"@ && key != "season_number"@ ==> #[trigger] row.field(key)
            == episode.field(key)
}

/// The objects.
pub open spec fn is_object() -> spec_fn(Json) -> bool {
    |document: Json| document is Fields
}

/// The episodes that a season lists as objects became episodes of a show, in their order.
pub open spec fn season_becomes(
    season: Json,
    part: Seq<Json>,
    number: int,
    show_id: Seq<char>,
) -> bool {
    match season.list_at("episodes"@) {
        Some(rows) => {
            let objects = rows.filter(is_object());
            part.len() == objects.len() && forall|k: int|
                0 <= k < part.len() ==> becomes(
                    objects[k],
                    #[trigger] part[k],
                    season,
                    number,
                    show_id,
                )
        },
        None => part.len() == 0,
    }
}

proof fn lemma_rows_become(rows: Seq<Json>, season: Json, number: int, show_id: Seq<char>)
    ensures
        show_rows(rows, season, number, show_id).len() == rows.filter(is_object()).len(),
        forall|k: int|
            0 <= k < show_rows(rows, season, number, show_id).len() ==> becomes(
                rows.filter(is_object())[k],
                #[trigger] show_rows(rows, season, number, show_id)[k],
                season,
                number,
                show_id,
            ),
    decreases rows.len(),
{
    reveal(Seq::filter);
    lemma_member_names();
    if rows.len() > 0 {
        let shorter = rows.drop_last();
        let before = show_rows(shorter, season, number, show_id);
        let all = show_rows(rows, season, number, show_id);
        lemma_rows_become(shorter, season, number, show_id);
        assert forall|k: int| 0 <= k < all.len() implies becomes(
            rows.filter(is_object())[k],
            #[trigger] all[k],
            season,
            number,
            show_id,
        ) by {
            if k < before.len() {
                assert(all[k] == before[k]);
                assert(rows.filter(is_object())[k] == shorter.filter(is_object())[k]);
            } else {
                let episode = rows.last();
                assert(all[k] == show_episode(episode->Fields_0, season, number, show_id));
                assert(Json::Fields(episode->Fields_0) == episode);
            }
        }
    }
}

/// What each season became.
spec fn parts(ordered: Seq<Json>, numbers: Seq<int>, show_id: Seq<char>) -> Seq<Seq<Json>> {
    Seq::new(ordered.len(), |i: int| season_rows(ordered[i], numbers[i], show_id))
}

proof fn lemma_all_rows_parts(ordered: Seq<Json>, numbers: Seq<int>, show_id: Seq<char>)
    requires
        ordered.len() == numbers.len(),
    ensures
        all_rows(ordered, numbers, show_id) == parts(ordered, numbers, show_id).flatten(),
    decreases ordered.len(),
{
    let all = parts(ordered, numbers, show_id);
    if ordered.len() > 0 {
        let before = parts(ordered.drop_last(), numbers.drop_last(), show_id);
        lemma_all_rows_parts(ordered.drop_last(), numbers.drop_last(), show_id);
        before.lemma_flatten_push(all.last());
        assert(all =~= before.push(all.last()));
    } else {
        assert(all =~= Seq::empty());
    }
}

/// The episodes of a show are those of its seasons, season after season, each with the number of
/// its season.
pub open spec fn seasons_become(
    ordered: Seq<Json>,
    rows: Seq<Json>,
    show_id: Seq<char>,
    parts: Seq<Seq<Json>>,
) -> bool {
    &&& parts.len() == ordered.len()
    &&& rows == parts.flatten()
    &&& forall|i: int|
        0 <= i < parts.len() ==> season_becomes(
            ordered[i],
            #[trigger] parts[i],
            numbering(ordered)[i],
            show_id,
        )
}

/// The episodes of a combined show are all the episodes of its seasons, in the order of the seasons
/// and of their lists, numbered by season.
pub proof fn law_show_has_the_episodes_of_its_seasons(seasons: Seq<Json>)
    requires
        combined(seasons) is Ok,
    ensures
        ({
            let show = combined(seasons)->Ok_0;
            &&& show.field("id"@) matches Some(Json::Text(id))
            &&& show.field("episodes"@) matches Some(Json::List(rows))
            &&& exists|p: Seq<Seq<Json>>| #[trigger]
                seasons_become(in_order(seasons), rows, id, p)
        }),
{
    lemma_member_names();
    let ordered = in_order(seasons);
    let show = combined(seasons)->Ok_0;
    let id = show.field("id"@)->0->Text_0;
    let rows = show.field("episodes"@)->0->List_0;
    let numbers = numbering(ordered);
    lemma_numbering_prefix(ordered, ordered.len() as int);
    lemma_all_rows_parts(ordered, numbers, id);
    let p = parts(ordered, numbers, id);
    assert(rows == combined_rows(ordered));
    assert forall|i: int| 0 <= i < p.len() implies season_becomes(
        ordered[i],
        #[trigger] p[i],
        numbers[i],
        id,
    ) by {
        if let Some(list) = ordered[i].list_at("episodes"@) {
            lemma_rows_become(list, ordered[i], numbers[i], id);
        }
    }
    assert(seasons_become(ordered, rows, id, p));
}

/// A show has as many episodes as it lists; where it lists none, as many as its seasons say
/// together, if that is more than none.
pub proof fn law_show_counts_its_episodes(seasons: Seq<Json>)
    requires
        combined(seasons) is Ok,
        i64::MIN <= total_count(in_order(seasons)) <= i64::MAX,
    ensures
        ({
            let show = combined(seasons)->Ok_0;
            &&& show.field("episodes"@) matches Some(Json::List(rows))
            &&& 0 < rows.len() <= i64::MAX ==> show.field("episode_count"@) == Some(
                Json::Integer(rows.len() as int),
            )
            &&& rows.len() == 0 && total_count(in_order(seasons)) > 0 ==> show.field(
                "episode_count"@,
            ) == Some(Json::Integer(total_count(in_order(seasons))))
            &&& rows.len() == 0 && total_count(in_order(seasons)) <= 0 ==> show.field(
                "episode_count"@,
            ) == Some(Json::Null)
        }),
{
    lemma_member_names();
}

/// Episode counts add up: one season counts what it says, or nothing, and more seasons count
/// together what they count apart.
pub proof fn law_episode_counts_add_up(season: Json, a: Seq<Json>, b: Seq<Json>)
    ensures
        total_count(seq![season]) == (match season.integer_at("episode_count"@) {
            Some(n) => n as int,
            None => 0,
        }),
        total_count(a + b) == total_count(a) + total_count(b),
    decreases b.len(),
{
    let one = seq![season];
    assert(one.drop_last() =~= Seq::empty());
    reveal_with_fuel(total_count, 2);
    if b.len() > 0 {
        law_episode_counts_add_up(season, a, b.drop_last());
        assert((a + b).drop_last() =~= a + b.drop_last());
        assert((a + b).last() == b.last());
    } else {
        assert(a + b =~= a);
    }
}

/// What no season but the first has a part in, the show has from the first.
pub proof fn law_other_members_are_the_first_seasons(seasons: Seq<Json>, key: Seq<char>)
    requires
        combined(seasons) is Ok,
        key != "id"@ && key != "title"@ && key != "alternative_titles"@ && key != "genres"@ && key
            != "tags"@ && key != "studios"@ && key != "episodes"@ && key != "episode_count"@ && key
            != "start_date"@ && key != "end_date"@ && key != "season"@ && key != "season_year"@,
    ensures
        combined(seasons)->Ok_0.field(key) == in_order(seasons)[0].field(key),
{
}

} // verus!
