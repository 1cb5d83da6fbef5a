//! What a show is known by, and what is searched for.

use crate::json::Json;
use crate::laws::{lemma_filter_picks, picks, those};
use crate::ordering::{
    key_before, law_sorting_keeps_items, law_sorting_orders, law_sorting_repeats_none,
};
use crate::queries::{
    all_titles, alphabetical, by_text, distinct, episodes_listed, law_distinct_keeps_each_text,
    not_blank, queries, season_titles, title_keys, titles,
};
use crate::text::{lemma_before_total, text_before, trimmed};
use crate::titles::{show_title, title_key};
use vstd::prelude::*;

verus! {

/// The titles that a season gives: its own, its other ones, the original one.
pub open spec fn given_titles() -> spec_fn(Json) -> Seq<Seq<char>> {
    |season: Json|
        (match season.text_at("title"@) {
            Some(title) => seq![title],
            None => Seq::empty(),
        }) + season.texts_at("alternative_titles"@) + (match season.text_at("original_title"@) {
            Some(title) => seq![title],
            None => Seq::empty(),
        })
}

/// Texts of which something is left once they are trimmed.
pub open spec fn is_some_text() -> spec_fn(Seq<char>) -> bool {
    |text: Seq<char>| trimmed(text).len() > 0
}

proof fn lemma_all_titles(seasons: Seq<Json>)
    ensures
        all_titles(seasons) == seasons.map_values(given_titles()).flatten(),
    decreases seasons.len(),
{
    let parts = seasons.map_values(given_titles());
    if seasons.len() > 0 {
        lemma_all_titles(seasons.drop_last());
        let before = seasons.drop_last().map_values(given_titles());
        before.lemma_flatten_push(parts.last());
        assert(parts =~= before.push(parts.last()));
        assert(season_titles(seasons.last()) =~= parts.last());
    } else {
        assert(parts =~= Seq::empty());
    }
}

proof fn lemma_same_not_blank(all: Seq<Seq<char>>)
    ensures
        not_blank(all) == all.filter(is_some_text()),
    decreases all.len(),
{
    reveal(Seq::filter);
    if all.len() > 0 {
        lemma_same_not_blank(all.drop_last());
    }
}

/// Seasons are known by all the titles that they give, in their order, but for blank ones.
pub proof fn law_seasons_are_known_by_their_titles(seasons: Seq<Json>)
    ensures
        picks(
            seasons.map_values(given_titles()).flatten(),
            titles(seasons),
            those(is_some_text()),
        ),
{
    lemma_all_titles(seasons);
    lemma_same_not_blank(all_titles(seasons));
    lemma_filter_picks(all_titles(seasons), is_some_text());
}

/// The keys of seasons are the keys of the titles that they are known by, each once.
pub proof fn law_keys_are_those_of_the_titles(seasons: Seq<Json>, key: Seq<char>)
    ensures
        title_keys(seasons).contains(key) <==> exists|k: int|
            0 <= k < titles(seasons).len() && title_key(#[trigger] titles(seasons)[k]) == key,
        title_keys(seasons).no_duplicates(),
{
    let all = titles(seasons).map_values(|title: Seq<char>| title_key(title));
    law_distinct_keeps_each_text(all);
    assert(distinct(all).contains(key) == all.contains(key));
    if all.contains(key) {
        let k = choose|k: int| 0 <= k < all.len() && all[k] == key;
        assert(title_key(titles(seasons)[k]) == key);
    }
    if exists|k: int|
        0 <= k < titles(seasons).len() && title_key(#[trigger] titles(seasons)[k]) == key {
        let k = choose|k: int|
            0 <= k < titles(seasons).len() && title_key(#[trigger] titles(seasons)[k]) == key;
        assert(all[k] == key);
    }
}

/// What is searched for is the titles of the shows that seasons belong to, each once and in
/// alphabetical order.
pub proof fn law_searches_are_for_the_shows(seasons: Seq<Json>, query: Seq<char>)
    ensures
        alphabetical(queries(seasons)).contains(query) <==> exists|k: int|
            0 <= k < titles(seasons).len() && show_title(#[trigger] titles(seasons)[k]) == query,
        forall|i: int, j: int|
            0 <= i < j < alphabetical(queries(seasons)).len() ==> text_before(
                #[trigger] alphabetical(queries(seasons))[i],
                #[trigger] alphabetical(queries(seasons))[j],
            ),
{
    let all = titles(seasons).map_values(|title: Seq<char>| show_title(title));
    let found = queries(seasons);
    let sorted = alphabetical(found);
    law_distinct_keeps_each_text(all);
    law_sorting_keeps_items(found, by_text());
    law_sorting_orders(found, by_text());
    law_sorting_repeats_none(found, by_text());
    assert(sorted.contains(query) == found.contains(query));
    assert(found.contains(query) == all.contains(query));
    if all.contains(query) {
        let k = choose|k: int| 0 <= k < all.len() && all[k] == query;
        assert(show_title(titles(seasons)[k]) == query);
    }
    if exists|k: int|
        0 <= k < titles(seasons).len() && show_title(#[trigger] titles(seasons)[k]) == query {
        let k = choose|k: int|
            0 <= k < titles(seasons).len() && show_title(#[trigger] titles(seasons)[k]) == query;
        assert(all[k] == query);
    }
    assert forall|i: int, j: int| 0 <= i < j < sorted.len() implies text_before(
        #[trigger] sorted[i],
        #[trigger] sorted[j],
    ) by {
        assert(!key_before(by_text()(sorted[j]), by_text()(sorted[i])));
        assert(sorted[i] != sorted[j]);
        lemma_before_total(sorted[i], sorted[j]);
    }
}

/// Episodes are listed where one season has a list with something in it, whatever the others say.
pub proof fn law_one_listed_episode_is_enough(seasons: Seq<Json>, i: int, rows: Seq<Json>)
    requires
        0 <= i < seasons.len(),
        seasons[i].field("episodes"@) == Some(Json::List(rows)),
        rows.len() > 0,
    ensures
        episodes_listed(seasons),
{
    assert(seasons[i].list_at("episodes"@) == Some(rows));
}

/// No episodes are listed where every season lacks a list of them or has an empty one.
pub proof fn law_empty_lists_list_nothing(seasons: Seq<Json>)
    requires
        forall|i: int|
            0 <= i < seasons.len() ==> !((#[trigger] seasons[i]).field("episodes"@) matches Some(
                Json::List(rows),
            ) && rows.len() > 0),
    ensures
        !episodes_listed(seasons),
{
}

} // verus!
