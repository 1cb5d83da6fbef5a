//! The titles that a show is known by, and what to search for to find it elsewhere.

use crate::json::{lemma_models, models, string_array, string_field, Json, Value};
use crate::models::AnimeMetadata;
use crate::ordering::{lemma_sorted_positions, sorted_by, sorted_positions, KeyModel, SortKey};
use crate::text::{append_strings, contains_text, is_blank, texts, trim};
use crate::titles::{base_show_title, normalize_title_key, show_title, title_key};
use vstd::prelude::*;

verus! {

/// The text under a key as a sequence, empty where there is none.
pub open spec fn optional_text(text: Option<Seq<char>>) -> Seq<Seq<char>> {
    match text {
        Some(text) => seq![text],
        None => Seq::empty(),
    }
}

/// The titles that a season gives: its own, others, and the original one.
pub open spec fn season_titles(season: Json) -> Seq<Seq<char>> {
    optional_text(season.text_at("title"@)) + season.texts_at("alternative_titles"@)
        + optional_text(season.text_at("original_title"@))
}

/// The titles that seasons give, one season after the other.
pub open spec fn all_titles(seasons: Seq<Json>) -> Seq<Seq<char>>
    decreases seasons.len(),
{
    if seasons.len() == 0 {
        Seq::empty()
    } else {
        all_titles(seasons.drop_last()) + season_titles(seasons.last())
    }
}

/// The texts that are not blank.
pub open spec fn not_blank(all: Seq<Seq<char>>) -> Seq<Seq<char>> {
    all.filter(|text: Seq<char>| !is_blank(text))
}

/// The titles that seasons are known by.
pub open spec fn titles(seasons: Seq<Json>) -> Seq<Seq<char>> {
    not_blank(all_titles(seasons))
}

/// Each text where it first occurs.
pub open spec fn distinct(all: Seq<Seq<char>>) -> Seq<Seq<char>>
    decreases all.len(),
{
    if all.len() == 0 {
        Seq::empty()
    } else {
        let before = distinct(all.drop_last());
        if before.contains(all.last()) {
            before
        } else {
            before.push(all.last())
        }
    }
}

/// The keys of the titles that seasons are known by.
pub open spec fn title_keys(seasons: Seq<Json>) -> Seq<Seq<char>> {
    distinct(titles(seasons).map_values(|title: Seq<char>| title_key(title)))
}

/// The titles of the shows that seasons belong to.
pub open spec fn queries(seasons: Seq<Json>) -> Seq<Seq<char>> {
    distinct(titles(seasons).map_values(|title: Seq<char>| show_title(title)))
}

/// What texts are sorted by.
pub open spec fn by_text() -> spec_fn(Seq<char>) -> KeyModel {
    |text: Seq<char>| KeyModel { major: 0, minor: 0, text, last: 0 }
}

/// Texts in alphabetical order.
pub open spec fn alphabetical(all: Seq<Seq<char>>) -> Seq<Seq<char>> {
    sorted_by(all, by_text())
}

/// The episodes of some season are listed.
pub open spec fn episodes_listed(seasons: Seq<Json>) -> bool {
    exists|i: int|
        0 <= i < seasons.len() && ((#[trigger] seasons[i]).list_at("episodes"@) matches Some(rows)
            && rows.len() > 0)
}

/// The titles that a season gives.
fn titles_of(season: &Value) -> (found: Vec<String>)
    ensures
        texts(found@) == season_titles(season@),
{
    let mut found: Vec<String> = Vec::new();
    if let Some(title) = string_field(season, "title") {
        found.push(title.to_owned());
    }
    assert(texts(found@) =~= optional_text(season@.text_at("title"@)));
    append_strings(&mut found, string_array(season, "alternative_titles"));
    let ghost before = found@;
    if let Some(title) = string_field(season, "original_title") {
        found.push(title.to_owned());
    }
    assert(texts(found@) =~= texts(before) + optional_text(season@.text_at("original_title"@)));
    found
}

/// The titles that seasons are known by, without blank ones.
pub fn metadata_titles(seasons: &[AnimeMetadata]) -> (found: Vec<String>)
    ensures
        texts(found@) == titles(models(seasons@)),
{
    let ghost documents = models(seasons@);
    let mut all: Vec<String> = Vec::new();
    let mut i: usize = 0;
    assert(texts(all@) =~= all_titles(documents.take(0)));
    while i < seasons.len()
        invariant
            documents == models(seasons@),
            i <= seasons@.len(),
            texts(all@) == all_titles(documents.take(i as int)),
        decreases seasons@.len() - i,
    {
        proof {
            lemma_models(seasons@);
            assert(documents.take(i + 1).drop_last() =~= documents.take(i as int));
        }
        append_strings(&mut all, titles_of(&seasons[i]));
        i = i + 1;
    }
    proof {
        lemma_models(seasons@);
        assert(documents.take(i as int) =~= documents);
    }
    without_blank(all)
}

/// Drops the texts that are blank.
fn without_blank(all: Vec<String>) -> (found: Vec<String>)
    ensures
        texts(found@) == not_blank(texts(all@)),
{
    let ghost every = texts(all@);
    let mut found: Vec<String> = Vec::new();
    let mut k: usize = 0;
    proof {
        reveal(Seq::filter);
        assert(texts(found@) =~= not_blank(every.take(0)));
    }
    while k < all.len()
        invariant
            every == texts(all@),
            k <= all@.len(),
            texts(found@) == not_blank(every.take(k as int)),
        decreases all@.len() - k,
    {
        proof {
            reveal(Seq::filter);
            assert(every.take(k + 1).drop_last() =~= every.take(k as int));
        }
        if !trim(all[k].as_str()).is_empty() {
            let ghost before = found@;
            found.push(all[k].clone());
            assert(texts(found@) =~= texts(before).push(every[k as int]));
        }
        k = k + 1;
    }
    assert(every.take(k as int) =~= every);
    found
}

/// Adds a text, unless it is there.
pub(crate) fn add_distinct(found: &mut Vec<String>, text: String)
    ensures
        texts(final(found)@) == (if texts(old(found)@).contains(text@) {
            texts(old(found)@)
        } else {
            texts(old(found)@).push(text@)
        }),
{
    if !contains_text(found, text.as_str()) {
        let ghost before = found@;
        found.push(text);
        assert(texts(found@) =~= texts(before).push(text@));
    }
}

/// The keys of the titles that seasons are known by, each once.
pub fn metadata_title_keys(seasons: &[AnimeMetadata]) -> (keys: Vec<String>)
    ensures
        texts(keys@) == title_keys(models(seasons@)),
{
    let all = metadata_titles(seasons);
    let ghost mapped = texts(all@).map_values(|title: Seq<char>| title_key(title));
    let mut keys: Vec<String> = Vec::new();
    let mut i: usize = 0;
    assert(texts(keys@) =~= distinct(mapped.take(0)));
    while i < all.len()
        invariant
            mapped == texts(all@).map_values(|title: Seq<char>| title_key(title)),
            i <= all@.len(),
            texts(keys@) == distinct(mapped.take(i as int)),
        decreases all@.len() - i,
    {
        assert(mapped.take(i + 1).drop_last() =~= mapped.take(i as int));
        add_distinct(&mut keys, normalize_title_key(all[i].as_str()));
        i = i + 1;
    }
    assert(mapped.take(i as int) =~= mapped);
    keys
}

/// The titles of the shows that seasons belong to, each once.
pub fn metadata_queries(seasons: &[AnimeMetadata]) -> (found: Vec<String>)
    ensures
        texts(found@) == queries(models(seasons@)),
{
    let all = metadata_titles(seasons);
    let ghost mapped = texts(all@).map_values(|title: Seq<char>| show_title(title));
    let mut found: Vec<String> = Vec::new();
    let mut i: usize = 0;
    assert(texts(found@) =~= distinct(mapped.take(0)));
    while i < all.len()
        invariant
            mapped == texts(all@).map_values(|title: Seq<char>| show_title(title)),
            i <= all@.len(),
            texts(found@) == distinct(mapped.take(i as int)),
        decreases all@.len() - i,
    {
        assert(mapped.take(i + 1).drop_last() =~= mapped.take(i as int));
        add_distinct(&mut found, base_show_title(all[i].as_str()));
        i = i + 1;
    }
    assert(mapped.take(i as int) =~= mapped);
    found
}

/// Puts texts in alphabetical order.
pub(crate) fn sort_texts(all: &Vec<String>) -> (sorted: Vec<String>)
    ensures
        texts(sorted@) == alphabetical(texts(all@)),
{
    let ghost every = texts(all@);
    let mut keys: Vec<SortKey> = Vec::new();
    let mut i: usize = 0;
    while i < all.len()
        invariant
            every == texts(all@),
            i <= all@.len(),
            keys@.len() == i,
            forall|k: int| 0 <= k < i ==> (#[trigger] keys@[k])@ == by_text()(every[k]),
        decreases all@.len() - i,
    {
        keys.push(SortKey { major: 0, minor: 0, text: all[i].clone(), last: 0 });
        i = i + 1;
    }
    let ghost key = |k: usize| by_text()(every[k as int]);
    let order = sorted_positions(&keys, Ghost(key));
    let mut sorted: Vec<String> = Vec::new();
    let mut k: usize = 0;
    while k < order.len()
        invariant
            every == texts(all@),
            k <= order@.len(),
            sorted@.len() == k,
            forall|j: int| 0 <= j < order@.len() ==> #[trigger] order@[j] < all@.len(),
            forall|j: int| 0 <= j < k ==> (#[trigger] sorted@[j])@ == every[order@[j] as int],
        decreases order@.len() - k,
    {
        sorted.push(all[order[k]].clone());
        k = k + 1;
    }
    proof {
        lemma_sorted_positions(every, by_text());
        assert(texts(sorted@) =~= order@.map_values(|i: usize| every[i as int]));
    }
    sorted
}

/// What to search for, in alphabetical order.
pub fn sorted_queries(seasons: &[AnimeMetadata]) -> (sorted: Vec<String>)
    ensures
        texts(sorted@) == alphabetical(queries(models(seasons@))),
{
    sort_texts(&metadata_queries(seasons))
}

/// Whether the episodes of some season are listed.
pub fn has_episode_rows(seasons: &[AnimeMetadata]) -> (yes: bool)
    ensures
        yes == episodes_listed(models(seasons@)),
{
    let ghost documents = models(seasons@);
    let mut i: usize = 0;
    while i < seasons.len()
        invariant
            documents == models(seasons@),
            i <= seasons@.len(),
            forall|k: int|
                0 <= k < i ==> !((#[trigger] documents[k]).list_at("episodes"@) matches Some(rows)
                    && rows.len() > 0),
        decreases seasons@.len() - i,
    {
        proof {
            lemma_models(seasons@);
        }
        if let Some(member) = seasons[i].get("episodes") {
            if let Some(rows) = member.as_array() {
                proof {
                    lemma_models(rows@);
                }
                if rows.len() > 0 {
                    assert(documents[i as int].list_at("episodes"@) is Some);
                    return true;
                }
            }
        }
        i = i + 1;
    }
    proof {
        lemma_models(seasons@);
    }
    false
}

/// Each text is kept, and none occurs twice.
pub proof fn law_distinct_keeps_each_text(all: Seq<Seq<char>>)
    ensures
        distinct(all).no_duplicates(),
        forall|text: Seq<char>| #[trigger] distinct(all).contains(text) == all.contains(text),
    decreases all.len(),
{
    if all.len() > 0 {
        let shorter = all.drop_last();
        let before = distinct(shorter);
        law_distinct_keeps_each_text(shorter);
        assert forall|text: Seq<char>| #[trigger] distinct(all).contains(text) == all.contains(
            text,
        ) by {
            assert(before.contains(text) == shorter.contains(text));
            if shorter.contains(text) {
                let i = choose|i: int| 0 <= i < shorter.len() && shorter[i] == text;
                assert(all[i] == text);
                let k = choose|k: int| 0 <= k < before.len() && before[k] == text;
                assert(distinct(all)[k] == text);
            }
            if all.contains(text) && !shorter.contains(text) {
                let i = choose|i: int| 0 <= i < all.len() && all[i] == text;
                if i < all.len() - 1 {
                    assert(shorter[i] == text);
                }
                assert(distinct(all)[before.len() as int] == text);
            }
            if distinct(all).contains(text) && !before.contains(text) {
                assert(all[all.len() - 1] == text);
            }
        }
    }
}

} // verus!
