//! Merges the descriptions of a show's seasons into one description of the show.

use crate::json::{
    int_field, integer_or_null, lemma_models, lemma_models_push, models, option_int, string_array,
    string_field, string_or_empty, strings_array, text_list, text_or_null, Json, Object, Value,
};
use crate::models::AnimeMetadata;
use crate::ordering::{law_sorting_ignores_order, law_sorting_orders, with_key, KeyModel};
use crate::seasons::{
    by_season, highest, in_order, lemma_numbering_prefix, number_seasons, numbering,
    numbering_fits, sorted_seasons, unbounded,
};
use crate::text::{
    append_strings, contains_text, joined, law_trimming_is_final, same_text, texts, trim, trimmed,
};
use crate::titles::{base_show_title, show_title};
use vstd::prelude::*;

verus! {

/// Why seasons cannot be combined.
#[derive(Clone, Copy, Debug, PartialEq, Eq, Structural)]
pub enum CombineError {
    /// There is no season.
    NoSeason,
    /// The first season is not described by a JSON object.
    NotAnObject,
}

impl CombineError {
    /// The error in words.
    pub fn message(&self) -> (text: &'static str)
        ensures
            text@ == (match *self {
                CombineError::NoSeason => "at least one season is required"@,
                CombineError::NotAnObject => "anime metadata must be a JSON object"@,
            }),
    {
        match self {
            CombineError::NoSeason => "at least one season is required",
            CombineError::NotAnObject => "anime metadata must be a JSON object",
        }
    }
}

/// The texts that documents have under a key, where they are not blank.
pub open spec fn given_texts(documents: Seq<Json>, key: Seq<char>) -> Seq<Seq<char>>
    decreases documents.len(),
{
    if documents.len() == 0 {
        Seq::empty()
    } else {
        let before = given_texts(documents.drop_last(), key);
        match documents.last().text_at(key) {
            Some(text) => before.push(text),
            None => before,
        }
    }
}

/// The texts that documents list under a key, one list after the other.
pub open spec fn listed_texts(documents: Seq<Json>, key: Seq<char>) -> Seq<Seq<char>>
    decreases documents.len(),
{
    if documents.len() == 0 {
        Seq::empty()
    } else {
        listed_texts(documents.drop_last(), key) + documents.last().texts_at(key)
    }
}

/// The titles other than the show's own that one season is known by.
pub open spec fn season_aliases(season: Json, base_title: Seq<char>) -> Seq<Seq<char>> {
    let own = match season.text_at("title"@) {
        Some(title) => if title != base_title {
            seq![title]
        } else {
            Seq::empty()
        },
        None => Seq::empty(),
    };
    own + season.texts_at("alternative_titles"@)
}

/// The titles other than the show's own that the seasons are known by.
pub open spec fn aliases(seasons: Seq<Json>, base_title: Seq<char>) -> Seq<Seq<char>>
    decreases seasons.len(),
{
    if seasons.len() == 0 {
        Seq::empty()
    } else {
        aliases(seasons.drop_last(), base_title) + season_aliases(seasons.last(), base_title)
    }
}

/// Trimmed texts, each where it first occurs, without blank ones.
pub open spec fn unique(values: Seq<Seq<char>>) -> Seq<Seq<char>>
    decreases values.len(),
{
    if values.len() == 0 {
        Seq::empty()
    } else {
        let before = unique(values.drop_last());
        let text = trimmed(values.last());
        if text.len() == 0 || before.contains(text) {
            before
        } else {
            before.push(text)
        }
    }
}

/// Trims texts and keeps each where it first occurs, without blank ones.
fn unique_strings(values: &Vec<String>) -> (output: Vec<String>)
    ensures
        texts(output@) == unique(texts(values@)),
{
    let ghost all = texts(values@);
    let mut output: Vec<String> = Vec::new();
    let mut i: usize = 0;
    assert(texts(output@) =~= unique(all.take(0)));
    while i < values.len()
        invariant
            all == texts(values@),
            i <= values@.len(),
            texts(output@) == unique(all.take(i as int)),
        decreases values@.len() - i,
    {
        assert(all.take(i + 1).drop_last() =~= all.take(i as int));
        let normalized = trim(values[i].as_str());
        if !normalized.is_empty() && !contains_text(&output, normalized) {
            let ghost before = output@;
            output.push(normalized.to_owned());
            assert(texts(output@) =~= texts(before).push(normalized@));
        }
        i = i + 1;
    }
    assert(all.take(i as int) =~= all);
    output
}

/// Joins the identifiers of seasons by commas.
fn joined_ids(ordered: &Vec<Value>) -> (ids: String)
    ensures
        ids@ == joined(given_texts(models(ordered@), "id"@), ","@),
{
    let ghost documents = models(ordered@);
    let mut ids: String = String::new();
    let mut none = true;
    let mut i: usize = 0;
    proof {
        lemma_models(ordered@);
        assert(given_texts(documents.take(0), "id"@) =~= Seq::<Seq<char>>::empty());
    }
    while i < ordered.len()
        invariant
            documents == models(ordered@),
            i <= ordered@.len(),
            ids@ == joined(given_texts(documents.take(i as int), "id"@), ","@),
            none == (given_texts(documents.take(i as int), "id"@).len() == 0),
        decreases ordered@.len() - i,
    {
        proof {
            lemma_models(ordered@);
            assert(documents.take(i + 1).drop_last() =~= documents.take(i as int));
        }
        let ghost before = given_texts(documents.take(i as int), "id"@);
        if let Some(id) = string_field(&ordered[i], "id") {
            assert(before.push(id@).drop_last() =~= before);
            if none {
                ids = id.to_owned();
            } else {
                ids = ids.concat(",").concat(id);
            }
            none = false;
        }
        i = i + 1;
    }
    proof {
        lemma_models(ordered@);
        assert(documents.take(i as int) =~= documents);
    }
    ids
}

/// The texts that seasons list under a key, trimmed and without repetition.
fn unique_listed(ordered: &Vec<Value>, key: &str) -> (value: Value)
    ensures
        value@ == text_list(unique(listed_texts(models(ordered@), key@))),
{
    let ghost documents = models(ordered@);
    let mut all: Vec<String> = Vec::new();
    let mut i: usize = 0;
    assert(texts(all@) =~= listed_texts(documents.take(0), key@));
    while i < ordered.len()
        invariant
            documents == models(ordered@),
            i <= ordered@.len(),
            texts(all@) == listed_texts(documents.take(i as int), key@),
        decreases ordered@.len() - i,
    {
        proof {
            lemma_models(ordered@);
            assert(documents.take(i + 1).drop_last() =~= documents.take(i as int));
        }
        append_strings(&mut all, string_array(&ordered[i], key));
        i = i + 1;
    }
    proof {
        lemma_models(ordered@);
        assert(documents.take(i as int) =~= documents);
    }
    strings_array(unique_strings(&all))
}

/// The titles other than the show's own, trimmed and without repetition.
fn unique_aliases(ordered: &Vec<Value>, base_title: &str) -> (value: Value)
    ensures
        value@ == text_list(unique(aliases(models(ordered@), base_title@))),
{
    let ghost documents = models(ordered@);
    let mut all: Vec<String> = Vec::new();
    let mut i: usize = 0;
    assert(texts(all@) =~= aliases(documents.take(0), base_title@));
    while i < ordered.len()
        invariant
            documents == models(ordered@),
            i <= ordered@.len(),
            texts(all@) == aliases(documents.take(i as int), base_title@),
        decreases ordered@.len() - i,
    {
        proof {
            lemma_models(ordered@);
            assert(documents.take(i + 1).drop_last() =~= documents.take(i as int));
        }
        let ghost before = texts(all@);
        let ghost mut own = Seq::<Seq<char>>::empty();
        if let Some(title) = string_field(&ordered[i], "title") {
            if !same_text(title, base_title) {
                let ghost strings = all@;
                all.push(title.to_owned());
                proof {
                    own = seq![title@];
                    assert(texts(all@) =~= texts(strings).push(title@));
                }
            }
        }
        assert(texts(all@) =~= before + own);
        let listed = string_array(&ordered[i], "alternative_titles");
        let ghost more = texts(listed@);
        append_strings(&mut all, listed);
        assert((before + own) + more =~= before + (own + more));
        i = i + 1;
    }
    proof {
        lemma_models(ordered@);
        assert(documents.take(i as int) =~= documents);
    }
    strings_array(unique_strings(&all))
}

/// An episode of a season as an episode of the show.
pub open spec fn show_episode(
    fields: Map<Seq<char>, Json>,
    season: Json,
    number: int,
    central_id: Seq<char>,
) -> Json {
    let episode = Json::Fields(fields);
    let owned = fields.insert("anime_id"@, Json::Text(central_id));
    let numbered = if episode.integer_at("season_number"@) is None {
        owned.insert("season_number"@, Json::Integer(number))
    } else {
        owned
    };
    let id = season.text_or_empty("id"@) + ":"@ + episode.text_or_empty("id"@);
    Json::Fields(numbered.insert("id"@, Json::Text(id)))
}

/// The rows of a season that are objects, as episodes of the show.
pub open spec fn show_rows(
    rows: Seq<Json>,
    season: Json,
    number: int,
    central_id: Seq<char>,
) -> Seq<Json>
    decreases rows.len(),
{
    if rows.len() == 0 {
        Seq::empty()
    } else {
        let before = show_rows(rows.drop_last(), season, number, central_id);
        match rows.last() {
            Json::Fields(fields) => before.push(show_episode(fields, season, number, central_id)),
            _ => before,
        }
    }
}

/// The episodes that one season adds to the show.
pub open spec fn season_rows(season: Json, number: int, central_id: Seq<char>) -> Seq<Json> {
    match season.list_at("episodes"@) {
        Some(rows) => show_rows(rows, season, number, central_id),
        None => Seq::empty(),
    }
}

/// The episodes of the show, season after season.
pub open spec fn all_rows(
    ordered: Seq<Json>,
    numbers: Seq<int>,
    central_id: Seq<char>,
) -> Seq<Json>
    decreases ordered.len(),
{
    if ordered.len() == 0 {
        Seq::empty()
    } else {
        all_rows(ordered.drop_last(), numbers.drop_last(), central_id) + season_rows(
            ordered.last(),
            numbers.last(),
            central_id,
        )
    }
}

/// Turns one row of a season into an episode of the show.
fn merge_episode(object: &Object, season: &Value, number: i64, central_id: &str) -> (merged: Value)
    ensures
        merged@ == show_episode(object@, season@, number as int, central_id@),
{
    let episode = Value::Object(object.clone());
    let id = string_or_empty(season, "id").to_owned().concat(":").concat(
        string_or_empty(&episode, "id"),
    );
    let mut merged = object.clone();
    merged.insert("anime_id", Value::from_text(central_id));
    if int_field(&episode, "season_number").is_none() {
        merged.insert("season_number", Value::from_integer(number));
    }
    merged.insert("id", Value::String(id));
    Value::Object(merged)
}

/// Adds the episodes of one season to those of the show.
fn merge_season(episodes: &mut Vec<Value>, season: &Value, number: i64, central_id: &str)
    ensures
        models(final(episodes)@) == models(old(episodes)@) + season_rows(
            season@,
            number as int,
            central_id@,
        ),
{
    let ghost start = models(episodes@);
    let list = season.get("episodes");
    if let Some(list) = list {
        if let Some(rows) = list.as_array() {
            let ghost documents = models(rows@);
            let mut i: usize = 0;
            assert(models(episodes@) =~= start + show_rows(
                documents.take(0),
                season@,
                number as int,
                central_id@,
            ));
            while i < rows.len()
                invariant
                    documents == models(rows@),
                    i <= rows@.len(),
                    models(episodes@) == start + show_rows(
                        documents.take(i as int),
                        season@,
                        number as int,
                        central_id@,
                    ),
                decreases rows@.len() - i,
            {
                proof {
                    lemma_models(rows@);
                    assert(documents.take(i + 1).drop_last() =~= documents.take(i as int));
                }
                if let Some(object) = rows[i].as_object() {
                    let merged = merge_episode(object, season, number, central_id);
                    proof {
                        lemma_models_push(episodes@, merged);
                    }
                    let ghost before = show_rows(
                        documents.take(i as int),
                        season@,
                        number as int,
                        central_id@,
                    );
                    episodes.push(merged);
                    assert((start + before).push(merged@) =~= start + before.push(merged@));
                }
                i = i + 1;
            }
            proof {
                lemma_models(rows@);
                assert(documents.take(i as int) =~= documents);
            }
            return ;
        }
    }
    assert(start + Seq::<Json>::empty() =~= start);
}

/// Puts the episodes of all seasons in one list.
pub fn combined_episodes(
    seasons: &Vec<Value>,
    numbers: &Vec<i64>,
    central_id: &str,
) -> (episodes: Vec<Value>)
    requires
        numbers@.len() == seasons@.len(),
    ensures
        models(episodes@) == all_rows(models(seasons@), unbounded(numbers@), central_id@),
{
    let ghost documents = models(seasons@);
    let ghost all = unbounded(numbers@);
    let mut episodes: Vec<Value> = Vec::new();
    let mut i: usize = 0;
    while i < seasons.len()
        invariant
            documents == models(seasons@),
            all == unbounded(numbers@),
            numbers@.len() == seasons@.len(),
            i <= seasons@.len(),
            models(episodes@) == all_rows(
                documents.take(i as int),
                all.take(i as int),
                central_id@,
            ),
        decreases seasons@.len() - i,
    {
        proof {
            lemma_models(seasons@);
            assert(documents.take(i + 1).drop_last() =~= documents.take(i as int));
            assert(all.take(i + 1).drop_last() =~= all.take(i as int));
        }
        merge_season(&mut episodes, &seasons[i], numbers[i], central_id);
        i = i + 1;
    }
    proof {
        lemma_models(seasons@);
        assert(documents.take(i as int) =~= documents);
        assert(all.take(i as int) =~= all);
    }
    episodes
}

/// The sum of the episode counts that seasons give.
pub open spec fn total_count(seasons: Seq<Json>) -> int
    decreases seasons.len(),
{
    if seasons.len() == 0 {
        0
    } else {
        total_count(seasons.drop_last()) + match seasons.last().integer_at("episode_count"@) {
            Some(n) => n as int,
            None => 0,
        }
    }
}

/// Adding up the episode counts stays within range at every step.
pub open spec fn counts_fit(seasons: Seq<Json>) -> bool {
    forall|k: int|
        0 <= k <= seasons.len() ==> i64::MIN <= total_count(#[trigger] seasons.take(k)) <= i64::MAX
}

/// Adds up the episode counts that seasons give, unless a step falls out of range.
fn add_counts(seasons: &Vec<Value>) -> (total: Option<i64>)
    ensures
        total is Some == counts_fit(models(seasons@)),
        total matches Some(n) ==> n == total_count(models(seasons@)),
{
    let ghost documents = models(seasons@);
    let mut total: i64 = 0;
    let mut i: usize = 0;
    while i < seasons.len()
        invariant
            documents == models(seasons@),
            i <= seasons@.len(),
            total == total_count(documents.take(i as int)),
            forall|k: int|
                0 <= k <= i ==> i64::MIN <= total_count(#[trigger] documents.take(k)) <= i64::MAX,
        decreases seasons@.len() - i,
    {
        proof {
            lemma_models(seasons@);
            assert(documents.take(i + 1).drop_last() =~= documents.take(i as int));
        }
        if let Some(n) = int_field(&seasons[i], "episode_count") {
            match total.checked_add(n) {
                Some(sum) => {
                    total = sum;
                },
                None => {
                    assert(!(i64::MIN <= total_count(documents.take(i + 1)) <= i64::MAX));
                    return None;
                },
            }
        }
        i = i + 1;
    }
    proof {
        lemma_models(seasons@);
        assert(documents.take(i as int) =~= documents);
    }
    Some(total)
}

/// The number of episodes of a show: those that are listed, or else what the seasons give.
pub open spec fn episode_count(ordered: Seq<Json>, rows: Seq<Json>) -> Option<i64> {
    if rows.len() > 0 {
        Some(rows.len() as i64)
    } else if total_count(ordered) > 0 {
        Some(total_count(ordered) as i64)
    } else {
        None
    }
}

/// The first text under a key that is not blank.
pub open spec fn first_given(documents: Seq<Json>, key: Seq<char>) -> Option<Seq<char>> {
    let given = given_texts(documents, key);
    if given.len() == 0 {
        None
    } else {
        Some(given.first())
    }
}

/// The last text under a key that is not blank.
pub open spec fn last_given(documents: Seq<Json>, key: Seq<char>) -> Option<Seq<char>> {
    let given = given_texts(documents, key);
    if given.len() == 0 {
        None
    } else {
        Some(given.last())
    }
}

/// A text that some of the documents give first, all of them give first.
proof fn lemma_first_given(documents: Seq<Json>, key: Seq<char>, k: int)
    requires
        0 <= k <= documents.len(),
        given_texts(documents.take(k), key).len() > 0,
    ensures
        first_given(documents, key) == first_given(documents.take(k), key),
    decreases documents.len(),
{
    if k == documents.len() {
        assert(documents.take(k) =~= documents);
    } else {
        assert(documents.drop_last().take(k) =~= documents.take(k));
        lemma_first_given(documents.drop_last(), key, k);
    }
}

/// Finds the first text under a key that is not blank.
pub(crate) fn first_string<'a>(items: &'a [Value], key: &str) -> (text: Option<&'a str>)
    ensures
        text is Some == first_given(models(items@), key@) is Some,
        text matches Some(t) ==> first_given(models(items@), key@) == Some(t@),
{
    let ghost documents = models(items@);
    let mut i: usize = 0;
    while i < items.len()
        invariant
            documents == models(items@),
            i <= items@.len(),
            given_texts(documents.take(i as int), key@).len() == 0,
        decreases items@.len() - i,
    {
        proof {
            lemma_models(items@);
            assert(documents.take(i + 1).drop_last() =~= documents.take(i as int));
        }
        if let Some(text) = string_field(&items[i], key) {
            proof {
                lemma_first_given(documents, key@, i + 1);
            }
            return Some(text);
        }
        i = i + 1;
    }
    proof {
        lemma_models(items@);
        assert(documents.take(i as int) =~= documents);
    }
    None
}

fn first_string_or_null(items: &[Value], key: &str) -> (value: Value)
    ensures
        value@ == text_or_null(first_given(models(items@), key@)),
{
    match first_string(items, key) {
        Some(text) => Value::from_text(text),
        None => Value::Null,
    }
}

fn last_string_or_null(items: &[Value], key: &str) -> (value: Value)
    ensures
        value@ == text_or_null(last_given(models(items@), key@)),
{
    let ghost documents = models(items@);
    proof {
        lemma_models(items@);
        assert(documents.take(items@.len() as int) =~= documents);
    }
    let mut i: usize = items.len();
    while 0 < i
        invariant
            documents == models(items@),
            i <= items@.len(),
            given_texts(documents.take(i as int), key@) == given_texts(documents, key@),
        decreases i,
    {
        proof {
            lemma_models(items@);
            assert(documents.take(i as int).drop_last() =~= documents.take(i - 1));
        }
        if let Some(text) = string_field(&items[i - 1], key) {
            return Value::from_text(text);
        }
        i = i - 1;
    }
    assert(given_texts(documents.take(0), key@) =~= Seq::<Seq<char>>::empty());
    Value::Null
}

/// The identifier of a show that is made of seasons.
pub open spec fn central_id(ordered: Seq<Json>) -> Seq<char> {
    "central:"@ + joined(given_texts(ordered, "id"@), ","@)
}

/// The title of a show that is made of seasons.
pub open spec fn combined_title(ordered: Seq<Json>) -> Seq<char> {
    show_title(ordered[0].text_or_empty("title"@))
}

/// The episodes of a show that is made of seasons.
pub open spec fn combined_rows(ordered: Seq<Json>) -> Seq<Json> {
    all_rows(ordered, numbering(ordered), central_id(ordered))
}

/// A show that is made of seasons in order: what the first season says, but for the members that
/// all seasons have a part in.
pub open spec fn combined_fields(ordered: Seq<Json>) -> Map<Seq<char>, Json> {
    let rows = combined_rows(ordered);
    (ordered[0]->Fields_0)
        .insert("id"@, Json::Text(central_id(ordered)))
        .insert("title"@, Json::Text(combined_title(ordered)))
        .insert(
            "alternative_titles"@,
            text_list(unique(aliases(ordered, combined_title(ordered)))),
        )
        .insert("genres"@, text_list(unique(listed_texts(ordered, "genres"@))))
        .insert("tags"@, text_list(unique(listed_texts(ordered, "tags"@))))
        .insert("studios"@, text_list(unique(listed_texts(ordered, "studios"@))))
        .insert("episodes"@, Json::List(rows))
        .insert("episode_count"@, integer_or_null(episode_count(ordered, rows)))
        .insert("start_date"@, text_or_null(first_given(ordered, "start_date"@)))
        .insert("end_date"@, text_or_null(last_given(ordered, "end_date"@)))
        .insert("season"@, Json::Null)
        .insert(
            "season_year"@,
            match ordered[0].field("year"@) {
                Some(year) => year,
                None => Json::Null,
            },
        )
}

/// What seasons combine to, or why they do not.
pub open spec fn combined(seasons: Seq<Json>) -> Result<Json, CombineError> {
    let ordered = in_order(seasons);
    if seasons.len() == 0 {
        Err(CombineError::NoSeason)
    } else if !(ordered[0] is Fields) {
        Err(CombineError::NotAnObject)
    } else {
        Ok(Json::Fields(combined_fields(ordered)))
    }
}

/// The numbers that combining seasons computes stay within range: those of the seasons, and the
/// sum of their episode counts where no episode is listed.
pub open spec fn combinable(seasons: Seq<Json>) -> bool {
    let ordered = in_order(seasons);
    combined(seasons) is Ok ==> numbering_fits(ordered) && (combined_rows(ordered).len() == 0
        ==> counts_fit(ordered))
}

/// Whether the numbers that combining seasons computes stay within range.
pub fn is_combinable(seasons: &[AnimeMetadata]) -> (yes: bool)
    ensures
        yes == combinable(models(seasons@)),
{
    proof {
        lemma_models(seasons@);
    }
    if seasons.len() == 0 {
        return true;
    }
    let ordered = sorted_seasons(seasons);
    proof {
        lemma_models(ordered@);
    }
    if ordered[0].as_object().is_none() {
        return true;
    }
    match number_seasons(&ordered) {
        None => false,
        Some(numbers) => {
            let id = "central:".to_owned().concat(joined_ids(&ordered).as_str());
            let episodes = combined_episodes(&ordered, &numbers, id.as_str());
            proof {
                lemma_models(episodes@);
            }
            episodes.len() > 0 || add_counts(&ordered).is_some()
        },
    }
}

/// Merges the descriptions of a show's seasons, given in any order, into one description of the
/// show.
pub fn combine_anime_seasons(seasons: &[AnimeMetadata]) -> (show: Result<
    AnimeMetadata,
    CombineError,
>)
    requires
        combinable(models(seasons@)),
    ensures
        match show {
            Ok(value) => combined(models(seasons@)) == Ok::<Json, CombineError>(value@),
            Err(error) => combined(models(seasons@)) == Err::<Json, CombineError>(error),
        },
{
    proof {
        lemma_models(seasons@);
    }
    if seasons.len() == 0 {
        return Err(CombineError::NoSeason);
    }
    let ordered = sorted_seasons(seasons);
    let ghost documents = models(ordered@);
    proof {
        lemma_models(ordered@);
    }
    let mut show = match ordered[0].as_object() {
        Some(object) => object.clone(),
        None => {
            return Err(CombineError::NotAnObject);
        },
    };
    let numbers = number_seasons(&ordered).unwrap();
    let id = "central:".to_owned().concat(joined_ids(&ordered).as_str());
    let title = base_show_title(string_or_empty(&ordered[0], "title"));
    let episodes = combined_episodes(&ordered, &numbers, id.as_str());
    proof {
        lemma_models(episodes@);
    }
    let count: Option<i64> = if episodes.len() > 0 {
        Some(episodes.len() as i64)
    } else {
        let total = add_counts(&ordered).unwrap();
        if total > 0 {
            Some(total)
        } else {
            None
        }
    };
    let year = match ordered[0].get("year") {
        Some(year) => year.clone(),
        None => Value::Null,
    };
    show.insert("id", Value::from_text(id.as_str()));
    show.insert("title", Value::from_text(title.as_str()));
    show.insert("alternative_titles", unique_aliases(&ordered, title.as_str()));
    show.insert("genres", unique_listed(&ordered, "genres"));
    show.insert("tags", unique_listed(&ordered, "tags"));
    show.insert("studios", unique_listed(&ordered, "studios"));
    show.insert("episodes", Value::Array(episodes));
    show.insert("episode_count", option_int(count));
    show.insert("start_date", first_string_or_null(ordered.as_slice(), "start_date"));
    show.insert("end_date", last_string_or_null(ordered.as_slice(), "end_date"));
    show.insert("season", Value::Null);
    show.insert("season_year", year);
    assert(show@ == combined_fields(documents));
    Ok(Value::Object(show))
}

/// Lists that are merged hold no blank text and no text twice, and every text is trimmed.
pub proof fn law_merged_texts_are_unique(values: Seq<Seq<char>>)
    ensures
        unique(values).no_duplicates(),
        forall|i: int|
            0 <= i < unique(values).len() ==> (#[trigger] unique(values)[i]).len() > 0 && trimmed(
                unique(values)[i],
            ) == unique(values)[i],
    decreases values.len(),
{
    if values.len() > 0 {
        law_merged_texts_are_unique(values.drop_last());
        law_trimming_is_final(values.last());
        let before = unique(values.drop_last());
        assert forall|i: int| 0 <= i < unique(values).len() implies (
        #[trigger] unique(values)[i]).len() > 0 && trimmed(unique(values)[i]) == unique(
            values,
        )[i] by {
            if i < before.len() {
                assert(unique(values)[i] == before[i]);
            }
        }
        assert forall|i: int, j: int|
            0 <= i < unique(values).len() && 0 <= j < unique(values).len() && i
                != j implies unique(values)[i] != unique(values)[j] by {
            if i < before.len() && j < before.len() {
                assert(unique(values)[i] == before[i] && unique(values)[j] == before[j]);
            } else if i < before.len() {
                assert(before.contains(before[i]));
            } else if j < before.len() {
                assert(before.contains(before[j]));
            }
        }
    }
}

/// No text that is not blank is lost when lists are merged.
pub proof fn law_merged_texts_are_complete(values: Seq<Seq<char>>, i: int)
    requires
        0 <= i < values.len(),
        trimmed(values[i]).len() > 0,
    ensures
        unique(values).contains(trimmed(values[i])),
    decreases values.len(),
{
    let before = unique(values.drop_last());
    let text = trimmed(values.last());
    if i < values.len() - 1 {
        law_merged_texts_are_complete(values.drop_last(), i);
        let k = choose|k: int| 0 <= k < before.len() && before[k] == trimmed(values[i]);
        assert(unique(values)[k] == trimmed(values[i]));
    } else if !before.contains(text) {
        assert(unique(values)[before.len() as int] == text);
    }
}

/// The order in which seasons are given matters only among seasons that are sorted by equal keys.
pub proof fn law_combining_ignores_order(a: Seq<Json>, b: Seq<Json>)
    requires
        forall|k: KeyModel|
            #[trigger] with_key(a, by_season(), k) == with_key(b, by_season(), k),
    ensures
        combined(a) == combined(b),
        combinable(a) == combinable(b),
{
    law_sorting_ignores_order(a, b, by_season());
    law_sorting_orders(a, by_season());
    law_sorting_orders(b, by_season());
}

/// An episode of a combined show: it belongs to the show, and it has a season number.
pub open spec fn is_show_episode(row: Json, show_id: Seq<char>) -> bool {
    &&& row is Fields
    &&& row.field("anime_id"@) == Some(Json::Text(show_id))
    &&& row.field("id"@) matches Some(Json::Text(_))
    &&& row.integer_at("season_number"@) is Some
}

/// The names of the members that are set on an episode differ.
proof fn lemma_episode_keys()
    ensures
        "anime_id"@ != "season_number"@,
        "anime_id"@ != "id"@,
        "season_number"@ != "id"@,
{
    reveal_strlit("anime_id");
    reveal_strlit("season_number");
    reveal_strlit("id");
    assert("anime_id"@.len() == 8);
    assert("season_number"@.len() == 13);
    assert("id"@.len() == 2);
}

proof fn lemma_show_rows(rows: Seq<Json>, season: Json, number: int, show_id: Seq<char>, i: int)
    requires
        i64::MIN <= number <= i64::MAX,
        0 <= i < show_rows(rows, season, number, show_id).len(),
    ensures
        is_show_episode(show_rows(rows, season, number, show_id)[i], show_id),
    decreases rows.len(),
{
    lemma_episode_keys();
    let before = show_rows(rows.drop_last(), season, number, show_id);
    if i < before.len() {
        lemma_show_rows(rows.drop_last(), season, number, show_id, i);
    }
}

proof fn lemma_all_rows(ordered: Seq<Json>, numbers: Seq<int>, show_id: Seq<char>, i: int)
    requires
        ordered.len() == numbers.len(),
        forall|k: int| 0 <= k < numbers.len() ==> i64::MIN <= #[trigger] numbers[k] <= i64::MAX,
        0 <= i < all_rows(ordered, numbers, show_id).len(),
    ensures
        is_show_episode(all_rows(ordered, numbers, show_id)[i], show_id),
    decreases ordered.len(),
{
    let before = all_rows(ordered.drop_last(), numbers.drop_last(), show_id);
    if i < before.len() {
        lemma_all_rows(ordered.drop_last(), numbers.drop_last(), show_id, i);
    } else {
        let season = ordered.last();
        let number = numbers.last();
        assert(number == numbers[numbers.len() - 1]);
        if let Some(rows) = season.list_at("episodes"@) {
            lemma_show_rows(rows, season, number, show_id, i - before.len());
        }
    }
}

/// Numbers of seasons are not below the range.
proof fn lemma_numbers_above(ordered: Seq<Json>, i: int)
    requires
        0 <= i < numbering(ordered).len(),
    ensures
        numbering(ordered)[i] >= i64::MIN,
    decreases ordered.len(),
{
    let before = numbering(ordered.drop_last());
    if i < before.len() {
        lemma_numbers_above(ordered.drop_last(), i);
    } else {
        lemma_highest_above(ordered.drop_last(), before.len() as int);
        assert(before.take(before.len() as int) =~= before);
    }
}

proof fn lemma_highest_above(ordered: Seq<Json>, k: int)
    requires
        0 <= k <= numbering(ordered).len(),
    ensures
        highest(numbering(ordered).take(k)) >= i64::MIN,
    decreases ordered.len(), k,
{
    if k > 0 {
        lemma_numbering_prefix(ordered, ordered.len() as int);
        if k == ordered.len() {
            let shorter = ordered.drop_last();
            lemma_numbering_prefix(shorter, shorter.len() as int);
            assert(numbering(ordered).take(k).drop_last() =~= numbering(shorter).take(k - 1));
            lemma_highest_above(shorter, k - 1);
            assert(numbering(shorter).take(k - 1) =~= numbering(shorter));
        } else {
            let shorter = ordered.drop_last();
            lemma_numbering_prefix(shorter, shorter.len() as int);
            assert(numbering(ordered).take(k) =~= numbering(shorter).take(k));
            lemma_highest_above(shorter, k);
        }
    }
}

/// Every episode of a combined show belongs to the show and has a season number.
pub proof fn law_combined_episodes_are_numbered(seasons: Seq<Json>, i: int)
    requires
        combinable(seasons),
        combined(seasons) is Ok,
        0 <= i < combined_rows(in_order(seasons)).len(),
    ensures
        is_show_episode(combined_rows(in_order(seasons))[i], central_id(in_order(seasons))),
{
    let ordered = in_order(seasons);
    lemma_numbering_prefix(ordered, ordered.len() as int);
    assert forall|k: int| 0 <= k < numbering(ordered).len() implies i64::MIN
        <= #[trigger] numbering(ordered)[k] <= i64::MAX by {
        lemma_numbers_above(ordered, k);
    }
    lemma_all_rows(ordered, numbering(ordered), central_id(ordered), i);
}

/// The members of a combined show that its seasons have a part in.
pub open spec fn merged_key(key: Seq<char>) -> bool {
    ||| key == "id"@
    ||| key == "title"@
    ||| key == "alternative_titles"@
    ||| key == "genres"@
    ||| key == "tags"@
    ||| key == "studios"@
    ||| key == "episodes"@
    ||| key == "episode_count"@
    ||| key == "start_date"@
    ||| key == "end_date"@
    ||| key == "season"@
    ||| key == "season_year"@
}

/// A combined show has every other member from its first season.
pub proof fn law_first_season_describes_the_show(seasons: Seq<Json>, key: Seq<char>)
    requires
        combined(seasons) is Ok,
        !merged_key(key),
    ensures
        combined(seasons)->Ok_0.field(key) == in_order(seasons)[0].field(key),
{
}

proof fn lemma_row_is_shown(rows: Seq<Json>, season: Json, number: int, show_id: Seq<char>, k: int)
    requires
        0 <= k < rows.len(),
        rows[k] is Fields,
    ensures
        show_rows(rows, season, number, show_id).contains(
            show_episode(rows[k]->Fields_0, season, number, show_id),
        ),
    decreases rows.len(),
{
    let wanted = show_episode(rows[k]->Fields_0, season, number, show_id);
    let before = show_rows(rows.drop_last(), season, number, show_id);
    let all = show_rows(rows, season, number, show_id);
    if k < rows.len() - 1 {
        lemma_row_is_shown(rows.drop_last(), season, number, show_id, k);
        let i = choose|i: int| 0 <= i < before.len() && before[i] == wanted;
        assert(all[i] == wanted);
    } else {
        assert(all[before.len() as int] == wanted);
    }
}

/// Every episode that a season lists becomes an episode of the show.
pub proof fn law_no_episode_is_lost(
    ordered: Seq<Json>,
    numbers: Seq<int>,
    show_id: Seq<char>,
    i: int,
    k: int,
)
    requires
        ordered.len() == numbers.len(),
        0 <= i < ordered.len(),
        ordered[i].list_at("episodes"@) is Some,
        0 <= k < ordered[i].list_at("episodes"@)->0.len(),
        ordered[i].list_at("episodes"@)->0[k] is Fields,
    ensures
        all_rows(ordered, numbers, show_id).contains(
            show_episode(
                ordered[i].list_at("episodes"@)->0[k]->Fields_0,
                ordered[i],
                numbers[i],
                show_id,
            ),
        ),
    decreases ordered.len(),
{
    let rows = ordered[i].list_at("episodes"@)->0;
    let wanted = show_episode(rows[k]->Fields_0, ordered[i], numbers[i], show_id);
    let before = all_rows(ordered.drop_last(), numbers.drop_last(), show_id);
    let all = all_rows(ordered, numbers, show_id);
    if i < ordered.len() - 1 {
        law_no_episode_is_lost(ordered.drop_last(), numbers.drop_last(), show_id, i, k);
        let m = choose|m: int| 0 <= m < before.len() && before[m] == wanted;
        assert(all[m] == wanted);
    } else {
        lemma_row_is_shown(rows, ordered[i], numbers[i], show_id, k);
        let last = season_rows(ordered.last(), numbers.last(), show_id);
        let m = choose|m: int| 0 <= m < last.len() && last[m] == wanted;
        assert(all[before.len() + m] == wanted);
    }
}

} // verus!
