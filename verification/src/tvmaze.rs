//! Pictures of episodes from TVMaze: which show there is the one that is looked for, and what its
//! episodes say.

use crate::combine::{first_given, first_string};
use crate::dates::{
    iso_date_at_midnight, leading_date, leading_year, midnight_text, parse_date, year_of,
};
use crate::decimal::{integer_text, write_integer};
use crate::json::{
    held_replies, int_field, integer_or_null, lemma_models, lemma_models_push, models, option_int,
    option_text, raw_string, string_field, text_or_null, Json, Number, Object, Value,
};
use crate::json_text::{compact, compact_text};
use crate::models::AnimeMetadata;
use crate::queries::{metadata_title_keys, title_keys};
use crate::text::{
    contains_text, lowercase, percent_encoded, same_text, texts, to_lower, trim_end, trim_start,
    url_encode, without_leading, without_trailing,
};
use crate::titles::{normalize_title_key, title_key};
use vstd::prelude::*;

verus! {

/// Where TVMaze answers.
pub const TVMAZE_BASE_URL: &'static str = "https://api.tvmaze.com";

/// The settings that switch pictures from TVMaze off.
pub open spec fn is_off(setting: Seq<char>) -> bool {
    setting == "0"@ || setting == "false"@ || setting == "no"@
}

/// Whether a setting in lower case switches pictures from TVMaze off.
pub fn switches_off(setting: &str) -> (off: bool)
    ensures
        off == is_off(setting@),
{
    same_text(setting, "0") || same_text(setting, "false") || same_text(setting, "no")
}

/// Whether to ask TVMaze for pictures: unless a setting says no.
pub fn images_enabled(setting: Option<&str>) -> (enabled: bool)
    ensures
        enabled == (match setting {
            Some(text) => !is_off(lowercase(text@)),
            None => true,
        }),
{
    match setting {
        Some(text) => !switches_off(to_lower(text).as_str()),
        None => true,
    }
}

/// The path that searches for shows.
pub open spec fn search_path(query: Seq<char>) -> Seq<char> {
    "search/shows?q="@ + percent_encoded(vstd::utf8::encode_utf8(query))
}

/// The path that searches for shows.
pub fn show_search_path(query: &str) -> (path: String)
    ensures
        path@ == search_path(query@),
{
    "search/shows?q=".to_owned().concat(url_encode(query).as_str())
}

/// The path that lists the episodes of a show.
pub open spec fn episodes_path(show_id: int) -> Seq<char> {
    "shows/"@ + integer_text(show_id) + "/episodes"@
}

/// The path that lists the episodes of a show.
pub fn show_episodes_path(show_id: i64) -> (path: String)
    ensures
        path@ == episodes_path(show_id as int),
{
    "shows/".to_owned().concat(write_integer(show_id).as_str()).concat("/episodes")
}

/// A number as a sequence, empty where there is none.
pub open spec fn optional_number(n: Option<i64>) -> Seq<i64> {
    match n {
        Some(n) => seq![n],
        None => Seq::empty(),
    }
}

/// The years that a season gives.
pub open spec fn season_years(season: Json) -> Seq<i64> {
    optional_number(season.integer_at("season_year"@)) + optional_number(
        season.integer_at("year"@),
    ) + optional_number(leading_year(season.text_at("start_date"@)))
}

/// The years that seasons give, one season after the other.
pub open spec fn years(seasons: Seq<Json>) -> Seq<i64>
    decreases seasons.len(),
{
    if seasons.len() == 0 {
        Seq::empty()
    } else {
        years(seasons.drop_last()) + season_years(seasons.last())
    }
}

fn push_number(all: &mut Vec<i64>, n: Option<i64>)
    ensures
        final(all)@ == old(all)@ + optional_number(n),
{
    let ghost before = all@;
    if let Some(number) = n {
        all.push(number);
    }
    assert(all@ =~= before + optional_number(n));
}

/// The years that seasons give.
pub fn collect_years(seasons: &[AnimeMetadata]) -> (found: Vec<i64>)
    ensures
        found@ == years(models(seasons@)),
{
    let ghost documents = models(seasons@);
    let mut found: Vec<i64> = Vec::new();
    let mut i: usize = 0;
    while i < seasons.len()
        invariant
            documents == models(seasons@),
            i <= seasons@.len(),
            found@ == years(documents.take(i as int)),
        decreases seasons@.len() - i,
    {
        proof {
            lemma_models(seasons@);
            assert(documents.take(i + 1).drop_last() =~= documents.take(i as int));
        }
        let ghost before = found@;
        push_number(&mut found, int_field(&seasons[i], "season_year"));
        push_number(&mut found, int_field(&seasons[i], "year"));
        push_number(&mut found, year_of(string_field(&seasons[i], "start_date")));
        assert(found@ =~= before + season_years(documents[i as int]));
        i = i + 1;
    }
    proof {
        lemma_models(seasons@);
        assert(documents.take(i as int) =~= documents);
    }
    found
}

/// How far apart two years are.
pub open spec fn distance(a: int, b: int) -> int {
    if a < b {
        b - a
    } else {
        a - b
    }
}

/// How far a year is from the nearest of some years.
pub open spec fn nearest(year: int, all: Seq<i64>) -> int
    decreases all.len(),
{
    let last = distance(year, all.last() as int);
    if all.len() <= 1 || last < nearest(year, all.drop_last()) {
        last
    } else {
        nearest(year, all.drop_last())
    }
}

/// What a premiere in a year counts, the more the nearer it is to the years that are looked for.
pub open spec fn year_score(premiered: Option<i64>, all: Seq<i64>) -> int {
    match premiered {
        Some(year) => if all.contains(year) {
            50
        } else if all.len() > 0 && nearest(year as int, all) < 20 {
            20 - nearest(year as int, all)
        } else {
            0
        },
        None => 0,
    }
}

/// How well a show at TVMaze fits: by its language and by the year of its premiere.
pub open spec fn show_score(show: Json, all: Seq<i64>) -> int {
    (if show.string_at("language"@) == Some("Japanese"@) {
        100int
    } else {
        0
    }) + year_score(leading_year(show.string_at("premiered"@)), all)
}

/// Finds how far a year is from the nearest of some years.
fn nearest_distance(year: i64, all: &[i64]) -> (found: i128)
    requires
        all@.len() > 0,
    ensures
        found == nearest(year as int, all@),
{
    let mut best: i128 = 0;
    let mut i: usize = 0;
    while i < all.len()
        invariant
            all@.len() > 0,
            i <= all@.len(),
            i > 0 ==> best == nearest(year as int, all@.take(i as int)),
        decreases all@.len() - i,
    {
        assert(all@.take(i + 1).drop_last() =~= all@.take(i as int));
        let a = year as i128;
        let b = all[i] as i128;
        let apart = if a < b {
            b - a
        } else {
            a - b
        };
        if i == 0 || apart < best {
            best = apart;
        }
        i = i + 1;
    }
    assert(all@.take(i as int) =~= all@);
    best
}

fn contains_number(all: &[i64], wanted: i64) -> (yes: bool)
    ensures
        yes == all@.contains(wanted),
{
    let mut i: usize = 0;
    while i < all.len()
        invariant
            i <= all@.len(),
            forall|j: int| 0 <= j < i ==> #[trigger] all@[j] != wanted,
        decreases all@.len() - i,
    {
        if all[i] == wanted {
            assert(all@[i as int] == wanted);
            return true;
        }
        i = i + 1;
    }
    false
}

/// How well a show at TVMaze fits: by its language and by the year of its premiere.
pub fn tvmaze_show_score(show: &Value, years: &[i64]) -> (score: i64)
    ensures
        score == show_score(show@, years@),
        0 <= score <= 150,
{
    let mut score: i64 = 0;
    if let Some(language) = raw_string(show, "language") {
        if same_text(language, "Japanese") {
            score = 100;
        }
    }
    if let Some(year) = year_of(raw_string(show, "premiered")) {
        if contains_number(years, year) {
            score = score + 50;
        } else if years.len() > 0 {
            let apart = nearest_distance(year, years);
            proof {
                lemma_nearest(year as int, years@);
            }
            if apart < 20 {
                score = score + (20 - apart) as i64;
            }
        }
    }
    score
}

/// Years are not less than nothing apart.
proof fn lemma_nearest(year: int, all: Seq<i64>)
    ensures
        nearest(year, all) >= 0,
    decreases all.len(),
{
    if all.len() > 1 {
        lemma_nearest(year, all.drop_last());
    }
}

/// A show at TVMaze with its identifier.
pub struct CandidateModel {
    pub id: i64,
    pub show: Json,
}

/// What shows with their identifiers hold.
pub open spec fn candidate_models(all: Seq<(i64, Value)>) -> Seq<CandidateModel> {
    all.map_values(|pair: (i64, Value)| CandidateModel { id: pair.0, show: pair.1@ })
}

/// The show of a search result, where it has an identifier and a wanted name.
pub open spec fn candidate(result: Json, keys: Seq<Seq<char>>) -> Option<CandidateModel> {
    match result.field("show"@) {
        Some(show) => match (show.integer_at("id"@), show.string_at("name"@)) {
            (Some(id), Some(name)) => if keys.contains(title_key(name)) {
                Some(CandidateModel { id, show })
            } else {
                None
            },
            _ => None,
        },
        None => None,
    }
}

/// The position of the show with an identifier.
pub open spec fn position(all: Seq<CandidateModel>, id: i64) -> Option<int>
    decreases all.len(),
{
    if all.len() == 0 {
        None
    } else {
        match position(all.drop_last(), id) {
            Some(i) => Some(i),
            None => if all.last().id == id {
                Some(all.len() - 1)
            } else {
                None
            },
        }
    }
}

/// Shows together with one more. Of two with one identifier, the one that fits better stays.
pub open spec fn noted(
    all: Seq<CandidateModel>,
    found: CandidateModel,
    wanted_years: Seq<i64>,
) -> Seq<CandidateModel> {
    match position(all, found.id) {
        Some(i) => if show_score(found.show, wanted_years) > show_score(
            all[i].show,
            wanted_years,
        ) {
            all.update(i, found)
        } else {
            all
        },
        None => all.push(found),
    }
}

/// Shows together with those of some search results.
pub open spec fn with_results(
    all: Seq<CandidateModel>,
    results: Seq<Json>,
    keys: Seq<Seq<char>>,
    wanted_years: Seq<i64>,
) -> Seq<CandidateModel>
    decreases results.len(),
{
    if results.len() == 0 {
        all
    } else {
        let before = with_results(all, results.drop_last(), keys, wanted_years);
        match candidate(results.last(), keys) {
            Some(found) => noted(before, found, wanted_years),
            None => before,
        }
    }
}

/// The results that a reply lists.
pub open spec fn results_in(reply: Option<Json>) -> Seq<Json> {
    match reply {
        Some(Json::List(results)) => results,
        _ => Seq::empty(),
    }
}

/// The shows that replies to searches give.
pub open spec fn candidates(
    replies: Seq<Option<Json>>,
    keys: Seq<Seq<char>>,
    wanted_years: Seq<i64>,
) -> Seq<CandidateModel>
    decreases replies.len(),
{
    if replies.len() == 0 {
        Seq::empty()
    } else {
        with_results(
            candidates(replies.drop_last(), keys, wanted_years),
            results_in(replies.last()),
            keys,
            wanted_years,
        )
    }
}

/// The show that fits best, the last of those that fit equally well.
pub open spec fn best(all: Seq<CandidateModel>, wanted_years: Seq<i64>) -> Option<CandidateModel>
    decreases all.len(),
{
    if all.len() == 0 {
        None
    } else {
        match best(all.drop_last(), wanted_years) {
            Some(before) => if show_score(before.show, wanted_years) > show_score(
                all.last().show,
                wanted_years,
            ) {
                Some(before)
            } else {
                Some(all.last())
            },
            None => Some(all.last()),
        }
    }
}

proof fn lemma_position(all: Seq<CandidateModel>, id: i64, k: int)
    requires
        0 <= k <= all.len(),
        position(all.take(k), id) is Some,
    ensures
        position(all, id) == position(all.take(k), id),
    decreases all.len(),
{
    if k == all.len() {
        assert(all.take(k) =~= all);
    } else {
        assert(all.drop_last().take(k) =~= all.take(k));
        lemma_position(all.drop_last(), id, k);
    }
}

/// Finds the show with an identifier.
fn find_position(all: &Vec<(i64, Value)>, id: i64) -> (found: Option<usize>)
    ensures
        match found {
            Some(i) => i < all@.len() && position(candidate_models(all@), id) == Some(i as int),
            None => position(candidate_models(all@), id) is None,
        },
{
    let ghost shows = candidate_models(all@);
    let mut i: usize = 0;
    while i < all.len()
        invariant
            shows == candidate_models(all@),
            i <= all@.len(),
            position(shows.take(i as int), id) is None,
        decreases all@.len() - i,
    {
        assert(shows.take(i + 1).drop_last() =~= shows.take(i as int));
        if all[i].0 == id {
            proof {
                lemma_position(shows, id, i + 1);
            }
            return Some(i);
        }
        i = i + 1;
    }
    assert(shows.take(i as int) =~= shows);
    None
}

/// Takes the show out of a search result.
fn read_candidate(result: &Value, keys: &Vec<String>) -> (found: Option<(i64, Value)>)
    ensures
        (match found {
            Some(pair) => Some(CandidateModel { id: pair.0, show: pair.1@ }),
            None => None,
        }) == candidate(result@, texts(keys@)),
{
    let show = match result.get("show") {
        Some(show) => show,
        None => return None,
    };
    let id = match int_field(show, "id") {
        Some(id) => id,
        None => return None,
    };
    let name = match raw_string(show, "name") {
        Some(name) => name,
        None => return None,
    };
    if contains_text(keys, normalize_title_key(name).as_str()) {
        Some((id, show.clone()))
    } else {
        None
    }
}

/// Notes a show.
fn note_candidate(all: &mut Vec<(i64, Value)>, found: (i64, Value), years: &[i64])
    ensures
        candidate_models(final(all)@) == noted(
            candidate_models(old(all)@),
            CandidateModel { id: found.0, show: found.1@ },
            years@,
        ),
{
    let ghost before = all@;
    match find_position(all, found.0) {
        Some(i) => {
            if tvmaze_show_score(&found.1, years) > tvmaze_show_score(&all[i].1, years) {
                all.set(i, found);
                assert(candidate_models(all@) =~= candidate_models(before).update(
                    i as int,
                    CandidateModel { id: found.0, show: found.1@ },
                ));
            }
        },
        None => {
            all.push(found);
            assert(candidate_models(all@) =~= candidate_models(before).push(
                CandidateModel { id: found.0, show: found.1@ },
            ));
        },
    }
}

/// Notes the shows of some search results.
fn note_results(
    all: &mut Vec<(i64, Value)>,
    results: &Vec<Value>,
    keys: &Vec<String>,
    years: &[i64],
)
    ensures
        candidate_models(final(all)@) == with_results(
            candidate_models(old(all)@),
            models(results@),
            texts(keys@),
            years@,
        ),
{
    let ghost start = candidate_models(all@);
    let ghost documents = models(results@);
    let mut i: usize = 0;
    while i < results.len()
        invariant
            documents == models(results@),
            i <= results@.len(),
            candidate_models(all@) == with_results(
                start,
                documents.take(i as int),
                texts(keys@),
                years@,
            ),
        decreases results@.len() - i,
    {
        proof {
            lemma_models(results@);
            assert(documents.take(i + 1).drop_last() =~= documents.take(i as int));
        }
        if let Some(found) = read_candidate(&results[i], keys) {
            note_candidate(all, found, years);
        }
        i = i + 1;
    }
    proof {
        lemma_models(results@);
        assert(documents.take(i as int) =~= documents);
    }
}

/// Gathers the shows that replies to searches give.
fn collect_candidates(replies: &[Option<Value>], keys: &Vec<String>, years: &[i64]) -> (all: Vec<
    (i64, Value),
>)
    ensures
        candidate_models(all@) == candidates(held_replies(replies@), texts(keys@), years@),
{
    let ghost given = held_replies(replies@);
    let mut all: Vec<(i64, Value)> = Vec::new();
    let mut i: usize = 0;
    assert(candidate_models(all@) =~= candidates(given.take(0), texts(keys@), years@));
    while i < replies.len()
        invariant
            given == held_replies(replies@),
            i <= replies@.len(),
            candidate_models(all@) == candidates(given.take(i as int), texts(keys@), years@),
        decreases replies@.len() - i,
    {
        assert(given.take(i + 1).drop_last() =~= given.take(i as int));
        assert(given.take(i + 1).last() == given[i as int]);
        if let Some(reply) = &replies[i] {
            if let Some(results) = reply.as_array() {
                note_results(&mut all, results, keys, years);
            }
        }
        i = i + 1;
    }
    assert(given.take(i as int) =~= given);
    all
}

/// Finds the show that fits best.
fn best_position(all: &Vec<(i64, Value)>, years: &[i64]) -> (found: Option<usize>)
    ensures
        match found {
            Some(i) => i < all@.len() && best(candidate_models(all@), years@) == Some(
                candidate_models(all@)[i as int],
            ),
            None => best(candidate_models(all@), years@) is None,
        },
{
    let ghost shows = candidate_models(all@);
    let mut found: Option<usize> = None;
    let mut i: usize = 0;
    while i < all.len()
        invariant
            shows == candidate_models(all@),
            i <= all@.len(),
            match found {
                Some(k) => k < i && best(shows.take(i as int), years@) == Some(shows[k as int]),
                None => best(shows.take(i as int), years@) is None,
            },
        decreases all@.len() - i,
    {
        assert(shows.take(i + 1).drop_last() =~= shows.take(i as int));
        found = match found {
            Some(k) => if tvmaze_show_score(&all[k].1, years) > tvmaze_show_score(
                &all[i].1,
                years,
            ) {
                Some(k)
            } else {
                Some(i)
            },
            None => Some(i),
        };
        i = i + 1;
    }
    assert(shows.take(i as int) =~= shows);
    found
}

/// Chooses the show that fits seasons best out of the replies to searches.
pub fn choose_show(seasons: &[AnimeMetadata], replies: &[Option<Value>]) -> (chosen: Option<
    (i64, Value),
>)
    ensures
        (match chosen {
            Some(pair) => Some(CandidateModel { id: pair.0, show: pair.1@ }),
            None => None,
        }) == best(
            candidates(
                held_replies(replies@),
                title_keys(models(seasons@)),
                years(models(seasons@)),
            ),
            years(models(seasons@)),
        ),
{
    let keys = metadata_title_keys(seasons);
    let all_years = collect_years(seasons);
    let all = collect_candidates(replies, &keys, all_years.as_slice());
    match best_position(&all, all_years.as_slice()) {
        Some(i) => Some((all[i].0, all[i].1.clone())),
        None => None,
    }
}

/// A picture in its full size, or else in the smaller one.
pub open spec fn picture(document: Json) -> Option<Json> {
    match document.field("image"@) {
        Some(image) => match image.field("original"@) {
            Some(original) => Some(original),
            None => image.field("medium"@),
        },
        None => None,
    }
}

/// An identifier as text, without quotation marks at its ends.
pub open spec fn identifier_text(id: Option<Json>) -> Seq<char> {
    match id {
        Some(id) => without_trailing(
            without_leading(compact(id), |c: char| c == '"'),
            |c: char| c == '"',
        ),
        None => Seq::empty(),
    }
}

/// The midnight at which the day begins that a text starts with.
pub open spec fn optional_midnight(text: Option<Seq<char>>) -> Option<Seq<char>> {
    match leading_date(text) {
        Some(date) => Some(midnight_text(date)),
        None => None,
    }
}

/// An episode at TVMaze as an episode of a season, where it has a picture.
pub open spec fn mapped_episode(episode: Json, show_id: i64) -> Option<Json> {
    match picture(episode) {
        Some(Json::Text(thumbnail)) => Some(
            Json::Fields(
                Map::empty().insert("id"@, Json::Text(identifier_text(episode.field("id"@))))
                    .insert("anime_id"@, Json::Text(integer_text(show_id as int)))
                    .insert("season_number"@, Json::Null)
                    .insert(
                    "number"@,
                    Json::Integer(
                        match episode.integer_at("number"@) {
                            Some(number) => number as int,
                            None => 0,
                        },
                    ),
                ).insert("title"@, text_or_null(episode.string_at("name"@))).insert(
                    "synopsis"@,
                    Json::Null,
                ).insert("thumbnail"@, Json::Text(thumbnail)).insert(
                    "aired_at"@,
                    text_or_null(optional_midnight(episode.string_at("airdate"@))),
                ).insert("source"@, Json::Text("TVMaze"@)),
            ),
        ),
        _ => None,
    }
}

/// The episodes at TVMaze that have a picture.
pub open spec fn mapped_episodes(episodes: Seq<Json>, show_id: i64) -> Seq<Json>
    decreases episodes.len(),
{
    if episodes.len() == 0 {
        Seq::empty()
    } else {
        let before = mapped_episodes(episodes.drop_last(), show_id);
        match mapped_episode(episodes.last(), show_id) {
            Some(episode) => before.push(episode),
            None => before,
        }
    }
}

fn find_picture<'a>(value: &'a Value) -> (found: Option<&'a Value>)
    ensures
        (match found {
            Some(image) => Some(image@),
            None => None,
        }) == picture(value@),
{
    match value.get("image") {
        Some(image) => match image.get("original") {
            Some(original) => Some(original),
            None => image.get("medium"),
        },
        None => None,
    }
}

/// Writes an identifier without quotation marks at its ends.
fn write_identifier(id: Option<&Value>) -> (text: String)
    ensures
        text@ == identifier_text(
            match id {
                Some(value) => Some(value@),
                None => None,
            },
        ),
{
    match id {
        Some(value) => {
            let written = compact_text(value);
            trim_end(trim_start(written.as_str(), '"'), '"').to_owned()
        },
        None => {
            let text = String::new();
            assert(text@ =~= Seq::<char>::empty());
            text
        },
    }
}

/// Takes over an episode that has a picture.
fn map_episode(episode: &Value, show_id: i64) -> (mapped: Option<Value>)
    ensures
        (match mapped {
            Some(value) => Some(value@),
            None => None,
        }) == mapped_episode(episode@, show_id),
{
    let image = match find_picture(episode) {
        Some(image) => image,
        None => return None,
    };
    let thumbnail = match image.as_str() {
        Some(thumbnail) => thumbnail,
        None => return None,
    };
    let number = match int_field(episode, "number") {
        Some(number) => number,
        None => 0,
    };
    let aired_at = match parse_date(raw_string(episode, "airdate")) {
        Some(date) => Value::String(iso_date_at_midnight(date)),
        None => Value::Null,
    };
    let mut fields = Object::new();
    fields.insert("id", Value::String(write_identifier(episode.get("id"))));
    fields.insert("anime_id", Value::String(write_integer(show_id)));
    fields.insert("season_number", Value::Null);
    fields.insert("number", Value::from_integer(number));
    fields.insert("title", option_text(raw_string(episode, "name")));
    fields.insert("synopsis", Value::Null);
    fields.insert("thumbnail", Value::from_text(thumbnail));
    fields.insert("aired_at", aired_at);
    fields.insert("source", Value::from_text("TVMaze"));
    Some(Value::Object(fields))
}

/// Takes over the episodes that have a picture.
fn map_episodes(episodes: &Vec<Value>, show_id: i64) -> (mapped: Vec<Value>)
    ensures
        models(mapped@) == mapped_episodes(models(episodes@), show_id),
        mapped@.len() <= episodes@.len(),
{
    let ghost documents = models(episodes@);
    let mut mapped: Vec<Value> = Vec::new();
    let mut i: usize = 0;
    while i < episodes.len()
        invariant
            documents == models(episodes@),
            i <= episodes@.len(),
            mapped@.len() <= i,
            models(mapped@) == mapped_episodes(documents.take(i as int), show_id),
        decreases episodes@.len() - i,
    {
        proof {
            lemma_models(episodes@);
            assert(documents.take(i + 1).drop_last() =~= documents.take(i as int));
        }
        if let Some(episode) = map_episode(&episodes[i], show_id) {
            proof {
                lemma_models_push(mapped@, episode);
            }
            mapped.push(episode);
        }
        i = i + 1;
    }
    proof {
        lemma_models(episodes@);
        assert(documents.take(i as int) =~= documents);
    }
    mapped
}

/// The title of a show, or else of the first season that has one.
pub open spec fn title_or_given(show: Json, seasons: Seq<Json>) -> Seq<char> {
    match show.string_at("name"@) {
        Some(name) => name,
        None => match first_given(seasons, "title"@) {
            Some(title) => title,
            None => Seq::empty(),
        },
    }
}

/// What a show at TVMaze is called and where it comes from.
pub open spec fn show_heading(show: CandidateModel, seasons: Seq<Json>) -> Map<Seq<char>, Json> {
    let year = integer_or_null(leading_year(show.show.string_at("premiered"@)));
    Map::empty().insert("id"@, Json::Text(integer_text(show.id as int)))
        .insert("title"@, Json::Text(title_or_given(show.show, seasons)))
        .insert("original_title"@, Json::Null)
        .insert("alternative_titles"@, Json::List(Seq::empty()))
        .insert("synopsis"@, Json::Null)
        .insert("description"@, Json::Null)
        .insert(
        "poster"@,
        match picture(show.show) {
            Some(image) => image,
            None => Json::Null,
        },
    ).insert("banner"@, Json::Null)
        .insert("year"@, year)
        .insert("season"@, Json::Null)
        .insert("season_year"@, year)
        .insert("status"@, Json::Null)
        .insert("content_type"@, Json::Text("anime"@))
        .insert("source"@, Json::Text("TVMaze"@))
        .insert("duration_minutes"@, Json::Null)
}

/// A show at TVMaze as a season.
pub open spec fn show_document(
    show: CandidateModel,
    episodes: Seq<Json>,
    seasons: Seq<Json>,
) -> Json {
    Json::Fields(
        show_heading(show, seasons).insert("episode_count"@, Json::Integer(episodes.len() as int))
            .insert("score"@, Json::Null)
            .insert("rank"@, Json::Null)
            .insert("popularity"@, Json::Null)
            .insert("rating"@, Json::Null)
            .insert("genres"@, Json::List(Seq::empty()))
            .insert("tags"@, Json::List(Seq::empty()))
            .insert("authors"@, Json::List(Seq::empty()))
            .insert("studios"@, Json::List(Seq::empty()))
            .insert("staff"@, Json::List(Seq::empty()))
            .insert("country_of_origin"@, Json::Null)
            .insert("start_date"@, text_or_null(show.show.string_at("premiered"@)))
            .insert("end_date"@, Json::Null)
            .insert("site_url"@, text_or_null(show.show.string_at("url"@)))
            .insert("trailer_url"@, Json::Null)
            .insert("external_links"@, Json::List(Seq::empty()))
            .insert("episodes"@, Json::List(episodes))
            .insert("updated_at"@, Json::Null),
    )
}

/// What TVMaze adds to the descriptions of a show: the chosen show with its episodes that have a
/// picture, if there are any.
pub open spec fn image_source(
    show: CandidateModel,
    reply: Json,
    seasons: Seq<Json>,
) -> Option<Json> {
    let episodes = mapped_episodes(results_in(Some(reply)), show.id);
    if episodes.len() == 0 {
        None
    } else {
        Some(show_document(show, episodes, seasons))
    }
}

fn empty_list() -> (list: Value)
    ensures
        list@ == Json::List(Seq::empty()),
{
    Value::Array(Vec::new())
}

/// Writes what a show is called and where it comes from.
fn write_heading(show_id: i64, show: &Value, seasons: &[AnimeMetadata]) -> (fields: Object)
    ensures
        fields@ == show_heading(
            CandidateModel { id: show_id, show: show@ },
            models(seasons@),
        ),
{
    let title = match raw_string(show, "name") {
        Some(name) => name,
        None => match first_string(seasons, "title") {
            Some(title) => title,
            None => {
                proof {
                    reveal_strlit("");
                    assert(""@ =~= Seq::<char>::empty());
                }
                ""
            },
        },
    };
    let year = year_of(raw_string(show, "premiered"));
    let poster = match find_picture(show) {
        Some(image) => image.clone(),
        None => Value::Null,
    };
    let mut fields = Object::new();
    fields.insert("id", Value::String(write_integer(show_id)));
    fields.insert("title", Value::from_text(title));
    fields.insert("original_title", Value::Null);
    fields.insert("alternative_titles", empty_list());
    fields.insert("synopsis", Value::Null);
    fields.insert("description", Value::Null);
    fields.insert("poster", poster);
    fields.insert("banner", Value::Null);
    fields.insert("year", option_int(year));
    fields.insert("season", Value::Null);
    fields.insert("season_year", option_int(year));
    fields.insert("status", Value::Null);
    fields.insert("content_type", Value::from_text("anime"));
    fields.insert("source", Value::from_text("TVMaze"));
    fields.insert("duration_minutes", Value::Null);
    fields
}

/// Describes the chosen show by its episodes that have a picture, if there are any.
pub fn tvmaze_image_source(
    show_id: i64,
    show: &Value,
    reply: &Value,
    seasons: &[AnimeMetadata],
) -> (source: Option<AnimeMetadata>)
    ensures
        (match source {
            Some(value) => Some(value@),
            None => None,
        }) == image_source(
            CandidateModel { id: show_id, show: show@ },
            reply@,
            models(seasons@),
        ),
{
    let listed = match reply.as_array() {
        Some(listed) => listed,
        None => return None,
    };
    let episodes = map_episodes(listed, show_id);
    proof {
        lemma_models(episodes@);
    }
    if episodes.len() == 0 {
        return None;
    }
    let count = Value::Number(Number::PosInt(episodes.len() as u64));
    let mut fields = write_heading(show_id, show, seasons);
    fields.insert("episode_count", count);
    fields.insert("score", Value::Null);
    fields.insert("rank", Value::Null);
    fields.insert("popularity", Value::Null);
    fields.insert("rating", Value::Null);
    fields.insert("genres", empty_list());
    fields.insert("tags", empty_list());
    fields.insert("authors", empty_list());
    fields.insert("studios", empty_list());
    fields.insert("staff", empty_list());
    fields.insert("country_of_origin", Value::Null);
    fields.insert("start_date", option_text(raw_string(show, "premiered")));
    fields.insert("end_date", Value::Null);
    fields.insert("site_url", option_text(raw_string(show, "url")));
    fields.insert("trailer_url", Value::Null);
    fields.insert("external_links", empty_list());
    fields.insert("episodes", Value::Array(episodes));
    fields.insert("updated_at", Value::Null);
    Some(Value::Object(fields))
}

/// A score lies between nothing and the marks for language and year together.
pub proof fn law_scores_are_bounded(show: Json, all: Seq<i64>)
    ensures
        0 <= show_score(show, all) <= 150,
        show.string_at("language"@) == Some("Japanese"@) <==> show_score(show, all) >= 100,
{
    if let Some(year) = leading_year(show.string_at("premiered"@)) {
        lemma_nearest(year as int, all);
    }
}

/// No show fits better than the chosen one, and the chosen one is among the shows.
pub proof fn law_best_show_fits_best(all: Seq<CandidateModel>, wanted_years: Seq<i64>)
    ensures
        best(all, wanted_years) is Some == (all.len() > 0),
        best(all, wanted_years) matches Some(chosen) ==> all.contains(chosen) && forall|i: int|
            0 <= i < all.len() ==> show_score((#[trigger] all[i]).show, wanted_years)
                <= show_score(chosen.show, wanted_years),
    decreases all.len(),
{
    if all.len() > 0 {
        let shorter = all.drop_last();
        law_best_show_fits_best(shorter, wanted_years);
        let chosen = best(all, wanted_years)->0;
        if let Some(before) = best(shorter, wanted_years) {
            let k = choose|k: int| 0 <= k < shorter.len() && shorter[k] == before;
            assert(all[k] == before);
        }
        assert(all[all.len() - 1] == all.last());
        assert forall|i: int| 0 <= i < all.len() implies show_score(
            (#[trigger] all[i]).show,
            wanted_years,
        ) <= show_score(chosen.show, wanted_years) by {
            if i < all.len() - 1 {
                assert(shorter[i] == all[i]);
            }
        }
    }
}

/// A show has one of the wanted names, and its identifier.
pub open spec fn is_candidate(found: CandidateModel, keys: Seq<Seq<char>>) -> bool {
    &&& found.show.integer_at("id"@) == Some(found.id)
    &&& found.show.string_at("name"@) matches Some(name) && keys.contains(title_key(name))
}

proof fn lemma_position_found(all: Seq<CandidateModel>, id: i64)
    ensures
        position(all, id) matches Some(i) ==> 0 <= i < all.len() && all[i].id == id,
    decreases all.len(),
{
    if all.len() > 0 {
        lemma_position_found(all.drop_last(), id);
    }
}

proof fn lemma_results_are_wanted(
    all: Seq<CandidateModel>,
    results: Seq<Json>,
    keys: Seq<Seq<char>>,
    wanted_years: Seq<i64>,
)
    requires
        forall|i: int| 0 <= i < all.len() ==> is_candidate(#[trigger] all[i], keys),
    ensures
        forall|i: int|
            0 <= i < with_results(all, results, keys, wanted_years).len() ==> is_candidate(
                #[trigger] with_results(all, results, keys, wanted_years)[i],
                keys,
            ),
    decreases results.len(),
{
    if results.len() > 0 {
        lemma_results_are_wanted(all, results.drop_last(), keys, wanted_years);
        let before = with_results(all, results.drop_last(), keys, wanted_years);
        let after = with_results(all, results, keys, wanted_years);
        if let Some(found) = candidate(results.last(), keys) {
            lemma_position_found(before, found.id);
            assert(is_candidate(found, keys));
            assert forall|i: int| 0 <= i < after.len() implies is_candidate(
                #[trigger] after[i],
                keys,
            ) by {
                assert(after[i] == found || after[i] == before[i]);
            }
        }
    }
}

/// Every show that is considered has one of the wanted names.
pub proof fn law_candidates_are_wanted(
    replies: Seq<Option<Json>>,
    keys: Seq<Seq<char>>,
    wanted_years: Seq<i64>,
)
    ensures
        forall|i: int|
            0 <= i < candidates(replies, keys, wanted_years).len() ==> is_candidate(
                #[trigger] candidates(replies, keys, wanted_years)[i],
                keys,
            ),
    decreases replies.len(),
{
    if replies.len() > 0 {
        law_candidates_are_wanted(replies.drop_last(), keys, wanted_years);
        lemma_results_are_wanted(
            candidates(replies.drop_last(), keys, wanted_years),
            results_in(replies.last()),
            keys,
            wanted_years,
        );
    }
}

/// Some of the shows has an identifier, and fits at least as well as a score.
spec fn has_as_good(
    all: Seq<CandidateModel>,
    id: i64,
    score: int,
    wanted_years: Seq<i64>,
) -> bool {
    exists|i: int|
        0 <= i < all.len() && (#[trigger] all[i]).id == id && show_score(all[i].show, wanted_years)
            >= score
}

/// Of a show that is noted, the show that is kept under its identifier fits as well.
proof fn lemma_noted_keeps(
    all: Seq<CandidateModel>,
    found: CandidateModel,
    wanted_years: Seq<i64>,
    id: i64,
    score: int,
)
    requires
        has_as_good(all, id, score, wanted_years) || (found.id == id && show_score(
            found.show,
            wanted_years,
        ) >= score),
    ensures
        has_as_good(noted(all, found, wanted_years), id, score, wanted_years),
{
    let after = noted(all, found, wanted_years);
    lemma_position_found(all, found.id);
    if has_as_good(all, id, score, wanted_years) {
        let i = choose|i: int|
            0 <= i < all.len() && (#[trigger] all[i]).id == id && show_score(
                all[i].show,
                wanted_years,
            ) >= score;
        assert(after[i].id == id);
        assert(show_score(after[i].show, wanted_years) >= score);
    } else {
        match position(all, found.id) {
            Some(i) => {
                assert(after[i].id == id);
            },
            None => {
                assert(after[all.len() as int].id == id);
            },
        }
    }
}

proof fn lemma_results_keep(
    all: Seq<CandidateModel>,
    results: Seq<Json>,
    keys: Seq<Seq<char>>,
    wanted_years: Seq<i64>,
    id: i64,
    score: int,
)
    requires
        has_as_good(all, id, score, wanted_years) || exists|k: int|
            0 <= k < results.len() && is_as_good(
                candidate(#[trigger] results[k], keys),
                id,
                score,
                wanted_years,
            ),
    ensures
        has_as_good(with_results(all, results, keys, wanted_years), id, score, wanted_years),
    decreases results.len(),
{
    if results.len() > 0 {
        let shorter = results.drop_last();
        let before = with_results(all, shorter, keys, wanted_years);
        if has_as_good(all, id, score, wanted_years) {
            lemma_results_keep(all, shorter, keys, wanted_years, id, score);
        } else {
            let k = choose|k: int|
                0 <= k < results.len() && is_as_good(
                    candidate(#[trigger] results[k], keys),
                    id,
                    score,
                    wanted_years,
                );
            if k < results.len() - 1 {
                assert(shorter[k] == results[k]);
                lemma_results_keep(all, shorter, keys, wanted_years, id, score);
            }
        }
        if let Some(found) = candidate(results.last(), keys) {
            lemma_noted_keeps(before, found, wanted_years, id, score);
        }
    }
}

/// A search result gives a show with an identifier that fits at least as well as a score.
spec fn is_as_good(
    found: Option<CandidateModel>,
    id: i64,
    score: int,
    wanted_years: Seq<i64>,
) -> bool {
    found matches Some(show) && show.id == id && show_score(show.show, wanted_years) >= score
}

proof fn lemma_replies_keep(
    replies: Seq<Option<Json>>,
    keys: Seq<Seq<char>>,
    wanted_years: Seq<i64>,
    i: int,
    k: int,
)
    requires
        0 <= i < replies.len(),
        0 <= k < results_in(replies[i]).len(),
        candidate(results_in(replies[i])[k], keys) is Some,
    ensures
        ({
            let found = candidate(results_in(replies[i])[k], keys)->0;
            has_as_good(
                candidates(replies, keys, wanted_years),
                found.id,
                show_score(found.show, wanted_years),
                wanted_years,
            )
        }),
    decreases replies.len(),
{
    let found = candidate(results_in(replies[i])[k], keys)->0;
    let score = show_score(found.show, wanted_years);
    let before = candidates(replies.drop_last(), keys, wanted_years);
    let results = results_in(replies.last());
    if i < replies.len() - 1 {
        lemma_replies_keep(replies.drop_last(), keys, wanted_years, i, k);
    } else {
        assert(is_as_good(candidate(results[k], keys), found.id, score, wanted_years));
    }
    lemma_results_keep(before, results, keys, wanted_years, found.id, score);
}

/// No show with a wanted name in any reply fits better than the chosen one.
pub proof fn law_no_reply_holds_a_better_show(
    replies: Seq<Option<Json>>,
    keys: Seq<Seq<char>>,
    wanted_years: Seq<i64>,
    i: int,
    k: int,
)
    requires
        0 <= i < replies.len(),
        0 <= k < results_in(replies[i]).len(),
        candidate(results_in(replies[i])[k], keys) is Some,
    ensures
        best(candidates(replies, keys, wanted_years), wanted_years) matches Some(chosen)
            && show_score(candidate(results_in(replies[i])[k], keys)->0.show, wanted_years)
            <= show_score(chosen.show, wanted_years),
{
    let found = candidate(results_in(replies[i])[k], keys)->0;
    let score = show_score(found.show, wanted_years);
    let all = candidates(replies, keys, wanted_years);
    lemma_replies_keep(replies, keys, wanted_years, i, k);
    law_best_show_fits_best(all, wanted_years);
    let m = choose|m: int|
        0 <= m < all.len() && (#[trigger] all[m]).id == found.id && show_score(
            all[m].show,
            wanted_years,
        ) >= score;
    assert(show_score(all[m].show, wanted_years) >= score);
}

} // verus!
