//! What the service says: to its clients, and to the catalogues that it asks.

use crate::combine::{combinable, combine_anime_seasons, combined, is_combinable, CombineError};
use crate::decimal::{digits, lemma_digits, natural_text, parse_integer, parsed_integer};
use crate::discovery::reply_items;
use crate::fill::{
    dating, fill_missing_episode_air_dates, fill_missing_episode_thumbnails, picturing,
    with_episodes,
};
use crate::json::{
    held_reply, lemma_models, models, strings_array, text_list, text_or_null, Json, Number, Object,
    Value,
};
use crate::models::{
    first_with_key, source_by_key, source_models, AnimeMetadata, AnimePreview, CatalogRequest,
    Source, SourceModel, SourceRef, UnknownSource,
};
use crate::previews::{centralize_source_previews, centralized, listed, Listed};
use crate::queries::{episodes_listed, has_episode_rows};
use crate::seasons::{in_order, number_seasons, numbering_fits, sorted_seasons};
use crate::text::{held, pieces, split, texts, trim, trim_end, trimmed, without_trailing};
use vstd::prelude::*;

verus! {

/// The sources that are asked where none are configured.
pub const DEFAULT_SOURCES: &'static str =
    "http://127.0.0.1:8787,http://127.0.0.1:8788,http://127.0.0.1:8789";

/// The addresses in a list, trimmed and without empty ones.
pub open spec fn addresses(parts: Seq<Seq<char>>) -> Seq<Seq<char>>
    decreases parts.len(),
{
    if parts.len() == 0 {
        Seq::empty()
    } else {
        let before = addresses(parts.drop_last());
        let address = trimmed(parts.last());
        if address.len() == 0 {
            before
        } else {
            before.push(address)
        }
    }
}

/// The source at a position, counted from one in its key.
pub open spec fn source_at(address: Seq<char>, i: int) -> SourceModel {
    SourceModel {
        key: "source-"@ + digits((i + 1) as nat),
        base_url: without_trailing(address, |c: char| c == '/'),
    }
}

/// The sources that a list separated by commas configures.
pub open spec fn listed_sources(raw: Seq<char>) -> Seq<SourceModel> {
    let all = addresses(pieces(raw, ','));
    Seq::new(all.len(), |i: int| source_at(all[i], i))
}

/// The sources that a setting configures, or else the default ones.
pub fn configured_sources(setting: Option<&str>) -> (sources: Vec<Source>)
    ensures
        source_models(sources@) == listed_sources(
            match setting {
                Some(raw) => raw@,
                None => DEFAULT_SOURCES@,
            },
        ),
{
    let raw = match setting {
        Some(raw) => raw,
        None => DEFAULT_SOURCES,
    };
    let parts = split(raw, ',');
    let ghost all = texts(parts@);
    let mut sources: Vec<Source> = Vec::new();
    let mut i: usize = 0;
    while i < parts.len()
        invariant
            all == texts(parts@),
            i <= parts@.len(),
            sources@.len() == addresses(all.take(i as int)).len(),
            sources@.len() <= i,
            forall|k: int|
                0 <= k < sources@.len() ==> (#[trigger] sources@[k])@ == source_at(
                    addresses(all.take(i as int))[k],
                    k,
                ),
        decreases parts@.len() - i,
    {
        assert(all.take(i + 1).drop_last() =~= all.take(i as int));
        let address = trim(parts[i].as_str());
        if !address.is_empty() {
            let number = sources.len() as u64 + 1;
            sources.push(
                Source {
                    key: "source-".to_owned().concat(natural_text(number).as_str()),
                    base_url: trim_end(address, '/').to_owned(),
                },
            );
        }
        i = i + 1;
    }
    assert(all.take(i as int) =~= all);
    assert(source_models(sources@) =~= listed_sources(raw@));
    sources
}

/// The port that is listened on where none is configured.
pub const DEFAULT_PORT: u16 = 8790;

/// The port that a text stands for: decimal digits, after a plus sign or none, within range.
pub open spec fn parsed_port(s: Seq<char>) -> Option<u16> {
    match parsed_integer(s) {
        Some(n) => if 0 <= n <= u16::MAX && s[0] != '-' {
            Some(n as u16)
        } else {
            None
        },
        None => None,
    }
}

/// The port that a setting configures, or else the default one.
pub fn port_or_default(setting: Option<&str>) -> (port: u16)
    ensures
        port == (match setting {
            Some(text) => match parsed_port(text@) {
                Some(port) => port,
                None => DEFAULT_PORT,
            },
            None => DEFAULT_PORT,
        }),
{
    match setting {
        None => DEFAULT_PORT,
        Some(text) => match parse_integer(text) {
            Some(n) => if 0 <= n && n <= 65535 && text.get_char(0) != '-' {
                n as u16
            } else {
                DEFAULT_PORT
            },
            None => DEFAULT_PORT,
        },
    }
}

/// One catalogue of the service.
pub open spec fn catalog_entry(id: Seq<char>, name: Seq<char>) -> Json {
    Json::Fields(
        Map::empty().insert("id"@, Json::Text(id)).insert("name"@, Json::Text(name)).insert(
            "content_type"@,
            Json::Text("anime"@),
        ).insert("filters"@, Json::List(Seq::empty())),
    )
}

/// What the service offers.
pub open spec fn manifest() -> Json {
    Json::Fields(
        Map::empty().insert("id"@, Json::Text("typenx-addon-season-centralizer"@)).insert(
            "name"@,
            Json::Text("Season Centralizer"@),
        ).insert("version"@, Json::Text("0.1.0"@)).insert(
            "description"@,
            Json::Text(
                "Combines split anime seasons from MAL, AniList, and Kitsu into one show."@,
            ),
        ).insert("icon"@, Json::Null).insert(
            "resources"@,
            text_list(seq!["catalog"@, "search"@, "anime_meta"@]),
        ).insert(
            "catalogs"@,
            Json::List(
                seq![
                    catalog_entry("popular"@, "Popular Anime"@),
                    catalog_entry("airing"@, "Airing Anime"@),
                    catalog_entry("trending"@, "Trending Anime"@),
                ],
            ),
        ),
    )
}

fn write_catalog_entry(id: &str, name: &str) -> (entry: Value)
    ensures
        entry@ == catalog_entry(id@, name@),
{
    let mut fields = Object::new();
    fields.insert("id", Value::from_text(id));
    fields.insert("name", Value::from_text(name));
    fields.insert("content_type", Value::from_text("anime"));
    fields.insert("filters", Value::Array(Vec::new()));
    Value::Object(fields)
}

/// What the service offers.
pub fn manifest_payload() -> (payload: Value)
    ensures
        payload@ == manifest(),
{
    let mut resources: Vec<String> = Vec::new();
    resources.push("catalog".to_owned());
    resources.push("search".to_owned());
    resources.push("anime_meta".to_owned());
    assert(texts(resources@) =~= seq!["catalog"@, "search"@, "anime_meta"@]);
    let mut catalogs: Vec<Value> = Vec::new();
    catalogs.push(write_catalog_entry("popular", "Popular Anime"));
    catalogs.push(write_catalog_entry("airing", "Airing Anime"));
    catalogs.push(write_catalog_entry("trending", "Trending Anime"));
    proof {
        lemma_models(catalogs@);
        assert(models(catalogs@) =~= seq![
            catalog_entry("popular"@, "Popular Anime"@),
            catalog_entry("airing"@, "Airing Anime"@),
            catalog_entry("trending"@, "Trending Anime"@),
        ]);
    }
    let mut fields = Object::new();
    fields.insert("id", Value::from_text("typenx-addon-season-centralizer"));
    fields.insert("name", Value::from_text("Season Centralizer"));
    fields.insert("version", Value::from_text("0.1.0"));
    fields.insert(
        "description",
        Value::from_text(
            "Combines split anime seasons from MAL, AniList, and Kitsu into one show.",
        ),
    );
    fields.insert("icon", Value::Null);
    fields.insert("resources", strings_array(resources));
    fields.insert("catalogs", Value::Array(catalogs));
    Value::Object(fields)
}

/// What the service says of its health.
pub fn health_payload() -> (payload: Value)
    ensures
        payload@ == Json::Fields(
            Map::empty().insert("ok"@, Json::Bool(true)).insert("message"@, Json::Null),
        ),
{
    let mut fields = Object::new();
    fields.insert("ok", Value::Bool(true));
    fields.insert("message", Value::Null);
    Value::Object(fields)
}

/// How the service tells of an error.
pub fn error_payload(message: &str) -> (payload: Value)
    ensures
        payload@ == Json::Fields(Map::empty().insert("message"@, Json::Text(message@))),
{
    let mut fields = Object::new();
    fields.insert("message", Value::from_text(message));
    Value::Object(fields)
}

/// A count as a document, or null.
pub open spec fn count_or_null(n: Option<u32>) -> Json {
    match n {
        Some(n) => Json::Integer(n as int),
        None => Json::Null,
    }
}

fn option_count(n: Option<u32>) -> (value: Value)
    ensures
        value@ == count_or_null(n),
{
    match n {
        Some(n) => Value::Number(Number::PosInt(n as u64)),
        None => Value::Null,
    }
}

/// The request for a page of a catalogue, as it is passed on to a source.
pub fn catalog_body(request: &CatalogRequest) -> (body: Value)
    ensures
        body@ == Json::Fields(
            Map::empty().insert("catalog_id"@, Json::Text(request.catalog_id@)).insert(
                "skip"@,
                count_or_null(request.skip),
            ).insert("limit"@, count_or_null(request.limit)).insert(
                "query"@,
                text_or_null(held(request.query)),
            ),
        ),
{
    let query = match &request.query {
        Some(query) => Value::from_text(query.as_str()),
        None => Value::Null,
    };
    let mut fields = Object::new();
    fields.insert("catalog_id", Value::from_text(request.catalog_id.as_str()));
    fields.insert("skip", option_count(request.skip));
    fields.insert("limit", option_count(request.limit));
    fields.insert("query", query);
    Value::Object(fields)
}

/// A search for a text, as a source understands it.
pub fn search_body(query: &str, limit: Option<u32>) -> (body: Value)
    ensures
        body@ == Json::Fields(
            Map::empty().insert("query"@, Json::Text(query@)).insert(
                "limit"@,
                count_or_null(limit),
            ),
        ),
{
    let mut fields = Object::new();
    fields.insert("query", Value::from_text(query));
    fields.insert("limit", option_count(limit));
    Value::Object(fields)
}

/// How many items a search for more seasons asks for.
pub const SEARCH_LIMIT: u32 = 20;

/// The path of a season at its source.
pub open spec fn season_path(id: Seq<char>) -> Seq<char> {
    "anime/"@ + id
}

/// The path of a season at its source.
pub fn anime_path(id: &str) -> (path: String)
    ensures
        path@ == season_path(id@),
{
    "anime/".to_owned().concat(id)
}

/// Where a season is to be had: the address of its source, and the path there.
pub fn season_address(sources: &[Source], reference: &SourceRef) -> (address: Result<
    (String, String),
    UnknownSource,
>)
    ensures
        match first_with_key(source_models(sources@), reference.source@) {
            Some(i) => address matches Ok(pair) && pair.0@ == source_models(sources@)[i].base_url
                && pair.1@ == season_path(reference.id@),
            None => address matches Err(unknown) && unknown.key@ == reference.source@,
        },
{
    match source_by_key(sources, reference.source.as_str()) {
        Ok(source) => Ok((source.base_url.clone(), anime_path(reference.id.as_str()))),
        Err(unknown) => Err(unknown),
    }
}

/// The shows that a source lists in a reply.
pub open spec fn listed_in(source: SourceModel, reply: Option<Json>) -> Seq<Listed> {
    reply_items(reply).map_values(|item: Json| Listed { source, item })
}

/// Adds the shows that a source lists in its reply, if one came.
pub fn collect_previews(
    items: &mut Vec<(Source, AnimePreview)>,
    source: &Source,
    response: &Option<Value>,
)
    ensures
        listed(final(items)@) == listed(old(items)@) + listed_in(source@, held_reply(*response)),
{
    let ghost start = listed(items@);
    let ghost all = listed_in(source@, held_reply(*response));
    if let Some(document) = response {
        if let Some(member) = document.get("items") {
            if let Some(found) = member.as_array() {
                let ghost documents = models(found@);
                let mut i: usize = 0;
                assert(start + all.take(0) =~= start);
                while i < found.len()
                    invariant
                        documents == models(found@),
                        all == documents.map_values(
                            |item: Json| Listed { source: source@, item },
                        ),
                        i <= found@.len(),
                        listed(items@) == start + all.take(i as int),
                    decreases found@.len() - i,
                {
                    proof {
                        lemma_models(found@);
                    }
                    let ghost before = items@;
                    items.push((source.clone(), found[i].clone()));
                    proof {
                        assert(listed(items@) =~= listed(before).push(all[i as int]));
                        assert(all.take(i + 1) =~= all.take(i as int).push(all[i as int]));
                        assert(listed(items@) =~= start + all.take(i + 1));
                    }
                    i = i + 1;
                }
                proof {
                    lemma_models(found@);
                    assert(all.take(i as int) =~= all);
                }
                return ;
            }
        }
    }
    assert(start + all =~= start);
}

/// The reply to a request for shows.
pub fn previews_payload(items: &[(Source, AnimePreview)]) -> (payload: Value)
    ensures
        payload@ == Json::Fields(
            Map::empty().insert("items"@, Json::List(centralized(listed(items@)))),
        ),
{
    let mut fields = Object::new();
    fields.insert("items", Value::Array(centralize_source_previews(items)));
    Value::Object(fields)
}

/// Whether to describe a show by the seasons of other sources: where they list episodes, and those
/// at hand list none.
pub fn prefers_fallback(seasons: &[AnimeMetadata], fallback: &[AnimeMetadata]) -> (yes: bool)
    ensures
        yes == (!episodes_listed(models(seasons@)) && episodes_listed(models(fallback@))),
{
    !has_episode_rows(seasons) && has_episode_rows(fallback)
}

/// Descriptions, and more of them behind.
pub fn with_more(first: &[AnimeMetadata], more: &[AnimeMetadata]) -> (all: Vec<AnimeMetadata>)
    ensures
        models(all@) == models(first@) + models(more@),
{
    let mut all: Vec<Value> = Vec::new();
    let mut i: usize = 0;
    while i < first.len()
        invariant
            i <= first@.len(),
            all@.len() == i,
            forall|k: int| 0 <= k < i ==> (#[trigger] all@[k])@ == first@[k]@,
        decreases first@.len() - i,
    {
        all.push(first[i].clone());
        i = i + 1;
    }
    let mut j: usize = 0;
    while j < more.len()
        invariant
            j <= more@.len(),
            all@.len() == first@.len() + j,
            forall|k: int| 0 <= k < first@.len() ==> (#[trigger] all@[k])@ == first@[k]@,
            forall|k: int|
                first@.len() <= k < first@.len() + j ==> (#[trigger] all@[k])@ == more@[k
                    - first@.len()]@,
        decreases more@.len() - j,
    {
        all.push(more[j].clone());
        j = j + 1;
    }
    proof {
        lemma_models(first@);
        lemma_models(more@);
        lemma_models(all@);
        assert(models(all@) =~= models(first@) + models(more@));
    }
    all
}

/// Why a show cannot be described.
#[derive(Clone, Copy, Debug, PartialEq, Eq, Structural)]
pub enum ShowError {
    /// The seasons cannot be combined.
    Combine(CombineError),
    /// A season number or an episode count falls out of range.
    Range,
}

/// The numbers that describing a show computes stay within range.
pub open spec fn describable(seasons: Seq<Json>, sources: Seq<Json>) -> bool {
    combinable(seasons) && numbering_fits(in_order(seasons)) && numbering_fits(in_order(sources))
}

/// A show: its seasons combined, with what its episodes lack filled in.
pub open spec fn description(seasons: Seq<Json>, sources: Seq<Json>) -> Result<Json, ShowError> {
    match combined(seasons) {
        Err(error) => Err(ShowError::Combine(error)),
        Ok(show) => if describable(seasons, sources) {
            Ok(with_episodes(with_episodes(show, dating(seasons)), picturing(sources)))
        } else {
            Err(ShowError::Range)
        },
    }
}

/// Whether the numbers of seasons stay within range.
fn numbers_fit(seasons: &[AnimeMetadata]) -> (yes: bool)
    ensures
        yes == numbering_fits(in_order(models(seasons@))),
{
    number_seasons(&sorted_seasons(seasons)).is_some()
}

/// Describes a show: combines its seasons, dates its episodes, and gives them pictures out of all
/// sources.
pub fn describe_show(seasons: &[AnimeMetadata], sources: &[AnimeMetadata]) -> (show: Result<
    AnimeMetadata,
    ShowError,
>)
    ensures
        match show {
            Ok(value) => description(models(seasons@), models(sources@)) == Ok::<Json, ShowError>(
                value@,
            ),
            Err(error) => description(models(seasons@), models(sources@)) == Err::<
                Json,
                ShowError,
            >(error),
        },
{
    if !is_combinable(seasons) {
        return Err(ShowError::Range);
    }
    match combine_anime_seasons(seasons) {
        Err(error) => Err(ShowError::Combine(error)),
        Ok(combined) => {
            if !numbers_fit(seasons) || !numbers_fit(sources) {
                return Err(ShowError::Range);
            }
            let dated = fill_missing_episode_air_dates(combined, seasons);
            Ok(fill_missing_episode_thumbnails(dated, sources))
        },
    }
}

impl ShowError {
    /// The error in words.
    pub fn message(&self) -> (text: &'static str)
        ensures
            text@ == (match *self {
                ShowError::Combine(CombineError::NoSeason) => "at least one season is required"@,
                ShowError::Combine(CombineError::NotAnObject) =>
                    "anime metadata must be a JSON object"@,
                ShowError::Range => "season number or episode count out of range"@,
            }),
    {
        match self {
            ShowError::Combine(error) => error.message(),
            ShowError::Range => "season number or episode count out of range",
        }
    }
}

/// No two configured sources have one key.
pub proof fn law_source_keys_differ(raw: Seq<char>, i: int, j: int)
    requires
        0 <= i < listed_sources(raw).len(),
        0 <= j < listed_sources(raw).len(),
        listed_sources(raw)[i].key == listed_sources(raw)[j].key,
    ensures
        i == j,
{
    let prefix = "source-"@;
    let a = digits((i + 1) as nat);
    let b = digits((j + 1) as nat);
    lemma_digits((i + 1) as nat);
    lemma_digits((j + 1) as nat);
    assert((prefix + a).skip(prefix.len() as int) =~= a);
    assert((prefix + b).skip(prefix.len() as int) =~= b);
}

proof fn lemma_first_with_key_at(sources: Seq<SourceModel>, i: int)
    requires
        0 <= i < sources.len(),
        forall|k: int| 0 <= k < i ==> (#[trigger] sources[k]).key != sources[i].key,
    ensures
        first_with_key(sources, sources[i].key) == Some(i),
    decreases sources.len(),
{
    let shorter = sources.drop_last();
    if i < sources.len() - 1 {
        assert(shorter[i] == sources[i]);
        lemma_first_with_key_at(shorter, i);
    } else {
        lemma_first_with_key_none(shorter, sources[i].key);
    }
}

proof fn lemma_first_with_key_none(sources: Seq<SourceModel>, key: Seq<char>)
    requires
        forall|k: int| 0 <= k < sources.len() ==> (#[trigger] sources[k]).key != key,
    ensures
        first_with_key(sources, key) is None,
    decreases sources.len(),
{
    if sources.len() > 0 {
        assert(sources[sources.len() - 1].key != key);
        assert forall|k: int| 0 <= k < sources.drop_last().len() implies (
        #[trigger] sources.drop_last()[k]).key != key by {
            assert(sources[k].key != key);
        }
        lemma_first_with_key_none(sources.drop_last(), key);
    }
}

/// Every configured source is found by its key.
pub proof fn law_configured_sources_are_found(raw: Seq<char>, i: int)
    requires
        0 <= i < listed_sources(raw).len(),
    ensures
        first_with_key(listed_sources(raw), listed_sources(raw)[i].key) == Some(i),
{
    let sources = listed_sources(raw);
    assert forall|k: int| 0 <= k < i implies (#[trigger] sources[k]).key != sources[i].key by {
        if sources[k].key == sources[i].key {
            law_source_keys_differ(raw, k, i);
        }
    }
    lemma_first_with_key_at(sources, i);
}

} // verus!
