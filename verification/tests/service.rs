use season_centralizer::combine::CombineError;
use season_centralizer::json::{Number, Object, Value};
use season_centralizer::json_text::compact_text;
use season_centralizer::models::{source_by_key, CatalogRequest, Source, SourceRef};
use season_centralizer::refs::{decode_refs, RefsError};
use season_centralizer::service::{
    anime_path, catalog_body, collect_previews, configured_sources, describe_show, error_payload,
    health_payload, manifest_payload, port_or_default, prefers_fallback, previews_payload,
    search_body, season_address, with_more, ShowError, DEFAULT_PORT, SEARCH_LIMIT,
};
use season_centralizer::upstream::join_url;

/// Takes a document over from its JSON text.
fn doc(text: &str) -> Value {
    from_serde(&serde_json::from_str::<serde_json::Value>(text).unwrap())
}

fn from_serde(value: &serde_json::Value) -> Value {
    match value {
        serde_json::Value::Null => Value::Null,
        serde_json::Value::Bool(b) => Value::Bool(*b),
        serde_json::Value::Number(n) => Value::Number(match (n.as_u64(), n.as_i64()) {
            (Some(n), _) => Number::PosInt(n),
            (None, Some(n)) => Number::NegInt(n),
            (None, None) => Number::Float(n.to_string()),
        }),
        serde_json::Value::String(s) => Value::String(s.clone()),
        serde_json::Value::Array(items) => Value::Array(items.iter().map(from_serde).collect()),
        serde_json::Value::Object(fields) => Value::Object(Object {
            entries: fields.iter().map(|(k, v)| (k.clone(), from_serde(v))).collect(),
        }),
    }
}

/// Gives a document as a value that can be compared.
fn shown(value: &Value) -> serde_json::Value {
    serde_json::from_str(&compact_text(value)).unwrap()
}

fn source(key: &str) -> Source {
    Source { key: key.to_string(), base_url: format!("http://{key}") }
}

#[test]
fn manifest_exposes_required_routes() {
    let manifest = shown(&manifest_payload());
    assert_eq!(manifest["id"], "typenx-addon-season-centralizer");
    assert_eq!(
        manifest["resources"],
        serde_json::Value::from(vec!["catalog", "search", "anime_meta"])
    );
    assert_eq!(manifest["catalogs"].as_array().unwrap().len(), 3);
}

#[test]
fn manifest_is_complete() {
    let expected: serde_json::Value = serde_json::from_str(
        r#"{"id":"typenx-addon-season-centralizer","name":"Season Centralizer","version":"0.1.0",
            "description":"Combines split anime seasons from MAL, AniList, and Kitsu into one show.",
            "icon":null,"resources":["catalog","search","anime_meta"],"catalogs":[
            {"id":"popular","name":"Popular Anime","content_type":"anime","filters":[]},
            {"id":"airing","name":"Airing Anime","content_type":"anime","filters":[]},
            {"id":"trending","name":"Trending Anime","content_type":"anime","filters":[]}]}"#,
    )
    .unwrap();
    assert_eq!(shown(&manifest_payload()), expected);
}

#[test]
fn health_and_errors_are_told() {
    assert_eq!(compact_text(&health_payload()), r#"{"message":null,"ok":true}"#);
    assert_eq!(compact_text(&error_payload("no")), r#"{"message":"no"}"#);
}

#[test]
fn joins_with_one_slash() {
    assert_eq!(join_url("http://a//", "/b"), "http://a/b");
    assert_eq!(join_url("http://a", "b/"), "http://a/b/");
    assert_eq!(join_url("", ""), "/");
}

#[test]
fn sources_are_configured_by_a_list() {
    let sources = configured_sources(Some(" http://a/ ,, http://b//,\t"));
    assert_eq!(
        sources,
        [
            Source { key: "source-1".into(), base_url: "http://a".into() },
            Source { key: "source-2".into(), base_url: "http://b".into() },
        ]
    );
    for found in &sources {
        assert_eq!(source_by_key(&sources, &found.key).unwrap(), found);
    }
    assert!(configured_sources(Some(" , ")).is_empty());
}

#[test]
fn three_sources_are_configured_by_default() {
    let urls: Vec<_> = configured_sources(None).into_iter().map(|s| s.base_url).collect();
    assert_eq!(urls, ["http://127.0.0.1:8787", "http://127.0.0.1:8788", "http://127.0.0.1:8789"]);
}

#[test]
fn requests_are_passed_on() {
    let request = CatalogRequest {
        catalog_id: "popular".into(),
        skip: Some(5),
        limit: None,
        query: Some("q".into()),
    };
    assert_eq!(
        compact_text(&catalog_body(&request)),
        r#"{"catalog_id":"popular","limit":null,"query":"q","skip":5}"#
    );
    assert_eq!(
        compact_text(&catalog_body(&CatalogRequest::default())),
        r#"{"catalog_id":"","limit":null,"query":null,"skip":null}"#
    );
    assert_eq!(
        compact_text(&search_body("a\"b", Some(SEARCH_LIMIT))),
        r#"{"limit":20,"query":"a\"b"}"#
    );
}

#[test]
fn seasons_are_addressed_at_their_source() {
    let sources = [source("a")];
    let known = SourceRef { source: "a".into(), id: "7".into() };
    assert_eq!(
        season_address(&sources, &known).unwrap(),
        ("http://a".to_string(), "anime/7".to_string())
    );
    let unknown = SourceRef { source: "b".into(), id: "7".into() };
    assert_eq!(season_address(&sources, &unknown).unwrap_err().key, "b");
    assert_eq!(anime_path("x/y"), "anime/x/y");
}

#[test]
fn previews_of_all_replies_are_presented() {
    let mut items = vec![];
    collect_previews(&mut items, &source("a"), &Some(doc(r#"{"items":[{"id":"1","title":"X"}]}"#)));
    collect_previews(&mut items, &source("b"), &None);
    collect_previews(&mut items, &source("b"), &Some(doc("{}")));
    collect_previews(&mut items, &source("b"), &Some(doc(r#"{"items":{}}"#)));
    collect_previews(&mut items, &source("a"), &Some(doc(r#"{"items":[{"id":"2","title":"X s2"}]}"#)));
    assert_eq!(items.len(), 2);
    let payload = shown(&previews_payload(&items));
    let shows = payload["items"].as_array().unwrap();
    assert_eq!(shows.len(), 1);
    assert_eq!(decode_refs(shows[0]["id"].as_str().unwrap()).unwrap().len(), 2);
}

#[test]
fn fallback_is_preferred_where_it_lists_episodes_alone() {
    let bare = [doc("{}")];
    let full = [doc(r#"{"episodes":[{}]}"#)];
    assert!(prefers_fallback(&bare, &full));
    assert!(!prefers_fallback(&full, &full));
    assert!(!prefers_fallback(&bare, &bare));
}

#[test]
fn a_show_is_described_by_its_seasons_and_other_sources() {
    let seasons = [doc(
        r#"{"id":"1","title":"X","start_date":"2001-01-01","episodes":[{"id":"e","number":2}]}"#,
    )];
    let backups = [doc(r#"{"title":"X","episodes":[{"number":2,"thumbnail":"t"}]}"#)];
    let sources = with_more(&seasons, &backups);
    assert_eq!(sources.len(), 2);
    let show = shown(&describe_show(&seasons, &sources).unwrap());
    let expected: serde_json::Value = serde_json::from_str(
        r#"{"id":"1:e","number":2,"anime_id":"central:1","season_number":1,
            "aired_at":"2001-01-02T00:00:00Z","thumbnail":"t"}"#,
    )
    .unwrap();
    assert_eq!(show["episodes"][0], expected);
}

#[test]
fn a_show_that_cannot_be_described_is_an_error() {
    let none = describe_show(&[], &[]).unwrap_err();
    assert_eq!(none, ShowError::Combine(CombineError::NoSeason));
    assert_eq!(none.message(), "at least one season is required");
    let bare = describe_show(&[doc("1")], &[]).unwrap_err();
    assert_eq!(bare, ShowError::Combine(CombineError::NotAnObject));
    assert_eq!(bare.message(), "anime metadata must be a JSON object");
    let season = [doc(r#"{"title":"X"}"#)];
    let sources = [
        doc(r#"{"title":"X Season 9223372036854775807","year":1}"#),
        doc(r#"{"title":"X","year":2}"#),
    ];
    let range = describe_show(&season, &sources).unwrap_err();
    assert_eq!(range, ShowError::Range);
    assert_eq!(range.message(), "season number or episode count out of range");
}

#[test]
fn identifier_errors_are_told_in_words() {
    let error = |id: &str| decode_refs(id).unwrap_err();
    let message = |id: &str| error(id).message();
    let some = |text: &str| Some(text.to_string());
    assert_eq!(message("x"), some("Season Centralizer anime ids must start with central:"));
    assert_eq!(
        message("central:W10"),
        some("Season Centralizer anime id did not include source refs")
    );
    assert_eq!(message("central:!"), some("Invalid symbol 33, offset 0."));
    assert_eq!(message("central:W"), some("Invalid input length: 1"));
    assert_eq!(message("central:W1+0"), some("Invalid symbol 43, offset 2."));
    assert_eq!(message("central:W11"), some("Invalid last symbol 49, offset 2."));
    assert_eq!(message("central:MQ"), None);
    assert!(matches!(error("central:MQ"), RefsError::Payload(bytes) if bytes == b"1"));
}

#[test]
fn the_port_comes_from_a_setting() {
    assert_eq!(DEFAULT_PORT, 8790);
    assert_eq!(port_or_default(None), 8790);
    for text in ["0", "80", "+80", "00080", "65535", "65536", "-0", "-1", "", "+", "8 0", "x", "٣"] {
        assert_eq!(port_or_default(Some(text)), text.parse().unwrap_or(8790), "{text:?}");
    }
}
