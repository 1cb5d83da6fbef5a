use season_centralizer::discovery::{
    add_matches, collect_fetched, expand_season_refs, find_wanted, locate_refs,
    plan_backup_searches, plan_season_searches, unused_sources, BackupSearch, FallbackSearch, Search,
};
use season_centralizer::json::{Number, Object, Value};
use season_centralizer::models::{source_by_key, Source, SourceRef};
use season_centralizer::queries::{
    has_episode_rows, metadata_queries, metadata_title_keys, metadata_titles, sorted_queries,
};

/// Takes a document over from its JSON text.
fn doc(text: &str) -> Value {
    from_serde(&serde_json::from_str::<serde_json::Value>(text).unwrap())
}

fn from_serde(value: &serde_json::Value) -> Value {
    match value {
        serde_json::Value::Null => Value::Null,
        serde_json::Value::Bool(b) => Value::Bool(*b),
        serde_json::Value::Number(n) => Value::Number(match (n.as_u64(), n.as_i64()) {
            (Some(n), _) => Number::PosInt(n),
            (None, Some(n)) => Number::NegInt(n),
            (None, None) => Number::Float(n.to_string()),
        }),
        serde_json::Value::String(s) => Value::String(s.clone()),
        serde_json::Value::Array(items) => Value::Array(items.iter().map(from_serde).collect()),
        serde_json::Value::Object(fields) => Value::Object(Object {
            entries: fields.iter().map(|(k, v)| (k.clone(), from_serde(v))).collect(),
        }),
    }
}

fn source(key: &str) -> Source {
    Source { key: key.to_string(), base_url: format!("http://{key}") }
}

fn reference(source: &str, id: &str) -> SourceRef {
    SourceRef { source: source.to_string(), id: id.to_string() }
}

fn asked(searches: &[Search]) -> Vec<(String, String)> {
    searches.iter().map(|s| (s.source.key.clone(), s.query.clone())).collect()
}

#[test]
fn titles_come_from_every_season() {
    let seasons = [
        doc(r#"{"title":"X Season 2","alternative_titles":["Ex"," ",3,"X"],"original_title":"Kusu"}"#),
        doc(r#"{"title":" ","alternative_titles":"no","original_title":"ex"}"#),
        doc("null"),
    ];
    assert_eq!(metadata_titles(&seasons), ["X Season 2", "Ex", "X", "Kusu", "ex"]);
    assert_eq!(metadata_title_keys(&seasons), ["x", "ex", "kusu"]);
    assert_eq!(metadata_queries(&seasons), ["X", "Ex", "Kusu", "ex"]);
    assert_eq!(sorted_queries(&seasons), ["Ex", "Kusu", "X", "ex"]);
    assert!(metadata_titles(&[]).is_empty());
}

#[test]
fn episode_rows_are_noticed() {
    assert!(!has_episode_rows(&[]));
    assert!(!has_episode_rows(&[doc(r#"{"episodes":[]}"#), doc(r#"{"episodes":{}}"#)]));
    assert!(has_episode_rows(&[doc(r#"{"episodes":[]}"#), doc(r#"{"episodes":[null]}"#)]));
}

#[test]
fn sources_are_found_by_key() {
    let sources = [source("a"), source("b"), Source { key: "b".into(), base_url: "second".into() }];
    assert_eq!(source_by_key(&sources, "b").unwrap().base_url, "http://b");
    let unknown = source_by_key(&sources, "c").unwrap_err();
    assert_eq!(unknown.message(), "Unknown upstream source: c");
}

#[test]
fn references_to_unknown_sources_are_passed_over() {
    let refs = [reference("a", "1"), reference("z", "2"), reference("b", "3")];
    let found = locate_refs(&[source("b"), source("a")], &refs);
    assert_eq!(found, vec![(source("a"), "1".to_string()), (source("b"), "3".to_string())]);
}

#[test]
fn wanted_items_are_added_once() {
    let mut known = vec![reference("a", "1")];
    let reply = doc(
        r#"{"items":[{"id":"1","title":"X"},{"id":"2","title":"X Season 2"},{"id":"2","title":"x"},
            {"id":"3","title":"Y"},{"title":"X"},{"id":"4","title":"X s3"}]}"#,
    );
    add_matches(&mut known, "a", &Some(reply), &vec!["x".to_string()]);
    assert_eq!(known, [reference("a", "1"), reference("a", "2"), reference("a", "4")]);
    add_matches(&mut known, "a", &None, &vec!["x".to_string()]);
    add_matches(&mut known, "a", &Some(doc("[]")), &vec!["x".to_string()]);
    assert_eq!(known.len(), 3);
}

#[test]
fn expansion_searches_each_source_for_its_own_titles() {
    let seasons = vec![
        (source("a"), doc(r#"{"title":"X Season 2","alternative_titles":["Ex"]}"#)),
        (source("b"), doc(r#"{"title":"Z"}"#)),
        (source("a"), doc(r#"{"title":"X"}"#)),
    ];
    let searches = plan_season_searches(&seasons);
    let pair = |a: &str, b: &str| (a.to_string(), b.to_string());
    assert_eq!(
        asked(&searches),
        [pair("a", "Ex"), pair("a", "X"), pair("b", "Z"), pair("a", "Ex"), pair("a", "X")]
    );
    let replies = [
        None,
        Some(doc(r#"{"items":[{"id":"1","title":"X"},{"id":"2","title":"X 2nd Season"},{"id":"8","title":"Z"}]}"#)),
        Some(doc(r#"{"items":[{"id":"2","title":"Z s1"},{"id":"9","title":"X"}]}"#)),
        Some(doc(r#"{"items":[{"id":"5","title":"EX"}]}"#)),
        Some(doc(r#"{"no":[]}"#)),
    ];
    let answers: Vec<_> = searches.into_iter().zip(replies).collect();
    let refs = [reference("a", "1"), reference("q", "0")];
    assert_eq!(
        expand_season_refs(&refs, &seasons, &answers),
        [
            reference("a", "1"),
            reference("q", "0"),
            reference("a", "2"),
            reference("b", "2"),
            reference("a", "5"),
        ]
    );
}

#[test]
fn the_first_wanted_item_is_found() {
    let keys = vec!["x".to_string()];
    let reply = Some(doc(r#"{"items":[{"id":"1","title":"Y"},{"id":"2","title":"X"},{"id":"3","title":"X"}]}"#));
    assert_eq!(find_wanted(&reply, &keys), Some("2"));
    let nameless = Some(doc(r#"{"items":[{"title":"X"},{"id":"3","title":"X"}]}"#));
    assert_eq!(find_wanted(&nameless, &keys), None);
    assert_eq!(find_wanted(&None, &keys), None);
}

#[test]
fn a_fallback_search_asks_each_unused_source_until_it_has_the_show() {
    let sources = [source("a"), source("b"), source("c"), source("d")];
    let refs = [reference("b", "1")];
    let seasons = [doc(r#"{"title":"X","original_title":"Ax"}"#)];
    let mut search = FallbackSearch::new(&sources, &refs, &seasons);
    let hit = Some(doc(r#"{"items":[{"id":"7","title":"X Season 1"}]}"#));
    let replies = [None, hit.clone(), hit, Some(doc("{}")), None];
    let mut asked = vec![];
    for reply in &replies {
        let next = search.next_search().unwrap();
        asked.push(format!("{} {}", next.source.key, next.query));
        search.receive(reply);
    }
    assert!(search.next_search().is_none());
    search.receive(&None);
    assert_eq!(asked, ["a Ax", "a X", "c Ax", "d Ax", "d X"]);
    assert_eq!(search.refs_or(&refs), [reference("a", "7"), reference("c", "7")]);
}

#[test]
fn a_fallback_search_that_finds_nothing_keeps_the_references() {
    let refs = [reference("b", "1")];
    let search = FallbackSearch::new(&[source("a")], &refs, &[doc("{}")]);
    assert!(search.next_search().is_none());
    assert_eq!(search.refs_or(&refs), refs);
}

#[test]
fn backups_come_from_unused_sources_alone() {
    let sources = [source("a"), source("b"), source("c")];
    let refs = [reference("b", "1")];
    let unused = unused_sources(&sources, &refs);
    assert_eq!(unused, [source("a"), source("c")]);
    let searches = plan_backup_searches(&sources, &refs, &[doc(r#"{"title":"X","original_title":"A"}"#)]);
    let pair = |a: &str, b: &str| (a.to_string(), b.to_string());
    assert_eq!(
        asked(&searches),
        [pair("a", "A"), pair("a", "X"), pair("c", "A"), pair("c", "X")]
    );
    assert!(plan_backup_searches(&sources, &refs, &[]).is_empty());
}

#[test]
fn a_backup_is_noted_once() {
    let sources = [source("a"), source("b"), source("c")];
    let refs = [reference("b", "1")];
    let mut search = BackupSearch::new(&sources, &refs, &[doc(r#"{"title":"X","original_title":"A"}"#)]);
    let reply = Some(doc(
        r#"{"items":[{"id":"1","title":"X"},{"id":"1","title":"a"},{"id":"2","title":"X s2"},{"id":"3","title":"Y"}]}"#,
    ));
    let replies = [reply.clone(), reply.clone(), None, reply];
    let mut asked = vec![];
    let mut fetched = vec![];
    for reply in &replies {
        let next = search.next_search().unwrap();
        asked.push(format!("{} {}", next.source.key, next.query));
        fetched.push(search.receive(reply));
    }
    assert_eq!(asked, ["a A", "a X", "c A", "c X"]);
    assert_eq!(fetched[0], [reference("a", "1"), reference("a", "2")]);
    assert!(fetched[1].is_empty() && fetched[2].is_empty());
    assert_eq!(fetched[3], [reference("c", "1"), reference("c", "2")]);
    assert!(search.next_search().is_none());
    assert!(search.receive(&replies[0]).is_empty());
}

#[test]
fn fetched_seasons_keep_their_sources() {
    let found = [(source("a"), "1".to_string()), (source("b"), "2".to_string()), (source("a"), "3".to_string())];
    let replies = [Some(doc(r#"{"title":"X"}"#)), None];
    let seasons = collect_fetched(&found, &replies);
    assert_eq!(seasons.len(), 1);
    assert_eq!(seasons[0].0, source("a"));
    let all = [None, Some(doc("1")), Some(doc("2")), Some(doc("3"))];
    let keys: Vec<_> = collect_fetched(&found, &all).into_iter().map(|(s, _)| s.key).collect();
    assert_eq!(keys, ["b", "a"]);
}

#[test]
fn expansion_adds_what_a_named_source_offers_alone() {
    let sources = [source("a"), source("b")];
    let refs = [reference("a", "1"), reference("z", "9")];
    let found = locate_refs(&sources, &refs);
    let seasons = collect_fetched(&found, &[Some(doc(r#"{"title":"X"}"#))]);
    let searches = plan_season_searches(&seasons);
    assert!(searches.iter().all(|search| search.source.key == "a"));
    let reply = doc(r#"{"items":[{"id":"2","title":"X s2"},{"id":"3","title":"Y"}]}"#);
    let answers: Vec<_> = searches.into_iter().map(|search| (search, Some(reply.clone()))).collect();
    assert_eq!(
        expand_season_refs(&refs, &seasons, &answers),
        [reference("a", "1"), reference("z", "9"), reference("a", "2")]
    );
}
