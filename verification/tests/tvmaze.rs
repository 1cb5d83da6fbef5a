use season_centralizer::json::{Number, Object, Value};
use season_centralizer::json_text::compact_text;
use season_centralizer::tvmaze::{
    choose_show, collect_years, images_enabled, show_episodes_path, show_search_path, switches_off,
    tvmaze_image_source, tvmaze_show_score,
};

/// Takes a document over from its JSON text.
fn doc(text: &str) -> Value {
    from_serde(&serde_json::from_str::<serde_json::Value>(text).unwrap())
}

fn from_serde(value: &serde_json::Value) -> Value {
    match value {
        serde_json::Value::Null => Value::Null,
        serde_json::Value::Bool(b) => Value::Bool(*b),
        serde_json::Value::Number(n) => Value::Number(match (n.as_u64(), n.as_i64()) {
            (Some(n), _) => Number::PosInt(n),
            (None, Some(n)) => Number::NegInt(n),
            (None, None) => Number::Float(n.to_string()),
        }),
        serde_json::Value::String(s) => Value::String(s.clone()),
        serde_json::Value::Array(items) => Value::Array(items.iter().map(from_serde).collect()),
        serde_json::Value::Object(fields) => Value::Object(Object {
            entries: fields.iter().map(|(k, v)| (k.clone(), from_serde(v))).collect(),
        }),
    }
}

/// Gives a document as a value that can be compared.
fn shown(value: &Value) -> serde_json::Value {
    serde_json::from_str(&compact_text(value)).unwrap()
}

#[test]
fn pictures_are_on_unless_a_setting_switches_them_off() {
    assert!(images_enabled(None));
    assert!(images_enabled(Some("1")));
    assert!(images_enabled(Some("")));
    for setting in ["0", "false", "no", "FALSE", "No"] {
        assert!(!images_enabled(Some(setting)));
    }
    assert!(switches_off("no") && !switches_off("NO"));
}

#[test]
fn paths_are_encoded() {
    assert_eq!(show_search_path("Re:Zero 86é~"), "search/shows?q=Re%3AZero%2086%C3%A9~");
    assert_eq!(show_episodes_path(-12), "shows/-12/episodes");
}

#[test]
fn years_come_from_every_season() {
    let seasons = [
        doc(r#"{"season_year":2001,"year":"2","start_date":"2003-01-01"}"#),
        doc(r#"{"year":2004}"#),
    ];
    assert_eq!(collect_years(&seasons), [2001, 2003, 2004]);
}

#[test]
fn scores_count_language_and_year() {
    let japanese = doc(r#"{"language":"Japanese","premiered":"2013-04-07"}"#);
    let english = doc(r#"{"language":"English","premiered":"2013-04-07"}"#);
    assert_eq!(tvmaze_show_score(&japanese, &[2000, 2013]), 150);
    assert_eq!(tvmaze_show_score(&japanese, &[]), 100);
    assert_eq!(tvmaze_show_score(&english, &[2013]), 50);
    assert_eq!(tvmaze_show_score(&english, &[2000, 2016]), 17);
    assert_eq!(tvmaze_show_score(&english, &[1993]), 0);
    assert_eq!(tvmaze_show_score(&english, &[i64::MIN, i64::MAX]), 0);
    assert_eq!(tvmaze_show_score(&doc("{}"), &[2013]), 0);
}

#[test]
fn the_best_show_is_chosen() {
    let seasons = [doc(r#"{"title":"X Season 2","year":2013}"#)];
    let replies = [
        None,
        Some(doc(r#"{"show":{}}"#)),
        Some(doc(
            r#"[{"show":{"id":1,"name":"X","language":"English","premiered":"2013-01-01"}},
                {"show":{"id":2,"name":"Y","language":"Japanese","premiered":"2013-01-01"}},
                {"show":{"id":"3","name":"X","language":"Japanese"}},
                {"show":{"id":4,"name":"x","language":"Japanese","premiered":"2010-01-01"}},
                {"show":null},{}]"#,
        )),
        Some(doc(r#"[{"show":{"id":4,"name":"X","language":"Japanese","premiered":"2012-01-01"}},
                     {"show":{"id":4,"name":"X"}}]"#)),
    ];
    let (id, show) = choose_show(&seasons, &replies).unwrap();
    assert_eq!(id, 4);
    assert_eq!(shown(&show)["premiered"], "2012-01-01");
    assert!(choose_show(&seasons, &[]).is_none());
}

#[test]
fn episodes_with_pictures_are_taken_over() {
    let show = doc(
        r#"{"id":5,"name":"X","premiered":"2013-04-07","url":"u","image":{"medium":"m"}}"#,
    );
    let reply = doc(
        r#"[{"id":11,"number":3,"name":"A","airdate":"2013-04-21","image":{"original":"o","medium":"m"}},
            {"id":"\"q\"","image":{"medium":"m"},"airdate":""},
            {"image":{"original":null,"medium":"m"}},
            {"id":12,"image":null}]"#,
    );
    let source = shown(&tvmaze_image_source(5, &show, &reply, &[]).unwrap());
    let expected: serde_json::Value = serde_json::from_str(
        r#"{"id":"5","title":"X","original_title":null,"alternative_titles":[],"synopsis":null,
            "description":null,"poster":"m","banner":null,"year":2013,"season":null,
            "season_year":2013,"status":null,"content_type":"anime","source":"TVMaze",
            "duration_minutes":null,"episode_count":2,"score":null,"rank":null,"popularity":null,
            "rating":null,"genres":[],"tags":[],"authors":[],"studios":[],"staff":[],
            "country_of_origin":null,"start_date":"2013-04-07","end_date":null,"site_url":"u",
            "trailer_url":null,"external_links":[],"updated_at":null,
            "episodes":[
                {"id":"11","anime_id":"5","season_number":null,"number":3,"title":"A","synopsis":null,
                 "thumbnail":"o","aired_at":"2013-04-21T00:00:00Z","source":"TVMaze"},
                {"id":"\\\"q\\","anime_id":"5","season_number":null,"number":0,"title":null,
                 "synopsis":null,"thumbnail":"m","aired_at":null,"source":"TVMaze"}]}"#,
    )
    .unwrap();
    assert_eq!(source, expected);
}

#[test]
fn a_show_without_pictures_adds_nothing() {
    let show = doc(r#"{"id":5}"#);
    assert!(tvmaze_image_source(5, &show, &doc("[]"), &[]).is_none());
    assert!(tvmaze_image_source(5, &show, &doc("{}"), &[]).is_none());
}

#[test]
fn a_nameless_show_is_called_like_its_seasons() {
    let reply = doc(r#"[{"image":{"original":"o"}}]"#);
    let seasons = [doc(r#"{"title":" "}"#), doc(r#"{"title":"Y"}"#)];
    let source = shown(&tvmaze_image_source(5, &doc("{}"), &reply, &seasons).unwrap());
    assert_eq!(source["title"], "Y");
    assert_eq!(source["episodes"][0]["id"], "");
    let nameless = shown(&tvmaze_image_source(5, &doc("{}"), &reply, &[]).unwrap());
    assert_eq!(nameless["title"], "");
}

#[test]
fn documents_are_written_as_serde_json_writes_them() {
    for text in [
        r#"{"b":[1,-2,1.5,true,false,null],"a":{"z":"","é":"ü\n\t\"\\\u0001\u001f\b\f\r/"}}"#,
        "[]",
        "{}",
        "[[],[{}]]",
        r#""text""#,
        "18446744073709551615",
    ] {
        let value: serde_json::Value = serde_json::from_str(text).unwrap();
        assert_eq!(compact_text(&from_serde(&value)), value.to_string());
    }
    let twice = Value::Object(Object {
        entries: vec![("k".to_string(), Value::Null), ("k".to_string(), Value::Bool(true))],
    });
    assert_eq!(compact_text(&twice), r#"{"k":true}"#);
}
