use season_centralizer::combine::{
    combine_anime_seasons, combined_episodes, is_combinable, CombineError,
};
use season_centralizer::dates::CalendarDate;
use season_centralizer::fill::{
    episode_thumbnail_lookup, fill_missing_episode_air_dates, fill_missing_episode_thumbnails,
    find_image, season_artwork_lookup, season_start_dates, LookupKey,
};
use season_centralizer::json::{int_field, string_field, Number, Object, Value};
use season_centralizer::json_text::compact_text;
use season_centralizer::models::{Source, SourceRef};
use season_centralizer::previews::centralize_source_previews;
use season_centralizer::refs::decode_refs;
use season_centralizer::seasons::{number_seasons, sorted_seasons};
use season_centralizer::titles::{
    base_show_title, marked_number, normalize_title_key, ordinal_number, season_number_of,
    tidy_title,
};

/// Takes a document over from its JSON text.
fn doc(text: &str) -> Value {
    from_serde(&serde_json::from_str::<serde_json::Value>(text).unwrap())
}

fn from_serde(value: &serde_json::Value) -> Value {
    match value {
        serde_json::Value::Null => Value::Null,
        serde_json::Value::Bool(b) => Value::Bool(*b),
        serde_json::Value::Number(n) => Value::Number(match (n.as_u64(), n.as_i64()) {
            (Some(n), _) => Number::PosInt(n),
            (None, Some(n)) => Number::NegInt(n),
            (None, None) => Number::Float(n.to_string()),
        }),
        serde_json::Value::String(s) => Value::String(s.clone()),
        serde_json::Value::Array(items) => Value::Array(items.iter().map(from_serde).collect()),
        serde_json::Value::Object(fields) => Value::Object(Object {
            entries: fields.iter().map(|(k, v)| (k.clone(), from_serde(v))).collect(),
        }),
    }
}

/// Gives a document as a value that can be compared.
fn shown(value: &Value) -> serde_json::Value {
    serde_json::from_str(&compact_text(value)).unwrap()
}

fn metadata(id: &str, title: &str, year: i64, start_date: &str, episodes: &str) -> Value {
    let quoted = |text: &str| serde_json::to_string(text).unwrap();
    doc(&format!(
        r#"{{
            "id": {}, "title": {}, "original_title": null, "alternative_titles": [],
            "synopsis": null, "description": null, "poster": null, "banner": null,
            "year": {year}, "season": null, "season_year": {year}, "status": null,
            "content_type": "anime", "source": null, "duration_minutes": null,
            "episode_count": null, "score": null, "rank": null, "popularity": null,
            "rating": null, "genres": [], "tags": [], "authors": [], "studios": [],
            "staff": [], "country_of_origin": "JP", "start_date": {},
            "end_date": null, "site_url": null, "trailer_url": null,
            "external_links": [], "episodes": {episodes}, "updated_at": null
        }}"#,
        quoted(id),
        quoted(title),
        quoted(start_date),
    ))
}

fn source(key: &str) -> Source {
    Source { key: key.to_string(), base_url: "http://127.0.0.1:8787".to_string() }
}

#[test]
fn normalizes_split_season_titles() {
    assert_eq!(base_show_title("Attack on Titan Season 2"), "Attack on Titan");
    assert_eq!(base_show_title("Sousou no Frieren 2nd Season"), "Sousou no Frieren");
    assert_eq!(
        base_show_title("Bleach: Thousand-Year Blood War Part 2"),
        "Bleach: Thousand-Year Blood War"
    );
    assert_eq!(normalize_title_key("Attack on Titan: The Final Season"), "attackontitan");
    assert_eq!(season_number_of("Haikyu!! Third Season"), Some(3));
}

#[test]
fn groups_split_seasons_inside_each_source() {
    let source = Source { key: "mal".into(), base_url: "http://127.0.0.1:8787".into() };
    let items = vec![
        (
            source.clone(),
            doc(r#"{"id":"1","title":"Attack on Titan","poster":null,"year":2013,"content_type":"anime"}"#),
        ),
        (
            source.clone(),
            doc(r#"{"id":"2","title":"Attack on Titan Season 2","poster":null,"year":2017,"content_type":"anime"}"#),
        ),
    ];
    let centralized = centralize_source_previews(&items);
    assert_eq!(centralized.len(), 1);
    assert_eq!(string_field(&centralized[0], "title"), Some("Attack on Titan"));
    assert_eq!(
        decode_refs(centralized[0].get("id").unwrap().as_str().unwrap()).unwrap(),
        vec![
            SourceRef { source: "mal".into(), id: "1".into() },
            SourceRef { source: "mal".into(), id: "2".into() },
        ]
    );
}

#[test]
fn merges_metadata_and_numbers_episodes_by_inferred_season() {
    let first = metadata(
        "1",
        "Attack on Titan",
        2013,
        "2013-04-07",
        r#"[{"id":"e1","number":1,"title":"To You","thumbnail":null,"aired_at":null}]"#,
    );
    let second = metadata(
        "2",
        "Attack on Titan Season 2",
        2017,
        "2017-04-01",
        r#"[{"id":"e2","number":1,"title":"Beast Titan","thumbnail":null,"aired_at":null}]"#,
    );
    let combined = shown(&combine_anime_seasons(&[second, first]).unwrap());
    assert_eq!(combined["id"], "central:1,2");
    assert_eq!(combined["title"], "Attack on Titan");
    assert_eq!(combined["episode_count"], 2);
    assert_eq!(combined["episodes"][0]["id"], "1:e1");
    assert_eq!(combined["episodes"][1]["season_number"], 2);
}

#[test]
fn fills_missing_episode_thumbnails_from_backup_episode() {
    let mut combined = metadata(
        "central",
        "One Piece",
        1999,
        "1999-10-20",
        r#"[{
            "id":"central:427","anime_id":"central","season_number":13,"number":427,
            "title":"A Special Presentation Related to the Movie!","synopsis":null,"thumbnail":null,"aired_at":null
        }]"#,
    );
    let backup = metadata(
        "backup",
        "One Piece",
        1999,
        "1999-10-20",
        r#"[{
            "id":"backup:427","anime_id":"backup","season_number":13,"number":427,
            "title":"A Special Presentation Related to the Movie!","synopsis":null,
            "thumbnail":"https://example.test/episode-427.jpg","aired_at":null
        }]"#,
    );
    combined = fill_missing_episode_thumbnails(combined, &[backup]);
    assert_eq!(
        shown(&combined)["episodes"][0]["thumbnail"],
        "https://example.test/episode-427.jpg"
    );
}

#[test]
fn every_season_mark_is_taken_off_a_title() {
    assert_eq!(base_show_title("Overlord S4"), "Overlord");
    assert_eq!(base_show_title("Spy x Family Cour 2"), "Spy x Family");
    assert_eq!(base_show_title("Haikyu!! Third Season"), "Haikyu!!");
    assert_eq!(base_show_title("Attack on Titan Final Season"), "Attack on Titan");
    assert_eq!(base_show_title("  Mob\t Psycho   100 -"), "Mob Psycho 100");
    assert_eq!(base_show_title("Dr. Stone: Season 2"), "Dr. Stone");
    assert_eq!(base_show_title("Classroom"), "Classroom");
}

#[test]
fn titles_are_tidied() {
    assert_eq!(tidy_title("a : - "), "a :");
    assert_eq!(tidy_title("\u{3000}a\n\nb :"), "a b");
    assert_eq!(tidy_title(""), "");
}

#[test]
fn title_keys_hold_letters_and_digits_alone() {
    assert_eq!(normalize_title_key("Re:ZERO -Starting Life- 2nd Season"), "rezerostartinglife");
    assert_eq!(normalize_title_key("ÉCLAIR 86"), "clair86");
}

#[test]
fn the_first_kind_of_mark_decides_the_season_number() {
    assert_eq!(season_number_of("X Season 12"), Some(12));
    assert_eq!(season_number_of("X s3"), Some(3));
    assert_eq!(season_number_of("X 4th season"), Some(4));
    assert_eq!(season_number_of("X TENTH Season"), Some(10));
    assert_eq!(season_number_of("X"), None);
    assert_eq!(season_number_of("X Season 99999999999999999999 S2"), None);
}

#[test]
fn ordinal_words_stand_for_numbers() {
    let words = [
        "second", "third", "fourth", "fifth", "sixth", "seventh", "eighth", "ninth", "tenth",
    ];
    for (i, word) in words.iter().enumerate() {
        assert_eq!(ordinal_number(word), Some(i as i64 + 2));
    }
    assert_eq!(ordinal_number("first"), None);
}

#[test]
fn shows_of_different_sources_stay_apart() {
    let items = vec![
        (source("a"), doc(r#"{"id":"2","title":"X Season 2","year":2011}"#)),
        (source("b"), doc(r#"{"id":"9","title":"X","year":2010}"#)),
        (source("a"), doc(r#"{"id":"1","title":"X","year":2010,"score":7.5}"#)),
        (source("a"), doc(r#"{"id":"7"}"#)),
        (source("a"), doc(r#"{"title":"X Season 3"}"#)),
    ];
    let shows = centralize_source_previews(&items);
    assert_eq!(shows.len(), 2);
    let first = shown(&shows[0]);
    assert_eq!(first["title"], "X");
    assert_eq!(first["score"], 7.5);
    assert_eq!(first["external_source"], "a");
    assert_eq!(
        decode_refs(first["id"].as_str().unwrap()).unwrap(),
        vec![
            SourceRef { source: "a".into(), id: "1".into() },
            SourceRef { source: "a".into(), id: "2".into() },
        ]
    );
    assert_eq!(
        first["season_entries"],
        serde_json::from_str::<serde_json::Value>(
            r#"[
                {"id":"1","title":"X","season_number":null,"year":2010,"episode_count":null,"source":"a"},
                {"id":"2","title":"X Season 2","season_number":2,"year":2011,"episode_count":null,"source":"a"}
            ]"#
        )
        .unwrap()
    );
    assert_eq!(shown(&shows[1])["external_source"], "b");
}

#[test]
fn combining_needs_a_season_that_is_an_object() {
    assert!(is_combinable(&[]));
    assert!(matches!(combine_anime_seasons(&[]), Err(CombineError::NoSeason)));
    assert!(matches!(
        combine_anime_seasons(&[doc("[1]")]),
        Err(CombineError::NotAnObject)
    ));
}

#[test]
fn combining_merges_lists_and_dates() {
    let first = doc(
        r#"{"id":"a","title":"X Season 1","year":2001,"season":"fall","genres":[" Drama ","","Action",5],
            "tags":["t"],"alternative_titles":["Ex"],"start_date":"2001-01-02","end_date":null,
            "episode_count":3,"extra":[true]}"#,
    );
    let second = doc(
        r#"{"id":"b","title":"X Season 2","year":2002,"genres":["Action","Comedy"],"studios":["S","S "],
            "alternative_titles":["Ex"],"end_date":"2002-06-07","episode_count":4}"#,
    );
    let combined = shown(&combine_anime_seasons(&[second, first]).unwrap());
    assert_eq!(
        combined,
        serde_json::from_str::<serde_json::Value>(
            r#"{"id":"central:a,b","title":"X","alternative_titles":["X Season 1","Ex","X Season 2"],
                "genres":["Drama","Action","Comedy"],"tags":["t"],"studios":["S"],"episodes":[],
                "episode_count":7,"start_date":"2001-01-02","end_date":"2002-06-07","season":null,
                "year":2001,"season_year":2001,"extra":[true]}"#
        )
        .unwrap()
    );
}

#[test]
fn combining_does_not_depend_on_the_order_of_the_seasons() {
    let all = [
        metadata("1", "X", 2001, "2001-01-01", r#"[{"id":"e","number":1}]"#),
        metadata("2", "X", 2002, "2002-01-01", r#"[{"id":"e","number":1}]"#),
        metadata("3", "X Season 7", 2003, "2003-01-01", r#"[{"id":"e","number":1,"season_number":5}]"#),
    ];
    let forward = combine_anime_seasons(&all).unwrap();
    let backward =
        combine_anime_seasons(&[all[2].clone(), all[1].clone(), all[0].clone()]).unwrap();
    assert_eq!(shown(&forward), shown(&backward));
    let rows = &shown(&forward)["episodes"];
    assert_eq!(rows[0]["season_number"], 1);
    assert_eq!(rows[1]["season_number"], 2);
    assert_eq!(rows[2]["season_number"], 5);
    assert_eq!(rows[2]["id"], "3:e");
    assert_eq!(rows[2]["anime_id"], "central:1,2,3");
}

#[test]
fn counts_that_leave_the_range_are_not_combinable() {
    let huge = doc(r#"{"id":"a","title":"X","episode_count":9223372036854775807}"#);
    let one = doc(r#"{"id":"b","title":"X","episode_count":1}"#);
    assert!(is_combinable(&[huge.clone()]));
    assert!(!is_combinable(&[huge, one]));
    let last = doc(r#"{"id":"a","title":"X Season 9223372036854775807","year":1}"#);
    let next = doc(r#"{"id":"b","title":"X","year":2}"#);
    assert!(!is_combinable(&[last, next]));
}

#[test]
fn seasons_are_sorted_and_numbered() {
    let seasons = [
        doc(r#"{"id":"c","title":"X","year":2003}"#),
        doc(r#"{"id":"b","title":"X Season 4","season_year":2002,"year":1990}"#),
        doc(r#"{"id":"a","title":"X","start_date":"2001-01-01","year":2002}"#),
        doc(r#"{"id":"d","title":"X"}"#),
    ];
    let ordered = sorted_seasons(&seasons);
    let ids: Vec<_> = ordered.iter().map(|s| string_field(s, "id").unwrap()).collect();
    assert_eq!(ids, ["d", "b", "a", "c"]);
    assert_eq!(number_seasons(&ordered), Some(vec![1, 4, 5, 6]));
}

#[test]
fn air_dates_follow_from_the_start_of_the_season() {
    let first = metadata("1", "X", 2001, "2001-02-27", "[]");
    let second = metadata("2", "X", 2002, "not a date", "[]");
    let show = metadata(
        "c",
        "X",
        2001,
        "2001-02-27",
        r#"[{"season_number":1,"number":1,"aired_at":""},
            {"season_number":1,"number":3,"aired_at":null},
            {"season_number":1,"number":3,"aired_at":"2020"},
            {"season_number":1,"number":0},
            {"season_number":2,"number":1},
            {"number":1},
            {"season_number":1,"number":9223372036854775807},
            7]"#,
    );
    let filled = fill_missing_episode_air_dates(show, &[second.clone(), first.clone()]);
    let rows = shown(&filled)["episodes"].clone();
    assert_eq!(rows[0]["aired_at"], "2001-02-27T00:00:00Z");
    assert_eq!(rows[1]["aired_at"], "2001-03-01T00:00:00Z");
    assert_eq!(rows[2]["aired_at"], "2020");
    for i in 3..7 {
        assert!(rows[i].get("aired_at").is_none());
    }
    assert_eq!(rows[7], 7);
    let again = fill_missing_episode_air_dates(filled.clone(), &[second, first]);
    assert_eq!(shown(&again), shown(&filled));
}

#[test]
fn the_last_season_with_a_number_dates_its_episodes() {
    let early = metadata("1", "X Season 1", 2001, "2001-01-01", "[]");
    let late = metadata("2", "X Season 1", 2002, "2002-01-01", "[]");
    let show = metadata("c", "X", 2001, "2001-01-01", r#"[{"season_number":1,"number":1}]"#);
    let filled = fill_missing_episode_air_dates(show, &[late, early]);
    assert_eq!(shown(&filled)["episodes"][0]["aired_at"], "2002-01-01T00:00:00Z");
}

#[test]
fn pictures_are_looked_up_in_order_of_likeness() {
    let backup = metadata(
        "b",
        "X Season 2",
        2001,
        "2001-01-01",
        r#"[{"number":1,"thumbnail":"second-one"},
            {"season_number":3,"number":1,"title":"Alpha","thumbnail":"third-one"},
            {"season_number":3,"number":2,"title":"Beta","aired_at":"2005-05-05","thumbnail":"third-two"},
            {"number":9,"thumbnail":" "}]"#,
    );
    let show = metadata(
        "c",
        "X",
        2001,
        "2001-01-01",
        r#"[{"season_number":3,"number":1},
            {"season_number":2,"number":1},
            {"season_number":3,"number":8,"title":"BETA!"},
            {"season_number":7,"number":2},
            {"season_number":7,"number":8,"title":"alpha"},
            {"season_number":7,"number":8,"aired_at":"2005-05-05T12:00:00Z"},
            {"number":9},
            {"season_number":3,"number":1,"thumbnail":"own"}]"#,
    );
    let filled = fill_missing_episode_thumbnails(show, &[backup.clone()]);
    let rows = shown(&filled)["episodes"].clone();
    assert_eq!(rows[0]["thumbnail"], "third-one");
    assert_eq!(rows[1]["thumbnail"], "second-one");
    assert_eq!(rows[2]["thumbnail"], "third-two");
    assert_eq!(rows[3]["thumbnail"], "third-two");
    assert_eq!(rows[4]["thumbnail"], "third-one");
    assert_eq!(rows[5]["thumbnail"], "third-two");
    assert!(rows[6].get("thumbnail").is_none());
    assert_eq!(rows[7]["thumbnail"], "own");
    let again = fill_missing_episode_thumbnails(filled.clone(), &[backup]);
    assert_eq!(shown(&again), shown(&filled));
}

#[test]
fn artwork_stands_in_for_missing_pictures() {
    let first = doc(r#"{"title":"X","year":2001,"banner":"first-banner"}"#);
    let second = doc(r#"{"title":"X","year":2002,"poster":"second-poster","banner":"no"}"#);
    let show = doc(r#"{"episodes":[{"season_number":2,"number":1},{"season_number":5},{}]}"#);
    let filled = fill_missing_episode_thumbnails(show, &[second, first]);
    let rows = shown(&filled)["episodes"].clone();
    assert_eq!(rows[0]["thumbnail"], "second-poster");
    assert_eq!(rows[1]["thumbnail"], "second-poster");
    assert_eq!(rows[2]["thumbnail"], "second-poster");
}

#[test]
fn filling_leaves_what_is_no_list_of_episodes_alone() {
    for text in [r#"{"episodes":null}"#, "{}", "[]", "null"] {
        let filled = fill_missing_episode_air_dates(doc(text), &[]);
        assert_eq!(shown(&fill_missing_episode_thumbnails(filled, &[])), shown(&doc(text)));
    }
}

#[test]
fn fields_are_read_by_kind() {
    let value = doc(r#"{"n":7,"big":18446744073709551615,"neg":-3,"f":1.5,"s":" x ","blank":" "}"#);
    assert_eq!(int_field(&value, "n"), Some(7));
    assert_eq!(int_field(&value, "neg"), Some(-3));
    assert_eq!(int_field(&value, "big"), None);
    assert_eq!(int_field(&value, "f"), None);
    assert_eq!(int_field(&value, "s"), None);
    assert_eq!(string_field(&value, "s"), Some(" x "));
    assert_eq!(string_field(&value, "blank"), None);
    assert_eq!(string_field(&value, "n"), None);
    assert_eq!(string_field(&doc("3"), "n"), None);
}

/// Titles that come close to a mark themselves.
const TRICKY: [&str; 44] = [
    "", " ", "X", "X ", "X:", "X - ", "X: -", "Season", "X season", "X season 1", "X Season 1 ",
    "final season", "The Final Season", "X final season final", "semifinal", "SEMIFINALs", "X the",
    "the", "s", "X s", "S2", "X S2 ", "X s2s", "2nd", "X 2nd", "X 3rd season", "2nd season 2nd",
    "second", "X Second", "Second Season", "tenth  season", "part", "X Part", "part 1", "part 1 part",
    "cour", "X cour 12", "86", "X 86", "Season 86 86", "é", "X\u{3000}", "\u{17f}eason 3", "X 2\u{661}",
];

fn take_off(marks: &[&str]) {
    for title in TRICKY {
        let base = base_show_title(title);
        for mark in marks {
            let marked = format!("{title}{mark}");
            let number_behind_final =
                mark.starts_with(" Season") && title.trim_end().to_lowercase().ends_with(" final");
            if !number_behind_final {
                assert_eq!(base_show_title(&marked), base, "{marked:?}");
            }
        }
    }
}

#[test]
fn a_last_season_behind_a_title_makes_no_difference() {
    take_off(&[" The Final Season", " Tenth Season"]);
}

#[test]
fn a_season_number_behind_a_title_makes_no_difference() {
    take_off(&[" Season 2", " Season 0012"]);
    assert_eq!(base_show_title("X final Season 2"), "X 2");
    assert_eq!(normalize_title_key("X Season 2"), normalize_title_key("X"));
}

#[test]
fn a_letter_or_a_word_behind_a_title_makes_no_difference() {
    take_off(&[" S3", " S03", " Second Season"]);
}

#[test]
fn an_ordinal_number_behind_a_title_makes_no_difference() {
    take_off(&[" 1st Season", " 12th Season", " 3rd Season"]);
}

#[test]
fn a_part_behind_a_title_makes_no_difference() {
    take_off(&[" Part 2", " Cour 11", " 22nd Season"]);
}

#[test]
fn a_number_behind_the_word_is_the_season_number() {
    for title in TRICKY {
        let has_number = ["season 1", "season 86", "\u{17f}eason 3"]
            .iter()
            .any(|mark| title.to_lowercase().contains(mark));
        if !has_number {
            assert_eq!(season_number_of(&format!("{title} Season 17")), Some(17), "{title:?}");
        }
    }
}

#[test]
fn the_mark_at_the_end_gives_the_number_of_an_unmarked_title() {
    let marks = [
        (" S3", Some(3)),
        (" S007", Some(7)),
        (" 1st Season", Some(1)),
        (" 22nd Season", Some(22)),
        (" Third Season", Some(3)),
        (" Tenth Season", Some(10)),
        (" Part 2", None),
        (" Cour 2", None),
        (" The Final Season", None),
    ];
    for title in ["", "X", "X Season", "X 2nd", "Second", "X Part 3", "s", "86", "é\u{661}", "X: "] {
        assert_eq!(season_number_of(title), None);
        for (mark, number) in marks {
            assert_eq!(season_number_of(&format!("{title}{mark}")), number, "{title:?} {mark:?}");
        }
    }
}

#[test]
fn an_earlier_kind_of_mark_in_the_title_comes_first() {
    assert_eq!(season_number_of("X Season 4 S3"), Some(4));
    assert_eq!(season_number_of("X S4 Third Season"), Some(4));
    assert_eq!(season_number_of("X Third Season S4"), Some(4));
    assert_eq!(season_number_of("X Third Season 5th Season"), Some(5));
    assert_eq!(season_number_of("X Third Season Fourth Season"), Some(3));
    assert_eq!(season_number_of("X S4 Part 2"), Some(4));
    assert_eq!(season_number_of("X 5th Season The Final Season"), Some(5));
}

#[test]
fn marks_give_a_number_by_turns() {
    let group = |text: &str| Some(Some(text.to_string()));
    assert_eq!(marked_number(&group("1"), &group("2"), &group("3"), &group("fourth")), Some(1));
    assert_eq!(marked_number(&None, &group("2"), &group("3"), &group("fourth")), Some(2));
    assert_eq!(marked_number(&None, &None, &group("3"), &group("fourth")), Some(3));
    assert_eq!(marked_number(&None, &None, &None, &group("fourth")), Some(4));
    assert_eq!(marked_number(&None, &None, &None, &group("first")), None);
    assert_eq!(marked_number(&group("9223372036854775808"), &group("2"), &None, &None), None);
    assert_eq!(marked_number(&Some(None), &group("2"), &None, &None), None);
    assert_eq!(marked_number(&None, &None, &None, &None), None);
}

#[test]
fn episodes_are_combined_under_given_numbers() {
    let seasons = vec![
        doc(r#"{"id":"a","episodes":[{"id":"1"},3,{"id":"2","season_number":9}]}"#),
        doc(r#"{"id":"b"}"#),
        doc(r#"{"episodes":[{}]}"#),
    ];
    let rows = combined_episodes(&seasons, &vec![4, 5, -6], "central:x");
    let shown: Vec<_> = rows.iter().map(compact_text).collect();
    assert_eq!(
        shown,
        [
            r#"{"anime_id":"central:x","id":"a:1","season_number":4}"#,
            r#"{"anime_id":"central:x","id":"a:2","season_number":9}"#,
            r#"{"anime_id":"central:x","id":":","season_number":-6}"#,
        ]
    );
}

#[test]
fn start_dates_are_listed_under_given_numbers() {
    let seasons = vec![
        doc(r#"{"start_date":"2001-02-03"}"#),
        doc(r#"{"start_date":"soon"}"#),
        doc(r#"{"start_date":"2004-05-06T00:00:00Z"}"#),
    ];
    let starts = season_start_dates(&seasons, &vec![7, 8, 7]);
    assert_eq!(starts.len(), 1);
    assert_eq!(starts[&7], CalendarDate { year: 2004, month: 5, day: 6 });
}

#[test]
fn pictures_are_noted_under_given_numbers() {
    let seasons = vec![
        doc(r#"{"episodes":[{"number":1,"title":"A B","aired_at":"2001-02-03","thumbnail":"x"},{"number":2}]}"#),
        doc(r#"{"episodes":[{"number":1,"season_number":3,"thumbnail":"y"}],"banner":"art"}"#),
    ];
    let numbers = vec![5, 6];
    let rows = episode_thumbnail_lookup(&seasons, &numbers);
    assert_eq!(rows.len(), 2);
    assert_eq!((rows[0].season, rows[0].number), (5, Some(1)));
    assert_eq!(rows[0].title_key.as_deref(), Some("ab"));
    assert_eq!(rows[0].date.as_deref(), Some("2001-02-03"));
    assert_eq!(rows[1].season, 3);
    let found = |season, key| find_image(&rows, season, key);
    assert_eq!(found(Some(3), LookupKey::Number(1)).as_deref(), Some("y"));
    assert_eq!(found(None, LookupKey::Number(1)).as_deref(), Some("x"));
    assert_eq!(found(Some(6), LookupKey::Number(1)), None);
    assert_eq!(found(None, LookupKey::Text("2001-02-03".into())).as_deref(), Some("x"));
    assert_eq!(found(Some(5), LookupKey::Text("2001-02-03".into())), None);
    let artwork = season_artwork_lookup(&seasons, &numbers);
    assert_eq!((artwork.len(), artwork[&6].as_str()), (1, "art"));
}

#[test]
fn sorting_and_grouping_double_nothing() {
    let items: Vec<_> = ["X", "X Season 2", "Y", "X", "X Season 2", "Y Part 2"]
        .iter()
        .map(|title| (source("a"), doc(&format!(r#"{{"id":"1","title":"{title}"}}"#))))
        .collect();
    let shows = centralize_source_previews(&items);
    let counts: Vec<_> = shows
        .iter()
        .map(|show| shown(show)["season_entries"].as_array().unwrap().len())
        .collect();
    assert_eq!(counts, [4, 2]);
    let refs: usize = shows
        .iter()
        .map(|show| decode_refs(string_field(show, "id").unwrap()).unwrap().len())
        .sum();
    assert_eq!(refs, items.len());
}
