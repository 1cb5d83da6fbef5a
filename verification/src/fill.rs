//! Fills in what the episodes of a show lack: the day of the broadcast, and a picture.

use crate::dates::{
    add_days, date_key, date_text, days_later, iso_date_at_midnight, leading_date,
    lemma_days_later_valid, midnight_text, parse_date, valid_date, CalendarDate,
};
use crate::json::{
    int_field, lemma_models, models, set_field, string_field, with_field, Json, Value,
};
use crate::models::AnimeMetadata;
use crate::ordering::law_sorting_keeps_items;
use crate::seasons::{
    by_season, in_order, number_seasons, numbering, numbering_fits, sorted_seasons, unbounded,
};
use crate::text::{held, is_blank, same_text};
use crate::titles::{normalize_title_key, title_key};
use std::collections::HashMap;
use vstd::prelude::*;

verus! {

/// A member holds a text that is not empty.
pub open spec fn has_text(document: Json, key: Seq<char>) -> bool {
    document.field(key) matches Some(Json::Text(text)) && text.len() > 0
}

fn holds_text(value: &Value, key: &str) -> (yes: bool)
    ensures
        yes == has_text(value@, key@),
{
    match value.get(key) {
        Some(member) => match member.as_str() {
            Some(text) => !text.is_empty(),
            None => false,
        },
        None => false,
    }
}

/// A show each of whose episodes went through a function.
pub open spec fn with_episodes(show: Json, change: spec_fn(Json) -> Json) -> Json {
    match show.list_at("episodes"@) {
        Some(rows) => with_field(show, "episodes"@, Json::List(rows.map_values(change))),
        None => show,
    }
}

/// The date on which the season with a number starts. Where several seasons have the number and a
/// date, the last of them counts.
pub open spec fn season_start(
    ordered: Seq<Json>,
    numbers: Seq<int>,
    number: int,
) -> Option<CalendarDate>
    decreases ordered.len(),
{
    if ordered.len() == 0 {
        None
    } else {
        let start = leading_date(ordered.last().text_at("start_date"@));
        if numbers.last() == number && start is Some {
            start
        } else {
            season_start(ordered.drop_last(), numbers.drop_last(), number)
        }
    }
}

/// The date on which an episode was shown, were one shown on each day of its season.
pub open spec fn inferred_date(
    episode: Json,
    ordered: Seq<Json>,
    numbers: Seq<int>,
) -> Option<CalendarDate> {
    match (episode.integer_at("season_number"@), episode.integer_at("number"@)) {
        (Some(season), Some(number)) => match season_start(ordered, numbers, season as int) {
            Some(start) => if number >= 1 {
                days_later(start, (number - 1) as nat)
            } else {
                None
            },
            None => None,
        },
        _ => None,
    }
}

/// An episode with an air date, where it lacks one that can be inferred.
pub open spec fn dated(episode: Json, ordered: Seq<Json>, numbers: Seq<int>) -> Json {
    if has_text(episode, "aired_at"@) {
        episode
    } else {
        match inferred_date(episode, ordered, numbers) {
            Some(date) => with_field(episode, "aired_at"@, Json::Text(midnight_text(date))),
            None => episode,
        }
    }
}

/// Gives air dates, by the start of the seasons.
pub open spec fn dating(seasons: Seq<Json>) -> spec_fn(Json) -> Json {
    let ordered = in_order(seasons);
    |episode: Json| dated(episode, ordered, numbering(ordered))
}

/// The date under a number in a map.
pub open spec fn date_under(starts: Map<i64, CalendarDate>, n: i64) -> Option<CalendarDate> {
    if starts.contains_key(n) {
        Some(starts[n])
    } else {
        None
    }
}

/// The text under a number in a map.
pub open spec fn image_under(images: Map<i64, String>, n: i64) -> Option<Seq<char>> {
    if images.contains_key(n) {
        Some(images[n]@)
    } else {
        None
    }
}

/// The dates in a map are valid, and they are the start dates of the seasons.
pub open spec fn are_starts(
    starts: Map<i64, CalendarDate>,
    ordered: Seq<Json>,
    numbers: Seq<int>,
) -> bool {
    &&& forall|n: i64| #[trigger]
        date_under(starts, n) == season_start(ordered, numbers, n as int)
    &&& forall|n: i64| #[trigger] date_under(starts, n) matches Some(date) ==> valid_date(date)
}

/// The start dates of seasons, by the number of the season.
pub fn season_start_dates(ordered: &Vec<Value>, numbers: &Vec<i64>) -> (starts: HashMap<
    i64,
    CalendarDate,
>)
    requires
        ordered@.len() == numbers@.len(),
    ensures
        are_starts(starts@, models(ordered@), unbounded(numbers@)),
{
    let ghost documents = models(ordered@);
    let ghost all = unbounded(numbers@);
    let mut starts: HashMap<i64, CalendarDate> = HashMap::new();
    let mut i: usize = 0;
    while i < ordered.len()
        invariant
            documents == models(ordered@),
            all == unbounded(numbers@),
            ordered@.len() == numbers@.len(),
            i <= ordered@.len(),
            are_starts(starts@, documents.take(i as int), all.take(i as int)),
        decreases ordered@.len() - i,
    {
        proof {
            lemma_models(ordered@);
            assert(documents.take(i + 1).drop_last() =~= documents.take(i as int));
            assert(all.take(i + 1).drop_last() =~= all.take(i as int));
        }
        let ghost before = starts@;
        if let Some(start) = parse_date(string_field(&ordered[i], "start_date")) {
            starts.insert(numbers[i], start);
        }
        proof {
            assert(all.take(i + 1).last() == numbers@[i as int]);
            assert(documents.take(i + 1).last() == documents[i as int]);
            assert forall|n: i64| #[trigger]
                date_under(starts@, n) == season_start(
                    documents.take(i + 1),
                    all.take(i + 1),
                    n as int,
                ) by {
                assert(date_under(before, n) == season_start(
                    documents.take(i as int),
                    all.take(i as int),
                    n as int,
                ));
            }
            assert forall|n: i64| #[trigger] date_under(starts@, n) is Some implies valid_date(
                date_under(starts@, n)->0,
            ) by {
                assert(date_under(before, n) is Some ==> valid_date(date_under(before, n)->0));
            }
        }
        i = i + 1;
    }
    proof {
        lemma_models(ordered@);
        assert(documents.take(i as int) =~= documents);
        assert(all.take(i as int) =~= all);
    }
    starts
}

/// Infers the date of an episode from the start of its season.
fn air_date(
    episode: &Value,
    starts: &HashMap<i64, CalendarDate>,
    Ghost(ordered): Ghost<Seq<Json>>,
    Ghost(numbers): Ghost<Seq<int>>,
) -> (date: Option<CalendarDate>)
    requires
        are_starts(starts@, ordered, numbers),
    ensures
        date == inferred_date(episode@, ordered, numbers),
        date matches Some(d) ==> valid_date(d),
{
    let season = match int_field(episode, "season_number") {
        Some(season) => season,
        None => return None,
    };
    let number = match int_field(episode, "number") {
        Some(number) => number,
        None => return None,
    };
    assert(date_under(starts@, season) == season_start(ordered, numbers, season as int));
    let start = match starts.get(&season) {
        Some(start) => *start,
        None => return None,
    };
    if number < 1 {
        return None;
    }
    proof {
        lemma_days_later_valid(start, (number - 1) as nat);
    }
    add_days(start, (number - 1) as u64)
}

/// Gives episodes that lack an air date the date that follows from the start of their season and
/// their number, a day for each episode.
pub fn fill_missing_episode_air_dates(
    combined: AnimeMetadata,
    seasons: &[AnimeMetadata],
) -> (filled: AnimeMetadata)
    requires
        numbering_fits(in_order(models(seasons@))),
    ensures
        filled@ == with_episodes(combined@, dating(models(seasons@))),
{
    let ordered = sorted_seasons(seasons);
    let numbers = number_seasons(&ordered).unwrap();
    let starts = season_start_dates(&ordered, &numbers);
    let ghost documents = models(ordered@);
    let ghost all = unbounded(numbers@);
    let ghost change = dating(models(seasons@));
    let mut combined = combined;
    let mut filled: Vec<Value> = Vec::new();
    match combined.get("episodes") {
        None => return combined,
        Some(member) => match member.as_array() {
            None => return combined,
            Some(rows) => {
                let ghost episodes = models(rows@);
                let mut i: usize = 0;
                while i < rows.len()
                    invariant
                        episodes == models(rows@),
                        i <= rows@.len(),
                        are_starts(starts@, documents, all),
                        documents == in_order(models(seasons@)),
                        all == numbering(documents),
                        change == dating(models(seasons@)),
                        filled@.len() == i,
                        forall|k: int|
                            0 <= k < i ==> (#[trigger] filled@[k])@ == change(episodes[k]),
                    decreases rows@.len() - i,
                {
                    proof {
                        lemma_models(rows@);
                    }
                    let mut episode = rows[i].clone();
                    if !holds_text(&episode, "aired_at") {
                        let inferred = air_date(&episode, &starts, Ghost(documents), Ghost(all));
                        if let Some(date) = inferred {
                            let text = iso_date_at_midnight(date);
                            set_field(&mut episode, "aired_at", Value::String(text));
                        }
                    }
                    filled.push(episode);
                    i = i + 1;
                }
                proof {
                    lemma_models(rows@);
                    lemma_models(filled@);
                    assert(models(filled@) =~= episodes.map_values(change));
                }
            },
        },
    }
    set_field(&mut combined, "episodes", Value::Array(filled));
    combined
}

/// What an episode with a picture can be found by.
pub struct ImageRow {
    pub season: int,
    pub number: Option<i64>,
    pub title_key: Option<Seq<char>>,
    pub date: Option<Seq<char>>,
    pub image: Seq<char>,
}

/// What episodes are looked up by, besides the season.
pub enum LookupModel {
    Number(i64),
    Text(Seq<char>),
}

/// The key of an optional title.
pub open spec fn optional_key(title: Option<Seq<char>>) -> Option<Seq<char>> {
    match title {
        Some(title) => Some(title_key(title)),
        None => None,
    }
}

/// The day on which an episode was shown, as year, month and day.
pub open spec fn aired_day(episode: Json) -> Option<Seq<char>> {
    match leading_date(episode.text_at("aired_at"@)) {
        Some(date) => Some(date_text(date)),
        None => None,
    }
}

/// What an episode can be found by, where it has a picture. The number of the season that lists it
/// counts where it gives none itself.
pub open spec fn image_row(episode: Json, season: int) -> Option<ImageRow> {
    match episode.text_at("thumbnail"@) {
        Some(image) => Some(
            ImageRow {
                season: match episode.integer_at("season_number"@) {
                    Some(own) => own as int,
                    None => season,
                },
                number: episode.integer_at("number"@),
                title_key: optional_key(episode.text_at("title"@)),
                date: aired_day(episode),
                image,
            },
        ),
        None => None,
    }
}

/// The episodes with a picture among some episodes.
pub open spec fn image_rows(episodes: Seq<Json>, season: int) -> Seq<ImageRow>
    decreases episodes.len(),
{
    if episodes.len() == 0 {
        Seq::empty()
    } else {
        let before = image_rows(episodes.drop_last(), season);
        match image_row(episodes.last(), season) {
            Some(row) => before.push(row),
            None => before,
        }
    }
}

/// The episodes with a picture in a season.
pub open spec fn season_images(season: Json, number: int) -> Seq<ImageRow> {
    match season.list_at("episodes"@) {
        Some(episodes) => image_rows(episodes, number),
        None => Seq::empty(),
    }
}

/// The episodes with a picture, season after season.
pub open spec fn all_images(ordered: Seq<Json>, numbers: Seq<int>) -> Seq<ImageRow>
    decreases ordered.len(),
{
    if ordered.len() == 0 {
        Seq::empty()
    } else {
        all_images(ordered.drop_last(), numbers.drop_last()) + season_images(
            ordered.last(),
            numbers.last(),
        )
    }
}

/// An episode answers to a key: to its number and to its title in its season and in any season, to
/// its day in any season.
pub open spec fn answers(row: ImageRow, season: Option<i64>, key: LookupModel) -> bool {
    let in_season = season matches Some(s) ==> s == row.season;
    match key {
        LookupModel::Number(n) => in_season && row.number == Some(n),
        LookupModel::Text(text) => (in_season && row.title_key == Some(text)) || (season is None
            && row.date == Some(text)),
    }
}

/// The picture of the first episode that answers to a key.
pub open spec fn first_image(
    rows: Seq<ImageRow>,
    season: Option<i64>,
    key: LookupModel,
) -> Option<Seq<char>>
    decreases rows.len(),
{
    if rows.len() == 0 {
        None
    } else if answers(rows[0], season, key) {
        Some(rows[0].image)
    } else {
        first_image(rows.skip(1), season, key)
    }
}

/// The picture of a season or a show.
pub open spec fn artwork(document: Json) -> Option<Seq<char>> {
    match document.text_at("poster"@) {
        Some(poster) => Some(poster),
        None => document.text_at("banner"@),
    }
}

/// The first picture of a season with a number.
pub open spec fn season_artwork(
    ordered: Seq<Json>,
    numbers: Seq<int>,
    number: int,
) -> Option<Seq<char>>
    decreases ordered.len(),
{
    if ordered.len() == 0 {
        None
    } else {
        match season_artwork(ordered.drop_last(), numbers.drop_last(), number) {
            Some(image) => Some(image),
            None => if numbers.last() == number {
                artwork(ordered.last())
            } else {
                None
            },
        }
    }
}

/// The first picture of any season, in the order in which they are given.
pub open spec fn show_artwork(seasons: Seq<Json>) -> Option<Seq<char>>
    decreases seasons.len(),
{
    if seasons.len() == 0 {
        None
    } else {
        match show_artwork(seasons.drop_last()) {
            Some(image) => Some(image),
            None => artwork(seasons.last()),
        }
    }
}

/// The first picture under one of a number and a title in a season.
pub open spec fn image_by(
    rows: Seq<ImageRow>,
    season: Option<i64>,
    number: Option<i64>,
    title_key: Option<Seq<char>>,
) -> Option<Seq<char>> {
    let numbered = match number {
        Some(n) => first_image(rows, season, LookupModel::Number(n)),
        None => None,
    };
    match (numbered, title_key) {
        (Some(image), _) => Some(image),
        (None, Some(key)) => first_image(rows, season, LookupModel::Text(key)),
        (None, None) => None,
    }
}

/// The picture for an episode: that of an episode with its number or its title, in its season or
/// else in any season; that of an episode of its day; that of its season; that of the show.
pub open spec fn chosen_image(episode: Json, sources: Seq<Json>) -> Option<Seq<char>> {
    let ordered = in_order(sources);
    let rows = all_images(ordered, numbering(ordered));
    let season = episode.integer_at("season_number"@);
    let number = episode.integer_at("number"@);
    let key = optional_key(episode.text_at("title"@));
    match image_by(rows, season, number, key) {
        Some(image) => Some(image),
        None => match image_by(rows, None, number, key) {
            Some(image) => Some(image),
            None => match image_by(rows, None, None, aired_day(episode)) {
                Some(image) => Some(image),
                None => {
                    let seasonal = match season {
                        Some(s) => season_artwork(ordered, numbering(ordered), s as int),
                        None => None,
                    };
                    match seasonal {
                        Some(image) => Some(image),
                        None => show_artwork(sources),
                    }
                },
            },
        },
    }
}

/// An episode with a picture, where it lacks one that can be found.
pub open spec fn pictured(episode: Json, sources: Seq<Json>) -> Json {
    if has_text(episode, "thumbnail"@) {
        episode
    } else {
        match chosen_image(episode, sources) {
            Some(image) => with_field(episode, "thumbnail"@, Json::Text(image)),
            None => episode,
        }
    }
}

/// Gives pictures, out of some sources.
pub open spec fn picturing(sources: Seq<Json>) -> spec_fn(Json) -> Json {
    |episode: Json| pictured(episode, sources)
}

/// What episodes are looked up by, besides the season.
#[derive(Debug)]
pub enum LookupKey {
    Number(i64),
    Text(String),
}

impl View for LookupKey {
    type V = LookupModel;

    open spec fn view(&self) -> LookupModel {
        match self {
            LookupKey::Number(n) => LookupModel::Number(*n),
            LookupKey::Text(text) => LookupModel::Text(text@),
        }
    }
}

/// An episode with a picture, and what it can be found by.
#[derive(Debug)]
pub struct ThumbnailRow {
    pub season: i64,
    pub number: Option<i64>,
    pub title_key: Option<String>,
    pub date: Option<String>,
    pub image: String,
}

impl View for ThumbnailRow {
    type V = ImageRow;

    open spec fn view(&self) -> ImageRow {
        ImageRow {
            season: self.season as int,
            number: self.number,
            title_key: held(self.title_key),
            date: held(self.date),
            image: self.image@,
        }
    }
}

/// What noted episodes hold.
pub open spec fn row_models(rows: Seq<ThumbnailRow>) -> Seq<ImageRow> {
    rows.map_values(|row: ThumbnailRow| row@)
}

/// The key of a title that a member holds.
fn title_key_of(value: &Value) -> (key: Option<String>)
    ensures
        held(key) == optional_key(value@.text_at("title"@)),
{
    match string_field(value, "title") {
        Some(title) => Some(normalize_title_key(title)),
        None => None,
    }
}

/// Notes what an episode with a picture can be found by.
fn thumbnail_row(episode: &Value, season: i64) -> (row: Option<ThumbnailRow>)
    ensures
        row is Some == image_row(episode@, season as int) is Some,
        row matches Some(r) ==> image_row(episode@, season as int) == Some(r@),
{
    match string_field(episode, "thumbnail") {
        None => None,
        Some(image) => {
            let own = match int_field(episode, "season_number") {
                Some(own) => own,
                None => season,
            };
            Some(
                ThumbnailRow {
                    season: own,
                    number: int_field(episode, "number"),
                    title_key: title_key_of(episode),
                    date: date_key(string_field(episode, "aired_at")),
                    image: image.to_owned(),
                },
            )
        },
    }
}

/// Notes what the episodes of a season can be found by.
fn note_thumbnails(rows: &mut Vec<ThumbnailRow>, season: &Value, number: i64)
    ensures
        row_models(final(rows)@) == row_models(old(rows)@) + season_images(
            season@,
            number as int,
        ),
{
    let ghost start = row_models(rows@);
    if let Some(list) = season.get("episodes") {
        if let Some(episodes) = list.as_array() {
            let ghost documents = models(episodes@);
            let mut i: usize = 0;
            assert(row_models(rows@) =~= start + image_rows(documents.take(0), number as int));
            while i < episodes.len()
                invariant
                    documents == models(episodes@),
                    i <= episodes@.len(),
                    row_models(rows@) == start + image_rows(
                        documents.take(i as int),
                        number as int,
                    ),
                decreases episodes@.len() - i,
            {
                proof {
                    lemma_models(episodes@);
                    assert(documents.take(i + 1).drop_last() =~= documents.take(i as int));
                }
                let ghost before = image_rows(documents.take(i as int), number as int);
                if let Some(row) = thumbnail_row(&episodes[i], number) {
                    let ghost held = rows@;
                    rows.push(row);
                    assert(row_models(rows@) =~= row_models(held).push(row@));
                    assert((start + before).push(row@) =~= start + before.push(row@));
                }
                i = i + 1;
            }
            proof {
                lemma_models(episodes@);
                assert(documents.take(i as int) =~= documents);
            }
            return ;
        }
    }
    assert(start + Seq::<ImageRow>::empty() =~= start);
}

/// Notes what the episodes of all seasons can be found by.
pub fn episode_thumbnail_lookup(
    ordered: &Vec<Value>,
    numbers: &Vec<i64>,
) -> (rows: Vec<ThumbnailRow>)
    requires
        ordered@.len() == numbers@.len(),
    ensures
        row_models(rows@) == all_images(models(ordered@), unbounded(numbers@)),
{
    let ghost documents = models(ordered@);
    let ghost all = unbounded(numbers@);
    let mut rows: Vec<ThumbnailRow> = Vec::new();
    let mut i: usize = 0;
    assert(row_models(rows@) =~= Seq::<ImageRow>::empty());
    while i < ordered.len()
        invariant
            documents == models(ordered@),
            all == unbounded(numbers@),
            ordered@.len() == numbers@.len(),
            i <= ordered@.len(),
            row_models(rows@) == all_images(documents.take(i as int), all.take(i as int)),
        decreases ordered@.len() - i,
    {
        proof {
            lemma_models(ordered@);
            assert(documents.take(i + 1).drop_last() =~= documents.take(i as int));
            assert(all.take(i + 1).drop_last() =~= all.take(i as int));
        }
        note_thumbnails(&mut rows, &ordered[i], numbers[i]);
        i = i + 1;
    }
    proof {
        lemma_models(ordered@);
        assert(documents.take(i as int) =~= documents);
        assert(all.take(i as int) =~= all);
    }
    rows
}

fn same_optional(a: &Option<String>, b: &str) -> (same: bool)
    ensures
        same == (held(*a) == Some(b@)),
{
    match a {
        Some(text) => same_text(text.as_str(), b),
        None => false,
    }
}

impl ThumbnailRow {
    fn answers(&self, season: Option<i64>, key: &LookupKey) -> (yes: bool)
        ensures
            yes == answers(self@, season, key@),
    {
        let in_season = match season {
            Some(s) => s == self.season,
            None => true,
        };
        match key {
            LookupKey::Number(n) => in_season && (match self.number {
                Some(own) => own == *n,
                None => false,
            }),
            LookupKey::Text(text) => (in_season && same_optional(&self.title_key, text.as_str()))
                || (season.is_none() && same_optional(&self.date, text.as_str())),
        }
    }
}

/// Finds the picture of the first episode that answers to a key.
pub fn find_image(rows: &Vec<ThumbnailRow>, season: Option<i64>, key: LookupKey) -> (image: Option<
    String,
>)
    ensures
        held(image) == first_image(row_models(rows@), season, key@),
{
    let ghost all = row_models(rows@);
    let mut i: usize = 0;
    assert(all.skip(0) =~= all);
    while i < rows.len()
        invariant
            all == row_models(rows@),
            i <= rows@.len(),
            first_image(all.skip(i as int), season, key@) == first_image(all, season, key@),
        decreases rows@.len() - i,
    {
        assert(all.skip(i as int).skip(1) =~= all.skip(i + 1));
        assert(all.skip(i as int)[0] == rows@[i as int]@);
        if rows[i].answers(season, &key) {
            return Some(rows[i].image.clone());
        }
        i = i + 1;
    }
    None
}

/// Finds a picture by number, or else by text.
fn find_image_by(
    rows: &Vec<ThumbnailRow>,
    season: Option<i64>,
    number: Option<i64>,
    text: &Option<String>,
) -> (image: Option<String>)
    ensures
        held(image) == image_by(row_models(rows@), season, number, held(*text)),
{
    if let Some(n) = number {
        let numbered = find_image(rows, season, LookupKey::Number(n));
        if numbered.is_some() {
            return numbered;
        }
    }
    match text {
        Some(key) => find_image(rows, season, LookupKey::Text(key.clone())),
        None => None,
    }
}

/// The picture of a season or a show.
fn artwork_of<'a>(value: &'a Value) -> (image: Option<&'a str>)
    ensures
        image is Some == artwork(value@) is Some,
        image matches Some(text) ==> artwork(value@) == Some(text@),
{
    match string_field(value, "poster") {
        Some(poster) => Some(poster),
        None => string_field(value, "banner"),
    }
}

/// The texts in a map are the first pictures of the seasons.
pub open spec fn are_artworks(
    images: Map<i64, String>,
    ordered: Seq<Json>,
    numbers: Seq<int>,
) -> bool {
    forall|n: i64| #[trigger]
        image_under(images, n) == season_artwork(ordered, numbers, n as int)
}

/// The first pictures of seasons, by the number of the season.
pub fn season_artwork_lookup(ordered: &Vec<Value>, numbers: &Vec<i64>) -> (images: HashMap<
    i64,
    String,
>)
    requires
        ordered@.len() == numbers@.len(),
    ensures
        are_artworks(images@, models(ordered@), unbounded(numbers@)),
{
    let ghost documents = models(ordered@);
    let ghost all = unbounded(numbers@);
    let mut images: HashMap<i64, String> = HashMap::new();
    let mut i: usize = 0;
    while i < ordered.len()
        invariant
            documents == models(ordered@),
            all == unbounded(numbers@),
            ordered@.len() == numbers@.len(),
            i <= ordered@.len(),
            are_artworks(images@, documents.take(i as int), all.take(i as int)),
        decreases ordered@.len() - i,
    {
        proof {
            lemma_models(ordered@);
            assert(documents.take(i + 1).drop_last() =~= documents.take(i as int));
            assert(all.take(i + 1).drop_last() =~= all.take(i as int));
        }
        let ghost before = images@;
        if !images.contains_key(&numbers[i]) {
            if let Some(image) = artwork_of(&ordered[i]) {
                images.insert(numbers[i], image.to_owned());
            }
        }
        proof {
            assert(all.take(i + 1).last() == numbers@[i as int]);
            assert(documents.take(i + 1).last() == documents[i as int]);
            assert forall|n: i64| #[trigger]
                image_under(images@, n) == season_artwork(
                    documents.take(i + 1),
                    all.take(i + 1),
                    n as int,
                ) by {
                assert(image_under(before, n) == season_artwork(
                    documents.take(i as int),
                    all.take(i as int),
                    n as int,
                ));
            }
        }
        i = i + 1;
    }
    proof {
        lemma_models(ordered@);
        assert(documents.take(i as int) =~= documents);
        assert(all.take(i as int) =~= all);
    }
    images
}

proof fn lemma_show_artwork(seasons: Seq<Json>, k: int)
    requires
        0 <= k <= seasons.len(),
        show_artwork(seasons.take(k)) is Some,
    ensures
        show_artwork(seasons) == show_artwork(seasons.take(k)),
    decreases seasons.len(),
{
    if k == seasons.len() {
        assert(seasons.take(k) =~= seasons);
    } else {
        assert(seasons.drop_last().take(k) =~= seasons.take(k));
        lemma_show_artwork(seasons.drop_last(), k);
    }
}

/// Finds the first picture of any season.
fn find_show_artwork(seasons: &[Value]) -> (image: Option<String>)
    ensures
        held(image) == show_artwork(models(seasons@)),
{
    let ghost documents = models(seasons@);
    let mut i: usize = 0;
    while i < seasons.len()
        invariant
            documents == models(seasons@),
            i <= seasons@.len(),
            show_artwork(documents.take(i as int)) is None,
        decreases seasons@.len() - i,
    {
        proof {
            lemma_models(seasons@);
            assert(documents.take(i + 1).drop_last() =~= documents.take(i as int));
        }
        if let Some(image) = artwork_of(&seasons[i]) {
            proof {
                lemma_show_artwork(documents, i + 1);
            }
            return Some(image.to_owned());
        }
        i = i + 1;
    }
    proof {
        lemma_models(seasons@);
        assert(documents.take(i as int) =~= documents);
    }
    None
}

/// Gives episodes that lack a picture one out of other descriptions of the show.
pub fn fill_missing_episode_thumbnails(
    combined: AnimeMetadata,
    sources: &[AnimeMetadata],
) -> (filled: AnimeMetadata)
    requires
        numbering_fits(in_order(models(sources@))),
    ensures
        filled@ == with_episodes(combined@, picturing(models(sources@))),
{
    let ordered = sorted_seasons(sources);
    let numbers = number_seasons(&ordered).unwrap();
    let thumbnails = episode_thumbnail_lookup(&ordered, &numbers);
    let season_art = season_artwork_lookup(&ordered, &numbers);
    let show_art = find_show_artwork(sources);
    let ghost given = models(sources@);
    let ghost change = picturing(given);
    let mut combined = combined;
    let mut filled: Vec<Value> = Vec::new();
    match combined.get("episodes") {
        None => return combined,
        Some(member) => match member.as_array() {
            None => return combined,
            Some(rows) => {
                let ghost episodes = models(rows@);
                let mut i: usize = 0;
                while i < rows.len()
                    invariant
                        episodes == models(rows@),
                        i <= rows@.len(),
                        are_artworks(
                            season_art@,
                            in_order(given),
                            numbering(in_order(given)),
                        ),
                        row_models(thumbnails@) == all_images(
                            in_order(given),
                            numbering(in_order(given)),
                        ),
                        held(show_art) == show_artwork(given),
                        change == picturing(given),
                        filled@.len() == i,
                        forall|k: int|
                            0 <= k < i ==> (#[trigger] filled@[k])@ == change(episodes[k]),
                    decreases rows@.len() - i,
                {
                    proof {
                        lemma_models(rows@);
                    }
                    let mut episode = rows[i].clone();
                    if !holds_text(&episode, "thumbnail") {
                        let season = int_field(&episode, "season_number");
                        let number = int_field(&episode, "number");
                        let key = title_key_of(&episode);
                        let day = date_key(string_field(&episode, "aired_at"));
                        let mut image = find_image_by(&thumbnails, season, number, &key);
                        if image.is_none() {
                            image = find_image_by(&thumbnails, None, number, &key);
                        }
                        if image.is_none() {
                            image = find_image_by(&thumbnails, None, None, &day);
                        }
                        if image.is_none() {
                            if let Some(s) = season {
                                image = match season_art.get(&s) {
                                    Some(art) => Some(art.clone()),
                                    None => None,
                                };
                                assert(held(image) == image_under(season_art@, s));
                            }
                        }
                        if image.is_none() {
                            image = show_art.clone();
                        }
                        assert(held(image) == chosen_image(episodes[i as int], given));
                        if let Some(image) = image {
                            set_field(&mut episode, "thumbnail", Value::String(image));
                        }
                    }
                    filled.push(episode);
                    i = i + 1;
                }
                proof {
                    lemma_models(rows@);
                    lemma_models(filled@);
                    assert(models(filled@) =~= episodes.map_values(change));
                }
            },
        },
    }
    set_field(&mut combined, "episodes", Value::Array(filled));
    combined
}

/// Filling in what episodes lack leaves the show with as many episodes, in their order, and with
/// every other member as it was.
pub proof fn law_filling_changes_episodes_alone(
    show: Json,
    change: spec_fn(Json) -> Json,
    key: Seq<char>,
)
    requires
        key != "episodes"@,
    ensures
        with_episodes(show, change).field(key) == show.field(key),
        match show.list_at("episodes"@) {
            Some(rows) => with_episodes(show, change).list_at("episodes"@) == Some(
                rows.map_values(change),
            ),
            None => with_episodes(show, change) == show,
        },
{
}

/// An episode that has an air date keeps it, and filling in a date changes no other member.
pub proof fn law_dating_fills_gaps_alone(episode: Json, seasons: Seq<Json>, key: Seq<char>)
    ensures
        has_text(episode, "aired_at"@) ==> dating(seasons)(episode) == episode,
        key != "aired_at"@ ==> dating(seasons)(episode).field(key) == episode.field(key),
{
}

/// An episode that has a picture keeps it, and filling in a picture changes no other member.
pub proof fn law_picturing_fills_gaps_alone(episode: Json, sources: Seq<Json>, key: Seq<char>)
    ensures
        has_text(episode, "thumbnail"@) ==> picturing(sources)(episode) == episode,
        key != "thumbnail"@ ==> picturing(sources)(episode).field(key) == episode.field(key),
{
}

/// The dates that are filled in are not empty.
proof fn lemma_dating_is_final(episode: Json, seasons: Seq<Json>)
    ensures
        dating(seasons)(dating(seasons)(episode)) == dating(seasons)(episode),
{
    reveal_strlit("T00:00:00Z");
}

/// A change that leaves what it has changed alone can be applied twice over a show.
proof fn lemma_with_episodes_is_final(show: Json, change: spec_fn(Json) -> Json)
    requires
        forall|episode: Json| #[trigger] change(change(episode)) == change(episode),
    ensures
        with_episodes(with_episodes(show, change), change) == with_episodes(show, change),
{
    if let Some(rows) = show.list_at("episodes"@) {
        let once = rows.map_values(change);
        assert(once.map_values(change) =~= once);
        let fields = show->Fields_0;
        let filled = fields.insert("episodes"@, Json::List(once));
        assert(filled.insert("episodes"@, Json::List(once)) =~= filled);
    }
}

/// Filling in air dates a second time changes nothing.
pub proof fn law_dating_is_final(show: Json, seasons: Seq<Json>)
    ensures
        with_episodes(with_episodes(show, dating(seasons)), dating(seasons)) == with_episodes(
            show,
            dating(seasons),
        ),
{
    let change = dating(seasons);
    assert forall|episode: Json| #[trigger] change(change(episode)) == change(episode) by {
        lemma_dating_is_final(episode, seasons);
    }
    lemma_with_episodes_is_final(show, change);
}

/// One of some documents has a picture, itself or on one of its episodes.
pub open spec fn holds_image(sources: Seq<Json>, image: Seq<char>) -> bool {
    exists|i: int| 0 <= i < sources.len() && #[trigger] shows_image(sources[i], image)
}

/// A document has a picture, itself or on one of its episodes.
pub open spec fn shows_image(source: Json, image: Seq<char>) -> bool {
    ||| artwork(source) == Some(image)
    ||| (source.list_at("episodes"@) matches Some(rows) && exists|i: int|
        0 <= i < rows.len() && (#[trigger] rows[i]).text_at("thumbnail"@) == Some(image))
}

proof fn lemma_image_rows(episodes: Seq<Json>, season: int, i: int)
    requires
        0 <= i < image_rows(episodes, season).len(),
    ensures
        exists|k: int|
            0 <= k < episodes.len() && (#[trigger] episodes[k]).text_at("thumbnail"@) == Some(
                image_rows(episodes, season)[i].image,
            ),
    decreases episodes.len(),
{
    let shorter = episodes.drop_last();
    if i < image_rows(shorter, season).len() {
        lemma_image_rows(shorter, season, i);
        let k = choose|k: int|
            0 <= k < shorter.len() && (#[trigger] shorter[k]).text_at("thumbnail"@) == Some(
                image_rows(shorter, season)[i].image,
            );
        assert(episodes[k] == shorter[k]);
    } else {
        assert(episodes[episodes.len() - 1].text_at("thumbnail"@) == Some(
            image_rows(episodes, season)[i].image,
        ));
    }
}

proof fn lemma_all_images(ordered: Seq<Json>, numbers: Seq<int>, i: int)
    requires
        0 <= i < all_images(ordered, numbers).len(),
    ensures
        holds_image(ordered, all_images(ordered, numbers)[i].image),
    decreases ordered.len(),
{
    let shorter = ordered.drop_last();
    let before = all_images(shorter, numbers.drop_last());
    let image = all_images(ordered, numbers)[i].image;
    if i < before.len() {
        lemma_all_images(shorter, numbers.drop_last(), i);
        let k = choose|k: int| 0 <= k < shorter.len() && #[trigger] shows_image(shorter[k], image);
        assert(shows_image(ordered[k], image));
    } else {
        let rows = ordered.last().list_at("episodes"@)->0;
        lemma_image_rows(rows, numbers.last(), i - before.len());
        assert(shows_image(ordered[ordered.len() - 1], image));
    }
}

proof fn lemma_first_image(rows: Seq<ImageRow>, season: Option<i64>, key: LookupModel)
    requires
        first_image(rows, season, key) is Some,
    ensures
        exists|i: int|
            0 <= i < rows.len() && (#[trigger] rows[i]).image == first_image(
                rows,
                season,
                key,
            )->0 && answers(rows[i], season, key),
    decreases rows.len(),
{
    if !answers(rows[0], season, key) {
        lemma_first_image(rows.skip(1), season, key);
        let i = choose|i: int|
            0 <= i < rows.skip(1).len() && (#[trigger] rows.skip(1)[i]).image == first_image(
                rows.skip(1),
                season,
                key,
            )->0 && answers(rows.skip(1)[i], season, key);
        assert(rows[i + 1] == rows.skip(1)[i]);
    }
}

proof fn lemma_image_by(
    ordered: Seq<Json>,
    numbers: Seq<int>,
    season: Option<i64>,
    number: Option<i64>,
    key: Option<Seq<char>>,
)
    ensures
        image_by(all_images(ordered, numbers), season, number, key) matches Some(image)
            ==> holds_image(ordered, image),
{
    let rows = all_images(ordered, numbers);
    if let Some(image) = image_by(rows, season, number, key) {
        let lookup = if number is Some && first_image(
            rows,
            season,
            LookupModel::Number(number->0),
        ) is Some {
            LookupModel::Number(number->0)
        } else {
            LookupModel::Text(key->0)
        };
        lemma_first_image(rows, season, lookup);
        let i = choose|i: int| 0 <= i < rows.len() && (#[trigger] rows[i]).image == image;
        lemma_all_images(ordered, numbers, i);
    }
}

proof fn lemma_season_artwork_held(ordered: Seq<Json>, numbers: Seq<int>, number: int)
    ensures
        season_artwork(ordered, numbers, number) matches Some(image) ==> holds_image(
            ordered,
            image,
        ),
    decreases ordered.len(),
{
    if ordered.len() > 0 {
        let shorter = ordered.drop_last();
        lemma_season_artwork_held(shorter, numbers.drop_last(), number);
        if let Some(image) = season_artwork(shorter, numbers.drop_last(), number) {
            let k = choose|k: int|
                0 <= k < shorter.len() && #[trigger] shows_image(shorter[k], image);
            assert(shows_image(ordered[k], image));
        } else if let Some(image) = season_artwork(ordered, numbers, number) {
            assert(shows_image(ordered[ordered.len() - 1], image));
        }
    }
}

proof fn lemma_show_artwork_held(seasons: Seq<Json>)
    ensures
        show_artwork(seasons) matches Some(image) ==> holds_image(seasons, image),
    decreases seasons.len(),
{
    if seasons.len() > 0 {
        let shorter = seasons.drop_last();
        lemma_show_artwork_held(shorter);
        if let Some(image) = show_artwork(shorter) {
            let k = choose|k: int|
                0 <= k < shorter.len() && #[trigger] shows_image(shorter[k], image);
            assert(shows_image(seasons[k], image));
        } else if let Some(image) = show_artwork(seasons) {
            assert(shows_image(seasons[seasons.len() - 1], image));
        }
    }
}

/// What the sources hold in order, they hold.
proof fn lemma_order_holds_image(sources: Seq<Json>, image: Seq<char>)
    requires
        holds_image(in_order(sources), image),
    ensures
        holds_image(sources, image),
{
    let ordered = in_order(sources);
    let k = choose|k: int| 0 <= k < ordered.len() && #[trigger] shows_image(ordered[k], image);
    law_sorting_keeps_items(sources, by_season());
    assert(ordered.contains(ordered[k]));
    let i = choose|i: int| 0 <= i < sources.len() && sources[i] == ordered[k];
    assert(shows_image(sources[i], image));
}

/// A picture that is filled in is one that a source has, and it is not blank.
pub proof fn law_pictures_come_from_sources(episode: Json, sources: Seq<Json>)
    ensures
        chosen_image(episode, sources) matches Some(image) ==> holds_image(sources, image)
            && !is_blank(image),
{
    let ordered = in_order(sources);
    let numbers = numbering(ordered);
    let season = episode.integer_at("season_number"@);
    let number = episode.integer_at("number"@);
    let key = optional_key(episode.text_at("title"@));
    lemma_image_by(ordered, numbers, season, number, key);
    lemma_image_by(ordered, numbers, None, number, key);
    lemma_image_by(ordered, numbers, None, None, aired_day(episode));
    if season is Some {
        lemma_season_artwork_held(ordered, numbers, season->0 as int);
    }
    lemma_show_artwork_held(sources);
    if let Some(image) = chosen_image(episode, sources) {
        if holds_image(ordered, image) {
            lemma_order_holds_image(sources, image);
        }
        let i = choose|i: int| 0 <= i < sources.len() && #[trigger] shows_image(sources[i], image);
        if artwork(sources[i]) != Some(image) {
            let rows = sources[i].list_at("episodes"@)->0;
            let k = choose|k: int|
                0 <= k < rows.len() && (#[trigger] rows[k]).text_at("thumbnail"@) == Some(image);
            assert(rows[k].text_at("thumbnail"@) == Some(image));
        }
    }
}

/// Filling in pictures a second time changes nothing.
pub proof fn law_picturing_is_final(show: Json, sources: Seq<Json>)
    ensures
        with_episodes(with_episodes(show, picturing(sources)), picturing(sources))
            == with_episodes(show, picturing(sources)),
{
    let change = picturing(sources);
    assert forall|episode: Json| #[trigger] change(change(episode)) == change(episode) by {
        law_pictures_come_from_sources(episode, sources);
    }
    lemma_with_episodes_is_final(show, change);
}

/// Where the sources have a picture of the show or of a season, every episode ends up with a
/// picture.
pub proof fn law_artwork_is_the_last_resort(episode: Json, sources: Seq<Json>)
    requires
        episode is Fields,
        show_artwork(sources) is Some,
    ensures
        has_text(picturing(sources)(episode), "thumbnail"@),
{
    law_pictures_come_from_sources(episode, sources);
}

} // verus!
