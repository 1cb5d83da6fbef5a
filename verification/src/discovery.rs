//! Finds seasons that a reference does not name: more seasons at the same source, and the same show
//! at other sources.

use crate::json::{
    held_replies, held_reply, lemma_models, models, string_field, Json, Value,
};
use crate::models::{
    first_with_key, ref_models, source_by_key, source_models, AnimeMetadata, RefModel, Source,
    SourceModel, SourceRef,
};
use crate::previews::{listed, Listed};
use crate::queries::{alphabetical, metadata_title_keys, queries, sorted_queries, title_keys};
use crate::text::{contains_text, same_text, texts};
use crate::titles::{normalize_title_key, title_key};
use vstd::prelude::*;

verus! {

/// A search at a source.
#[derive(Debug)]
pub struct Search {
    pub source: Source,
    pub query: String,
}

/// What a search holds.
pub struct SearchModel {
    pub source: SourceModel,
    pub query: Seq<char>,
}

impl View for Search {
    type V = SearchModel;

    open spec fn view(&self) -> SearchModel {
        SearchModel { source: self.source@, query: self.query@ }
    }
}

/// What the searches of a sequence hold.
pub open spec fn search_models(searches: Seq<Search>) -> Seq<SearchModel> {
    searches.map_values(|search: Search| search@)
}

/// A search with its reply, if one came.
pub struct AnswerModel {
    pub search: SearchModel,
    pub reply: Option<Json>,
}

/// What searches with their replies hold.
pub open spec fn answer_models(answers: Seq<(Search, Option<Value>)>) -> Seq<AnswerModel> {
    answers.map_values(
        |answer: (Search, Option<Value>)|
            AnswerModel { search: answer.0@, reply: held_reply(answer.1) },
    )
}

/// A found item has one of the wanted titles.
pub open spec fn is_wanted(item: Json, keys: Seq<Seq<char>>) -> bool {
    item.text_at("title"@) matches Some(title) && keys.contains(title_key(title))
}

/// The items of a reply, if it has any.
pub open spec fn reply_items(reply: Option<Json>) -> Seq<Json> {
    match reply {
        Some(document) => match document.list_at("items"@) {
            Some(items) => items,
            None => Seq::empty(),
        },
        None => Seq::empty(),
    }
}

/// References together with those to the wanted items, each once.
pub open spec fn extended(
    known: Seq<RefModel>,
    items: Seq<Json>,
    source: Seq<char>,
    keys: Seq<Seq<char>>,
) -> Seq<RefModel>
    decreases items.len(),
{
    if items.len() == 0 {
        known
    } else {
        let before = extended(known, items.drop_last(), source, keys);
        match items.last().text_at("id"@) {
            Some(id) => if is_wanted(items.last(), keys) && !before.contains(
                RefModel { source, id },
            ) {
                before.push(RefModel { source, id })
            } else {
                before
            },
            None => before,
        }
    }
}

fn wanted(item: &Value, keys: &Vec<String>) -> (yes: bool)
    ensures
        yes == is_wanted(item@, texts(keys@)),
{
    match string_field(item, "title") {
        Some(title) => contains_text(keys, normalize_title_key(title).as_str()),
        None => false,
    }
}

fn contains_ref(refs: &Vec<SourceRef>, source: &str, id: &str) -> (yes: bool)
    ensures
        yes == ref_models(refs@).contains(RefModel { source: source@, id: id@ }),
{
    let ghost wanted = RefModel { source: source@, id: id@ };
    let mut i: usize = 0;
    while i < refs.len()
        invariant
            i <= refs@.len(),
            wanted == (RefModel { source: source@, id: id@ }),
            forall|j: int| 0 <= j < i ==> (#[trigger] refs@[j])@ != wanted,
        decreases refs@.len() - i,
    {
        if same_text(refs[i].source.as_str(), source) && same_text(refs[i].id.as_str(), id) {
            assert(ref_models(refs@)[i as int] == wanted);
            return true;
        }
        i = i + 1;
    }
    proof {
        if ref_models(refs@).contains(wanted) {
            let j = choose|j: int|
                0 <= j < ref_models(refs@).len() && ref_models(refs@)[j] == wanted;
            assert(refs@[j]@ == wanted);
        }
    }
    false
}

/// Adds references to the wanted items of a reply, each once.
pub fn add_matches(
    known: &mut Vec<SourceRef>,
    source: &str,
    reply: &Option<Value>,
    keys: &Vec<String>,
)
    ensures
        ref_models(final(known)@) == extended(
            ref_models(old(known)@),
            reply_items(held_reply(*reply)),
            source@,
            texts(keys@),
        ),
{
    let ghost start = ref_models(known@);
    let document = match reply {
        Some(document) => document,
        None => return ,
    };
    let member = match document.get("items") {
        Some(member) => member,
        None => return ,
    };
    let items = match member.as_array() {
        Some(items) => items,
        None => return ,
    };
    let ghost documents = models(items@);
    let mut i: usize = 0;
    while i < items.len()
        invariant
            documents == models(items@),
            i <= items@.len(),
            ref_models(known@) == extended(
                start,
                documents.take(i as int),
                source@,
                texts(keys@),
            ),
        decreases items@.len() - i,
    {
        proof {
            lemma_models(items@);
            assert(documents.take(i + 1).drop_last() =~= documents.take(i as int));
        }
        if wanted(&items[i], keys) {
            if let Some(id) = string_field(&items[i], "id") {
                if !contains_ref(known, source, id) {
                    let ghost before = known@;
                    let reference = SourceRef { source: source.to_owned(), id: id.to_owned() };
                    known.push(reference);
                    assert(ref_models(known@) =~= ref_models(before).push(reference@));
                }
            }
        }
        i = i + 1;
    }
    proof {
        lemma_models(items@);
        assert(documents.take(i as int) =~= documents);
    }
}

/// References whose source is known, with their source.
pub open spec fn located(sources: Seq<SourceModel>, refs: Seq<RefModel>) -> Seq<
    (SourceModel, Seq<char>),
>
    decreases refs.len(),
{
    if refs.len() == 0 {
        Seq::empty()
    } else {
        let before = located(sources, refs.drop_last());
        match first_with_key(sources, refs.last().source) {
            Some(i) => before.push((sources[i], refs.last().id)),
            None => before,
        }
    }
}

/// What sources with identifiers hold.
pub open spec fn location_models(found: Seq<(Source, String)>) -> Seq<(SourceModel, Seq<char>)> {
    found.map_values(|pair: (Source, String)| (pair.0@, pair.1@))
}

/// Finds the sources of references, passing over those whose source is unknown.
pub fn locate_refs(sources: &[Source], refs: &[SourceRef]) -> (found: Vec<(Source, String)>)
    ensures
        location_models(found@) == located(source_models(sources@), ref_models(refs@)),
{
    let ghost known = source_models(sources@);
    let ghost all = ref_models(refs@);
    let mut found: Vec<(Source, String)> = Vec::new();
    let mut i: usize = 0;
    assert(location_models(found@) =~= located(known, all.take(0)));
    while i < refs.len()
        invariant
            known == source_models(sources@),
            all == ref_models(refs@),
            i <= refs@.len(),
            location_models(found@) == located(known, all.take(i as int)),
        decreases refs@.len() - i,
    {
        assert(all.take(i + 1).drop_last() =~= all.take(i as int));
        if let Ok(source) = source_by_key(sources, refs[i].source.as_str()) {
            let ghost before = found@;
            let pair = (source.clone(), refs[i].id.clone());
            found.push(pair);
            assert(location_models(found@) =~= location_models(before).push((pair.0@, pair.1@)));
        }
        i = i + 1;
    }
    assert(all.take(i as int) =~= all);
    found
}

/// The seasons that came of requests for them, with their sources.
pub open spec fn fetched(
    found: Seq<(SourceModel, Seq<char>)>,
    replies: Seq<Option<Json>>,
) -> Seq<Listed>
    decreases found.len(),
{
    if found.len() == 0 {
        Seq::empty()
    } else {
        let before = fetched(found.drop_last(), replies);
        let at = found.len() - 1;
        if at < replies.len() && replies[at] is Some {
            before.push(Listed { source: found.last().0, item: replies[at]->0 })
        } else {
            before
        }
    }
}

/// Puts the seasons that came of requests together with their sources. The replies stand in the
/// order of the requests; a reply that is missing counts as none.
pub fn collect_fetched(found: &[(Source, String)], replies: &[Option<Value>]) -> (seasons: Vec<
    (Source, AnimeMetadata),
>)
    ensures
        listed(seasons@) == fetched(location_models(found@), held_replies(replies@)),
{
    let ghost all = location_models(found@);
    let ghost given = held_replies(replies@);
    let mut seasons: Vec<(Source, Value)> = Vec::new();
    let mut i: usize = 0;
    assert(listed(seasons@) =~= fetched(all.take(0), given));
    while i < found.len()
        invariant
            all == location_models(found@),
            given == held_replies(replies@),
            i <= found@.len(),
            listed(seasons@) == fetched(all.take(i as int), given),
        decreases found@.len() - i,
    {
        assert(all.take(i + 1).drop_last() =~= all.take(i as int));
        if i < replies.len() {
            if let Some(metadata) = &replies[i] {
                let ghost before = seasons@;
                seasons.push((found[i].0.clone(), metadata.clone()));
                assert(listed(seasons@) =~= listed(before).push(
                    Listed { source: all[i as int].0, item: metadata@ },
                ));
            }
        }
        i = i + 1;
    }
    assert(all.take(i as int) =~= all);
    seasons
}

/// The seasons of a source.
pub open spec fn of_source(seasons: Seq<Listed>, key: Seq<char>) -> Seq<Json>
    decreases seasons.len(),
{
    if seasons.len() == 0 {
        Seq::empty()
    } else {
        let before = of_source(seasons.drop_last(), key);
        if seasons.last().source.key == key {
            before.push(seasons.last().item)
        } else {
            before
        }
    }
}

/// Searches for several texts at one source.
pub open spec fn searches_at(source: SourceModel, wanted: Seq<Seq<char>>) -> Seq<SearchModel> {
    wanted.map_values(|query: Seq<char>| SearchModel { source, query })
}

/// For some of the seasons, the searches for the shows that its source has seasons of.
pub open spec fn season_searches(seasons: Seq<Listed>, some: Seq<Listed>) -> Seq<SearchModel>
    decreases some.len(),
{
    if some.len() == 0 {
        Seq::empty()
    } else {
        let source = some.last().source;
        season_searches(seasons, some.drop_last()) + searches_at(
            source,
            alphabetical(queries(of_source(seasons, source.key))),
        )
    }
}

/// The seasons of a source, out of all.
fn collect_of_source(seasons: &[(Source, Value)], key: &str) -> (found: Vec<Value>)
    ensures
        models(found@) == of_source(listed(seasons@), key@),
{
    let ghost all = listed(seasons@);
    let mut found: Vec<Value> = Vec::new();
    let mut i: usize = 0;
    while i < seasons.len()
        invariant
            all == listed(seasons@),
            i <= seasons@.len(),
            models(found@) == of_source(all.take(i as int), key@),
        decreases seasons@.len() - i,
    {
        assert(all.take(i + 1).drop_last() =~= all.take(i as int));
        if same_text(seasons[i].0.key.as_str(), key) {
            let copy = seasons[i].1.clone();
            let ghost before = found@;
            found.push(copy);
            assert(found@.drop_last() =~= before);
        }
        i = i + 1;
    }
    assert(all.take(i as int) =~= all);
    found
}

/// Adds searches for several texts at one source.
fn add_searches(searches: &mut Vec<Search>, source: &Source, wanted: &Vec<String>)
    ensures
        search_models(final(searches)@) == search_models(old(searches)@) + searches_at(
            source@,
            texts(wanted@),
        ),
{
    let ghost start = search_models(searches@);
    let ghost all = searches_at(source@, texts(wanted@));
    let mut i: usize = 0;
    assert(start + all.take(0) =~= start);
    while i < wanted.len()
        invariant
            all == searches_at(source@, texts(wanted@)),
            i <= wanted@.len(),
            search_models(searches@) == start + all.take(i as int),
        decreases wanted@.len() - i,
    {
        let ghost before = searches@;
        let search = Search { source: source.clone(), query: wanted[i].clone() };
        searches.push(search);
        proof {
            assert(search_models(searches@) =~= search_models(before).push(search@));
            assert(all.take(i + 1) =~= all.take(i as int).push(all[i as int]));
            assert(search_models(searches@) =~= start + all.take(i + 1));
        }
        i = i + 1;
    }
    assert(all.take(i as int) =~= all);
}

/// Plans the searches for more seasons: at the source of each season, for the titles of the shows
/// that the source has seasons of.
pub fn plan_season_searches(seasons: &[(Source, AnimeMetadata)]) -> (searches: Vec<Search>)
    ensures
        search_models(searches@) == season_searches(listed(seasons@), listed(seasons@)),
{
    let ghost all = listed(seasons@);
    let mut searches: Vec<Search> = Vec::new();
    let mut i: usize = 0;
    assert(search_models(searches@) =~= season_searches(all, all.take(0)));
    while i < seasons.len()
        invariant
            all == listed(seasons@),
            i <= seasons@.len(),
            search_models(searches@) == season_searches(all, all.take(i as int)),
        decreases seasons@.len() - i,
    {
        assert(all.take(i + 1).drop_last() =~= all.take(i as int));
        let found = collect_of_source(seasons, seasons[i].0.key.as_str());
        add_searches(&mut searches, &seasons[i].0, &sorted_queries(found.as_slice()));
        i = i + 1;
    }
    assert(all.take(i as int) =~= all);
    searches
}

/// References together with those that the answers to searches add: to the items whose title a
/// season of the same source has.
pub open spec fn with_answers(
    refs: Seq<RefModel>,
    seasons: Seq<Listed>,
    answers: Seq<AnswerModel>,
) -> Seq<RefModel>
    decreases answers.len(),
{
    if answers.len() == 0 {
        refs
    } else {
        let source = answers.last().search.source.key;
        extended(
            with_answers(refs, seasons, answers.drop_last()),
            reply_items(answers.last().reply),
            source,
            title_keys(of_source(seasons, source)),
        )
    }
}

/// Copies references.
pub(crate) fn copy_refs(refs: &[SourceRef]) -> (copies: Vec<SourceRef>)
    ensures
        ref_models(copies@) == ref_models(refs@),
{
    let ghost all = ref_models(refs@);
    let mut copies: Vec<SourceRef> = Vec::new();
    let mut i: usize = 0;
    assert(ref_models(copies@) =~= all.take(0));
    while i < refs.len()
        invariant
            all == ref_models(refs@),
            i <= refs@.len(),
            ref_models(copies@) == all.take(i as int),
        decreases refs@.len() - i,
    {
        let ghost before = copies@;
        let copy = refs[i].clone();
        copies.push(copy);
        assert(ref_models(copies@) =~= ref_models(before).push(copy@));
        assert(all.take(i + 1) =~= all.take(i as int).push(all[i as int]));
        i = i + 1;
    }
    assert(all.take(i as int) =~= all);
    copies
}

/// Adds the seasons that searches found at the sources of the known seasons.
pub fn expand_season_refs(
    refs: &[SourceRef],
    seasons: &[(Source, AnimeMetadata)],
    answers: &[(Search, Option<Value>)],
) -> (expanded: Vec<SourceRef>)
    ensures
        ref_models(expanded@) == with_answers(
            ref_models(refs@),
            listed(seasons@),
            answer_models(answers@),
        ),
{
    let ghost given = ref_models(refs@);
    let ghost known = listed(seasons@);
    let ghost all = answer_models(answers@);
    let mut expanded = copy_refs(refs);
    let mut i: usize = 0;
    while i < answers.len()
        invariant
            known == listed(seasons@),
            all == answer_models(answers@),
            i <= answers@.len(),
            ref_models(expanded@) == with_answers(given, known, all.take(i as int)),
        decreases answers@.len() - i,
    {
        assert(all.take(i + 1).drop_last() =~= all.take(i as int));
        let source = answers[i].0.source.key.as_str();
        let found = collect_of_source(seasons, source);
        let keys = metadata_title_keys(found.as_slice());
        add_matches(&mut expanded, source, &answers[i].1, &keys);
        i = i + 1;
    }
    assert(all.take(i as int) =~= all);
    expanded
}

/// Some reference is to a source.
pub open spec fn is_used(refs: Seq<RefModel>, key: Seq<char>) -> bool {
    exists|i: int| 0 <= i < refs.len() && (#[trigger] refs[i]).source == key
}

/// Picks the sources that no reference is to.
pub open spec fn is_unused(refs: Seq<RefModel>) -> spec_fn(SourceModel) -> bool {
    |source: SourceModel| !is_used(refs, source.key)
}

/// The sources that no reference is to.
pub open spec fn unused(sources: Seq<SourceModel>, refs: Seq<RefModel>) -> Seq<SourceModel> {
    sources.filter(is_unused(refs))
}

fn uses_source(refs: &[SourceRef], key: &str) -> (yes: bool)
    ensures
        yes == is_used(ref_models(refs@), key@),
{
    let ghost all = ref_models(refs@);
    let mut i: usize = 0;
    while i < refs.len()
        invariant
            all == ref_models(refs@),
            i <= refs@.len(),
            forall|j: int| 0 <= j < i ==> (#[trigger] all[j]).source != key@,
        decreases refs@.len() - i,
    {
        if same_text(refs[i].source.as_str(), key) {
            assert(all[i as int].source == key@);
            return true;
        }
        i = i + 1;
    }
    false
}

/// The sources that no reference is to.
pub fn unused_sources(sources: &[Source], refs: &[SourceRef]) -> (found: Vec<Source>)
    ensures
        source_models(found@) == unused(source_models(sources@), ref_models(refs@)),
{
    let ghost all = source_models(sources@);
    let ghost picks = is_unused(ref_models(refs@));
    let mut found: Vec<Source> = Vec::new();
    let mut i: usize = 0;
    proof {
        reveal(Seq::filter);
        assert(source_models(found@) =~= all.take(0).filter(picks));
    }
    while i < sources.len()
        invariant
            all == source_models(sources@),
            picks == is_unused(ref_models(refs@)),
            i <= sources@.len(),
            source_models(found@) == all.take(i as int).filter(picks),
        decreases sources@.len() - i,
    {
        proof {
            reveal(Seq::filter);
            assert(all.take(i + 1).drop_last() =~= all.take(i as int));
        }
        if !uses_source(refs, sources[i].key.as_str()) {
            let ghost before = found@;
            let copy = sources[i].clone();
            found.push(copy);
            assert(source_models(found@) =~= source_models(before).push(copy@));
        }
        i = i + 1;
    }
    assert(all.take(i as int) =~= all);
    found
}

/// The identifier of the first wanted item.
pub open spec fn first_wanted(items: Seq<Json>, keys: Seq<Seq<char>>) -> Option<Seq<char>>
    decreases items.len(),
{
    if items.len() == 0 {
        None
    } else if is_wanted(items[0], keys) {
        items[0].text_at("id"@)
    } else {
        first_wanted(items.skip(1), keys)
    }
}

/// Finds the identifier of the first wanted item of a reply.
pub fn find_wanted<'a>(reply: &'a Option<Value>, keys: &Vec<String>) -> (id: Option<&'a str>)
    ensures
        (match id {
            Some(text) => Some(text@),
            None => None,
        }) == first_wanted(reply_items(held_reply(*reply)), texts(keys@)),
{
    let document = match reply {
        Some(document) => document,
        None => return None,
    };
    let member = match document.get("items") {
        Some(member) => member,
        None => return None,
    };
    let items = match member.as_array() {
        Some(items) => items,
        None => return None,
    };
    let ghost documents = models(items@);
    let ghost wanted_keys = texts(keys@);
    let mut i: usize = 0;
    proof {
        lemma_models(items@);
        assert(documents.skip(0) =~= documents);
    }
    while i < items.len()
        invariant
            documents == models(items@),
            documents.len() == items@.len(),
            wanted_keys == texts(keys@),
            i <= items@.len(),
            first_wanted(documents.skip(i as int), wanted_keys) == first_wanted(
                documents,
                wanted_keys,
            ),
            documents == reply_items(held_reply(*reply)),
        decreases items@.len() - i,
    {
        proof {
            lemma_models(items@);
            assert(documents.skip(i as int).skip(1) =~= documents.skip(i + 1));
            assert(documents.skip(i as int)[0] == documents[i as int]);
        }
        if wanted(&items[i], keys) {
            return string_field(&items[i], "id");
        }
        i = i + 1;
    }
    None
}

/// The search for a show at sources that no reference is to: it asks each source for one title
/// after the other, until a reply holds the show.
#[derive(Debug)]
pub struct FallbackSearch {
    sources: Vec<Source>,
    queries: Vec<String>,
    title_keys: Vec<String>,
    at_source: usize,
    at_query: usize,
    found: Vec<SourceRef>,
}

/// How far a fallback search is.
pub struct FallbackModel {
    pub sources: Seq<SourceModel>,
    pub queries: Seq<Seq<char>>,
    pub title_keys: Seq<Seq<char>>,
    pub at_source: int,
    pub at_query: int,
    pub found: Seq<RefModel>,
}

impl View for FallbackSearch {
    type V = FallbackModel;

    closed spec fn view(&self) -> FallbackModel {
        FallbackModel {
            sources: source_models(self.sources@),
            queries: texts(self.queries@),
            title_keys: texts(self.title_keys@),
            at_source: self.at_source as int,
            at_query: self.at_query as int,
            found: ref_models(self.found@),
        }
    }
}

impl FallbackModel {
    /// There is a search to make.
    pub open spec fn is_open(self) -> bool {
        0 <= self.at_source < self.sources.len() && 0 <= self.at_query < self.queries.len()
    }

    /// The search to make.
    pub open spec fn current(self) -> SearchModel {
        SearchModel {
            source: self.sources[self.at_source],
            query: self.queries[self.at_query],
        }
    }

    /// The state after a reply to the current search. A source is asked no more once a reply holds
    /// the show.
    pub open spec fn advanced(self, reply: Option<Json>) -> FallbackModel {
        match first_wanted(reply_items(reply), self.title_keys) {
            Some(id) => FallbackModel {
                at_source: self.at_source + 1,
                at_query: 0,
                found: self.found.push(
                    RefModel { source: self.sources[self.at_source].key, id },
                ),
                ..self
            },
            None => if self.at_query + 1 < self.queries.len() {
                FallbackModel { at_query: self.at_query + 1, ..self }
            } else {
                FallbackModel { at_source: self.at_source + 1, at_query: 0, ..self }
            },
        }
    }
}

/// A fallback search before the first reply.
pub open spec fn fallback_start(
    sources: Seq<SourceModel>,
    refs: Seq<RefModel>,
    seasons: Seq<Json>,
) -> FallbackModel {
    FallbackModel {
        sources: unused(sources, refs),
        queries: alphabetical(queries(seasons)),
        title_keys: title_keys(seasons),
        at_source: 0,
        at_query: 0,
        found: Seq::empty(),
    }
}

impl FallbackSearch {
    /// Begins the search for the show that seasons belong to, at the sources that no reference is
    /// to.
    pub fn new(sources: &[Source], refs: &[SourceRef], seasons: &[AnimeMetadata]) -> (search:
        FallbackSearch)
        ensures
            search@ == fallback_start(
                source_models(sources@),
                ref_models(refs@),
                models(seasons@),
            ),
    {
        let found: Vec<SourceRef> = Vec::new();
        assert(ref_models(found@) =~= Seq::<RefModel>::empty());
        FallbackSearch {
            sources: unused_sources(sources, refs),
            queries: sorted_queries(seasons),
            title_keys: metadata_title_keys(seasons),
            at_source: 0,
            at_query: 0,
            found,
        }
    }

    /// The next search to make, unless there is none.
    pub fn next_search(&self) -> (search: Option<Search>)
        ensures
            search is Some == self@.is_open(),
            search matches Some(s) ==> s@ == self@.current(),
    {
        if self.at_source < self.sources.len() && self.at_query < self.queries.len() {
            Some(
                Search {
                    source: self.sources[self.at_source].clone(),
                    query: self.queries[self.at_query].clone(),
                },
            )
        } else {
            None
        }
    }

    /// Takes the reply to the search that was next. Where there was none, nothing happens.
    pub fn receive(&mut self, reply: &Option<Value>)
        ensures
            final(self)@ == (if old(self)@.is_open() {
                old(self)@.advanced(held_reply(*reply))
            } else {
                old(self)@
            }),
    {
        if self.at_source < self.sources.len() && self.at_query < self.queries.len() {
            match find_wanted(reply, &self.title_keys) {
                Some(id) => {
                    let ghost before = self.found@;
                    let reference = SourceRef {
                        source: self.sources[self.at_source].key.clone(),
                        id: id.to_owned(),
                    };
                    self.found.push(reference);
                    assert(ref_models(self.found@) =~= ref_models(before).push(reference@));
                    self.at_source = self.at_source + 1;
                    self.at_query = 0;
                },
                None => {
                    if self.at_query + 1 < self.queries.len() {
                        self.at_query = self.at_query + 1;
                    } else {
                        self.at_source = self.at_source + 1;
                        self.at_query = 0;
                    }
                },
            }
        }
    }

    /// The references that were found, or else the given ones.
    pub fn refs_or(&self, refs: &[SourceRef]) -> (chosen: Vec<SourceRef>)
        ensures
            ref_models(chosen@) == found_or(self@.found, ref_models(refs@)),
    {
        if self.found.len() == 0 {
            copy_refs(refs)
        } else {
            copy_refs(self.found.as_slice())
        }
    }
}

/// The references that were found, or else others.
pub open spec fn found_or(found: Seq<RefModel>, others: Seq<RefModel>) -> Seq<RefModel> {
    if found.len() == 0 {
        others
    } else {
        found
    }
}

/// The searches for a show at other sources: each title at each source.
pub open spec fn backup_searches(
    sources: Seq<SourceModel>,
    wanted: Seq<Seq<char>>,
) -> Seq<SearchModel>
    decreases sources.len(),
{
    if sources.len() == 0 {
        Seq::empty()
    } else {
        backup_searches(sources.drop_last(), wanted) + searches_at(sources.last(), wanted)
    }
}

/// Plans the searches for the show that seasons belong to, at the sources that no reference is to.
pub fn plan_backup_searches(
    sources: &[Source],
    refs: &[SourceRef],
    seasons: &[AnimeMetadata],
) -> (searches: Vec<Search>)
    ensures
        search_models(searches@) == backup_searches(
            unused(source_models(sources@), ref_models(refs@)),
            alphabetical(queries(models(seasons@))),
        ),
{
    let others = unused_sources(sources, refs);
    let sorted = sorted_queries(seasons);
    let ghost all = source_models(others@);
    let mut searches: Vec<Search> = Vec::new();
    let mut i: usize = 0;
    assert(search_models(searches@) =~= backup_searches(all.take(0), texts(sorted@)));
    while i < others.len()
        invariant
            all == source_models(others@),
            i <= others@.len(),
            search_models(searches@) == backup_searches(all.take(i as int), texts(sorted@)),
        decreases others@.len() - i,
    {
        assert(all.take(i + 1).drop_last() =~= all.take(i as int));
        add_searches(&mut searches, &others[i], &sorted);
        i = i + 1;
    }
    assert(all.take(i as int) =~= all);
    searches
}

/// The search for other descriptions of a show: it asks every source that no reference is to for
/// each title, and notes the seasons in the replies, each once.
#[derive(Debug)]
pub struct BackupSearch {
    searches: Vec<Search>,
    title_keys: Vec<String>,
    at: usize,
    known: Vec<SourceRef>,
}

/// How far a backup search is.
pub struct BackupModel {
    pub searches: Seq<SearchModel>,
    pub title_keys: Seq<Seq<char>>,
    pub at: int,
    pub known: Seq<RefModel>,
}

impl View for BackupSearch {
    type V = BackupModel;

    closed spec fn view(&self) -> BackupModel {
        BackupModel {
            searches: search_models(self.searches@),
            title_keys: texts(self.title_keys@),
            at: self.at as int,
            known: ref_models(self.known@),
        }
    }
}

impl BackupModel {
    /// There is a search to make.
    pub open spec fn is_open(self) -> bool {
        0 <= self.at < self.searches.len()
    }

    /// The search to make.
    pub open spec fn current(self) -> SearchModel {
        self.searches[self.at]
    }

    /// The state after a reply to the current search.
    pub open spec fn advanced(self, reply: Option<Json>) -> BackupModel {
        BackupModel {
            at: self.at + 1,
            known: extended(
                self.known,
                reply_items(reply),
                self.current().source.key,
                self.title_keys,
            ),
            ..self
        }
    }
}

/// A backup search before the first reply.
pub open spec fn backup_start(
    sources: Seq<SourceModel>,
    refs: Seq<RefModel>,
    seasons: Seq<Json>,
) -> BackupModel {
    BackupModel {
        searches: backup_searches(unused(sources, refs), alphabetical(queries(seasons))),
        title_keys: title_keys(seasons),
        at: 0,
        known: refs,
    }
}

impl BackupSearch {
    /// Begins the search for other descriptions of the show that seasons belong to, at the sources
    /// that no reference is to.
    pub fn new(sources: &[Source], refs: &[SourceRef], seasons: &[AnimeMetadata]) -> (search:
        BackupSearch)
        ensures
            search@ == backup_start(
                source_models(sources@),
                ref_models(refs@),
                models(seasons@),
            ),
    {
        BackupSearch {
            searches: plan_backup_searches(sources, refs, seasons),
            title_keys: metadata_title_keys(seasons),
            at: 0,
            known: copy_refs(refs),
        }
    }

    /// The next search to make, unless there is none.
    pub fn next_search(&self) -> (search: Option<Search>)
        ensures
            search is Some == self@.is_open(),
            search matches Some(s) ==> s@ == self@.current(),
    {
        if self.at < self.searches.len() {
            let next = &self.searches[self.at];
            Some(Search { source: next.source.clone(), query: next.query.clone() })
        } else {
            None
        }
    }

    /// Takes the reply to the search that was next, and gives the seasons to fetch: those that were
    /// not known. Where there was no search to make, nothing happens.
    pub fn receive(&mut self, reply: &Option<Value>) -> (fresh: Vec<SourceRef>)
        ensures
            final(self)@ == (if old(self)@.is_open() {
                old(self)@.advanced(held_reply(*reply))
            } else {
                old(self)@
            }),
            final(self)@.known == old(self)@.known + ref_models(fresh@),
    {
        let ghost before = ref_models(self.known@);
        let count = self.known.len();
        if self.at < self.searches.len() {
            let source = self.searches[self.at].source.key.clone();
            proof {
                law_extending_adds_wanted_items(
                    before,
                    reply_items(held_reply(*reply)),
                    source@,
                    texts(self.title_keys@),
                );
            }
            add_matches(&mut self.known, source.as_str(), reply, &self.title_keys);
            self.at = self.at + 1;
        }
        let known = self.known.as_slice();
        let fresh = copy_refs(vstd::slice::slice_subrange(known, count, known.len()));
        proof {
            let after = ref_models(self.known@);
            assert(before =~= after.take(count as int));
            assert(ref_models(fresh@) =~= after.skip(count as int));
            assert(after =~= after.take(count as int) + after.skip(count as int));
        }
        fresh
    }
}

/// Extending references keeps them in front. What is added is each time new, and it refers to a
/// wanted item.
pub proof fn law_extending_adds_wanted_items(
    known: Seq<RefModel>,
    items: Seq<Json>,
    source: Seq<char>,
    keys: Seq<Seq<char>>,
)
    ensures
        known.len() <= extended(known, items, source, keys).len(),
        known == extended(known, items, source, keys).take(known.len() as int),
        forall|i: int, j: int|
            0 <= j < i < extended(known, items, source, keys).len() && known.len() <= i
                ==> #[trigger] extended(known, items, source, keys)[j] != #[trigger] extended(
                known,
                items,
                source,
                keys,
            )[i],
        forall|i: int|
            known.len() <= i < extended(known, items, source, keys).len() ==> refers_to_wanted(
                #[trigger] extended(known, items, source, keys)[i],
                items,
                source,
                keys,
            ),
    decreases items.len(),
{
    if items.len() == 0 {
        assert(known.take(known.len() as int) =~= known);
    } else {
        let shorter = items.drop_last();
        let before = extended(known, shorter, source, keys);
        let all = extended(known, items, source, keys);
        law_extending_adds_wanted_items(known, shorter, source, keys);
        assert(all.take(known.len() as int) =~= before.take(known.len() as int));
        assert forall|i: int, j: int| 0 <= j < i < all.len() && known.len() <= i implies
            #[trigger] all[j] != #[trigger] all[i] by {
            if i < before.len() {
                assert(before[j] == all[j] && before[i] == all[i]);
            } else {
                assert(before.contains(before[j]));
            }
        }
        assert forall|i: int| known.len() <= i < all.len() implies refers_to_wanted(
            #[trigger] all[i],
            items,
            source,
            keys,
        ) by {
            if i < before.len() {
                assert(refers_to_wanted(before[i], shorter, source, keys));
                let k = choose|k: int|
                    0 <= k < shorter.len() && is_wanted(#[trigger] shorter[k], keys)
                        && shorter[k].text_at("id"@) == Some(before[i].id);
                assert(is_wanted(items[k], keys));
            } else {
                assert(is_wanted(items[items.len() - 1], keys));
            }
        }
    }
}

/// A reference is to one of the wanted items at a source.
pub open spec fn refers_to_wanted(
    reference: RefModel,
    items: Seq<Json>,
    source: Seq<char>,
    keys: Seq<Seq<char>>,
) -> bool {
    reference.source == source && exists|k: int|
        0 <= k < items.len() && is_wanted(#[trigger] items[k], keys) && items[k].text_at("id"@)
            == Some(reference.id)
}

/// Every wanted item that has an identifier is referred to.
pub proof fn law_extending_misses_no_item(
    known: Seq<RefModel>,
    items: Seq<Json>,
    source: Seq<char>,
    keys: Seq<Seq<char>>,
    k: int,
)
    requires
        0 <= k < items.len(),
        is_wanted(items[k], keys),
        items[k].text_at("id"@) is Some,
    ensures
        extended(known, items, source, keys).contains(
            RefModel { source, id: items[k].text_at("id"@)->0 },
        ),
    decreases items.len(),
{
    let wanted = RefModel { source, id: items[k].text_at("id"@)->0 };
    let before = extended(known, items.drop_last(), source, keys);
    let all = extended(known, items, source, keys);
    if k < items.len() - 1 {
        law_extending_misses_no_item(known, items.drop_last(), source, keys, k);
        let i = choose|i: int| 0 <= i < before.len() && before[i] == wanted;
        assert(all[i] == wanted);
    } else if !before.contains(wanted) {
        assert(all[before.len() as int] == wanted);
    }
}

/// The answers to searches add references behind the given ones, each of them new.
pub proof fn law_answers_add_new_refs(
    refs: Seq<RefModel>,
    seasons: Seq<Listed>,
    answers: Seq<AnswerModel>,
)
    ensures
        refs.len() <= with_answers(refs, seasons, answers).len(),
        refs == with_answers(refs, seasons, answers).take(refs.len() as int),
        forall|i: int, j: int|
            0 <= j < i < with_answers(refs, seasons, answers).len() && refs.len() <= i
                ==> #[trigger] with_answers(refs, seasons, answers)[j] != #[trigger] with_answers(
                refs,
                seasons,
                answers,
            )[i],
    decreases answers.len(),
{
    if answers.len() == 0 {
        assert(refs.take(refs.len() as int) =~= refs);
    } else {
        let source = answers.last().search.source.key;
        let before = with_answers(refs, seasons, answers.drop_last());
        let all = with_answers(refs, seasons, answers);
        law_answers_add_new_refs(refs, seasons, answers.drop_last());
        law_extending_adds_wanted_items(
            before,
            reply_items(answers.last().reply),
            source,
            title_keys(of_source(seasons, source)),
        );
        assert forall|i: int| 0 <= i < before.len() implies before[i] == all[i] by {
            assert(all.take(before.len() as int)[i] == all[i]);
        }
        assert(all.take(refs.len() as int) =~= before.take(refs.len() as int));
        assert forall|i: int, j: int| 0 <= j < i < all.len() && refs.len() <= i implies
            #[trigger] all[j] != #[trigger] all[i] by {
            if i < before.len() {
                assert(before[j] == all[j] && before[i] == all[i]);
            }
        }
    }
}

/// The sources that a search falls back to, or backs up from, are not among those referred to.
pub proof fn law_other_sources_are_unused(
    sources: Seq<SourceModel>,
    refs: Seq<RefModel>,
    i: int,
    j: int,
)
    requires
        0 <= i < unused(sources, refs).len(),
        0 <= j < refs.len(),
    ensures
        unused(sources, refs)[i].key != refs[j].source,
        sources.contains(unused(sources, refs)[i]),
{
    let picks = is_unused(refs);
    sources.lemma_filter_pred(picks, i);
    sources.lemma_filter_contains_rev(picks, unused(sources, refs)[i]);
}

/// What asking one source for the titles from `k` on finds, where `answers` gives the replies.
pub open spec fn found_at(
    search: FallbackModel,
    source: SourceModel,
    k: int,
    answers: spec_fn(SearchModel) -> Option<Json>,
) -> Seq<RefModel>
    decreases search.queries.len() - k,
{
    if k >= search.queries.len() {
        Seq::empty()
    } else {
        let reply = answers(SearchModel { source, query: search.queries[k] });
        match first_wanted(reply_items(reply), search.title_keys) {
            Some(id) => seq![RefModel { source: source.key, id }],
            None => found_at(search, source, k + 1, answers),
        }
    }
}

/// What asking the sources from `i` on for every title finds, at most one reference at each.
pub open spec fn found_from(
    search: FallbackModel,
    i: int,
    answers: spec_fn(SearchModel) -> Option<Json>,
) -> Seq<RefModel>
    decreases search.sources.len() - i,
{
    if i >= search.sources.len() {
        Seq::empty()
    } else {
        found_at(search, search.sources[i], 0, answers) + found_from(search, i + 1, answers)
    }
}

/// What a fallback search will have found in the end.
pub open spec fn fallback_outcome(
    search: FallbackModel,
    answers: spec_fn(SearchModel) -> Option<Json>,
) -> Seq<RefModel> {
    if search.is_open() {
        search.found + found_at(
            search,
            search.sources[search.at_source],
            search.at_query,
            answers,
        ) + found_from(search, search.at_source + 1, answers)
    } else {
        search.found
    }
}

/// The searches that a fallback search may still make, at most.
pub open spec fn searches_left(search: FallbackModel) -> int {
    if search.is_open() {
        (search.sources.len() - search.at_source) * search.queries.len() - search.at_query
    } else {
        0
    }
}

proof fn lemma_found_ignores_progress(
    a: FallbackModel,
    b: FallbackModel,
    source: SourceModel,
    k: int,
    answers: spec_fn(SearchModel) -> Option<Json>,
)
    requires
        a.queries == b.queries,
        a.title_keys == b.title_keys,
    ensures
        found_at(a, source, k, answers) == found_at(b, source, k, answers),
    decreases a.queries.len() - k,
{
    if k < a.queries.len() {
        lemma_found_ignores_progress(a, b, source, k + 1, answers);
    }
}

proof fn lemma_found_from_ignores_progress(
    a: FallbackModel,
    b: FallbackModel,
    i: int,
    answers: spec_fn(SearchModel) -> Option<Json>,
)
    requires
        a.queries == b.queries,
        a.title_keys == b.title_keys,
        a.sources == b.sources,
    ensures
        found_from(a, i, answers) == found_from(b, i, answers),
    decreases a.sources.len() - i,
{
    if i < a.sources.len() {
        lemma_found_ignores_progress(a, b, a.sources[i], 0, answers);
        lemma_found_from_ignores_progress(a, b, i + 1, answers);
    }
}

/// Taking the reply to the next search changes nothing in what will have been found in the end, and
/// leaves fewer searches to make.
pub proof fn law_fallback_search_advances(
    search: FallbackModel,
    answers: spec_fn(SearchModel) -> Option<Json>,
)
    requires
        search.is_open(),
    ensures
        fallback_outcome(search.advanced(answers(search.current())), answers) == fallback_outcome(
            search,
            answers,
        ),
        0 <= searches_left(search.advanced(answers(search.current()))) < searches_left(search),
{
    let reply = answers(search.current());
    let next = search.advanced(reply);
    let source = search.sources[search.at_source];
    let total = search.sources.len() as int;
    let each = search.queries.len() as int;
    let at = search.at_source;
    lemma_found_from_ignores_progress(search, next, at + 1, answers);
    lemma_found_from_ignores_progress(search, next, at + 2, answers);
    lemma_found_ignores_progress(search, next, source, search.at_query + 1, answers);
    if at + 1 < total {
        lemma_found_ignores_progress(search, next, search.sources[at + 1], 0, answers);
    }
    match first_wanted(reply_items(reply), search.title_keys) {
        Some(id) => {
            let reference = RefModel { source: source.key, id };
            assert(search.found.push(reference) =~= search.found + seq![reference]);
        },
        None => {},
    }
    assert(fallback_outcome(next, answers) =~= fallback_outcome(search, answers));
    assert((total - at) * each == (total - (at + 1)) * each + each) by (nonlinear_arith);
    if at + 1 < total {
        assert((total - (at + 1)) * each >= each) by (nonlinear_arith)
            requires
                total - (at + 1) >= 1,
                each >= 0,
        ;
    }
}

/// Nothing is found where nothing is asked for.
proof fn lemma_nothing_found(
    search: FallbackModel,
    i: int,
    answers: spec_fn(SearchModel) -> Option<Json>,
)
    requires
        search.queries.len() == 0,
    ensures
        found_from(search, i, answers) == Seq::<RefModel>::empty(),
    decreases search.sources.len() - i,
{
    if i < search.sources.len() {
        lemma_nothing_found(search, i + 1, answers);
    }
}

/// A fallback search in the end has found what asking every unused source for every title finds, in
/// the order of the sources.
pub proof fn law_fallback_search_is_complete(
    sources: Seq<SourceModel>,
    refs: Seq<RefModel>,
    seasons: Seq<Json>,
    answers: spec_fn(SearchModel) -> Option<Json>,
)
    ensures
        fallback_outcome(fallback_start(sources, refs, seasons), answers) == found_from(
            fallback_start(sources, refs, seasons),
            0,
            answers,
        ),
{
    let start = fallback_start(sources, refs, seasons);
    if start.queries.len() == 0 {
        lemma_nothing_found(start, 0, answers);
    }
    if start.is_open() {
        assert(fallback_outcome(start, answers) =~= found_from(start, 0, answers));
    }
}

proof fn lemma_found_at_source(
    search: FallbackModel,
    source: SourceModel,
    k: int,
    answers: spec_fn(SearchModel) -> Option<Json>,
)
    ensures
        found_at(search, source, k, answers).len() <= 1,
        found_at(search, source, k, answers).len() == 1 ==> found_at(
            search,
            source,
            k,
            answers,
        )[0].source == source.key,
    decreases search.queries.len() - k,
{
    if k < search.queries.len() {
        lemma_found_at_source(search, source, k + 1, answers);
    }
}

proof fn lemma_found_from_sources(
    search: FallbackModel,
    i: int,
    answers: spec_fn(SearchModel) -> Option<Json>,
    k: int,
)
    requires
        0 <= i,
        0 <= k < found_from(search, i, answers).len(),
    ensures
        exists|s: int|
            i <= s < search.sources.len() && (#[trigger] search.sources[s]).key == found_from(
                search,
                i,
                answers,
            )[k].source,
    decreases search.sources.len() - i,
{
    let here = found_at(search, search.sources[i], 0, answers);
    lemma_found_at_source(search, search.sources[i], 0, answers);
    if k < here.len() {
        assert(search.sources[i].key == found_from(search, i, answers)[k].source);
    } else {
        lemma_found_from_sources(search, i + 1, answers, k - here.len());
    }
}

/// A fallback search finds references to sources that no reference was to.
pub proof fn law_fallback_refs_are_elsewhere(
    sources: Seq<SourceModel>,
    refs: Seq<RefModel>,
    seasons: Seq<Json>,
    answers: spec_fn(SearchModel) -> Option<Json>,
    k: int,
)
    requires
        0 <= k < fallback_outcome(fallback_start(sources, refs, seasons), answers).len(),
    ensures
        !is_used(
            refs,
            fallback_outcome(fallback_start(sources, refs, seasons), answers)[k].source,
        ),
{
    let start = fallback_start(sources, refs, seasons);
    law_fallback_search_is_complete(sources, refs, seasons, answers);
    lemma_found_from_sources(start, 0, answers, k);
    let found = found_from(start, 0, answers)[k];
    let s = choose|s: int|
        0 <= s < start.sources.len() && (#[trigger] start.sources[s]).key == found.source;
    sources.lemma_filter_pred(is_unused(refs), s);
}

/// References after the replies to several searches for one show were noted one by one.
pub open spec fn with_backups(
    known: Seq<RefModel>,
    answers: Seq<AnswerModel>,
    keys: Seq<Seq<char>>,
) -> Seq<RefModel>
    decreases answers.len(),
{
    if answers.len() == 0 {
        known
    } else {
        extended(
            with_backups(known, answers.drop_last(), keys),
            reply_items(answers.last().reply),
            answers.last().search.source.key,
            keys,
        )
    }
}

/// However many searches are answered, no season is taken for a backup twice, nor one that is known
/// already.
pub proof fn law_backups_are_noted_once(
    known: Seq<RefModel>,
    answers: Seq<AnswerModel>,
    keys: Seq<Seq<char>>,
)
    ensures
        known.len() <= with_backups(known, answers, keys).len(),
        known == with_backups(known, answers, keys).take(known.len() as int),
        forall|i: int, j: int|
            0 <= j < i < with_backups(known, answers, keys).len() && known.len() <= i
                ==> #[trigger] with_backups(known, answers, keys)[j] != #[trigger] with_backups(
                known,
                answers,
                keys,
            )[i],
    decreases answers.len(),
{
    if answers.len() == 0 {
        assert(known.take(known.len() as int) =~= known);
    } else {
        let before = with_backups(known, answers.drop_last(), keys);
        let all = with_backups(known, answers, keys);
        law_backups_are_noted_once(known, answers.drop_last(), keys);
        law_extending_adds_wanted_items(
            before,
            reply_items(answers.last().reply),
            answers.last().search.source.key,
            keys,
        );
        assert forall|i: int| 0 <= i < before.len() implies before[i] == all[i] by {
            assert(all.take(before.len() as int)[i] == all[i]);
        }
        assert(all.take(known.len() as int) =~= before.take(known.len() as int));
        assert forall|i: int, j: int| 0 <= j < i < all.len() && known.len() <= i implies
            #[trigger] all[j] != #[trigger] all[i] by {
            if i < before.len() {
                assert(before[j] == all[j] && before[i] == all[i]);
            }
        }
    }
}

/// Some searches with their replies, where `answers` gives the replies.
pub open spec fn answered(
    searches: Seq<SearchModel>,
    answers: spec_fn(SearchModel) -> Option<Json>,
) -> Seq<AnswerModel> {
    searches.map_values(|search: SearchModel| AnswerModel { search, reply: answers(search) })
}

/// The references that a backup search will know in the end.
pub open spec fn backup_outcome(
    search: BackupModel,
    answers: spec_fn(SearchModel) -> Option<Json>,
) -> Seq<RefModel> {
    with_backups(
        search.known,
        answered(search.searches.skip(search.at), answers),
        search.title_keys,
    )
}

/// The first answer can be noted first.
proof fn lemma_with_backups_first(
    known: Seq<RefModel>,
    answers: Seq<AnswerModel>,
    keys: Seq<Seq<char>>,
)
    requires
        answers.len() > 0,
    ensures
        with_backups(known, answers, keys) == with_backups(
            extended(
                known,
                reply_items(answers[0].reply),
                answers[0].search.source.key,
                keys,
            ),
            answers.skip(1),
            keys,
        ),
    decreases answers.len(),
{
    if answers.len() == 1 {
        reveal_with_fuel(with_backups, 2);
        assert(answers.drop_last() =~= Seq::<AnswerModel>::empty());
        assert(answers.skip(1) =~= Seq::<AnswerModel>::empty());
    } else {
        lemma_with_backups_first(known, answers.drop_last(), keys);
        assert(answers.drop_last()[0] == answers[0]);
        assert(answers.skip(1).last() == answers.last());
        assert(answers.skip(1).drop_last() =~= answers.drop_last().skip(1));
    }
}

/// Taking the reply to the next search changes nothing in what will be known in the end, and leaves
/// one search less to make.
pub proof fn law_backup_search_advances(
    search: BackupModel,
    answers: spec_fn(SearchModel) -> Option<Json>,
)
    requires
        search.is_open(),
    ensures
        backup_outcome(search.advanced(answers(search.current())), answers) == backup_outcome(
            search,
            answers,
        ),
        search.advanced(answers(search.current())).at == search.at + 1,
        search.advanced(answers(search.current())).searches == search.searches,
{
    let left = search.searches.skip(search.at);
    let all = answered(left, answers);
    assert(left[0] == search.current());
    assert(left.skip(1) =~= search.searches.skip(search.at + 1));
    assert(all.skip(1) =~= answered(left.skip(1), answers));
    lemma_with_backups_first(search.known, all, search.title_keys);
}

/// A backup search in the end knows what noting the replies to all planned searches gives.
pub proof fn law_backup_search_is_complete(
    sources: Seq<SourceModel>,
    refs: Seq<RefModel>,
    seasons: Seq<Json>,
    answers: spec_fn(SearchModel) -> Option<Json>,
)
    ensures
        backup_outcome(backup_start(sources, refs, seasons), answers) == with_backups(
            refs,
            answered(backup_start(sources, refs, seasons).searches, answers),
            title_keys(seasons),
        ),
{
    let searches = backup_start(sources, refs, seasons).searches;
    assert(searches.skip(0) =~= searches);
}

proof fn lemma_backup_searches_at(sources: Seq<SourceModel>, wanted: Seq<Seq<char>>, k: int)
    requires
        0 <= k < backup_searches(sources, wanted).len(),
    ensures
        exists|i: int|
            0 <= i < sources.len() && #[trigger] sources[i] == backup_searches(
                sources,
                wanted,
            )[k].source,
    decreases sources.len(),
{
    let shorter = sources.drop_last();
    let before = backup_searches(shorter, wanted);
    if k < before.len() {
        lemma_backup_searches_at(shorter, wanted, k);
        let i = choose|i: int| 0 <= i < shorter.len() && #[trigger] shorter[i] == before[k].source;
        assert(sources[i] == shorter[i]);
    } else {
        assert(sources[sources.len() - 1] == backup_searches(sources, wanted)[k].source);
    }
}

/// A backup search asks sources that no reference is to.
pub proof fn law_backups_are_elsewhere(
    sources: Seq<SourceModel>,
    refs: Seq<RefModel>,
    seasons: Seq<Json>,
    k: int,
)
    requires
        0 <= k < backup_start(sources, refs, seasons).searches.len(),
    ensures
        !is_used(refs, backup_start(sources, refs, seasons).searches[k].source.key),
{
    let others = unused(sources, refs);
    let wanted = alphabetical(queries(seasons));
    lemma_backup_searches_at(others, wanted, k);
    let i = choose|i: int|
        0 <= i < others.len() && #[trigger] others[i] == backup_searches(others, wanted)[k].source;
    sources.lemma_filter_pred(is_unused(refs), i);
}

/// An answer offers a season: it comes from the season's source and holds a wanted item with its
/// identifier.
pub open spec fn offers(answer: AnswerModel, seasons: Seq<Listed>, reference: RefModel) -> bool {
    answer.search.source.key == reference.source && refers_to_wanted(
        reference,
        reply_items(answer.reply),
        reference.source,
        title_keys(of_source(seasons, reference.source)),
    )
}

/// Some answer offers a season.
pub open spec fn is_offered(
    answers: Seq<AnswerModel>,
    seasons: Seq<Listed>,
    reference: RefModel,
) -> bool {
    exists|k: int| 0 <= k < answers.len() && offers(#[trigger] answers[k], seasons, reference)
}

proof fn lemma_extended_contains(
    known: Seq<RefModel>,
    items: Seq<Json>,
    source: Seq<char>,
    keys: Seq<Seq<char>>,
    r: RefModel,
)
    ensures
        extended(known, items, source, keys).contains(r) == (known.contains(r)
            || refers_to_wanted(r, items, source, keys)),
{
    let all = extended(known, items, source, keys);
    law_extending_adds_wanted_items(known, items, source, keys);
    if all.contains(r) && !known.contains(r) {
        let i = choose|i: int| 0 <= i < all.len() && all[i] == r;
        if i < known.len() {
            assert(known[i] == all.take(known.len() as int)[i]);
            assert(known.contains(r));
        }
        assert(refers_to_wanted(all[i], items, source, keys));
    }
    if known.contains(r) {
        let i = choose|i: int| 0 <= i < known.len() && known[i] == r;
        assert(all[i] == all.take(known.len() as int)[i]);
        assert(all[i] == r);
    }
    if refers_to_wanted(r, items, source, keys) {
        let k = choose|k: int|
            0 <= k < items.len() && is_wanted(#[trigger] items[k], keys) && items[k].text_at("id"@)
                == Some(r.id);
        law_extending_misses_no_item(known, items, source, keys, k);
    }
}

/// A season is referred to once the answers are in exactly where it was referred to before or an
/// answer offers it.
pub proof fn law_offered_seasons_are_added(
    refs: Seq<RefModel>,
    seasons: Seq<Listed>,
    answers: Seq<AnswerModel>,
    r: RefModel,
)
    ensures
        with_answers(refs, seasons, answers).contains(r) == (refs.contains(r) || is_offered(
            answers,
            seasons,
            r,
        )),
    decreases answers.len(),
{
    if answers.len() > 0 {
        let shorter = answers.drop_last();
        let source = answers.last().search.source.key;
        law_offered_seasons_are_added(refs, seasons, shorter, r);
        lemma_extended_contains(
            with_answers(refs, seasons, shorter),
            reply_items(answers.last().reply),
            source,
            title_keys(of_source(seasons, source)),
            r,
        );
        if is_offered(answers, seasons, r) {
            let k = choose|k: int|
                0 <= k < answers.len() && offers(#[trigger] answers[k], seasons, r);
            if k < answers.len() - 1 {
                assert(offers(shorter[k], seasons, r));
            }
        }
        if is_offered(shorter, seasons, r) {
            let k = choose|k: int|
                0 <= k < shorter.len() && offers(#[trigger] shorter[k], seasons, r);
            assert(offers(answers[k], seasons, r));
        }
        if offers(answers.last(), seasons, r) {
            assert(offers(answers[answers.len() - 1], seasons, r));
        }
    }
}

/// The searches that some answers answer.
pub open spec fn searches_of(answers: Seq<AnswerModel>) -> Seq<SearchModel> {
    answers.map_values(|answer: AnswerModel| answer.search)
}

proof fn lemma_found_source(sources: Seq<SourceModel>, key: Seq<char>)
    ensures
        first_with_key(sources, key) matches Some(i) ==> 0 <= i < sources.len() && sources[i].key
            == key,
    decreases sources.len(),
{
    if sources.len() > 0 {
        lemma_found_source(sources.drop_last(), key);
    }
}

proof fn lemma_located_sources(sources: Seq<SourceModel>, refs: Seq<RefModel>, k: int)
    requires
        0 <= k < located(sources, refs).len(),
    ensures
        is_used(refs, located(sources, refs)[k].0.key),
    decreases refs.len(),
{
    let shorter = refs.drop_last();
    let before = located(sources, shorter);
    lemma_found_source(sources, refs.last().source);
    if k < before.len() {
        lemma_located_sources(sources, shorter, k);
        let i = choose|i: int|
            0 <= i < shorter.len() && (#[trigger] shorter[i]).source == before[k].0.key;
        assert(refs[i].source == before[k].0.key);
    } else {
        assert(refs[refs.len() - 1].source == located(sources, refs)[k].0.key);
    }
}

proof fn lemma_fetched_sources(
    found: Seq<(SourceModel, Seq<char>)>,
    replies: Seq<Option<Json>>,
    k: int,
)
    requires
        0 <= k < fetched(found, replies).len(),
    ensures
        exists|i: int|
            0 <= i < found.len() && (#[trigger] found[i]).0 == fetched(found, replies)[k].source,
    decreases found.len(),
{
    let shorter = found.drop_last();
    let before = fetched(shorter, replies);
    if k < before.len() {
        lemma_fetched_sources(shorter, replies, k);
        let i = choose|i: int|
            0 <= i < shorter.len() && (#[trigger] shorter[i]).0 == before[k].source;
        assert(found[i] == shorter[i]);
    } else {
        assert(found[found.len() - 1].0 == fetched(found, replies)[k].source);
    }
}

proof fn lemma_season_search_sources(seasons: Seq<Listed>, some: Seq<Listed>, k: int)
    requires
        0 <= k < season_searches(seasons, some).len(),
    ensures
        exists|i: int|
            0 <= i < some.len() && (#[trigger] some[i]).source == season_searches(
                seasons,
                some,
            )[k].source,
    decreases some.len(),
{
    let shorter = some.drop_last();
    let before = season_searches(seasons, shorter);
    if k < before.len() {
        lemma_season_search_sources(seasons, shorter, k);
        let i = choose|i: int|
            0 <= i < shorter.len() && (#[trigger] shorter[i]).source == before[k].source;
        assert(some[i] == shorter[i]);
    } else {
        assert(some[some.len() - 1].source == season_searches(seasons, some)[k].source);
    }
}

/// Expanding references, from the requests for their seasons to the answers to the planned
/// searches, adds references to sources that the given references name, and exactly those to the
/// seasons that an answer of their source offers.
pub proof fn law_expansion_stays_at_its_sources(
    sources: Seq<SourceModel>,
    refs: Seq<RefModel>,
    replies: Seq<Option<Json>>,
    answers: Seq<AnswerModel>,
    r: RefModel,
)
    requires
        ({
            let seasons = fetched(located(sources, refs), replies);
            searches_of(answers) == season_searches(seasons, seasons)
        }),
    ensures
        ({
            let seasons = fetched(located(sources, refs), replies);
            let expanded = with_answers(refs, seasons, answers);
            &&& expanded.contains(r) ==> is_used(refs, r.source)
            &&& expanded.contains(r) == (refs.contains(r) || is_offered(answers, seasons, r))
        }),
{
    let found = located(sources, refs);
    let seasons = fetched(found, replies);
    law_offered_seasons_are_added(refs, seasons, answers, r);
    if refs.contains(r) {
        let i = choose|i: int| 0 <= i < refs.len() && refs[i] == r;
        assert(refs[i].source == r.source);
    } else if is_offered(answers, seasons, r) {
        let k = choose|k: int| 0 <= k < answers.len() && offers(#[trigger] answers[k], seasons, r);
        assert(searches_of(answers)[k] == answers[k].search);
        lemma_season_search_sources(seasons, seasons, k);
        let i = choose|i: int|
            0 <= i < seasons.len() && (#[trigger] seasons[i]).source == season_searches(
                seasons,
                seasons,
            )[k].source;
        lemma_fetched_sources(found, replies, i);
        let j = choose|j: int| 0 <= j < found.len() && (#[trigger] found[j]).0 == seasons[i].source;
        lemma_located_sources(sources, refs, j);
    }
}

} // verus!
