//! Which seasons are looked for, and which of the replies are taken.

use crate::discovery::{
    backup_searches, backup_start, extended, fallback_outcome, fallback_start, fetched,
    first_wanted, found_at, found_from, found_or, is_unused, is_wanted,
    law_extending_adds_wanted_items, law_fallback_search_is_complete, located, of_source,
    reply_items, searches_at, season_searches, unused, with_answers, AnswerModel, FallbackModel,
    SearchModel,
};
use crate::json::Json;
use crate::laws::{lemma_filter_picks, lemma_picks_last, lemma_picks_nothing, picks, those};
use crate::models::{first_with_key, RefModel, SourceModel};
use crate::previews::Listed;
use crate::queries::{alphabetical, queries, title_keys};
use crate::titles::title_key;
use vstd::prelude::*;

verus! {

/// An item of a reply is wanted where it has a title whose key is one of the keys that are looked
/// for. The items of a reply are what it lists under "items", if it lists something there.
pub proof fn law_wanted_items_have_a_known_title(
    item: Json,
    keys: Seq<Seq<char>>,
    reply: Option<Json>,
)
    ensures
        is_wanted(item, keys) <==> (item.text_at("title"@) is Some && exists|k: int|
            0 <= k < keys.len() && #[trigger] keys[k] == title_key(item.text_at("title"@)->0)),
        reply is Some && reply->0.field("items"@) is Some && reply->0.field("items"@)->0 is List
            ==> reply_items(reply) == reply->0.field("items"@)->0->List_0,
        !(reply is Some && reply->0.field("items"@) is Some && reply->0.field("items"@)->0 is List)
            ==> reply_items(reply).len() == 0,
{
    if is_wanted(item, keys) {
        let key = title_key(item.text_at("title"@)->0);
        let k = choose|k: int| 0 <= k < keys.len() && keys[k] == key;
        assert(keys[k] == key);
    }
}

/// The source with a key is the first that has it.
pub proof fn law_first_source_with_a_key_counts(sources: Seq<SourceModel>, key: Seq<char>, i: int)
    ensures
        0 <= i < sources.len() && sources[i].key == key && (forall|k: int|
            0 <= k < i ==> (#[trigger] sources[k]).key != key) ==> first_with_key(sources, key)
            == Some(i),
        (forall|k: int| 0 <= k < sources.len() ==> (#[trigger] sources[k]).key != key)
            ==> first_with_key(sources, key) is None,
    decreases sources.len(),
{
    if sources.len() > 0 {
        let shorter = sources.drop_last();
        law_first_source_with_a_key_counts(shorter, key, i);
        assert(sources[sources.len() - 1] == sources.last());
        if 0 <= i < sources.len() && forall|k: int|
            0 <= k < i ==> (#[trigger] sources[k]).key != key {
            if i < shorter.len() {
                assert(shorter[i] == sources[i]);
            }
            assert forall|k: int| 0 <= k < i && k < shorter.len() implies (
            #[trigger] shorter[k]).key != key by {
                assert(shorter[k] == sources[k]);
            }
        }
        if forall|k: int| 0 <= k < sources.len() ==> (#[trigger] sources[k]).key != key {
            assert forall|k: int| 0 <= k < shorter.len() implies (#[trigger] shorter[k]).key
                != key by {
                assert(shorter[k] == sources[k]);
            }
        }
    }
}

/// Picks the source and the identifier that a reference names.
pub open spec fn location_pick(sources: Seq<SourceModel>) -> spec_fn(RefModel) -> Option<
    (SourceModel, Seq<char>),
> {
    |reference: RefModel|
        match first_with_key(sources, reference.source) {
            Some(i) => Some((sources[i], reference.id)),
            None => None,
        }
}

/// Every reference to a known source is followed, in the order of the references.
pub proof fn law_known_references_are_followed(sources: Seq<SourceModel>, refs: Seq<RefModel>)
    ensures
        picks(refs, located(sources, refs), location_pick(sources)),
    decreases refs.len(),
{
    if refs.len() == 0 {
        lemma_picks_nothing(refs, located(sources, refs), location_pick(sources));
    } else {
        law_known_references_are_followed(sources, refs.drop_last());
        lemma_picks_last(refs, located(sources, refs.drop_last()), location_pick(sources));
    }
}

/// Requests with their replies, one by one.
pub open spec fn with_replies(
    found: Seq<(SourceModel, Seq<char>)>,
    replies: Seq<Option<Json>>,
) -> Seq<(SourceModel, Option<Json>)> {
    Seq::new(
        found.len(),
        |i: int|
            (
                found[i].0,
                if i < replies.len() {
                    replies[i]
                } else {
                    None
                },
            ),
    )
}

/// Picks a season that came, with its source.
pub open spec fn reply_pick() -> spec_fn((SourceModel, Option<Json>)) -> Option<Listed> {
    |pair: (SourceModel, Option<Json>)|
        match pair.1 {
            Some(item) => Some(Listed { source: pair.0, item }),
            None => None,
        }
}

/// Every season that came is kept with the source that it was asked of.
pub proof fn law_fetched_seasons_keep_their_source(
    found: Seq<(SourceModel, Seq<char>)>,
    replies: Seq<Option<Json>>,
)
    ensures
        picks(with_replies(found, replies), fetched(found, replies), reply_pick()),
    decreases found.len(),
{
    let all = with_replies(found, replies);
    if found.len() == 0 {
        lemma_picks_nothing(all, fetched(found, replies), reply_pick());
    } else {
        let shorter = found.drop_last();
        law_fetched_seasons_keep_their_source(shorter, replies);
        assert(all.drop_last() =~= with_replies(shorter, replies));
        lemma_picks_last(all, fetched(shorter, replies), reply_pick());
    }
}

/// Picks the seasons of a source.
pub open spec fn source_pick(key: Seq<char>) -> spec_fn(Listed) -> Option<Json> {
    |season: Listed|
        if season.source.key == key {
            Some(season.item)
        } else {
            None
        }
}

/// The seasons of a source are those that came from it, in their order.
pub proof fn law_seasons_of_a_source_came_from_it(seasons: Seq<Listed>, key: Seq<char>)
    ensures
        picks(seasons, of_source(seasons, key), source_pick(key)),
    decreases seasons.len(),
{
    if seasons.len() == 0 {
        lemma_picks_nothing(seasons, of_source(seasons, key), source_pick(key));
    } else {
        law_seasons_of_a_source_came_from_it(seasons.drop_last(), key);
        lemma_picks_last(seasons, of_source(seasons.drop_last(), key), source_pick(key));
    }
}

/// The sources that no reference is to.
pub open spec fn is_elsewhere(refs: Seq<RefModel>) -> spec_fn(SourceModel) -> bool {
    |source: SourceModel|
        forall|i: int| 0 <= i < refs.len() ==> (#[trigger] refs[i]).source != source.key
}

proof fn lemma_unused(sources: Seq<SourceModel>, refs: Seq<RefModel>)
    ensures
        unused(sources, refs) == sources.filter(is_elsewhere(refs)),
    decreases sources.len(),
{
    reveal(Seq::filter);
    if sources.len() > 0 {
        lemma_unused(sources.drop_last(), refs);
        assert(is_elsewhere(refs)(sources.last()) == is_unused(refs)(sources.last()));
    }
}

/// The unused sources are all the sources that no reference is to, in their order.
pub proof fn law_unused_sources_are_all_others(sources: Seq<SourceModel>, refs: Seq<RefModel>)
    ensures
        picks(sources, unused(sources, refs), those(is_elsewhere(refs))),
{
    lemma_unused(sources, refs);
    lemma_filter_picks(sources, is_elsewhere(refs));
}

/// The searches at the source of a season, for all the shows that the source has seasons of.
pub open spec fn searches_for(seasons: Seq<Listed>) -> spec_fn(Listed) -> Seq<SearchModel> {
    |season: Listed|
        {
            let wanted = alphabetical(queries(of_source(seasons, season.source.key)));
            Seq::new(
                wanted.len(),
                |k: int| SearchModel { source: season.source, query: wanted[k] },
            )
        }
}

proof fn lemma_season_searches(seasons: Seq<Listed>, some: Seq<Listed>)
    ensures
        season_searches(seasons, some) == some.map_values(searches_for(seasons)).flatten(),
    decreases some.len(),
{
    let parts = some.map_values(searches_for(seasons));
    if some.len() > 0 {
        let source = some.last().source;
        let wanted = alphabetical(queries(of_source(seasons, source.key)));
        lemma_season_searches(seasons, some.drop_last());
        let before = some.drop_last().map_values(searches_for(seasons));
        before.lemma_flatten_push(parts.last());
        assert(parts =~= before.push(parts.last()));
        assert(parts.last() =~= searches_at(source, wanted));
    } else {
        assert(parts =~= Seq::empty());
    }
}

/// More seasons are searched for at the source of every season, for every show that the source has
/// seasons of.
pub proof fn law_every_source_is_searched_for_its_shows(seasons: Seq<Listed>)
    ensures
        season_searches(seasons, seasons) == seasons.map_values(searches_for(seasons)).flatten(),
{
    lemma_season_searches(seasons, seasons);
}

/// The searches at a source for some texts.
pub open spec fn searches_for_all(wanted: Seq<Seq<char>>) -> spec_fn(SourceModel) -> Seq<
    SearchModel,
> {
    |source: SourceModel|
        Seq::new(wanted.len(), |k: int| SearchModel { source, query: wanted[k] })
}

proof fn lemma_backup_searches(sources: Seq<SourceModel>, wanted: Seq<Seq<char>>)
    ensures
        backup_searches(sources, wanted) == sources.map_values(searches_for_all(wanted)).flatten(),
    decreases sources.len(),
{
    let parts = sources.map_values(searches_for_all(wanted));
    if sources.len() > 0 {
        lemma_backup_searches(sources.drop_last(), wanted);
        let before = sources.drop_last().map_values(searches_for_all(wanted));
        before.lemma_flatten_push(parts.last());
        assert(parts =~= before.push(parts.last()));
        assert(parts.last() =~= searches_at(sources.last(), wanted));
    } else {
        assert(parts =~= Seq::empty());
    }
}

/// A backup search asks every source that no reference is to for every show that the seasons belong
/// to, takes their titles for wanted, and knows the references at the start.
pub proof fn law_backup_search_covers_all_other_sources(
    sources: Seq<SourceModel>,
    refs: Seq<RefModel>,
    seasons: Seq<Json>,
)
    ensures
        ({
            let start = backup_start(sources, refs, seasons);
            &&& start.searches == sources.filter(is_elsewhere(refs)).map_values(
                searches_for_all(alphabetical(queries(seasons))),
            ).flatten()
            &&& start.title_keys == title_keys(seasons)
            &&& start.known == refs
            &&& start.at == 0
        }),
{
    lemma_unused(sources, refs);
    lemma_backup_searches(unused(sources, refs), alphabetical(queries(seasons)));
}

/// A fallback search is over every source that no reference is to and every show that the seasons
/// belong to, takes their titles for wanted, and has found nothing at the start.
pub proof fn law_fallback_search_covers_all_other_sources(
    sources: Seq<SourceModel>,
    refs: Seq<RefModel>,
    seasons: Seq<Json>,
)
    ensures
        ({
            let start = fallback_start(sources, refs, seasons);
            &&& start.sources == sources.filter(is_elsewhere(refs))
            &&& start.queries == alphabetical(queries(seasons))
            &&& start.title_keys == title_keys(seasons)
            &&& start.found.len() == 0
            &&& start.at_source == 0 && start.at_query == 0
        }),
{
    lemma_unused(sources, refs);
}

/// Of the items of a reply the first wanted one counts, by its identifier if it has one.
pub proof fn law_first_wanted_item_counts(items: Seq<Json>, keys: Seq<Seq<char>>, w: int)
    ensures
        0 <= w < items.len() && is_wanted(items[w], keys) && (forall|k: int|
            0 <= k < w ==> !is_wanted(#[trigger] items[k], keys)) ==> first_wanted(items, keys)
            == items[w].text_at("id"@),
        (forall|k: int| 0 <= k < items.len() ==> !is_wanted(#[trigger] items[k], keys))
            ==> first_wanted(items, keys) is None,
    decreases items.len(),
{
    if items.len() > 0 && !is_wanted(items[0], keys) {
        let rest = items.skip(1);
        law_first_wanted_item_counts(rest, keys, w - 1);
        if 0 <= w < items.len() && forall|k: int|
            0 <= k < w ==> !is_wanted(#[trigger] items[k], keys) {
            if w > 0 {
                assert(rest[w - 1] == items[w]);
            }
            assert forall|k: int| 0 <= k < w - 1 implies !is_wanted(#[trigger] rest[k], keys) by {
                assert(rest[k] == items[k + 1]);
            }
        }
        if forall|k: int| 0 <= k < items.len() ==> !is_wanted(#[trigger] items[k], keys) {
            assert forall|k: int| 0 <= k < rest.len() implies !is_wanted(
                #[trigger] rest[k],
                keys,
            ) by {
                assert(rest[k] == items[k + 1]);
            }
        }
    } else if items.len() > 0 {
        assert(is_wanted(items[0], keys));
    }
}

/// What the reply of a source to a search counts for.
pub open spec fn hit(
    search: FallbackModel,
    source: SourceModel,
    k: int,
    answers: spec_fn(SearchModel) -> Option<Json>,
) -> Option<Seq<char>> {
    first_wanted(
        reply_items(answers(SearchModel { source, query: search.queries[k] })),
        search.title_keys,
    )
}

/// A source yields the first hit among its replies, or nothing where there is none.
pub open spec fn yields(
    search: FallbackModel,
    source: SourceModel,
    answers: spec_fn(SearchModel) -> Option<Json>,
    part: Seq<RefModel>,
) -> bool {
    if part.len() == 0 {
        forall|k: int|
            0 <= k < search.queries.len() ==> #[trigger] hit(search, source, k, answers) is None
    } else {
        part.len() == 1 && part[0].source == source.key && exists|k: int|
            0 <= k < search.queries.len() && #[trigger] hit(search, source, k, answers) == Some(
                part[0].id,
            ) && forall|m: int| 0 <= m < k ==> #[trigger] hit(search, source, m, answers) is None
    }
}

proof fn lemma_yields(
    search: FallbackModel,
    source: SourceModel,
    k: int,
    answers: spec_fn(SearchModel) -> Option<Json>,
)
    requires
        0 <= k <= search.queries.len(),
        forall|m: int| 0 <= m < k ==> #[trigger] hit(search, source, m, answers) is None,
    ensures
        yields(search, source, answers, found_at(search, source, k, answers)),
    decreases search.queries.len() - k,
{
    if k < search.queries.len() {
        if hit(search, source, k, answers) is None {
            lemma_yields(search, source, k + 1, answers);
        }
    }
}

spec fn yield_parts(
    search: FallbackModel,
    i: int,
    answers: spec_fn(SearchModel) -> Option<Json>,
) -> Seq<Seq<RefModel>> {
    Seq::new(
        (search.sources.len() - i) as nat,
        |s: int| found_at(search, search.sources[i + s], 0, answers),
    )
}

proof fn lemma_yield_parts(
    search: FallbackModel,
    i: int,
    answers: spec_fn(SearchModel) -> Option<Json>,
)
    requires
        0 <= i <= search.sources.len(),
    ensures
        found_from(search, i, answers) == yield_parts(search, i, answers).flatten(),
    decreases search.sources.len() - i,
{
    let parts = yield_parts(search, i, answers);
    if i < search.sources.len() {
        lemma_yield_parts(search, i + 1, answers);
        assert(parts.drop_first() =~= yield_parts(search, i + 1, answers));
    } else {
        assert(parts =~= Seq::empty());
    }
}

/// Every source has yielded what it yields.
pub open spec fn all_yield(
    search: FallbackModel,
    answers: spec_fn(SearchModel) -> Option<Json>,
    parts: Seq<Seq<RefModel>>,
) -> bool {
    parts.len() == search.sources.len() && forall|s: int|
        0 <= s < parts.len() ==> yields(search, search.sources[s], answers, #[trigger] parts[s])
}

/// A fallback search in the end has one reference for each source that has the show, the one of the
/// first hit there, in the order of the sources.
pub proof fn law_fallback_finds_the_first_hit_of_each_source(
    sources: Seq<SourceModel>,
    refs: Seq<RefModel>,
    seasons: Seq<Json>,
    answers: spec_fn(SearchModel) -> Option<Json>,
)
    ensures
        exists|parts: Seq<Seq<RefModel>>| #[trigger]
            all_yield(fallback_start(sources, refs, seasons), answers, parts) && fallback_outcome(
                fallback_start(sources, refs, seasons),
                answers,
            ) == parts.flatten(),
{
    let start = fallback_start(sources, refs, seasons);
    law_fallback_search_is_complete(sources, refs, seasons, answers);
    lemma_yield_parts(start, 0, answers);
    let parts = yield_parts(start, 0, answers);
    assert forall|s: int| 0 <= s < parts.len() implies yields(
        start,
        start.sources[s],
        answers,
        #[trigger] parts[s],
    ) by {
        lemma_yields(start, start.sources[s], 0, answers);
    }
    assert(all_yield(start, answers, parts));
}

/// What a fallback search found is taken where it found something, and else the references stay.
pub proof fn law_fallback_needs_a_find(found: Seq<RefModel>, refs: Seq<RefModel>)
    ensures
        found.len() > 0 ==> found_or(found, refs) == found,
        found.len() == 0 ==> found_or(found, refs) == refs,
{
}

/// What is added stands in the order of the items of the reply.
pub open spec fn added_at(
    known: Seq<RefModel>,
    all: Seq<RefModel>,
    items: Seq<Json>,
    source: Seq<char>,
    keys: Seq<Seq<char>>,
    at: Seq<int>,
) -> bool {
    &&& all.len() == known.len() + at.len()
    &&& forall|k: int, l: int| 0 <= k < l < at.len() ==> #[trigger] at[k] < #[trigger] at[l]
    &&& forall|k: int|
        0 <= k < at.len() ==> 0 <= #[trigger] at[k] < items.len() && is_wanted(items[at[k]], keys)
            && all[known.len() + k].source == source && items[at[k]].text_at("id"@) == Some(
            all[known.len() + k].id,
        )
}

/// References are added in the order of the items of a reply.
pub proof fn law_items_are_added_in_order(
    known: Seq<RefModel>,
    items: Seq<Json>,
    source: Seq<char>,
    keys: Seq<Seq<char>>,
)
    ensures
        exists|at: Seq<int>| #[trigger]
            added_at(known, extended(known, items, source, keys), items, source, keys, at),
{
    let at = lemma_items_added(known, items, source, keys);
}

proof fn lemma_items_added(
    known: Seq<RefModel>,
    items: Seq<Json>,
    source: Seq<char>,
    keys: Seq<Seq<char>>,
) -> (at: Seq<int>)
    ensures
        added_at(known, extended(known, items, source, keys), items, source, keys, at),
    decreases items.len(),
{
    if items.len() == 0 {
        Seq::empty()
    } else {
        let shorter = items.drop_last();
        let before = extended(known, shorter, source, keys);
        let all = extended(known, items, source, keys);
        let old = lemma_items_added(known, shorter, source, keys);
        let at = if all.len() > before.len() {
            old.push(items.len() - 1)
        } else {
            old
        };
        assert forall|k: int| 0 <= k < at.len() implies 0 <= #[trigger] at[k] < items.len()
            && is_wanted(items[at[k]], keys) && all[known.len() + k].source == source
            && items[at[k]].text_at("id"@) == Some(all[known.len() + k].id) by {
            if k < old.len() {
                assert(at[k] == old[k]);
                assert(shorter[old[k]] == items[old[k]]);
                assert(all[known.len() + k] == before[known.len() + k]);
            }
        }
        assert forall|k: int, l: int| 0 <= k < l < at.len() implies #[trigger] at[k]
            < #[trigger] at[l] by {
            assert(at[k] == old[k]);
            if l < old.len() {
                assert(at[l] == old[l]);
            }
        }
        at
    }
}

/// The answers are taken one after the other: what the first of them add stands in front.
pub proof fn law_answers_are_taken_by_turns(
    refs: Seq<RefModel>,
    seasons: Seq<Listed>,
    answers: Seq<AnswerModel>,
    k: int,
)
    requires
        0 <= k <= answers.len(),
    ensures
        with_answers(refs, seasons, answers.take(k)).is_prefix_of(
            with_answers(refs, seasons, answers),
        ),
    decreases answers.len(),
{
    let all = with_answers(refs, seasons, answers);
    if k == answers.len() {
        assert(answers.take(k) =~= answers);
        assert(all.subrange(0, all.len() as int) =~= all);
    } else {
        let shorter = answers.drop_last();
        let source = answers.last().search.source.key;
        let before = with_answers(refs, seasons, shorter);
        let first = with_answers(refs, seasons, answers.take(k));
        assert(shorter.take(k) =~= answers.take(k));
        law_answers_are_taken_by_turns(refs, seasons, shorter, k);
        law_extending_adds_wanted_items(
            before,
            reply_items(answers.last().reply),
            source,
            title_keys(of_source(seasons, source)),
        );
        assert(all.subrange(0, first.len() as int) =~= all.take(before.len() as int).subrange(
            0,
            first.len() as int,
        ));
    }
}

} // verus!
