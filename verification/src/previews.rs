//! Lists split seasons as one show: groups the shows that catalogues list by source and title.

use crate::json::{
    int_field, integer_or_null, lemma_models_push, models, option_int, string_field,
    string_or_empty, Json, Object, Value,
};
use crate::models::{ref_models, AnimePreview, RefModel, Source, SourceModel, SourceRef};
use crate::ordering::{
    key_before, law_sorting_keeps_items, law_sorting_orders, lemma_multiset_push,
    lemma_sorted_positions, placed, sorted_by, sorted_positions, KeyModel, SortKey,
};
use crate::refs::{encode_refs, encoded};
use crate::seasons::{number_or_first, title_number_or_first};
use crate::text::same_text;
use crate::titles::{
    base_show_title, normalize_title_key, season_number, season_number_of, show_title, title_key,
};
use vstd::multiset::Multiset;
use vstd::prelude::*;

verus! {

/// A show that a source lists.
pub struct Listed {
    pub source: SourceModel,
    pub item: Json,
}

/// What a sequence of shows with their sources holds.
pub open spec fn listed(items: Seq<(Source, Value)>) -> Seq<Listed> {
    items.map_values(|entry: (Source, Value)| Listed { source: entry.0@, item: entry.1@ })
}

/// What the seasons of one show at one source have in common.
pub struct GroupKey {
    pub source: Seq<char>,
    pub title: Seq<char>,
}

/// The group that a listed show belongs to, if it has a title.
pub open spec fn group_key(entry: Listed) -> Option<GroupKey> {
    match entry.item.text_at("title"@) {
        Some(title) => Some(GroupKey { source: entry.source.key, title: title_key(title) }),
        None => None,
    }
}

/// The groups of some listed shows, in the order in which they first occur.
pub open spec fn group_keys(items: Seq<Listed>) -> Seq<GroupKey>
    decreases items.len(),
{
    if items.len() == 0 {
        Seq::empty()
    } else {
        let before = group_keys(items.drop_last());
        match group_key(items.last()) {
            Some(key) => if before.contains(key) {
                before
            } else {
                before.push(key)
            },
            None => before,
        }
    }
}

/// Picks the shows of a group.
pub open spec fn in_group(key: GroupKey) -> spec_fn(Listed) -> bool {
    |entry: Listed| group_key(entry) == Some(key)
}

/// The shows of a group, in the order in which they are listed.
pub open spec fn group(items: Seq<Listed>, key: GroupKey) -> Seq<Listed> {
    items.filter(in_group(key))
}

/// What the shows of a group are sorted by: the season number, the year, the title.
pub open spec fn preview_key(item: Json) -> KeyModel {
    let title = item.text_or_empty("title"@);
    KeyModel {
        major: number_or_first(title),
        minor: match item.integer_at("year"@) {
            Some(year) => year as int,
            None => 0,
        },
        text: title,
        last: 0,
    }
}

/// The sort key as a function.
pub open spec fn by_preview() -> spec_fn(Listed) -> KeyModel {
    |entry: Listed| preview_key(entry.item)
}

/// References to the shows that have an identifier.
pub open spec fn refs_of(entries: Seq<Listed>) -> Seq<RefModel>
    decreases entries.len(),
{
    if entries.len() == 0 {
        Seq::empty()
    } else {
        let before = refs_of(entries.drop_last());
        match entries.last().item.text_at("id"@) {
            Some(id) => before.push(RefModel { source: entries.last().source.key, id }),
            None => before,
        }
    }
}

/// How a show lists one of its seasons.
pub open spec fn season_entry(id: Seq<char>, title: Seq<char>, entry: Listed) -> Json {
    Json::Fields(
        Map::empty().insert("id"@, Json::Text(id)).insert("title"@, Json::Text(title)).insert(
            "season_number"@,
            integer_or_null(season_number(title)),
        ).insert("year"@, integer_or_null(entry.item.integer_at("year"@))).insert(
            "episode_count"@,
            Json::Null,
        ).insert("source"@, Json::Text(entry.source.key)),
    )
}

/// How a show lists its seasons, those that have a title and an identifier.
pub open spec fn season_entries(entries: Seq<Listed>) -> Seq<Json>
    decreases entries.len(),
{
    if entries.len() == 0 {
        Seq::empty()
    } else {
        let before = season_entries(entries.drop_last());
        let item = entries.last().item;
        match (item.text_at("id"@), item.text_at("title"@)) {
            (Some(id), Some(title)) => before.push(season_entry(id, title, entries.last())),
            _ => before,
        }
    }
}

/// The show that a group stands for: what its first season says, with the references to all of
/// them for an identifier.
pub open spec fn show_of(members: Seq<Listed>) -> Json {
    let ordered = sorted_by(members, by_preview());
    let primary = ordered[0];
    Json::Fields(
        (primary.item->Fields_0).insert("id"@, Json::Text(encoded(refs_of(ordered)))).insert(
            "title"@,
            Json::Text(show_title(primary.item.text_or_empty("title"@))),
        ).insert("season_entries"@, Json::List(season_entries(ordered))).insert(
            "external_source"@,
            Json::Text(primary.source.key),
        ),
    )
}

/// One show for each group.
pub open spec fn centralized(items: Seq<Listed>) -> Seq<Json> {
    shows(items, group_keys(items))
}

/// The shows of some groups.
pub open spec fn shows(items: Seq<Listed>, keys: Seq<GroupKey>) -> Seq<Json> {
    keys.map_values(|key: GroupKey| show_of(group(items, key)))
}

fn preview_sort_key(item: &Value) -> (key: SortKey)
    ensures
        key@ == preview_key(item@),
{
    let title = string_or_empty(item, "title");
    SortKey {
        major: title_number_or_first(title),
        minor: match int_field(item, "year") {
            Some(year) => year,
            None => 0,
        },
        text: title.to_owned(),
        last: 0,
    }
}

/// Sorts the shows of a group.
fn sorted_group(members: &Vec<(Source, Value)>) -> (ordered: Vec<(Source, Value)>)
    ensures
        listed(ordered@) == sorted_by(listed(members@), by_preview()),
        ordered@.len() == members@.len(),
{
    let ghost entries = listed(members@);
    let mut keys: Vec<SortKey> = Vec::new();
    let mut i: usize = 0;
    while i < members.len()
        invariant
            entries == listed(members@),
            i <= members@.len(),
            keys@.len() == i,
            forall|k: int| 0 <= k < i ==> (#[trigger] keys@[k])@ == preview_key(entries[k].item),
        decreases members@.len() - i,
    {
        let key = preview_sort_key(&members[i].1);
        keys.push(key);
        i = i + 1;
    }
    let ghost key = |k: usize| by_preview()(entries[k as int]);
    let order = sorted_positions(&keys, Ghost(key));
    let mut ordered: Vec<(Source, Value)> = Vec::new();
    let mut k: usize = 0;
    while k < order.len()
        invariant
            entries == listed(members@),
            k <= order@.len(),
            ordered@.len() == k,
            forall|j: int| 0 <= j < order@.len() ==> #[trigger] order@[j] < members@.len(),
            forall|j: int|
                0 <= j < k ==> #[trigger] listed(ordered@)[j] == entries[order@[j] as int],
        decreases order@.len() - k,
    {
        let at = order[k];
        let ghost before = ordered@;
        ordered.push((members[at].0.clone(), members[at].1.clone()));
        assert(listed(ordered@).drop_last() =~= listed(before));
        assert forall|j: int| 0 <= j < k + 1 implies #[trigger] listed(ordered@)[j]
            == entries[order@[j] as int] by {
            if j < k {
                assert(listed(ordered@)[j] == listed(before)[j]);
            }
        }
        k = k + 1;
    }
    proof {
        lemma_sorted_positions(entries, by_preview());
        assert(listed(ordered@) =~= order@.map_values(|i: usize| entries[i as int]));
    }
    ordered
}

/// References to the shows that have an identifier.
fn collect_refs(entries: &Vec<(Source, Value)>) -> (refs: Vec<SourceRef>)
    ensures
        ref_models(refs@) == refs_of(listed(entries@)),
{
    let ghost all = listed(entries@);
    let mut refs: Vec<SourceRef> = Vec::new();
    let mut i: usize = 0;
    assert(ref_models(refs@) =~= refs_of(all.take(0)));
    while i < entries.len()
        invariant
            all == listed(entries@),
            i <= entries@.len(),
            ref_models(refs@) == refs_of(all.take(i as int)),
        decreases entries@.len() - i,
    {
        assert(all.take(i + 1).drop_last() =~= all.take(i as int));
        if let Some(id) = string_field(&entries[i].1, "id") {
            let ghost before = refs@;
            let reference = SourceRef { source: entries[i].0.key.clone(), id: id.to_owned() };
            refs.push(reference);
            assert(ref_models(refs@) =~= ref_models(before).push(reference@));
        }
        i = i + 1;
    }
    assert(all.take(i as int) =~= all);
    refs
}

/// Lists the seasons of a show.
fn collect_entries(entries: &Vec<(Source, Value)>) -> (items: Vec<Value>)
    ensures
        models(items@) == season_entries(listed(entries@)),
{
    let ghost all = listed(entries@);
    let mut items: Vec<Value> = Vec::new();
    let mut i: usize = 0;
    while i < entries.len()
        invariant
            all == listed(entries@),
            i <= entries@.len(),
            models(items@) == season_entries(all.take(i as int)),
        decreases entries@.len() - i,
    {
        assert(all.take(i + 1).drop_last() =~= all.take(i as int));
        let item = &entries[i].1;
        if let Some(title) = string_field(item, "title") {
            if let Some(id) = string_field(item, "id") {
                let mut fields = Object::new();
                fields.insert("id", Value::from_text(id));
                fields.insert("title", Value::from_text(title));
                fields.insert("season_number", option_int(season_number_of(title)));
                fields.insert("year", option_int(int_field(item, "year")));
                fields.insert("episode_count", Value::Null);
                fields.insert("source", Value::from_text(entries[i].0.key.as_str()));
                proof {
                    lemma_models_push(items@, Value::Object(fields));
                }
                items.push(Value::Object(fields));
            }
        }
        i = i + 1;
    }
    assert(all.take(i as int) =~= all);
    items
}

/// Makes the show that a group stands for.
fn make_show(members: &Vec<(Source, Value)>) -> (show: Value)
    requires
        members@.len() > 0,
        forall|i: int| 0 <= i < members@.len() ==> (#[trigger] listed(members@)[i]).item is Fields,
    ensures
        show@ == show_of(listed(members@)),
{
    let ordered = sorted_group(members);
    proof {
        law_sorting_keeps_items(listed(members@), by_preview());
        let sorted = listed(ordered@);
        assert(sorted.contains(sorted[0]));
        let i = choose|i: int| 0 <= i < members@.len() && listed(members@)[i] == sorted[0];
        assert(sorted[0].item is Fields);
    }
    let refs = collect_refs(&ordered);
    let title = base_show_title(string_or_empty(&ordered[0].1, "title"));
    let mut output = ordered[0].1.as_object().unwrap().clone();
    output.insert("id", Value::String(encode_refs(refs.as_slice())));
    output.insert("title", Value::String(title));
    output.insert("season_entries", Value::Array(collect_entries(&ordered)));
    output.insert("external_source", Value::from_text(ordered[0].0.key.as_str()));
    Value::Object(output)
}

/// What a pair of a source key and a title key stands for.
spec fn pair_key(pair: (String, String)) -> GroupKey {
    GroupKey { source: pair.0@, title: pair.1@ }
}

spec fn pair_keys(pairs: Seq<(String, String)>) -> Seq<GroupKey> {
    pairs.map_values(|pair: (String, String)| pair_key(pair))
}

/// The group that a listed show belongs to.
fn key_of(entry: &(Source, Value)) -> (key: Option<(String, String)>)
    ensures
        (match key {
            Some(pair) => Some(pair_key(pair)),
            None => None,
        }) == group_key(Listed { source: entry.0@, item: entry.1@ }),
{
    match string_field(&entry.1, "title") {
        Some(title) => Some((entry.0.key.clone(), normalize_title_key(title))),
        None => None,
    }
}

fn same_pair(a: &(String, String), b: &(String, String)) -> (same: bool)
    ensures
        same == (pair_key(*a) == pair_key(*b)),
{
    same_text(a.0.as_str(), b.0.as_str()) && same_text(a.1.as_str(), b.1.as_str())
}

fn contains_pair(pairs: &Vec<(String, String)>, pair: &(String, String)) -> (yes: bool)
    ensures
        yes == pair_keys(pairs@).contains(pair_key(*pair)),
{
    let mut i: usize = 0;
    while i < pairs.len()
        invariant
            i <= pairs@.len(),
            forall|j: int| 0 <= j < i ==> pair_key(#[trigger] pairs@[j]) != pair_key(*pair),
        decreases pairs@.len() - i,
    {
        if same_pair(&pairs[i], pair) {
            assert(pair_keys(pairs@)[i as int] == pair_key(*pair));
            return true;
        }
        i = i + 1;
    }
    proof {
        if pair_keys(pairs@).contains(pair_key(*pair)) {
            let j = choose|j: int|
                0 <= j < pair_keys(pairs@).len() && pair_keys(pairs@)[j] == pair_key(*pair);
            assert(pair_key(pairs@[j]) == pair_key(*pair));
        }
    }
    false
}

/// What the keys of listed shows hold.
spec fn held_keys(keys: Seq<Option<(String, String)>>) -> Seq<Option<GroupKey>> {
    keys.map_values(
        |key: Option<(String, String)>|
            match key {
                Some(pair) => Some(pair_key(pair)),
                None => None,
            },
    )
}

/// Picks the shows of a group out.
fn collect_group(
    items: &[(Source, Value)],
    keys: &Vec<Option<(String, String)>>,
    wanted: &(String, String),
) -> (members: Vec<(Source, Value)>)
    requires
        keys@.len() == items@.len(),
        forall|i: int|
            0 <= i < items@.len() ==> #[trigger] held_keys(keys@)[i] == group_key(
                listed(items@)[i],
            ),
    ensures
        listed(members@) == group(listed(items@), pair_key(*wanted)),
{
    let ghost all = listed(items@);
    let ghost picks = in_group(pair_key(*wanted));
    let mut members: Vec<(Source, Value)> = Vec::new();
    let mut i: usize = 0;
    proof {
        reveal(Seq::filter);
        assert(listed(members@) =~= all.take(0).filter(picks));
    }
    while i < items.len()
        invariant
            all == listed(items@),
            picks == in_group(pair_key(*wanted)),
            keys@.len() == items@.len(),
            i <= items@.len(),
            forall|k: int|
                0 <= k < items@.len() ==> #[trigger] held_keys(keys@)[k] == group_key(all[k]),
            listed(members@) == all.take(i as int).filter(picks),
        decreases items@.len() - i,
    {
        proof {
            reveal(Seq::filter);
            assert(all.take(i + 1).drop_last() =~= all.take(i as int));
            assert(held_keys(keys@)[i as int] == group_key(all[i as int]));
        }
        if let Some(pair) = &keys[i] {
            if same_pair(pair, wanted) {
                let ghost before = members@;
                members.push((items[i].0.clone(), items[i].1.clone()));
                assert(listed(members@) =~= listed(before).push(all[i as int]));
            }
        }
        i = i + 1;
    }
    assert(all.take(i as int) =~= all);
    members
}

/// Every show of a group has its key, and every show with the key is in the group.
proof fn lemma_group(items: Seq<Listed>, key: GroupKey)
    ensures
        forall|i: int|
            0 <= i < group(items, key).len() ==> group_key(#[trigger] group(items, key)[i]) == Some(
                key,
            ) && items.contains(group(items, key)[i]),
        forall|i: int|
            0 <= i < items.len() && group_key(items[i]) == Some(key) ==> group(
                items,
                key,
            ).contains(#[trigger] items[i]),
{
    let picks = in_group(key);
    assert forall|i: int| 0 <= i < group(items, key).len() implies group_key(
        #[trigger] group(items, key)[i],
    ) == Some(key) && items.contains(group(items, key)[i]) by {
        items.lemma_filter_pred(picks, i);
        items.lemma_filter_contains_rev(picks, group(items, key)[i]);
    }
    assert forall|i: int| 0 <= i < items.len() && group_key(items[i]) == Some(key) implies group(
        items,
        key,
    ).contains(#[trigger] items[i]) by {
        items.lemma_filter_contains(picks, i);
    }
}

/// Presents the seasons that each source lists as separate shows as one show. The shows stand in
/// the order in which their first season is listed.
pub fn centralize_source_previews(items: &[(Source, AnimePreview)]) -> (previews: Vec<AnimePreview>)
    ensures
        models(previews@) == centralized(listed(items@)),
{
    let ghost all = listed(items@);
    let mut keys: Vec<Option<(String, String)>> = Vec::new();
    let mut i: usize = 0;
    while i < items.len()
        invariant
            all == listed(items@),
            i <= items@.len(),
            keys@.len() == i,
            forall|k: int| 0 <= k < i ==> #[trigger] held_keys(keys@)[k] == group_key(all[k]),
        decreases items@.len() - i,
    {
        let ghost before = keys@;
        keys.push(key_of(&items[i]));
        assert forall|k: int| 0 <= k < i + 1 implies #[trigger] held_keys(keys@)[k] == group_key(
            all[k],
        ) by {
            if k < i {
                assert(held_keys(keys@)[k] == held_keys(before)[k]);
            }
        }
        i = i + 1;
    }
    let mut seen: Vec<(String, String)> = Vec::new();
    let mut previews: Vec<Value> = Vec::new();
    let mut k: usize = 0;
    assert(pair_keys(seen@) =~= group_keys(all.take(0)));
    assert(models(previews@) =~= shows(all, pair_keys(seen@)));
    while k < items.len()
        invariant
            all == listed(items@),
            k <= items@.len(),
            keys@.len() == items@.len(),
            forall|k: int|
                0 <= k < items@.len() ==> #[trigger] held_keys(keys@)[k] == group_key(all[k]),
            pair_keys(seen@) == group_keys(all.take(k as int)),
            models(previews@) == shows(all, pair_keys(seen@)),
        decreases items@.len() - k,
    {
        proof {
            assert(all.take(k + 1).drop_last() =~= all.take(k as int));
            assert(held_keys(keys@)[k as int] == group_key(all[k as int]));
        }
        if let Some(pair) = &keys[k] {
            if !contains_pair(&seen, pair) {
                let members = collect_group(items, &keys, pair);
                proof {
                    lemma_group(all, pair_key(*pair));
                    assert(listed(members@).contains(all[k as int]));
                    assert(listed(members@).len() > 0);
                }
                let show = make_show(&members);
                proof {
                    lemma_models_push(previews@, show);
                }
                previews.push(show);
                let ghost before = seen@;
                seen.push((pair.0.clone(), pair.1.clone()));
                proof {
                    assert(pair_keys(seen@) =~= pair_keys(before).push(pair_key(*pair)));
                    assert(shows(all, pair_keys(seen@)) =~= shows(all, pair_keys(before)).push(
                        show@,
                    ));
                }
            }
        }
        k = k + 1;
    }
    assert(all.take(k as int) =~= all);
    previews
}

/// The seasons of a group in the order in which the show lists them.
pub open spec fn ordered_group(items: Seq<Listed>, key: GroupKey) -> Seq<Listed> {
    sorted_by(group(items, key), by_preview())
}

/// Every show stands for a group of its own, and every group has a season.
pub proof fn law_groups_are_distinct(items: Seq<Listed>)
    ensures
        centralized(items).len() == group_keys(items).len(),
        group_keys(items).no_duplicates(),
        forall|i: int|
            0 <= i < group_keys(items).len() ==> group(
                items,
                #[trigger] group_keys(items)[i],
            ).len() > 0,
{
    lemma_group_keys(items);
    assert forall|i: int| 0 <= i < group_keys(items).len() implies group(
        items,
        #[trigger] group_keys(items)[i],
    ).len() > 0 by {
        let key = group_keys(items)[i];
        let k = choose|k: int|
            0 <= k < items.len() && group_key(#[trigger] items[k]) == Some(key);
        lemma_group(items, key);
        assert(group(items, key).contains(items[k]));
    }
}

proof fn lemma_group_keys(items: Seq<Listed>)
    ensures
        group_keys(items).no_duplicates(),
        forall|i: int|
            0 <= i < items.len() && group_key(#[trigger] items[i]) is Some ==> group_keys(
                items,
            ).contains(group_key(items[i])->0),
        forall|i: int|
            0 <= i < group_keys(items).len() ==> exists|k: int|
                0 <= k < items.len() && group_key(#[trigger] items[k]) == Some(
                    #[trigger] group_keys(items)[i],
                ),
    decreases items.len(),
{
    if items.len() > 0 {
        let shorter = items.drop_last();
        let before = group_keys(shorter);
        let all = group_keys(items);
        lemma_group_keys(shorter);
        assert forall|i: int|
            0 <= i < items.len() && group_key(#[trigger] items[i]) is Some implies all.contains(
            group_key(items[i])->0,
        ) by {
            let key = group_key(items[i])->0;
            if i < items.len() - 1 {
                assert(shorter[i] == items[i]);
                let k = choose|k: int| 0 <= k < before.len() && before[k] == key;
                assert(all[k] == key);
            } else if !before.contains(key) {
                assert(all[before.len() as int] == key);
            }
        }
        assert forall|i: int| 0 <= i < all.len() implies exists|k: int|
            0 <= k < items.len() && group_key(#[trigger] items[k]) == Some(#[trigger] all[i]) by {
            if i < before.len() {
                assert(before[i] == all[i]);
                let k = choose|k: int|
                    0 <= k < shorter.len() && group_key(#[trigger] shorter[k]) == Some(before[i]);
                assert(group_key(items[k]) == Some(all[i]));
            } else {
                assert(group_key(items[items.len() - 1]) == Some(all[i]));
            }
        }
    }
}

proof fn lemma_refs_of(entries: Seq<Listed>, i: int)
    requires
        0 <= i < entries.len(),
        entries[i].item.text_at("id"@) is Some,
    ensures
        refs_of(entries).contains(
            RefModel { source: entries[i].source.key, id: entries[i].item.text_at("id"@)->0 },
        ),
    decreases entries.len(),
{
    let wanted = RefModel { source: entries[i].source.key, id: entries[i].item.text_at("id"@)->0 };
    let before = refs_of(entries.drop_last());
    if i < entries.len() - 1 {
        lemma_refs_of(entries.drop_last(), i);
        let k = choose|k: int| 0 <= k < before.len() && before[k] == wanted;
        assert(refs_of(entries)[k] == wanted);
    } else {
        assert(refs_of(entries)[before.len() as int] == wanted);
    }
}

proof fn lemma_season_entries(entries: Seq<Listed>, i: int)
    requires
        0 <= i < entries.len(),
        entries[i].item.text_at("id"@) is Some,
        entries[i].item.text_at("title"@) is Some,
    ensures
        season_entries(entries).contains(
            season_entry(
                entries[i].item.text_at("id"@)->0,
                entries[i].item.text_at("title"@)->0,
                entries[i],
            ),
        ),
    decreases entries.len(),
{
    let wanted = season_entry(
        entries[i].item.text_at("id"@)->0,
        entries[i].item.text_at("title"@)->0,
        entries[i],
    );
    let before = season_entries(entries.drop_last());
    if i < entries.len() - 1 {
        lemma_season_entries(entries.drop_last(), i);
        let k = choose|k: int| 0 <= k < before.len() && before[k] == wanted;
        assert(season_entries(entries)[k] == wanted);
    } else {
        assert(season_entries(entries)[before.len() as int] == wanted);
    }
}

/// Every listed show that has a title is in a group, and where it has an identifier too, the show
/// of that group refers to it and lists it.
pub proof fn law_seasons_are_attached(items: Seq<Listed>, i: int)
    requires
        0 <= i < items.len(),
        items[i].item.text_at("title"@) is Some,
    ensures
        group_keys(items).contains(group_key(items[i])->0),
        items[i].item.text_at("id"@) matches Some(id) ==> {
            let ordered = ordered_group(items, group_key(items[i])->0);
            &&& refs_of(ordered).contains(RefModel { source: items[i].source.key, id })
            &&& season_entries(ordered).contains(
                season_entry(id, items[i].item.text_at("title"@)->0, items[i]),
            )
        },
{
    let key = group_key(items[i])->0;
    lemma_group_keys(items);
    lemma_group(items, key);
    law_sorting_keeps_items(group(items, key), by_preview());
    let ordered = ordered_group(items, key);
    assert(group(items, key).contains(items[i]));
    assert(ordered.contains(items[i]));
    let k = choose|k: int| 0 <= k < ordered.len() && ordered[k] == items[i];
    if items[i].item.text_at("id"@) is Some {
        lemma_refs_of(ordered, k);
        lemma_season_entries(ordered, k);
    }
}

proof fn lemma_refs_from(entries: Seq<Listed>, i: int)
    requires
        0 <= i < refs_of(entries).len(),
    ensures
        exists|k: int|
            0 <= k < entries.len() && (#[trigger] entries[k]).source.key == refs_of(
                entries,
            )[i].source && entries[k].item.text_at("id"@) == Some(refs_of(entries)[i].id),
    decreases entries.len(),
{
    let shorter = entries.drop_last();
    let before = refs_of(shorter);
    if i < before.len() {
        lemma_refs_from(shorter, i);
        let k = choose|k: int|
            0 <= k < shorter.len() && (#[trigger] shorter[k]).source.key == before[i].source
                && shorter[k].item.text_at("id"@) == Some(before[i].id);
        assert(entries[k] == shorter[k]);
    } else {
        assert(entries[entries.len() - 1].item.text_at("id"@) == Some(refs_of(entries)[i].id));
    }
}

/// A show refers to seasons of its own source and title alone.
pub proof fn law_sources_stay_apart(items: Seq<Listed>, key: GroupKey, i: int)
    requires
        0 <= i < refs_of(ordered_group(items, key)).len(),
    ensures
        refs_of(ordered_group(items, key))[i].source == key.source,
        exists|k: int|
            0 <= k < items.len() && group_key(#[trigger] items[k]) == Some(key)
                && items[k].item.text_at("id"@) == Some(refs_of(ordered_group(items, key))[i].id),
{
    let ordered = ordered_group(items, key);
    lemma_refs_from(ordered, i);
    let k = choose|k: int|
        0 <= k < ordered.len() && (#[trigger] ordered[k]).source.key == refs_of(ordered)[i].source
            && ordered[k].item.text_at("id"@) == Some(refs_of(ordered)[i].id);
    law_sorting_keeps_items(group(items, key), by_preview());
    assert(ordered.contains(ordered[k]));
    lemma_group(items, key);
    let members = group(items, key);
    let m = choose|m: int| 0 <= m < members.len() && members[m] == ordered[k];
    assert(group_key(members[m]) == Some(key));
    let j = choose|j: int| 0 <= j < items.len() && items[j] == members[m];
    assert(group_key(items[j]) == Some(key));
}

/// A show lists its seasons by their numbers.
pub proof fn law_seasons_are_listed_by_number(items: Seq<Listed>, key: GroupKey, i: int, j: int)
    requires
        0 <= i < j < ordered_group(items, key).len(),
    ensures
        number_or_first(ordered_group(items, key)[i].item.text_or_empty("title"@))
            <= number_or_first(ordered_group(items, key)[j].item.text_or_empty("title"@)),
{
    let ordered = ordered_group(items, key);
    law_sorting_orders(group(items, key), by_preview());
    assert(!key_before(by_preview()(ordered[j]), by_preview()(ordered[i])));
}

/// What the shows of some groups list as their seasons, one show after the other.
pub open spec fn entries_of_groups(items: Seq<Listed>, keys: Seq<GroupKey>) -> Seq<Json>
    decreases keys.len(),
{
    if keys.len() == 0 {
        Seq::empty()
    } else {
        entries_of_groups(items, keys.drop_last()) + season_entries(
            ordered_group(items, keys.last()),
        )
    }
}

/// What the shows of some groups refer to, one show after the other.
pub open spec fn refs_of_groups(items: Seq<Listed>, keys: Seq<GroupKey>) -> Seq<RefModel>
    decreases keys.len(),
{
    if keys.len() == 0 {
        Seq::empty()
    } else {
        refs_of_groups(items, keys.drop_last()) + refs_of(ordered_group(items, keys.last()))
    }
}

/// The listed shows that have a title.
pub open spec fn titled(items: Seq<Listed>) -> Seq<Listed> {
    items.filter(|entry: Listed| group_key(entry) is Some)
}

/// What is picked out of listed shows, in their order.
spec fn picked<T>(entries: Seq<Listed>, pick: spec_fn(Listed) -> Option<T>) -> Seq<T>
    decreases entries.len(),
{
    if entries.len() == 0 {
        Seq::empty()
    } else {
        let before = picked(entries.drop_last(), pick);
        match pick(entries.last()) {
            Some(value) => before.push(value),
            None => before,
        }
    }
}

/// Picks how a season is listed.
spec fn entry_pick() -> spec_fn(Listed) -> Option<Json> {
    |entry: Listed|
        match (entry.item.text_at("id"@), entry.item.text_at("title"@)) {
            (Some(id), Some(title)) => Some(season_entry(id, title, entry)),
            _ => None,
        }
}

/// Picks the reference to a season that has a title.
spec fn ref_pick() -> spec_fn(Listed) -> Option<RefModel> {
    |entry: Listed|
        match (entry.item.text_at("id"@), entry.item.text_at("title"@)) {
            (Some(id), Some(_)) => Some(RefModel { source: entry.source.key, id }),
            _ => None,
        }
}

/// A value at most, as a multiset.
spec fn one<T>(value: Option<T>) -> Multiset<T> {
    match value {
        Some(v) => Multiset::empty().insert(v),
        None => Multiset::empty(),
    }
}

proof fn lemma_picked_last<T>(entries: Seq<Listed>, pick: spec_fn(Listed) -> Option<T>)
    requires
        entries.len() > 0,
    ensures
        picked(entries, pick).to_multiset() == picked(entries.drop_last(), pick).to_multiset().add(
            one(pick(entries.last())),
        ),
{
    let before = picked(entries.drop_last(), pick);
    if let Some(value) = pick(entries.last()) {
        lemma_multiset_push(before, value);
        assert(before.to_multiset().insert(value) =~= before.to_multiset().add(
            one(Some(value)),
        ));
    } else {
        assert(before.to_multiset() =~= before.to_multiset().add(one(None::<T>)));
    }
}

proof fn lemma_picked_placed<T>(
    sorted: Seq<Listed>,
    item: Listed,
    key: spec_fn(Listed) -> KeyModel,
    pick: spec_fn(Listed) -> Option<T>,
)
    ensures
        picked(placed(sorted, item, key), pick).to_multiset() == picked(
            sorted,
            pick,
        ).to_multiset().add(one(pick(item))),
    decreases sorted.len(),
{
    let all = placed(sorted, item, key);
    if sorted.len() > 0 && key_before(key(item), key(sorted.last())) {
        let shorter = sorted.drop_last();
        let rest = placed(shorter, item, key);
        lemma_picked_placed(shorter, item, key, pick);
        lemma_picked_last(all, pick);
        lemma_picked_last(sorted, pick);
        assert(all.drop_last() =~= rest);
        let base = picked(shorter, pick).to_multiset();
        let (a, b) = (one(pick(item)), one(pick(sorted.last())));
        assert(base.add(a).add(b) =~= base.add(b).add(a));
    } else {
        lemma_picked_last(all, pick);
        assert(all.drop_last() =~= sorted);
    }
}

proof fn lemma_picked_sorted<T>(
    items: Seq<Listed>,
    key: spec_fn(Listed) -> KeyModel,
    pick: spec_fn(Listed) -> Option<T>,
)
    ensures
        picked(sorted_by(items, key), pick).to_multiset() == picked(items, pick).to_multiset(),
    decreases items.len(),
{
    if items.len() > 0 {
        let shorter = items.drop_last();
        lemma_picked_sorted(shorter, key, pick);
        lemma_picked_placed(sorted_by(shorter, key), items.last(), key, pick);
        lemma_picked_last(items, pick);
    }
}

/// What is picked out of some groups.
spec fn picked_of_groups<T>(
    items: Seq<Listed>,
    keys: Seq<GroupKey>,
    pick: spec_fn(Listed) -> Option<T>,
) -> Multiset<T>
    decreases keys.len(),
{
    if keys.len() == 0 {
        Multiset::empty()
    } else {
        picked_of_groups(items, keys.drop_last(), pick).add(
            picked(group(items, keys.last()), pick).to_multiset(),
        )
    }
}

/// The last listed show adds to its own group.
proof fn lemma_group_last(items: Seq<Listed>, key: GroupKey)
    requires
        items.len() > 0,
    ensures
        group(items, key) == if group_key(items.last()) == Some(key) {
            group(items.drop_last(), key).push(items.last())
        } else {
            group(items.drop_last(), key)
        },
{
    reveal(Seq::filter);
}

proof fn lemma_groups_last<T>(
    items: Seq<Listed>,
    keys: Seq<GroupKey>,
    pick: spec_fn(Listed) -> Option<T>,
)
    requires
        items.len() > 0,
        keys.no_duplicates(),
    ensures
        picked_of_groups(items, keys, pick) == picked_of_groups(items.drop_last(), keys, pick).add(
            if group_key(items.last()) is Some && keys.contains(group_key(items.last())->0) {
                one(pick(items.last()))
            } else {
                Multiset::empty()
            },
        ),
    decreases keys.len(),
{
    let last = group_key(items.last());
    let shorter = items.drop_last();
    if keys.len() == 0 {
        assert(picked_of_groups(items, keys, pick) =~= picked_of_groups(shorter, keys, pick).add(
            Multiset::empty(),
        ));
    } else {
        let front = keys.drop_last();
        let key = keys.last();
        lemma_groups_last(items, front, pick);
        lemma_group_last(items, key);
        assert(keys.contains(key)) by {
            assert(keys[keys.len() - 1] == key);
        }
        assert(!front.contains(key)) by {
            if front.contains(key) {
                let i = choose|i: int| 0 <= i < front.len() && front[i] == key;
                assert(keys[i] == keys[keys.len() - 1]);
            }
        }
        let before = picked_of_groups(shorter, front, pick);
        let own = picked(group(shorter, key), pick).to_multiset();
        let more = one(pick(items.last()));
        if last == Some(key) {
            let grown = group(items, key);
            lemma_picked_last(grown, pick);
            assert(grown.drop_last() =~= group(shorter, key));
            assert(before.add(Multiset::empty()).add(own.add(more)) =~= before.add(own).add(
                more,
            ));
        } else {
            if last is Some {
                assert(keys.contains(last->0) == front.contains(last->0)) by {
                    if keys.contains(last->0) {
                        let i = choose|i: int| 0 <= i < keys.len() && keys[i] == last->0;
                        assert(front[i] == last->0);
                    }
                    if front.contains(last->0) {
                        let i = choose|i: int| 0 <= i < front.len() && front[i] == last->0;
                        assert(keys[i] == last->0);
                    }
                }
            }
            assert(before.add(more).add(own) =~= before.add(own).add(more));
            assert(before.add(Multiset::empty()).add(own) =~= before.add(own).add(
                Multiset::empty(),
            ));
        }
    }
}

/// What is picked out of all groups is what is picked out of all listed shows.
proof fn lemma_groups_hold_all<T>(items: Seq<Listed>, pick: spec_fn(Listed) -> Option<T>)
    requires
        forall|entry: Listed| #[trigger] pick(entry) is Some ==> group_key(entry) is Some,
    ensures
        picked_of_groups(items, group_keys(items), pick) == picked(items, pick).to_multiset(),
    decreases items.len(),
{
    if items.len() == 0 {
        broadcast use vstd::seq_lib::group_to_multiset_ensures;

        assert(picked(items, pick).to_multiset() =~= Multiset::empty());
    } else {
        let shorter = items.drop_last();
        let before = group_keys(shorter);
        let last = group_key(items.last());
        let more = one(pick(items.last()));
        lemma_groups_hold_all(shorter, pick);
        lemma_group_keys(shorter);
        lemma_groups_last(items, before, pick);
        lemma_picked_last(items, pick);
        let base = picked(shorter, pick).to_multiset();
        if last is None {
            assert(pick(items.last()) is None);
            assert(base.add(Multiset::empty()) =~= base.add(more));
        } else if !before.contains(last->0) {
            let key = last->0;
            let keys = group_keys(items);
            assert(keys.drop_last() =~= before);
            lemma_group_last(items, key);
            lemma_group(shorter, key);
            let own = group(shorter, key);
            assert(own.len() == 0) by {
                if own.len() > 0 {
                    assert(shorter.contains(own[0]));
                    let i = choose|i: int| 0 <= i < shorter.len() && shorter[i] == own[0];
                    assert(before.contains(group_key(shorter[i])->0));
                }
            }
            let grown = group(items, key);
            lemma_picked_last(grown, pick);
            assert(grown.drop_last() =~= own);
            lemma_nothing_picked(own, pick);
            assert(Multiset::<T>::empty().add(more) =~= more);
            assert(base.add(Multiset::empty()).add(more) =~= base.add(more));
        }
    }
}

proof fn lemma_nothing_picked<T>(entries: Seq<Listed>, pick: spec_fn(Listed) -> Option<T>)
    requires
        entries.len() == 0,
    ensures
        picked(entries, pick).to_multiset() == Multiset::<T>::empty(),
{
    broadcast use vstd::seq_lib::group_to_multiset_ensures;

    assert(picked(entries, pick).to_multiset() =~= Multiset::empty());
}

proof fn lemma_entries_picked(entries: Seq<Listed>)
    ensures
        season_entries(entries) == picked(entries, entry_pick()),
    decreases entries.len(),
{
    if entries.len() > 0 {
        lemma_entries_picked(entries.drop_last());
    }
}

proof fn lemma_refs_picked(entries: Seq<Listed>)
    requires
        forall|i: int| 0 <= i < entries.len() ==> group_key(#[trigger] entries[i]) is Some,
    ensures
        refs_of(entries) == picked(entries, ref_pick()),
    decreases entries.len(),
{
    if entries.len() > 0 {
        let shorter = entries.drop_last();
        assert forall|i: int| 0 <= i < shorter.len() implies group_key(
            #[trigger] shorter[i],
        ) is Some by {
            assert(shorter[i] == entries[i]);
        }
        assert(group_key(entries[entries.len() - 1]) is Some);
        lemma_refs_picked(shorter);
    }
}

/// Shows without a title add nothing to what is picked.
proof fn lemma_titled_picked<T>(items: Seq<Listed>, pick: spec_fn(Listed) -> Option<T>)
    requires
        forall|entry: Listed| #[trigger] pick(entry) is Some ==> group_key(entry) is Some,
    ensures
        picked(titled(items), pick) == picked(items, pick),
    decreases items.len(),
{
    reveal(Seq::filter);
    if items.len() > 0 {
        let shorter = items.drop_last();
        lemma_titled_picked(shorter, pick);
        if group_key(items.last()) is Some {
            assert(titled(items) =~= titled(shorter).push(items.last()));
            assert(titled(items).drop_last() =~= titled(shorter));
        } else {
            assert(pick(items.last()) is None);
        }
    }
}

proof fn lemma_entries_of_groups(items: Seq<Listed>, keys: Seq<GroupKey>)
    ensures
        entries_of_groups(items, keys).to_multiset() == picked_of_groups(
            items,
            keys,
            entry_pick(),
        ),
    decreases keys.len(),
{
    if keys.len() == 0 {
        broadcast use vstd::seq_lib::group_to_multiset_ensures;

        assert(entries_of_groups(items, keys).to_multiset() =~= Multiset::empty());
    } else {
        let ordered = ordered_group(items, keys.last());
        lemma_entries_of_groups(items, keys.drop_last());
        lemma_entries_picked(ordered);
        lemma_picked_sorted(group(items, keys.last()), by_preview(), entry_pick());
        vstd::seq_lib::lemma_multiset_commutative(
            entries_of_groups(items, keys.drop_last()),
            season_entries(ordered),
        );
    }
}

proof fn lemma_refs_of_groups(items: Seq<Listed>, keys: Seq<GroupKey>)
    ensures
        refs_of_groups(items, keys).to_multiset() == picked_of_groups(items, keys, ref_pick()),
    decreases keys.len(),
{
    if keys.len() == 0 {
        broadcast use vstd::seq_lib::group_to_multiset_ensures;

        assert(refs_of_groups(items, keys).to_multiset() =~= Multiset::empty());
    } else {
        let members = group(items, keys.last());
        let ordered = ordered_group(items, keys.last());
        lemma_refs_of_groups(items, keys.drop_last());
        lemma_group(items, keys.last());
        law_sorting_keeps_items(members, by_preview());
        assert forall|i: int| 0 <= i < ordered.len() implies group_key(
            #[trigger] ordered[i],
        ) is Some by {
            assert(ordered.contains(ordered[i]));
            let m = choose|m: int| 0 <= m < members.len() && members[m] == ordered[i];
            assert(group_key(members[m]) == Some(keys.last()));
        }
        lemma_refs_picked(ordered);
        lemma_picked_sorted(members, by_preview(), ref_pick());
        vstd::seq_lib::lemma_multiset_commutative(
            refs_of_groups(items, keys.drop_last()),
            refs_of(ordered),
        );
    }
}

/// All shows together list and refer to each season as often as it is listed with a title: none is
/// lost, and none is doubled.
pub proof fn law_seasons_are_attached_once(items: Seq<Listed>)
    ensures
        entries_of_groups(items, group_keys(items)).to_multiset() == season_entries(
            items,
        ).to_multiset(),
        refs_of_groups(items, group_keys(items)).to_multiset() == refs_of(
            titled(items),
        ).to_multiset(),
{
    let keys = group_keys(items);
    lemma_entries_of_groups(items, keys);
    lemma_groups_hold_all(items, entry_pick());
    lemma_entries_picked(items);
    lemma_refs_of_groups(items, keys);
    lemma_groups_hold_all(items, ref_pick());
    lemma_titled_picked(items, ref_pick());
    let named = titled(items);
    let has_title = |entry: Listed| group_key(entry) is Some;
    assert forall|i: int| 0 <= i < named.len() implies group_key(#[trigger] named[i]) is Some by {
        items.lemma_filter_pred(has_title, i);
    }
    lemma_refs_picked(named);
}

} // verus!
