//! Which listed shows are presented as one, and what that one says.

use crate::json::Json;
use crate::laws::seasons::placed_by_number;
use crate::laws::{
    law_ties_keep_their_order, lemma_filter_picks, lemma_picks_last, lemma_picks_nothing, picks,
};
use crate::models::RefModel;
use crate::ordering::{
    key_before, law_sorting_keeps_items, law_sorting_orders, law_sorting_permutes,
    lemma_multiset_push,
};
use crate::previews::{
    by_preview, centralized, group, group_key, group_keys, in_group, ordered_group, refs_of,
    season_entries, GroupKey, Listed,
};
use crate::refs::encoded;
use crate::text::{lemma_before_total, text_before};
use crate::titles::{season_number, show_title, title_key};
use vstd::prelude::*;

verus! {

/// A listed show belongs to a group: it comes from the source of the group, and the title of its
/// show has the key of the group.
pub open spec fn belongs(entry: Listed, key: GroupKey) -> bool {
    entry.source.key == key.source && (entry.item.text_at("title"@) matches Some(title)
        && title_key(title) == key.title)
}

proof fn lemma_group_count(items: Seq<Listed>, key: GroupKey, entry: Listed)
    ensures
        group(items, key).to_multiset().count(entry) == (if belongs(entry, key) {
            items.to_multiset().count(entry)
        } else {
            0
        }),
    decreases items.len(),
{
    reveal(Seq::filter);
    if items.len() == 0 {
        broadcast use vstd::seq_lib::group_to_multiset_ensures;

        assert(group(items, key).len() == 0);
        assert(!items.contains(entry));
        assert(!group(items, key).contains(entry));
    } else {
        let shorter = items.drop_last();
        lemma_group_count(shorter, key, entry);
        lemma_multiset_push(shorter, items.last());
        assert(shorter.push(items.last()) =~= items);
        assert(belongs(items.last(), key) == in_group(key)(items.last())) by {
            if let Some(found) = group_key(items.last()) {
                assert(found == key <==> (found.source == key.source && found.title == key.title));
            }
        }
        if belongs(items.last(), key) {
            lemma_multiset_push(group(shorter, key), items.last());
            assert(group(items, key) =~= group(shorter, key).push(items.last()));
        }
    }
}

/// A group holds the listed shows of its source and title, each as often as it is listed, and no
/// others.
pub proof fn law_groups_hold_the_shows_of_a_title(
    items: Seq<Listed>,
    key: GroupKey,
    entry: Listed,
)
    ensures
        ordered_group(items, key).to_multiset().count(entry) == (if belongs(entry, key) {
            items.to_multiset().count(entry)
        } else {
            0
        }),
{
    lemma_group_count(items, key, entry);
    law_sorting_permutes(group(items, key), by_preview());
}

/// The year of a listed show for its place in its group, zero where it has none.
pub open spec fn placed_by_own_year(entry: Listed, year: int) -> bool {
    match entry.item.integer_at("year"@) {
        Some(y) => year == y,
        None => year == 0,
    }
}

/// Of two seasons of a group, the one with the smaller number in its title stands first; of one
/// number the one with the smaller year; in one year the one whose title comes first in
/// alphabetical order.
pub proof fn law_group_stands_by_number_year_and_title(
    items: Seq<Listed>,
    key: GroupKey,
    i: int,
    j: int,
    numbers: (int, int),
    years: (int, int),
)
    requires
        0 <= i < j < ordered_group(items, key).len(),
        placed_by_number(ordered_group(items, key)[i].item, numbers.0),
        placed_by_number(ordered_group(items, key)[j].item, numbers.1),
        placed_by_own_year(ordered_group(items, key)[i], years.0),
        placed_by_own_year(ordered_group(items, key)[j], years.1),
    ensures
        numbers.0 <= numbers.1,
        numbers.0 == numbers.1 ==> years.0 <= years.1,
        ({
            let a = ordered_group(items, key)[i].item.text_or_empty("title"@);
            let b = ordered_group(items, key)[j].item.text_or_empty("title"@);
            numbers.0 == numbers.1 && years.0 == years.1 ==> text_before(a, b) || a == b
        }),
{
    let (a, b) = (ordered_group(items, key)[i], ordered_group(items, key)[j]);
    law_sorting_orders(group(items, key), by_preview());
    assert(!key_before(by_preview()(b), by_preview()(a)));
    lemma_before_total(a.item.text_or_empty("title"@), b.item.text_or_empty("title"@));
}

/// Seasons of one number, year and title stand in the order in which they are listed.
pub proof fn law_like_shows_keep_their_order(
    items: Seq<Listed>,
    key: GroupKey,
    i: int,
    j: int,
    number: int,
    year: int,
)
    requires
        0 <= i < j < ordered_group(items, key).len(),
        placed_by_number(ordered_group(items, key)[i].item, number),
        placed_by_number(ordered_group(items, key)[j].item, number),
        placed_by_own_year(ordered_group(items, key)[i], year),
        placed_by_own_year(ordered_group(items, key)[j], year),
        ordered_group(items, key)[i].item.text_or_empty("title"@) == ordered_group(
            items,
            key,
        )[j].item.text_or_empty("title"@),
    ensures
        exists|a: int, b: int|
            0 <= a < b < items.len() && #[trigger] items[a] == ordered_group(items, key)[i]
                && #[trigger] items[b] == ordered_group(items, key)[j],
{
    let members = group(items, key);
    law_ties_keep_their_order(members, by_preview(), i, j);
    let ordered = ordered_group(items, key);
    let (p, q) = choose|a: int, b: int|
        0 <= a < b < members.len() && #[trigger] members[a] == ordered[i] && #[trigger] members[b]
            == ordered[j];
    lemma_filter_picks(items, in_group(key));
    let at = choose|at: Seq<int>| #[trigger]
        crate::laws::picked_at(items, members, crate::laws::those(in_group(key)), at);
    assert(at[p] < at[q]);
    assert(items[at[p]] == members[p] && items[at[q]] == members[q]);
}

/// There is one show for each group that a listed show belongs to, and the shows stand in the order
/// in which the first of each group is listed.
pub proof fn law_shows_stand_in_the_order_of_the_list(items: Seq<Listed>)
    ensures
        centralized(items).len() == group_keys(items).len(),
        forall|key: GroupKey| #[trigger]
            group_keys(items).contains(key) <==> exists|i: int|
                0 <= i < items.len() && belongs(#[trigger] items[i], key),
        forall|g: int, h: int|
            0 <= g < h < group_keys(items).len() ==> #[trigger] listed_before(
                items,
                group_keys(items)[g],
                group_keys(items)[h],
            ),
    decreases items.len(),
{
    if items.len() > 0 {
        let shorter = items.drop_last();
        let before = group_keys(shorter);
        let all = group_keys(items);
        law_shows_stand_in_the_order_of_the_list(shorter);
        assert forall|key: GroupKey| #[trigger] all.contains(key) <==> exists|i: int|
            0 <= i < items.len() && belongs(#[trigger] items[i], key) by {
            lemma_belongs(items.last(), key);
            if all.contains(key) {
                let g = choose|g: int| 0 <= g < all.len() && all[g] == key;
                if g < before.len() {
                    assert(before[g] == key);
                    assert(before.contains(key));
                    let i = choose|i: int|
                        0 <= i < shorter.len() && belongs(#[trigger] shorter[i], key);
                    assert(belongs(items[i], key));
                } else {
                    assert(belongs(items[items.len() - 1], key));
                }
            }
            if exists|i: int| 0 <= i < items.len() && belongs(#[trigger] items[i], key) {
                let i = choose|i: int| 0 <= i < items.len() && belongs(#[trigger] items[i], key);
                if i < shorter.len() {
                    assert(belongs(shorter[i], key));
                    assert(before.contains(key));
                    let g = choose|g: int| 0 <= g < before.len() && before[g] == key;
                    assert(all[g] == key);
                } else if before.contains(key) {
                    let g = choose|g: int| 0 <= g < before.len() && before[g] == key;
                    assert(all[g] == key);
                } else {
                    assert(all[before.len() as int] == key);
                }
            }
        }
        assert forall|g: int, h: int| 0 <= g < h < all.len() implies #[trigger] listed_before(
            items,
            all[g],
            all[h],
        ) by {
            assert(all[g] == before[g]);
            lemma_belongs(items.last(), all[g]);
            lemma_belongs(items.last(), all[h]);
            if h < before.len() {
                assert(all[h] == before[h]);
                assert(listed_before(shorter, before[g], before[h]));
                let a = choose|a: int|
                    0 <= a < shorter.len() && belongs(#[trigger] shorter[a], before[g])
                        && forall|b: int|
                        0 <= b <= a ==> !belongs(#[trigger] shorter[b], before[h]);
                assert(belongs(items[a], all[g]));
                assert forall|b: int| 0 <= b <= a implies !belongs(#[trigger] items[b], all[h]) by {
                    assert(shorter[b] == items[b]);
                }
            } else {
                assert(before.contains(before[g]));
                let a = choose|a: int|
                    0 <= a < shorter.len() && belongs(#[trigger] shorter[a], before[g]);
                assert(belongs(items[a], all[g]));
                assert forall|b: int| 0 <= b <= a implies !belongs(#[trigger] items[b], all[h]) by {
                    assert(shorter[b] == items[b]);
                    if belongs(shorter[b], all[h]) {
                        assert(before.contains(all[h]));
                    }
                }
            }
        }
    }
}

/// A show of one group is listed before every show of another.
pub open spec fn listed_before(items: Seq<Listed>, a: GroupKey, b: GroupKey) -> bool {
    exists|i: int|
        0 <= i < items.len() && belongs(#[trigger] items[i], a) && forall|j: int|
            0 <= j <= i ==> !belongs(#[trigger] items[j], b)
}

proof fn lemma_belongs(entry: Listed, key: GroupKey)
    ensures
        belongs(entry, key) == (group_key(entry) == Some(key)),
{
    if let Some(found) = group_key(entry) {
        assert(found == key <==> (found.source == key.source && found.title == key.title));
    }
}

/// Picks the reference to a season that has an identifier.
pub open spec fn reference_pick() -> spec_fn(Listed) -> Option<RefModel> {
    |entry: Listed|
        match entry.item.text_at("id"@) {
            Some(id) => Some(RefModel { source: entry.source.key, id }),
            None => None,
        }
}

/// The references of seasons are those to the seasons with an identifier, in their order.
pub proof fn law_references_are_picked_in_order(entries: Seq<Listed>)
    ensures
        picks(entries, refs_of(entries), reference_pick()),
    decreases entries.len(),
{
    if entries.len() == 0 {
        lemma_picks_nothing(entries, refs_of(entries), reference_pick());
    } else {
        law_references_are_picked_in_order(entries.drop_last());
        lemma_picks_last(entries, refs_of(entries.drop_last()), reference_pick());
    }
}

/// A show lists a season by its identifier, its title, the number in it, its year and its source,
/// and by nothing else.
pub open spec fn lists_season(row: Json, entry: Listed) -> bool {
    &&& row is Fields
    &&& row.field("id"@) matches Some(Json::Text(id)) && entry.item.text_at("id"@) == Some(id)
    &&& row.field("title"@) matches Some(Json::Text(title)) && entry.item.text_at("title"@) == Some(
        title,
    ) && row.field("season_number"@) == (match season_number(title) {
        Some(n) => Some(Json::Integer(n as int)),
        None => Some(Json::Null),
    })
    &&& row.field("year"@) == (match entry.item.integer_at("year"@) {
        Some(year) => Some(Json::Integer(year as int)),
        None => Some(Json::Null),
    })
    &&& row.field("episode_count"@) == Some(Json::Null)
    &&& row.field("source"@) == Some(Json::Text(entry.source.key))
    &&& forall|key: Seq<char>|
        key != "id"@ && key != "title"@ && key != "season_number"@ && key != "year"@ && key
            != "episode_count"@ && key != "source"@ ==> #[trigger] row.field(key) is None
}

/// The seasons that have an identifier and a title.
pub open spec fn is_named() -> spec_fn(Listed) -> bool {
    |entry: Listed| entry.item.text_at("id"@) is Some && entry.item.text_at("title"@) is Some
}

proof fn lemma_entry_names()
    ensures
        "id"@.len() == 2,
        "title"@.len() == 5,
        "season_number"@.len() == 13,
        "year"@.len() == 4,
        "episode_count"@.len() == 13,
        "source"@.len() == 6,
        "season_entries"@.len() == 14,
        "external_source"@.len() == 15,
        "season_number"@ != "episode_count"@,
{
    reveal_strlit("id");
    reveal_strlit("title");
    reveal_strlit("season_number");
    reveal_strlit("year");
    reveal_strlit("episode_count");
    reveal_strlit("source");
    reveal_strlit("season_entries");
    reveal_strlit("external_source");
    assert("season_number"@[0] == 's');
    assert("episode_count"@[0] == 'e');
}

/// The seasons with an identifier and a title are listed, in their order.
pub proof fn law_named_seasons_are_listed(entries: Seq<Listed>)
    ensures
        season_entries(entries).len() == entries.filter(is_named()).len(),
        forall|k: int|
            0 <= k < season_entries(entries).len() ==> lists_season(
                #[trigger] season_entries(entries)[k],
                entries.filter(is_named())[k],
            ),
    decreases entries.len(),
{
    reveal(Seq::filter);
    lemma_entry_names();
    if entries.len() > 0 {
        let shorter = entries.drop_last();
        law_named_seasons_are_listed(shorter);
        let before = season_entries(shorter);
        let all = season_entries(entries);
        assert forall|k: int| 0 <= k < all.len() implies lists_season(
            #[trigger] all[k],
            entries.filter(is_named())[k],
        ) by {
            if k < before.len() {
                assert(all[k] == before[k]);
                assert(entries.filter(is_named())[k] == shorter.filter(is_named())[k]);
            }
        }
    }
}

/// A show presents the seasons of its group: its identifier carries the references to them, it has
/// the title of the show and the source of the group, it lists them, and everything else it has
/// from the first of them.
pub proof fn law_shows_present_their_group(items: Seq<Listed>, g: int, key: Seq<char>)
    requires
        0 <= g < centralized(items).len(),
    ensures
        ({
            let show = centralized(items)[g];
            let ordered = ordered_group(items, group_keys(items)[g]);
            &&& ordered.len() > 0
            &&& show.field("id"@) == Some(Json::Text(encoded(refs_of(ordered))))
            &&& show.field("title"@) == Some(
                Json::Text(show_title(ordered[0].item.text_or_empty("title"@))),
            )
            &&& show.field("external_source"@) == Some(Json::Text(group_keys(items)[g].source))
            &&& show.field("season_entries"@) == Some(Json::List(season_entries(ordered)))
            &&& key != "id"@ && key != "title"@ && key != "external_source"@ && key
                != "season_entries"@ ==> show.field(key) == ordered[0].item.field(key)
        }),
{
    lemma_entry_names();
    let k = group_keys(items)[g];
    let members = group(items, k);
    let ordered = ordered_group(items, k);
    law_shows_stand_in_the_order_of_the_list(items);
    assert(group_keys(items).contains(k));
    let i = choose|i: int| 0 <= i < items.len() && belongs(#[trigger] items[i], k);
    lemma_belongs(items[i], k);
    items.lemma_filter_contains(in_group(k), i);
    law_sorting_keeps_items(members, by_preview());
    assert(members.contains(items[i]));
    assert(ordered.contains(ordered[0]));
    let m = choose|m: int| 0 <= m < members.len() && members[m] == ordered[0];
    items.lemma_filter_pred(in_group(k), m);
    lemma_belongs(ordered[0], k);
}

} // verus!
