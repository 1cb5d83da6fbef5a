//! What the service is set up with, and the shows that it describes.

use crate::combine::{combinable, combined, total_count};
use crate::decimal::{digits, integer_text, law_written_integer_reads_back};
use crate::discovery::reply_items;
use crate::fill::{dating, picturing};
use crate::json::Json;
use crate::laws::{lemma_picks_last, lemma_picks_nothing, picks};
use crate::laws::seasons::{
    law_numbered_seasons_keep_their_number, law_other_seasons_get_the_next_number,
};
use crate::models::SourceModel;
use crate::ordering::law_sorting_keeps_items;
use crate::previews::Listed;
use crate::seasons::{by_season, in_order, lemma_numbering_prefix, numbering, numbering_fits};
use crate::service::{
    addresses, describable, description, listed_in, listed_sources, parsed_port, season_path,
    source_at, ShowError,
};
use crate::text::{lemma_without_trailing, pieces, trimmed, without_trailing};
use crate::titles::season_number;
use vstd::prelude::*;

verus! {

/// Picks the addresses that are not blank.
pub open spec fn address_pick() -> spec_fn(Seq<char>) -> Option<Seq<char>> {
    |part: Seq<char>|
        if trimmed(part).len() > 0 {
            Some(trimmed(part))
        } else {
            None
        }
}

proof fn lemma_addresses(parts: Seq<Seq<char>>)
    ensures
        picks(parts, addresses(parts), address_pick()),
    decreases parts.len(),
{
    if parts.len() == 0 {
        lemma_picks_nothing(parts, addresses(parts), address_pick());
    } else {
        lemma_addresses(parts.drop_last());
        lemma_picks_last(parts, addresses(parts.drop_last()), address_pick());
    }
}

/// A source is at an address, without the slashes at its end.
pub open spec fn is_at(source: SourceModel, address: Seq<char>) -> bool {
    let n = source.base_url.len() as int;
    &&& n <= address.len()
    &&& source.base_url == address.take(n)
    &&& n > 0 ==> address[n - 1] != '/'
    &&& forall|k: int| n <= k < address.len() ==> #[trigger] address[k] == '/'
}

proof fn lemma_slashes(s: Seq<char>)
    ensures
        forall|k: int|
            without_trailing(s, |c: char| c == '/').len() <= k < s.len() ==> #[trigger] s[k] == '/',
    decreases s.len(),
{
    let slash = |c: char| c == '/';
    if s.len() > 0 && s.last() == '/' {
        let rest = s.drop_last();
        lemma_slashes(rest);
        assert forall|k: int|
            without_trailing(s, slash).len() <= k < s.len() implies #[trigger] s[k] == '/' by {
            if k < rest.len() {
                assert(rest[k] == s[k]);
            }
        }
    }
}

/// Every address in the setting is a source: they are numbered from one in their order, and lose
/// nothing but white space around them and slashes at their end.
pub proof fn law_every_address_is_a_source(raw: Seq<char>)
    ensures
        exists|all: Seq<Seq<char>>| #[trigger]
            picks(pieces(raw, ','), all, address_pick()) && listed_sources(raw).len() == all.len()
                && forall|i: int|
                0 <= i < all.len() ==> is_at(#[trigger] listed_sources(raw)[i], all[i])
                    && listed_sources(raw)[i].key == "source-"@ + digits((i + 1) as nat),
{
    let all = addresses(pieces(raw, ','));
    let slash = |c: char| c == '/';
    lemma_addresses(pieces(raw, ','));
    assert forall|i: int| 0 <= i < all.len() implies is_at(
        #[trigger] listed_sources(raw)[i],
        all[i],
    ) && listed_sources(raw)[i].key == "source-"@ + digits((i + 1) as nat) by {
        lemma_without_trailing(all[i], slash);
        lemma_slashes(all[i]);
        assert(listed_sources(raw)[i] == source_at(all[i], i));
    }
    assert(picks(pieces(raw, ','), all, address_pick()));
}

/// Every port is read back from the way in which it is written.
pub proof fn law_every_port_can_be_set(port: u16)
    ensures
        parsed_port(integer_text(port as int)) == Some(port),
{
    law_written_integer_reads_back(port as int);
    crate::decimal::lemma_digits(port as nat);
}

/// The seasons of a show are asked for by their identifier, and every show that a reply lists is
/// taken with the source of the reply.
pub proof fn law_replies_keep_their_source(
    source: SourceModel,
    reply: Option<Json>,
    i: int,
    id: Seq<char>,
)
    ensures
        season_path(id) == "anime/"@ + id,
        listed_in(source, reply).len() == reply_items(reply).len(),
        0 <= i < reply_items(reply).len() ==> listed_in(source, reply)[i] == (Listed {
            source,
            item: reply_items(reply)[i],
        }),
{
}

/// A described show is its combined seasons; each of its episodes is first dated by the seasons,
/// and then, by its date too, given a picture out of all sources.
pub proof fn law_shows_are_combined_then_dated_then_pictured(
    seasons: Seq<Json>,
    sources: Seq<Json>,
    rows: Seq<Json>,
    k: int,
    key: Seq<char>,
)
    requires
        description(seasons, sources) is Ok,
        combined(seasons)->Ok_0.field("episodes"@) == Some(Json::List(rows)),
        0 <= k < rows.len(),
        key != "episodes"@,
    ensures
        combined(seasons) is Ok,
        ({
            let show = description(seasons, sources)->Ok_0;
            &&& show.field(key) == combined(seasons)->Ok_0.field(key)
            &&& show.field("episodes"@) matches Some(Json::List(filled))
            &&& filled.len() == rows.len()
            &&& filled[k] == picturing(sources)(dating(seasons)(rows[k]))
        }),
{
}

/// A show is described unless its seasons cannot be combined, which is then the error, or a number
/// leaves its range.
pub proof fn law_shows_are_described_unless_they_cannot(seasons: Seq<Json>, sources: Seq<Json>)
    ensures
        match combined(seasons) {
            Err(error) => description(seasons, sources) == Err::<Json, ShowError>(
                ShowError::Combine(error),
            ),
            Ok(_) => if describable(seasons, sources) {
                description(seasons, sources) is Ok
            } else {
                description(seasons, sources) == Err::<Json, ShowError>(ShowError::Range)
            },
        },
{
}

/// A title number leaves room for the numbers that seasons without one may get.
pub open spec fn has_room(season: Json, room: int) -> bool {
    season_number(season.text_or_empty("title"@)) matches Some(n) ==> n + room <= i64::MAX
}

/// An episode count is between none and some number.
pub open spec fn counts_within(season: Json, most: int) -> bool {
    season.integer_at("episode_count"@) matches Some(n) ==> 0 <= n <= most
}

proof fn lemma_numbers_stay(ordered: Seq<Json>, room: int, i: int)
    requires
        0 <= i < ordered.len() <= room <= i64::MAX,
        forall|k: int| 0 <= k < ordered.len() ==> has_room(#[trigger] ordered[k], room),
    ensures
        numbering(ordered)[i] <= i64::MAX - room + i + 1,
    decreases i,
{
    lemma_numbering_prefix(ordered, ordered.len() as int);
    assert(has_room(ordered[i], room));
    if season_number(ordered[i].text_or_empty("title"@)) is Some {
        law_numbered_seasons_keep_their_number(ordered, i);
    } else {
        law_other_seasons_get_the_next_number(ordered, i);
        if i > 0 {
            let k = choose|k: int|
                0 <= k < i && #[trigger] numbering(ordered)[k] + 1 == numbering(ordered)[i];
            lemma_numbers_stay(ordered, room, k);
        }
    }
}

proof fn lemma_counts_stay(ordered: Seq<Json>, most: int)
    requires
        0 <= most,
        forall|k: int| 0 <= k < ordered.len() ==> counts_within(#[trigger] ordered[k], most),
    ensures
        0 <= total_count(ordered) <= ordered.len() * most,
    decreases ordered.len(),
{
    if ordered.len() > 0 {
        let shorter = ordered.drop_last();
        assert(counts_within(ordered[ordered.len() - 1], most));
        assert forall|k: int| 0 <= k < shorter.len() implies counts_within(
            #[trigger] shorter[k],
            most,
        ) by {
            assert(shorter[k] == ordered[k]);
        }
        lemma_counts_stay(shorter, most);
        assert(ordered.len() * most == shorter.len() * most + most) by (nonlinear_arith)
            requires
                ordered.len() == shorter.len() + 1,
        ;
    }
}

proof fn lemma_ordinary_numbers_fit(seasons: Seq<Json>)
    requires
        seasons.len() <= i64::MAX,
        forall|k: int|
            0 <= k < seasons.len() ==> has_room(#[trigger] seasons[k], seasons.len() as int),
    ensures
        numbering_fits(in_order(seasons)),
{
    let ordered = in_order(seasons);
    law_sorting_keeps_items(seasons, by_season());
    assert forall|k: int| 0 <= k < ordered.len() implies has_room(
        #[trigger] ordered[k],
        seasons.len() as int,
    ) by {
        assert(ordered.contains(ordered[k]));
        let m = choose|m: int| 0 <= m < seasons.len() && seasons[m] == ordered[k];
        assert(has_room(seasons[m], seasons.len() as int));
    }
    assert forall|i: int| 0 <= i < ordered.len() implies #[trigger] numbering(ordered)[i]
        <= i64::MAX by {
        lemma_numbers_stay(ordered, seasons.len() as int, i);
    }
}

/// Seasons combine to a described show whenever their numbers and counts leave room: only near the
/// ends of the range of whole numbers are they refused.
pub proof fn law_ordinary_shows_are_described(seasons: Seq<Json>, sources: Seq<Json>, most: int)
    requires
        combined(seasons) is Ok,
        seasons.len() <= i64::MAX,
        sources.len() <= i64::MAX,
        0 <= most,
        seasons.len() * most <= i64::MAX,
        forall|k: int|
            0 <= k < seasons.len() ==> has_room(#[trigger] seasons[k], seasons.len() as int)
                && counts_within(seasons[k], most),
        forall|k: int|
            0 <= k < sources.len() ==> has_room(#[trigger] sources[k], sources.len() as int),
    ensures
        combinable(seasons),
        numbering_fits(in_order(seasons)),
        numbering_fits(in_order(sources)),
        description(seasons, sources) is Ok,
{
    let ordered = in_order(seasons);
    lemma_ordinary_numbers_fit(seasons);
    lemma_ordinary_numbers_fit(sources);
    law_sorting_keeps_items(seasons, by_season());
    assert forall|k: int| 0 <= k <= ordered.len() implies i64::MIN <= total_count(
        #[trigger] ordered.take(k),
    ) <= i64::MAX by {
        let first = ordered.take(k);
        assert forall|m: int| 0 <= m < first.len() implies counts_within(
            #[trigger] first[m],
            most,
        ) by {
            assert(ordered.contains(ordered[m]));
            let n = choose|n: int| 0 <= n < seasons.len() && seasons[n] == ordered[m];
            assert(has_room(seasons[n], seasons.len() as int));
        }
        lemma_counts_stay(first, most);
        assert(first.len() * most <= seasons.len() * most) by (nonlinear_arith)
            requires
                first.len() <= seasons.len(),
                0 <= most,
        ;
    }
}

} // verus!
