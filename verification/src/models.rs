//! The records that the service deals in.

use crate::json::Value;
use crate::text::same_text;
use vstd::prelude::*;

verus! {

/// An upstream catalogue.
#[derive(Debug, PartialEq, Eq)]
pub struct Source {
    pub key: String,
    pub base_url: String,
}

/// Names one season at one upstream catalogue.
#[derive(Debug, PartialEq, Eq, Hash)]
pub struct SourceRef {
    pub source: String,
    pub id: String,
}

/// A request for a page of a catalogue.
#[derive(Clone, Debug, Default)]
pub struct CatalogRequest {
    pub catalog_id: String,
    pub skip: Option<u32>,
    pub limit: Option<u32>,
    pub query: Option<String>,
}

/// A request for the shows that match a text.
#[derive(Clone, Debug, Default)]
pub struct SearchRequest {
    pub query: String,
    pub limit: Option<u32>,
}

/// A show as a catalogue lists it.
pub type AnimePreview = Value;

/// A season as a catalogue describes it in full.
pub type AnimeMetadata = Value;

/// What a source holds: its key and its base URL.
pub struct SourceModel {
    pub key: Seq<char>,
    pub base_url: Seq<char>,
}

impl View for Source {
    type V = SourceModel;

    open spec fn view(&self) -> SourceModel {
        SourceModel { key: self.key@, base_url: self.base_url@ }
    }
}

/// What a reference holds: the key of its source, and the identifier there.
pub struct RefModel {
    pub source: Seq<char>,
    pub id: Seq<char>,
}

impl View for SourceRef {
    type V = RefModel;

    open spec fn view(&self) -> RefModel {
        RefModel { source: self.source@, id: self.id@ }
    }
}

impl Clone for Source {
    fn clone(&self) -> (copy: Source)
        ensures
            copy@ == self@,
    {
        Source { key: self.key.clone(), base_url: self.base_url.clone() }
    }
}

impl Clone for SourceRef {
    fn clone(&self) -> (copy: SourceRef)
        ensures
            copy@ == self@,
    {
        SourceRef { source: self.source.clone(), id: self.id.clone() }
    }
}

/// What the sources of a sequence hold.
pub open spec fn source_models(sources: Seq<Source>) -> Seq<SourceModel> {
    sources.map_values(|s: Source| s@)
}

/// What the references of a sequence hold.
pub open spec fn ref_models(refs: Seq<SourceRef>) -> Seq<RefModel> {
    refs.map_values(|r: SourceRef| r@)
}

/// No source has the key of the request.
#[derive(Debug, PartialEq, Eq)]
pub struct UnknownSource {
    pub key: String,
}

impl UnknownSource {
    /// The error in words.
    pub fn message(&self) -> (text: String)
        ensures
            text@ == "Unknown upstream source: "@ + self.key@,
    {
        "Unknown upstream source: ".to_owned().concat(self.key.as_str())
    }
}

/// The first source with a key.
pub open spec fn first_with_key(sources: Seq<SourceModel>, key: Seq<char>) -> Option<int>
    decreases sources.len(),
{
    if sources.len() == 0 {
        None
    } else {
        match first_with_key(sources.drop_last(), key) {
            Some(i) => Some(i),
            None => if sources.last().key == key {
                Some(sources.len() - 1)
            } else {
                None
            },
        }
    }
}

/// Finds the first source with a key.
pub fn source_by_key<'a>(sources: &'a [Source], key: &str) -> (found: Result<
    &'a Source,
    UnknownSource,
>)
    ensures
        match first_with_key(source_models(sources@), key@) {
            Some(i) => 0 <= i < sources@.len() && found == Ok::<&Source, UnknownSource>(
                &sources@[i],
            ) && sources@[i].key@ == key@,
            None => found matches Err(unknown) && unknown.key@ == key@,
        },
{
    let ghost models = source_models(sources@);
    let mut i: usize = 0;
    while i < sources.len()
        invariant
            models == source_models(sources@),
            i <= sources.len(),
            first_with_key(models.take(i as int), key@) is None,
        decreases sources.len() - i,
    {
        assert(models.take(i + 1).drop_last() =~= models.take(i as int));
        if same_text(sources[i].key.as_str(), key) {
            proof {
                lemma_first_with_key(models, key@, i + 1);
            }
            return Ok(&sources[i]);
        }
        i = i + 1;
    }
    assert(models.take(i as int) =~= models);
    Err(UnknownSource { key: key.to_owned() })
}

/// A source that is found among the first sources is the one found among all.
proof fn lemma_first_with_key(sources: Seq<SourceModel>, key: Seq<char>, k: int)
    requires
        0 <= k <= sources.len(),
        first_with_key(sources.take(k), key) is Some,
    ensures
        first_with_key(sources, key) == first_with_key(sources.take(k), key),
    decreases sources.len(),
{
    if k == sources.len() {
        assert(sources.take(k) =~= sources);
    } else {
        assert(sources.drop_last().take(k) =~= sources.take(k));
        lemma_first_with_key(sources.drop_last(), key, k);
    }
}

} // verus!
