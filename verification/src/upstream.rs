//! Addresses at upstream catalogues.

use crate::text::{
    lemma_without_leading, lemma_without_trailing, trim_end, trim_start, without_leading,
    without_trailing,
};
use vstd::prelude::*;

verus! {

/// A base address and a path with exactly one slash between them.
pub open spec fn joined_url(base: Seq<char>, path: Seq<char>) -> Seq<char> {
    without_trailing(base, |c: char| c == '/') + seq!['/'] + without_leading(
        path,
        |c: char| c == '/',
    )
}

/// Joins a base address and a path with exactly one slash.
pub fn join_url(base_url: &str, path: &str) -> (url: String)
    ensures
        url@ == joined_url(base_url@, path@),
{
    proof {
        reveal_strlit("/");
        assert("/"@ =~= seq!['/']);
    }
    trim_end(base_url, '/').to_owned().concat("/").concat(trim_start(path, '/'))
}

/// Slashes at the end of the base address and at the start of the path make no difference.
pub proof fn law_extra_slashes_are_dropped(base: Seq<char>, path: Seq<char>)
    ensures
        joined_url(base.push('/'), path) == joined_url(base, path),
        joined_url(base, seq!['/'] + path) == joined_url(base, path),
{
    assert(base.push('/').drop_last() =~= base);
    assert((seq!['/'] + path).skip(1) =~= path);
}

/// Exactly one slash stands between the base address and the path.
pub proof fn law_one_slash_joins(base: Seq<char>, path: Seq<char>)
    ensures
        ({
            let slash = |c: char| c == '/';
            let start = without_trailing(base, slash);
            let end = without_leading(path, slash);
            &&& joined_url(base, path) == start + seq!['/'] + end
            &&& start.len() > 0 ==> start.last() != '/'
            &&& end.len() > 0 ==> end[0] != '/'
        }),
{
    let slash = |c: char| c == '/';
    lemma_without_trailing(base, slash);
    lemma_without_leading(path, slash);
}

} // verus!
