//! The search for every occurrence of every token in an input.

use crate::vocabulary::byte_views;
use vstd::prelude::*;

verus! {

/// `m` is (pattern, start, end), and the haystack holds that pattern from
/// `start` up to `end`.
pub open spec fn occurs(patterns: Seq<Seq<u8>>, haystack: Seq<u8>, m: (usize, usize, usize)) -> bool {
    m.0 < patterns.len() && m.1 <= m.2 <= haystack.len() && haystack.subrange(
        m.1 as int,
        m.2 as int,
    ) == patterns[m.0 as int]
}

/// The matches that an Aho-Corasick searcher built from `patterns` with the
/// builder's defaults yields on `haystack` when it searches for overlapping
/// matches, each as (pattern index, start, end) and in the order in which
/// it yields them; `None` where no searcher can be built from `patterns`.
pub uninterp spec fn overlapping_matches(patterns: Seq<Seq<u8>>, haystack: Seq<u8>) -> Option<
    Seq<(usize, usize, usize)>,
>;

/// Builds an `aho_corasick::AhoCorasick` from the patterns with the
/// builder's defaults and collects what `find_overlapping_iter` yields on
/// the haystack, each match as (pattern index, start, end). Trusted: the
/// result is that of `overlapping_matches`, a function of patterns and
/// haystack alone. Every match is an occurrence of its pattern; every
/// occurrence of a non-empty pattern is among the matches; and no match
/// comes twice, since the search reports each pattern that ends at a place
/// once for that place. `None` stands for a searcher that could not be
/// built.
#[verifier::external_body]
pub(crate) fn find_overlapping(patterns: &Vec<Vec<u8>>, haystack: &[u8]) -> (found: Option<
    Vec<(usize, usize, usize)>,
>)
    ensures
        found.is_some() == overlapping_matches(byte_views(patterns@), haystack@).is_some(),
        found.is_some() ==> found.unwrap()@ == overlapping_matches(
            byte_views(patterns@),
            haystack@,
        ).unwrap(),
        found.is_some() ==> forall|k: int|
            0 <= k < found.unwrap()@.len() ==> occurs(
                byte_views(patterns@),
                haystack@,
                #[trigger] found.unwrap()@[k],
            ),
        found.is_some() ==> forall|m: (usize, usize, usize)|
            m.1 < m.2 && occurs(byte_views(patterns@), haystack@, m)
                ==> #[trigger] found.unwrap()@.contains(m),
        found.is_some() ==> found.unwrap()@.no_duplicates(),
{
    let Ok(searcher) = aho_corasick::AhoCorasick::builder().build(patterns) else {
        return None;
    };
    let mut found: Vec<(usize, usize, usize)> = Vec::new();
    for m in searcher.find_overlapping_iter(haystack) {
        found.push((m.pattern().as_usize(), m.start(), m.end()));
    }
    Some(found)
}

} // verus!
