//! Match finding: the capability that the encoder relies on, and what a
//! match is.
pub mod linear_search;

use vstd::prelude::*;
use crate::buffer::SizedBuffer;

pub use self::linear_search::LinearSearcher;

verus! {

/// How many bytes of `key`, counted from its byte `from` on, agree with the
/// haystack read from `at + from` on, up to the first difference or the end
/// of either.
pub open spec fn agreement(hay: Seq<u8>, key: Seq<u8>, at: int, from: int) -> int
    decreases key.len() - from,
{
    if 0 <= from < key.len() && 0 <= at + from < hay.len() && hay[at + from] == key[from] {
        1 + agreement(hay, key, at, from + 1)
    } else {
        0
    }
}

/// The length of the longest prefix of `key` that stands in `hay` at `at`.
pub open spec fn match_length(hay: Seq<u8>, key: Seq<u8>, at: int) -> int {
    agreement(hay, key, at, 0)
}

/// A prefix of the key found in the haystack.
#[derive(PartialEq, Eq, Debug, Structural)]
pub struct SearchResult {
    /// Where in the haystack the occurrence begins.
    pub position: usize,
    /// How many bytes of the key it covers.
    pub length: usize,
}

/// A strategy that looks for an earlier occurrence of the start of `key` in
/// `buf`. An implementation is free in how it searches and in what it
/// reports; it says itself, in `promised`, what holds of its reports, and
/// whoever calls it checks a report before relying on more than that.
pub trait Searcher {
    /// What the strategy claims of a report for a key and a haystack:
    /// nothing, unless it says otherwise.
    open spec fn promised(hay: Seq<u8>, key: Seq<u8>, res: Option<SearchResult>) -> bool {
        true
    }

    /// Looks for the start of `key` in `buf`.
    fn find_longest_match<B>(&mut self, buf: &B, key: &[u8]) -> (res: Option<SearchResult>) where
        B: SizedBuffer<Item = u8>,

        requires
            buf.valid(),
        ensures
            Self::promised(buf.content(), key@, res),
    ;
}

/// The agreement counted from `from` stays inside the key and the haystack,
/// covers equal bytes only, and stops at a difference or at an end.
pub proof fn lemma_agreement(hay: Seq<u8>, key: Seq<u8>, at: int, from: int)
    requires
        0 <= at,
        0 <= from,
    ensures
        0 <= agreement(hay, key, at, from),
        agreement(hay, key, at, from) > 0 ==> from + agreement(hay, key, at, from) <= key.len()
            && at + from + agreement(hay, key, at, from) <= hay.len(),
        forall|j: int|
            from <= j < from + agreement(hay, key, at, from) ==> #[trigger] hay[at + j] == key[j],
        ({
            let end = from + agreement(hay, key, at, from);
            end >= key.len() || at + end >= hay.len() || hay[at + end] != key[end]
        }),
    decreases key.len() - from,
{
    if 0 <= from < key.len() && 0 <= at + from < hay.len() && hay[at + from] == key[from] {
        lemma_agreement(hay, key, at, from + 1);
    }
}

} // verus!
