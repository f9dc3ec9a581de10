//! The brute-force match finder.
use vstd::prelude::*;
use crate::buffer::SizedBuffer;
use crate::searcher::{agreement, match_length, SearchResult, Searcher};

verus! {

/// How many starting positions the linear scan tries: all but the last
/// `key_len + 2` of the haystack.
pub open spec fn candidates(hay_len: int, key_len: int) -> int {
    if hay_len > key_len + 2 {
        hay_len - key_len - 2
    } else {
        0
    }
}

/// What the linear scan reports: the longest match among the candidates if it
/// covers more than one byte, the first of them where several are as long.
pub open spec fn linear_result(hay: Seq<u8>, key: Seq<u8>, res: Option<SearchResult>) -> bool {
    let tried = candidates(hay.len() as int, key.len() as int);
    match res {
        Some(found) => {
            &&& found.position < tried
            &&& found.length == match_length(hay, key, found.position as int)
            &&& found.length > 1
            &&& forall|i: int|
                0 <= i < tried ==> #[trigger] match_length(hay, key, i) <= found.length
            &&& forall|i: int|
                0 <= i < found.position ==> #[trigger] match_length(hay, key, i) < found.length
        },
        None => forall|i: int| 0 <= i < tried ==> #[trigger] match_length(hay, key, i) <= 1,
    }
}

/// Tries every candidate position in turn.
pub struct LinearSearcher {}

impl Default for LinearSearcher {
    fn default() -> (searcher: Self) {
        LinearSearcher {  }
    }
}

impl Searcher for LinearSearcher {
    open spec fn promised(hay: Seq<u8>, key: Seq<u8>, res: Option<SearchResult>) -> bool {
        linear_result(hay, key, res)
    }

    fn find_longest_match<B>(&mut self, buf: &B, key: &[u8]) -> (res: Option<SearchResult>) where
        B: SizedBuffer<Item = u8>,
     {
        let ghost hay = buf.content();
        let mut best: Option<SearchResult> = None;
        let hay_len = buf.len();
        let key_len = key.len();
        if key_len <= usize::MAX - 2 && hay_len > key_len + 2 {
            let tried = hay_len - key_len - 2;
            let mut i: usize = 0;
            while i < tried
                invariant
                    buf.valid(),
                    hay == buf.content(),
                    hay_len == hay.len(),
                    key_len == key@.len(),
                    tried == candidates(hay_len as int, key_len as int),
                    tried == hay_len - key_len - 2,
                    i <= tried,
                    match best {
                        Some(found) => {
                            &&& found.position < i
                            &&& found.length == match_length(hay, key@, found.position as int)
                            &&& found.length > 1
                            &&& forall|k: int|
                                0 <= k < i ==> #[trigger] match_length(hay, key@, k)
                                    <= found.length
                            &&& forall|k: int|
                                0 <= k < found.position ==> #[trigger] match_length(hay, key@, k)
                                    < found.length
                        },
                        None => forall|k: int|
                            0 <= k < i ==> #[trigger] match_length(hay, key@, k) <= 1,
                    },
                decreases tried - i,
            {
                let mut j: usize = 0;
                while j < key_len && i + j < hay_len && key[j] == *buf.at(i + j)
                    invariant
                        buf.valid(),
                        hay == buf.content(),
                        hay_len == hay.len(),
                        key_len == key@.len(),
                        i < tried,
                        tried == hay_len - key_len - 2,
                        j <= key_len,
                        match_length(hay, key@, i as int) == j + agreement(
                            hay,
                            key@,
                            i as int,
                            j as int,
                        ),
                    decreases key_len - j,
                {
                    j += 1;
                }
                let cur_len = j;
                let longer = match &best {
                    Some(found) => found.length < cur_len,
                    None => cur_len > 1,
                };
                if longer {
                    best = Some(SearchResult { position: i, length: cur_len });
                }
                i += 1;
            }
        }
        best
    }
}

} // verus!
