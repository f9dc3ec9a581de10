use lz77::buffer::{CombinedBuffer, RingBuffer};
use lz77::searcher::{LinearSearcher, SearchResult, Searcher};

#[test]
fn test_linear_search() {
    let mut buffer = RingBuffer::new(6);
    buffer.push(1);
    buffer.push(100);
    buffer.push(101);
    buffer.push(200);
    buffer.push(100);
    buffer.push(100);

    let mut searcher = LinearSearcher {};
    let key = vec![1, 100, 101];
    let res = searcher.find_longest_match(&buffer, &key);
    assert!(res.is_some());
    let search_res = res.unwrap();
    assert_eq!(search_res, SearchResult {
        position: 0,
        length: 3,
    });
}

#[test]
fn linear_search_finds_nothing_in_an_empty_window() {
    let window: RingBuffer<u8> = RingBuffer::new(15);
    let ahead: Vec<u8> = vec![1, 100, 101];
    let hay = CombinedBuffer(&window, &ahead);
    let mut searcher = LinearSearcher::default();
    assert_eq!(searcher.find_longest_match(&hay, &ahead[..2]), None);
    assert_eq!(searcher.find_longest_match(&hay, &ahead[..0]), None);
}

#[test]
fn linear_search_skips_the_end_of_the_haystack() {
    // A key of 3 bytes leaves 5 positions out of 10: 0..5.
    let hay: Vec<u8> = vec![9, 9, 9, 9, 9, 7, 8, 6, 0, 0];
    let mut searcher = LinearSearcher {};
    assert_eq!(searcher.find_longest_match(&hay, &[7, 8, 6]), None);
    let hay: Vec<u8> = vec![9, 9, 9, 9, 7, 8, 6, 0, 0, 0];
    assert_eq!(
        searcher.find_longest_match(&hay, &[7, 8, 6]),
        Some(SearchResult { position: 4, length: 3 })
    );
    // Too short a haystack has no candidate at all.
    let hay: Vec<u8> = vec![7, 8, 6, 7, 8];
    assert_eq!(searcher.find_longest_match(&hay, &[7, 8, 6]), None);
}

#[test]
fn linear_search_prefers_the_longest_then_the_first() {
    let hay: Vec<u8> = vec![1, 2, 0, 1, 2, 3, 0, 1, 2, 3, 0, 0, 0, 0, 0, 0];
    let mut searcher = LinearSearcher {};
    assert_eq!(
        searcher.find_longest_match(&hay, &[1, 2, 3, 4]),
        Some(SearchResult { position: 3, length: 3 })
    );
    assert_eq!(
        searcher.find_longest_match(&hay, &[1, 2]),
        Some(SearchResult { position: 0, length: 2 })
    );
}

#[test]
fn linear_search_ignores_matches_of_one_byte() {
    let hay: Vec<u8> = vec![5, 1, 5, 2, 5, 3, 0, 0, 0, 0];
    let mut searcher = LinearSearcher {};
    assert_eq!(searcher.find_longest_match(&hay, &[5, 9]), None);
    assert_eq!(searcher.find_longest_match(&hay, &[5]), None);
}
