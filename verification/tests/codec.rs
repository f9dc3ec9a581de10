use lz77::buffer::SizedBuffer;
use lz77::errors::Error;
use lz77::searcher::{SearchResult, Searcher};
use lz77::{LinearSearcher, Lz77Decoder, Lz77Encoder, Lz77Options};

fn encode_all(input: &[u8], window_size: u8, piece: usize) -> Vec<u8> {
    let opts = Lz77Options { window_size: window_size };
    let mut encoder = Lz77Encoder::<LinearSearcher>::new(opts).expect("valid window size");
    let mut stream = Vec::new();
    for part in input.chunks(piece) {
        assert_eq!(encoder.write(part), part.len());
        stream.extend(encoder.take_output());
    }
    encoder.flush();
    stream.extend(encoder.take_output());
    stream
}

fn decode_all(stream: Vec<u8>, window_size: u8, piece: usize) -> Result<Vec<u8>, Error> {
    let opts = Lz77Options { window_size: window_size };
    let mut decoder = Lz77Decoder::new(stream, opts).expect("valid window size");
    let mut output = Vec::new();
    let mut chunk = vec![0u8; piece];
    loop {
        let n = decoder.read(&mut chunk[..])?;
        if n == 0 {
            return Ok(output);
        }
        output.extend_from_slice(&chunk[..n]);
    }
}

fn sample(len: usize, seed: u32, alphabet: u32) -> Vec<u8> {
    let mut state = seed;
    let mut out = Vec::with_capacity(len);
    for _ in 0..len {
        state = state.wrapping_mul(1664525).wrapping_add(1013904223);
        out.push(((state >> 24) % alphabet) as u8);
    }
    out
}

#[test]
fn test_write() {
    let buf;
    {
        let opts = Lz77Options {
            window_size: 12,
        };
        let mut encoder = Lz77Encoder::<LinearSearcher>::new(opts).expect("valid window size");
        let text = "aaabcabcaaaa abc abc abc aaacccdddbla b,asfdsafsafs fsadfsdfasf";
        assert!(encoder.write(text.as_bytes()) == text.len());
        encoder.flush();
        buf = encoder.take_output();
        assert!(!buf.is_empty());
    }
    {
        let opts = Lz77Options {
            window_size: 12,
        };
        let mut decoder = Lz77Decoder::new(buf, opts).expect("valid window size");
        let mut output = Vec::new();
        let mut chunk = [0u8; 8192];
        let copied = loop {
            match decoder.read(&mut chunk[..]) {
                Ok(0) => break Ok(output.len()),
                Ok(n) => output.extend_from_slice(&chunk[..n]),
                Err(e) => break Err(e),
            }
        };
        assert!(copied.is_ok());
        let string = String::from_utf8(output).expect("No valid utf8");
        assert_eq!(string, "aaabcabcaaaa abc abc abc aaacccdddbla b,asfdsafsafs fsadfsdfasf".to_owned());
        println!("String::from_utf8(output) = {:#?}", string);
    }
}

#[test]
fn short_input_becomes_one_literal_run() {
    let stream = encode_all(&[1, 100, 101], 12, 3);
    assert_eq!(stream, vec![0x00, 0x02, 1, 100, 101]);
    assert_eq!(decode_all(stream, 12, 16), Ok(vec![1, 100, 101]));
}

#[test]
fn repeated_input_becomes_a_run_and_an_overlapping_match() {
    let stream = encode_all(b"abcabcabcabc", 12, 5);
    assert_eq!(stream, vec![0x00, 0x02, b'a', b'b', b'c', 0x00, 0x38, b'c']);
    assert_eq!(decode_all(stream, 12, 4), Ok(b"abcabcabcabc".to_vec()));
}

#[test]
fn overlapping_match_is_replayed_byte_by_byte() {
    // "ab", then 5 bytes from 2 back, then 'c'.
    let stream = vec![0x00, 0x01, b'a', b'b', 0x00, 0x25, b'c'];
    assert_eq!(decode_all(stream, 12, 3), Ok(b"abababac".to_vec()));
    // One byte repeated by a match of distance 1.
    let stream = vec![0x00, 0x00, b'x', 0x00, 0x1f, b'y'];
    assert_eq!(decode_all(stream, 12, 64), Ok(b"xxxxxxxxxxxxxxxxy".to_vec()));
}

#[test]
fn full_literal_run_is_written_at_once() {
    // With 13 window bits a run holds 8 bytes; 9 bytes wait in the lookahead.
    let input: Vec<u8> = (0u8..20).collect();
    let opts = Lz77Options { window_size: 13 };
    let mut encoder = Lz77Encoder::<LinearSearcher>::new(opts).expect("valid window size");
    assert_eq!(encoder.write(&input[..16]), 16);
    assert_eq!(encoder.take_output(), vec![0x00, 0x07, 0, 1, 2, 3, 4, 5, 6, 7]);
    assert_eq!(encoder.write(&input[16..]), 4);
    assert_eq!(encoder.take_output(), Vec::<u8>::new());
    encoder.flush();
    let mut rest = vec![0x00, 0x07];
    rest.extend(8u8..16);
    rest.extend([0x00, 0x03, 16, 17, 18, 19]);
    assert_eq!(encoder.take_output(), rest);
}

#[test]
fn round_trip_for_every_window_size() {
    let inputs: Vec<Vec<u8>> = vec![
        Vec::new(),
        vec![7],
        vec![1, 100, 101],
        b"aaaaaaaaaaaaaaaaaaaaaaaaaaaaaaaaaaaaaaaaaaaaaaaaaaaaaaaaaaaaaaaa".to_vec(),
        sample(700, 1, 3),
        sample(900, 2, 256),
        sample(1500, 3, 2),
    ];
    for window_size in 1u8..=15 {
        for input in inputs.iter() {
            let stream = encode_all(input, window_size, 97);
            assert_eq!(decode_all(stream, window_size, 61).as_ref(), Ok(input));
        }
    }
}

#[test]
fn round_trip_of_a_long_repetitive_input() {
    let mut input = Vec::new();
    for i in 0..3000u32 {
        input.extend_from_slice(b"the quick brown fox ");
        input.push((i % 7) as u8);
    }
    let stream = encode_all(&input, 10, 1000);
    assert!(stream.len() < input.len());
    assert_eq!(decode_all(stream, 10, 4096), Ok(input));
}

#[test]
fn pieces_do_not_change_the_stream() {
    let input = sample(400, 9, 4);
    let whole = encode_all(&input, 11, 400);
    assert_eq!(encode_all(&input, 11, 1), whole);
    assert_eq!(encode_all(&input, 11, 33), whole);
    let all = decode_all(whole.clone(), 11, 1024).expect("decodes");
    assert_eq!(decode_all(whole, 11, 1), Ok(all));
}

#[test]
fn flush_without_pending_data_writes_nothing() {
    let opts = Lz77Options { window_size: 12 };
    let mut encoder = Lz77Encoder::<LinearSearcher>::new(opts).expect("valid window size");
    encoder.flush();
    assert_eq!(encoder.take_output(), Vec::<u8>::new());
    assert_eq!(encoder.write(b"hello hello hello"), 17);
    encoder.flush();
    assert!(!encoder.take_output().is_empty());
    encoder.flush();
    assert_eq!(encoder.take_output(), Vec::<u8>::new());
}

#[test]
fn invalid_window_sizes_are_refused() {
    for window_size in [0u8, 16, 17, 255] {
        let enc = Lz77Encoder::<LinearSearcher>::new(Lz77Options { window_size: window_size });
        assert_eq!(enc.err(), Some(Error::InvalidWindowSize));
        let dec = Lz77Decoder::new(Vec::new(), Lz77Options { window_size: window_size });
        assert_eq!(dec.err(), Some(Error::InvalidWindowSize));
    }
}

#[test]
fn empty_stream_is_a_clean_end() {
    let mut decoder = Lz77Decoder::new(Vec::new(), Lz77Options { window_size: 12 }).expect("valid");
    let mut chunk = [0u8; 4];
    assert_eq!(decoder.read(&mut chunk[..]), Ok(0));
    assert_eq!(decoder.read(&mut chunk[..]), Ok(0));
    assert_eq!(decoder.read(&mut chunk[..0]), Ok(0));
}

#[test]
fn truncated_streams_are_reported_after_what_precedes_them() {
    // A whole run, then half a token.
    let stream = vec![0x00, 0x01, b'a', b'b', 0x00];
    let mut decoder = Lz77Decoder::new(stream, Lz77Options { window_size: 12 }).expect("valid");
    let mut chunk = [0u8; 8];
    assert_eq!(decoder.read(&mut chunk[..]), Ok(2));
    assert_eq!(&chunk[..2], b"ab");
    assert_eq!(decoder.read(&mut chunk[..]), Err(Error::UnexpectedEnd));
    assert_eq!(decoder.read(&mut chunk[..]), Err(Error::UnexpectedEnd));
    // A run that is cut short.
    assert_eq!(decode_all(vec![0x00, 0x02, 1, 2], 12, 8), Err(Error::UnexpectedEnd));
    // A match without its trailing byte.
    assert_eq!(decode_all(vec![0x00, 0x00, 1, 0x00, 0x11], 12, 8), Err(Error::UnexpectedEnd));
    // A single byte.
    assert_eq!(decode_all(vec![0x00], 12, 8), Err(Error::UnexpectedEnd));
}

#[test]
fn distance_before_the_start_is_reported() {
    assert_eq!(decode_all(vec![0x00, 0x11, b'x'], 12, 8), Err(Error::InvalidDistance));
    assert_eq!(
        decode_all(vec![0x00, 0x00, b'a', 0x00, 0x21, b'x'], 12, 8),
        Err(Error::InvalidDistance)
    );
    // A match of length 0 copies nothing, so its distance is not looked at.
    assert_eq!(decode_all(vec![0x00, 0x50, b'x'], 12, 8), Ok(vec![b'x']));
}

#[test]
fn partial_reads_resume_inside_a_record() {
    let stream = vec![0x00, 0x04, 1, 2, 3, 4, 5, 0x00, 0x23, 9];
    let mut decoder = Lz77Decoder::new(stream, Lz77Options { window_size: 12 }).expect("valid");
    let mut two = [0u8; 2];
    assert_eq!(decoder.read(&mut two[..]), Ok(2));
    assert_eq!(two, [1, 2]);
    let mut four = [0u8; 4];
    assert_eq!(decoder.read(&mut four[..]), Ok(4));
    assert_eq!(four, [3, 4, 5, 4]);
    let mut ten = [0xeeu8; 10];
    assert_eq!(decoder.read(&mut ten[..]), Ok(3));
    assert_eq!(ten, [5, 4, 9, 0xee, 0xee, 0xee, 0xee, 0xee, 0xee, 0xee]);
    assert_eq!(decoder.read(&mut ten[..]), Ok(0));
}

#[test]
fn records_longer_than_a_small_window_are_handed_out_whole() {
    // With 1 window bit the window reaches back one byte, a run holds 32768.
    let input = sample(40000, 5, 2);
    let stream = encode_all(&input, 1, 40000);
    assert_eq!(decode_all(stream, 1, 50000), Ok(input));
    let run: Vec<u8> = (0..300u32).map(|i| (i % 251) as u8).collect();
    let mut stream = vec![0x01, 0x2b];
    stream.extend_from_slice(&run);
    assert_eq!(decode_all(stream, 7, 1000), Ok(run));
}

struct Liar {
    answer: Option<(usize, usize)>,
}

impl Default for Liar {
    fn default() -> Self {
        Liar { answer: Some((0, 3)) }
    }
}

impl Searcher for Liar {
    fn find_longest_match<B>(&mut self, _buf: &B, _key: &[u8]) -> Option<SearchResult>
    where
        B: SizedBuffer<Item = u8>,
    {
        self.answer.map(|(position, length)| SearchResult { position: position, length: length })
    }
}

#[test]
fn reports_that_are_no_matches_are_not_written() {
    let input = sample(300, 11, 5);
    let opts = Lz77Options { window_size: 12 };
    let mut encoder = Lz77Encoder::<Liar>::new(opts).expect("valid window size");
    assert_eq!(encoder.write(&input), input.len());
    encoder.flush();
    assert_eq!(decode_all(encoder.take_output(), 12, 50), Ok(input));
}

#[test]
fn advance_takes_a_match_or_a_literal() {
    let opts = Lz77Options { window_size: 12 };
    let mut encoder = Lz77Encoder::<LinearSearcher>::new(opts).expect("valid window size");
    assert_eq!(encoder.write(b"ababab"), 6);
    // No window yet: the report cannot be a match.
    assert_eq!(encoder.advance(Some(SearchResult { position: 0, length: 2 })), 1);
    assert_eq!(encoder.advance(None), 1);
    assert_eq!(encoder.take_output(), Vec::<u8>::new());
    // "ab" stands at the start of the window, and a byte follows the match.
    assert_eq!(encoder.advance(Some(SearchResult { position: 0, length: 2 })), 3);
    assert_eq!(encoder.take_output(), vec![0x00, 0x01, b'a', b'b', 0x00, 0x22, b'a']);
    // The last byte cannot be matched: nothing would follow it.
    assert_eq!(encoder.advance(Some(SearchResult { position: 1, length: 1 })), 1);
    assert_eq!(encoder.take_output(), Vec::<u8>::new());
    // Nothing is left to step over.
    assert_eq!(encoder.advance(None), 0);
    encoder.flush();
    assert_eq!(encoder.take_output(), vec![0x00, 0x00, b'b']);
}

#[test]
fn stream_fed_in_pieces_decodes_like_the_whole() {
    let input = sample(5000, 21, 6);
    let stream = encode_all(&input, 9, 512);
    for piece in [1usize, 2, 3, 7, 100, 4096] {
        let opts = Lz77Options { window_size: 9 };
        let mut decoder = Lz77Decoder::incremental(opts).expect("valid window size");
        assert!(!decoder.is_closed());
        let mut output = Vec::new();
        let mut chunk = [0u8; 50];
        for part in stream.chunks(piece) {
            assert_eq!(decoder.feed(part), Ok(()));
            loop {
                let n = decoder.read(&mut chunk[..]).expect("no error before the end");
                if n == 0 {
                    break;
                }
                output.extend_from_slice(&chunk[..n]);
            }
        }
        decoder.finish();
        assert!(decoder.is_closed());
        assert_eq!(decoder.read(&mut chunk[..]), Ok(0));
        assert_eq!(output, input);
    }
}

#[test]
fn an_open_stream_waits_where_a_complete_one_fails() {
    let opts = Lz77Options { window_size: 12 };
    let mut decoder = Lz77Decoder::incremental(opts).expect("valid window size");
    let mut chunk = [0u8; 8];
    assert_eq!(decoder.read(&mut chunk[..]), Ok(0));
    assert!(decoder.feed(&[0x00]).is_ok());
    assert_eq!(decoder.read(&mut chunk[..]), Ok(0));
    assert!(decoder.feed(&[0x01, b'a']).is_ok());
    assert_eq!(decoder.read(&mut chunk[..]), Ok(0));
    assert!(decoder.feed(&[b'b', 0x00]).is_ok());
    assert_eq!(decoder.read(&mut chunk[..]), Ok(2));
    assert_eq!(&chunk[..2], b"ab");
    assert_eq!(decoder.read(&mut chunk[..]), Ok(0));
    decoder.finish();
    assert_eq!(decoder.read(&mut chunk[..]), Err(Error::UnexpectedEnd));
    assert_eq!(decoder.feed(&[0x00, b'c']), Err(Error::StreamClosed));
    assert_eq!(decoder.read(&mut chunk[..]), Err(Error::UnexpectedEnd));
}

#[test]
fn a_bad_distance_fails_in_an_open_stream_too() {
    let opts = Lz77Options { window_size: 12 };
    let mut decoder = Lz77Decoder::incremental(opts).expect("valid window size");
    let mut chunk = [0u8; 8];
    assert!(decoder.feed(&[0x00, 0x00, b'a', 0x00, 0x31]).is_ok());
    assert_eq!(decoder.read(&mut chunk[..]), Ok(1));
    assert_eq!(decoder.read(&mut chunk[..]), Err(Error::InvalidDistance));
}

#[test]
fn matches_are_found_while_writing() {
    // With 14 window bits a run holds 4 bytes and the lookahead 5.
    let opts = Lz77Options { window_size: 14 };
    let mut encoder = Lz77Encoder::<LinearSearcher>::new(opts).expect("valid window size");
    assert_eq!(encoder.write(b"aaaaaaaa"), 8);
    assert_eq!(encoder.take_output(), vec![0x00, 0x00, b'a', 0x00, 0x07, b'a']);
    encoder.flush();
    assert_eq!(encoder.take_output(), vec![0x00, 0x16, b'a']);
    let stream = vec![0x00, 0x00, b'a', 0x00, 0x07, b'a', 0x00, 0x16, b'a'];
    assert_eq!(decode_all(stream, 14, 3), Ok(b"aaaaaaaa".to_vec()));
}
