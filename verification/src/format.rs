//! The compressed stream: what its records are, and what a stream of them
//! stands for.
use vstd::prelude::*;
use crate::codeword::{bytes_of_word, field_limit, lemma_fields_round_trip, pack, word_of_bytes};
use crate::errors::Error;

verus! {

/// The most bytes that a match can reach back: the window's capacity.
pub open spec fn window_capacity(window_bits: int) -> int {
    field_limit(window_bits) - 1
}

/// The most bytes that one record can stand for, which is also the length of
/// the longest literal run.
pub open spec fn max_run(window_bits: int) -> int {
    field_limit(16 - window_bits)
}

/// The history after `length` bytes were copied to its end one by one, each
/// from `distance` bytes before the end as it then is.
pub open spec fn replay(hist: Seq<u8>, distance: int, length: int) -> Seq<u8>
    decreases length,
{
    if length <= 0 {
        hist
    } else {
        replay(hist.push(hist[hist.len() - distance]), distance, length - 1)
    }
}

/// The distance field of the token that a stream begins with.
pub open spec fn first_distance(stream: Seq<u8>, window_bits: int) -> int {
    word_of_bytes(stream[0], stream[1]) / field_limit(16 - window_bits)
}

/// The length field of the token that a stream begins with.
pub open spec fn first_length(stream: Seq<u8>, window_bits: int) -> int {
    word_of_bytes(stream[0], stream[1]) % field_limit(16 - window_bits)
}

/// The number of bytes that the first record of a stream takes: a token and
/// either a literal run or one trailing byte.
pub open spec fn record_size(stream: Seq<u8>, window_bits: int) -> int {
    if first_distance(stream, window_bits) == 0 {
        3 + first_length(stream, window_bits)
    } else {
        3
    }
}

/// Why the first record of a non-empty stream cannot be decoded after `hist`,
/// if it cannot.
pub open spec fn record_error(stream: Seq<u8>, hist: Seq<u8>, window_bits: int) -> Option<
    Error,
> {
    if stream.len() < 2 {
        Some(Error::UnexpectedEnd)
    } else if first_distance(stream, window_bits) != 0 && first_length(stream, window_bits) > 0
        && first_distance(stream, window_bits) > hist.len() {
        Some(Error::InvalidDistance)
    } else if stream.len() < record_size(stream, window_bits) {
        Some(Error::UnexpectedEnd)
    } else {
        None
    }
}

/// The history after the first record of a stream was decoded after `hist`.
pub open spec fn record_output(stream: Seq<u8>, hist: Seq<u8>, window_bits: int) -> Seq<u8> {
    if first_distance(stream, window_bits) == 0 {
        hist + stream.subrange(2, 3 + first_length(stream, window_bits))
    } else {
        replay(
            hist,
            first_distance(stream, window_bits),
            first_length(stream, window_bits),
        ).push(stream[2])
    }
}

/// What decoding a stream gives: the bytes decoded up to its end or up to the
/// first record that cannot be decoded, and what was wrong with that record.
pub struct Decoded {
    pub output: Seq<u8>,
    pub error: Option<Error>,
}

/// Decodes `stream` record by record, `hist` being what was decoded before.
pub open spec fn decode(stream: Seq<u8>, hist: Seq<u8>, window_bits: int) -> Decoded
    decreases stream.len(),
{
    if stream.len() == 0 {
        Decoded { output: hist, error: None }
    } else if record_error(stream, hist, window_bits) is Some {
        Decoded { output: hist, error: record_error(stream, hist, window_bits) }
    } else {
        proof {
            vstd::arithmetic::power2::lemma_pow2_pos((16 - window_bits) as nat);
        }
        decode(
            stream.skip(record_size(stream, window_bits)),
            record_output(stream, hist, window_bits),
            window_bits,
        )
    }
}

/// The bytes of a literal-run record.
pub open spec fn literal_record(run: Seq<u8>, window_bits: int) -> Seq<u8> {
    bytes_of_word(pack(16 - window_bits, 0, run.len() - 1)) + run
}

/// The bytes of a match record.
pub open spec fn match_record(distance: int, length: int, next: u8, window_bits: int) -> Seq<u8> {
    bytes_of_word(pack(16 - window_bits, distance, length)).push(next)
}

/// Each field of a token holds between 2 and 32768 values, and the two
/// together 65536.
pub proof fn lemma_limits(window_bits: int)
    requires
        1 <= window_bits <= 15,
    ensures
        2 <= field_limit(window_bits) <= 0x8000,
        2 <= field_limit(16 - window_bits) <= 0x8000,
        field_limit(window_bits) * field_limit(16 - window_bits) == 0x10000,
{
    vstd::arithmetic::power2::lemma_pow2_adds(window_bits as nat, (16 - window_bits) as nat);
    vstd::arithmetic::power2::lemma2_to64();
    vstd::arithmetic::power2::lemma_pow2_strictly_increases(0, window_bits as nat);
    vstd::arithmetic::power2::lemma_pow2_strictly_increases(0, (16 - window_bits) as nat);
    vstd::arithmetic::power2::lemma_pow2_strictly_increases(window_bits as nat, 16);
    vstd::arithmetic::power2::lemma_pow2_strictly_increases((16 - window_bits) as nat, 16);
    let p = field_limit(window_bits);
    let q = field_limit(16 - window_bits);
    assert(p <= 0x8000 && q <= 0x8000) by (nonlinear_arith)
        requires
            p * q == 0x10000,
            p >= 2,
            q >= 2,
    ;
}

/// A replay keeps the history and adds `length` bytes to it.
pub proof fn lemma_replay_extends(hist: Seq<u8>, distance: int, length: int)
    requires
        length >= 0,
    ensures
        replay(hist, distance, length).len() == hist.len() + length,
        replay(hist, distance, length).subrange(0, hist.len() as int) == hist,
    decreases length,
{
    if length > 0 {
        let next = hist.push(hist[hist.len() - distance]);
        lemma_replay_extends(next, distance, length - 1);
        let r = replay(hist, distance, length);
        assert(r.subrange(0, hist.len() as int) =~= r.subrange(0, next.len() as int).subrange(
            0,
            hist.len() as int,
        ));
        assert(next.subrange(0, hist.len() as int) =~= hist);
    } else {
        assert(hist.subrange(0, hist.len() as int) =~= hist);
    }
}

/// Decoding a record keeps the history.
pub proof fn lemma_record_extends(stream: Seq<u8>, hist: Seq<u8>, window_bits: int)
    requires
        1 <= window_bits <= 15,
        stream.len() > 0,
        record_error(stream, hist, window_bits) is None,
    ensures
        record_output(stream, hist, window_bits).len() == hist.len() + first_length(
            stream,
            window_bits,
        ) + 1,
        record_output(stream, hist, window_bits).subrange(0, hist.len() as int) == hist,
        0 <= first_length(stream, window_bits) < max_run(window_bits),
        0 <= first_distance(stream, window_bits) <= window_capacity(window_bits),
        3 <= record_size(stream, window_bits) <= stream.len(),
{
    lemma_limits(window_bits);
    let p = field_limit(16 - window_bits);
    let q = field_limit(window_bits);
    let w = word_of_bytes(stream[0], stream[1]);
    assert(0 <= w % p < p && 0 <= w / p < q) by (nonlinear_arith)
        requires
            0 <= w < 0x10000,
            p * q == 0x10000,
            p > 0,
    ;
    let d = first_distance(stream, window_bits);
    let l = first_length(stream, window_bits);
    let out = record_output(stream, hist, window_bits);
    if d == 0 {
        assert(out.subrange(0, hist.len() as int) =~= hist);
    } else {
        lemma_replay_extends(hist, d, l);
        let r = replay(hist, d, l);
        assert(out.subrange(0, hist.len() as int) =~= r.subrange(0, hist.len() as int));
    }
}

/// Whatever a stream decodes to begins with what was decoded before it.
pub proof fn lemma_decode_extends(stream: Seq<u8>, hist: Seq<u8>, window_bits: int)
    requires
        1 <= window_bits <= 15,
    ensures
        decode(stream, hist, window_bits).output.len() >= hist.len(),
        decode(stream, hist, window_bits).output.subrange(0, hist.len() as int) == hist,
    decreases stream.len(),
{
    if stream.len() == 0 || record_error(stream, hist, window_bits) is Some {
        assert(hist.subrange(0, hist.len() as int) =~= hist);
    } else {
        lemma_record_extends(stream, hist, window_bits);
        let next = record_output(stream, hist, window_bits);
        let rest = stream.skip(record_size(stream, window_bits));
        lemma_decode_extends(rest, next, window_bits);
        let out = decode(stream, hist, window_bits).output;
        assert(out.subrange(0, hist.len() as int) =~= out.subrange(0, next.len() as int).subrange(
            0,
            hist.len() as int,
        ));
    }
}

/// A stream that decodes without error can be decoded in two parts: what
/// follows it is decoded after what it stands for.
pub proof fn lemma_decode_concat(
    head: Seq<u8>,
    tail: Seq<u8>,
    hist: Seq<u8>,
    window_bits: int,
)
    requires
        1 <= window_bits <= 15,
        decode(head, hist, window_bits).error is None,
    ensures
        decode(head + tail, hist, window_bits) == decode(
            tail,
            decode(head, hist, window_bits).output,
            window_bits,
        ),
    decreases head.len(),
{
    if head.len() == 0 {
        assert(head + tail =~= tail);
    } else {
        let whole = head + tail;
        lemma_record_extends(head, hist, window_bits);
        assert(whole[0] == head[0] && whole[1] == head[1] && whole[2] == head[2]);
        let size = record_size(head, window_bits);
        assert(record_size(whole, window_bits) == size);
        assert(whole.subrange(2, size) =~= head.subrange(2, size));
        assert(record_output(whole, hist, window_bits) == record_output(head, hist, window_bits));
        assert(record_error(whole, hist, window_bits) is None);
        assert(whole.skip(size) =~= head.skip(size) + tail);
        lemma_decode_concat(
            head.skip(size),
            tail,
            record_output(head, hist, window_bits),
            window_bits,
        );
    }
}

/// A literal-run record decodes to its run.
pub proof fn lemma_literal_record(run: Seq<u8>, hist: Seq<u8>, window_bits: int)
    requires
        1 <= window_bits <= 15,
        1 <= run.len() <= max_run(window_bits),
    ensures
        decode(literal_record(run, window_bits), hist, window_bits) == (Decoded {
            output: hist + run,
            error: None,
        }),
{
    let record = literal_record(run, window_bits);
    lemma_limits(window_bits);
    lemma_fields_round_trip(16 - window_bits, 0, run.len() - 1);
    assert(first_distance(record, window_bits) == 0);
    assert(first_length(record, window_bits) == run.len() - 1);
    assert(record.subrange(2, 2 + run.len() as int) =~= run);
    let size = record_size(record, window_bits);
    assert(record.skip(size).len() == 0);
    assert(decode(record.skip(size), hist + run, window_bits) == (Decoded {
        output: hist + run,
        error: None,
    }));
    assert(decode(record, hist, window_bits) == decode(
        record.skip(size),
        hist + run,
        window_bits,
    ));
}

/// A match record decodes to a replay and its trailing byte.
pub proof fn lemma_match_record(
    distance: int,
    length: int,
    next: u8,
    hist: Seq<u8>,
    window_bits: int,
)
    requires
        1 <= window_bits <= 15,
        1 <= distance <= window_capacity(window_bits),
        0 <= length < max_run(window_bits),
        length > 0 ==> distance <= hist.len(),
    ensures
        decode(match_record(distance, length, next, window_bits), hist, window_bits) == (Decoded {
            output: replay(hist, distance, length).push(next),
            error: None,
        }),
{
    let record = match_record(distance, length, next, window_bits);
    lemma_limits(window_bits);
    lemma_fields_round_trip(16 - window_bits, distance, length);
    assert(first_distance(record, window_bits) == distance);
    assert(first_length(record, window_bits) == length);
    let out = replay(hist, distance, length).push(next);
    assert(record[2] == next);
    assert(record.skip(3).len() == 0);
    assert(decode(record.skip(3), out, window_bits) == (Decoded { output: out, error: None }));
    assert(decode(record, hist, window_bits) == decode(record.skip(3), out, window_bits));
}

/// Where the bytes ahead repeat what stands `distance` bytes before them,
/// replaying the history produces exactly those bytes, also where the copy
/// runs into what it has just produced.
pub proof fn lemma_replay_copies(hist: Seq<u8>, distance: int, ahead: Seq<u8>, length: int)
    requires
        1 <= distance <= hist.len(),
        0 <= length <= ahead.len(),
        forall|j: int| 0 <= j < length ==> (hist + ahead)[hist.len() - distance + j] == ahead[j],
    ensures
        replay(hist, distance, length) == hist + ahead.take(length),
    decreases length,
{
    if length == 0 {
        assert(hist + ahead.take(0) =~= hist);
    } else {
        assert((hist + ahead)[hist.len() - distance + 0] == ahead[0]);
        let grown = hist.push(ahead[0]);
        let rest = ahead.skip(1);
        assert forall|j: int| 0 <= j < length - 1 implies (grown + rest)[grown.len() - distance
            + j] == rest[j] by {
            assert((hist + ahead)[hist.len() - distance + (j + 1)] == ahead[j + 1]);
            assert(grown + rest =~= hist + ahead);
        }
        lemma_replay_copies(grown, distance, rest, length - 1);
        assert(grown + rest.take(length - 1) =~= hist + ahead.take(length));
    }
}

} // verus!
