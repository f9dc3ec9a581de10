//! The decoder: it turns a compressed stream back into the bytes that it
//! stands for, and hands them out in pieces as large as the caller asks.
use vstd::prelude::*;
use vstd::slice::slice_subrange;
use crate::Lz77Options;
use crate::buffer::{retained, lemma_retained_append, RingBuffer, SizedBuffer};
use crate::codeword::{field_values, CodeWord};
use crate::errors::Error;
use crate::format::{
    decode, first_distance, first_length, lemma_decode_concat, lemma_decode_extends,
    lemma_limits, lemma_record_extends, max_run, record_error, record_output, record_size,
    replay, window_capacity, Decoded,
};

verus! {

/// Where the decoder stands between two records.
#[derive(Clone, Copy)]
enum DecoderState {
    /// The next token is due.
    NoData,
    /// So many of the newest bytes of the window still wait for the caller.
    Data(usize),
    /// The stream has ended at a token boundary.
    Drained,
}

/// The capacity of the decoder's window: it reaches back as far as a match
/// can, and holds at least the bytes of one record until they are fetched.
pub open spec fn decoder_window(window_bits: int) -> int {
    if window_capacity(window_bits) >= max_run(window_bits) {
        window_capacity(window_bits)
    } else {
        max_run(window_bits)
    }
}

/// Decoding the first record alone gives what that record adds.
pub proof fn lemma_decode_one_record(stream: Seq<u8>, hist: Seq<u8>, window_bits: int)
    requires
        1 <= window_bits <= 15,
        stream.len() > 0,
        record_error(stream, hist, window_bits) is None,
    ensures
        decode(stream.subrange(0, record_size(stream, window_bits)), hist, window_bits) == (Decoded {
            output: record_output(stream, hist, window_bits),
            error: None,
        }),
{
    lemma_record_extends(stream, hist, window_bits);
    let size = record_size(stream, window_bits);
    let one = stream.subrange(0, size);
    assert(one[0] == stream[0] && one[1] == stream[1] && one[2] == stream[2]);
    assert(one.subrange(2, size) =~= stream.subrange(2, size));
    assert(record_size(one, window_bits) == size);
    assert(record_error(one, hist, window_bits) is None);
    assert(record_output(one, hist, window_bits) == record_output(stream, hist, window_bits));
    let out = record_output(stream, hist, window_bits);
    assert(one.skip(size).len() == 0);
    assert(decode(one.skip(size), out, window_bits) == (Decoded { output: out, error: None }));
    assert(decode(one, hist, window_bits) == decode(one.skip(size), out, window_bits));
}

/// A decoder over a compressed stream that is handed to it whole or piece
/// by piece.
pub struct Lz77Decoder {
    inner: Vec<u8>,
    pos: usize,
    closed: bool,
    dropped: Ghost<Seq<u8>>,
    window: RingBuffer<u8>,
    state: DecoderState,
    options: Lz77Options,
    produced: Ghost<Seq<u8>>,
}

impl Lz77Decoder {
    /// The compressed stream as far as the decoder has been given it.
    pub closed spec fn source(&self) -> Seq<u8> {
        self.dropped@ + self.inner@
    }

    /// Whether the stream is complete: no more of it will be fed.
    pub closed spec fn closed(&self) -> bool {
        self.closed
    }

    /// The window size that the stream is read with.
    pub closed spec fn window_bits(&self) -> int {
        self.options.window_size as int
    }

    /// How many decoded bytes the caller has been given so far.
    pub closed spec fn delivered(&self) -> int {
        match self.state {
            DecoderState::Data(n) => self.produced@.len() - n,
            _ => self.produced@.len() as int,
        }
    }

    /// All the bytes that the stream stands for, up to its end or to its
    /// first record that cannot be decoded.
    pub open spec fn output(&self) -> Seq<u8> {
        decode(self.source(), Seq::empty(), self.window_bits()).output
    }

    /// What is wrong with the stream as far as it was given, if anything is.
    pub open spec fn error(&self) -> Option<Error> {
        decode(self.source(), Seq::empty(), self.window_bits()).error
    }

    /// Whether the stream cannot be decoded any further, whatever is fed: it
    /// holds a match that reaches too far back, or it is complete and ends
    /// inside a record.
    pub open spec fn broken(&self) -> bool {
        self.error() is Some && (self.closed() || self.error() != Some(Error::UnexpectedEnd))
    }

    /// The part of the stream that is still to be decoded.
    spec fn rest(&self) -> Seq<u8> {
        self.inner@.skip(self.pos as int)
    }

    /// The window holds the newest of the bytes decoded so far, and these are
    /// what the consumed part of the stream stands for.
    pub closed spec fn wf(&self) -> bool {
        &&& self.options.valid()
        &&& self.window.wf()
        &&& self.window.capacity() == decoder_window(self.window_bits())
        &&& self.window@ == retained(self.produced@, self.window.capacity())
        &&& self.pos <= self.inner@.len()
        &&& decode(
            self.source().subrange(0, self.dropped@.len() + self.pos),
            Seq::empty(),
            self.window_bits(),
        ) == (Decoded { output: self.produced@, error: None })
        &&& match self.state {
            DecoderState::Data(n) => 1 <= n <= self.window@.len(),
            DecoderState::NoData => true,
            DecoderState::Drained => self.closed && self.pos == self.inner@.len(),
        }
    }

    /// What is decoded from here on is what the whole stream decodes to.
    proof fn lemma_rest(&self)
        requires
            self.wf(),
        ensures
            decode(self.source(), Seq::empty(), self.window_bits()) == decode(
                self.rest(),
                self.produced@,
                self.window_bits(),
            ),
            self.produced@.len() <= self.output().len(),
            self.output().subrange(0, self.produced@.len() as int) == self.produced@,
            0 <= self.delivered() <= self.output().len(),
    {
        let head = self.source().subrange(0, self.dropped@.len() + self.pos);
        assert(head + self.rest() =~= self.source());
        lemma_decode_concat(head, self.rest(), Seq::empty(), self.window_bits());
        lemma_decode_extends(self.rest(), self.produced@, self.window_bits());
    }

    /// A decoder at the start of the complete stream `reader`.
    pub fn new(reader: Vec<u8>, options: Lz77Options) -> (res: Result<Self, Error>)
        ensures
            res is Ok <==> options.valid(),
            res matches Ok(decoder) ==> decoder.wf() && decoder.source() == reader@
                && decoder.closed() && decoder.window_bits() == options.window_size
                && decoder.delivered() == 0,
            res matches Err(e) ==> e == Error::InvalidWindowSize,
    {
        match Lz77Decoder::incremental(options) {
            Ok(mut decoder) => {
                decoder.inner = reader;
                decoder.closed = true;
                assert(decoder.source() =~= reader@);
                assert(decoder.source().subrange(0, 0) =~= Seq::<u8>::empty());
                Ok(decoder)
            },
            Err(e) => Err(e),
        }
    }

    /// A decoder that has been given nothing of its stream yet: `feed` hands
    /// it the stream in pieces, and `finish` tells it that the stream is
    /// complete.
    pub fn incremental(options: Lz77Options) -> (res: Result<Self, Error>)
        ensures
            res is Ok <==> options.valid(),
            res matches Ok(decoder) ==> decoder.wf() && decoder.source() == Seq::<u8>::empty()
                && !decoder.closed() && decoder.window_bits() == options.window_size
                && decoder.delivered() == 0,
            res matches Err(e) ==> e == Error::InvalidWindowSize,
    {
        if options.window_size == 0 || options.window_size >= 16 {
            return Err(Error::InvalidWindowSize);
        }
        let reach = field_values(options.window_size) - 1;
        let run = field_values(16 - options.window_size);
        let size = if reach >= run { reach } else { run };
        let decoder = Lz77Decoder {
            inner: Vec::new(),
            pos: 0,
            closed: false,
            dropped: Ghost(Seq::empty()),
            window: RingBuffer::new(size),
            state: DecoderState::NoData,
            options: options,
            produced: Ghost(Seq::empty()),
        };
        assert(decoder.source() =~= Seq::<u8>::empty());
        assert(decoder.source().subrange(0, 0) =~= Seq::<u8>::empty());
        Ok(decoder)
    }

    /// Whether the decoder has been told that its stream is complete.
    pub fn is_closed(&self) -> (closed: bool)
        ensures
            closed == self.closed(),
    {
        self.closed
    }

    /// Appends `bytes` to the stream, unless the stream has been declared
    /// complete. The part of the stream that has been decoded is dropped from
    /// memory on the way.
    pub fn feed(&mut self, bytes: &[u8]) -> (res: Result<(), Error>)
        requires
            old(self).wf(),
        ensures
            final(self).wf(),
            final(self).closed() == old(self).closed(),
            final(self).window_bits() == old(self).window_bits(),
            final(self).delivered() == old(self).delivered(),
            res is Ok <==> !old(self).closed(),
            res is Ok ==> final(self).source() == old(self).source() + bytes@,
            res matches Err(e) ==> e == Error::StreamClosed && final(self).source() == old(
                self,
            ).source(),
    {
        if self.closed {
            return Err(Error::StreamClosed);
        }
        let ghost source = self.source();
        let ghost done = self.dropped@.len() + self.pos;
        let total = self.inner.len();
        let mut kept: Vec<u8> = Vec::new();
        let mut i: usize = self.pos;
        while i < total
            invariant
                self.pos <= i <= total,
                total == self.inner@.len(),
                kept@ == self.inner@.subrange(self.pos as int, i as int),
            decreases total - i,
        {
            kept.push(self.inner[i]);
            i += 1;
            assert(kept@ =~= self.inner@.subrange(self.pos as int, i as int));
        }
        let mut j: usize = 0;
        while j < bytes.len()
            invariant
                j <= bytes@.len(),
                kept@ == self.inner@.subrange(self.pos as int, total as int) + bytes@.take(j as int),
            decreases bytes@.len() - j,
        {
            kept.push(bytes[j]);
            j += 1;
            assert(kept@ =~= self.inner@.subrange(self.pos as int, total as int) + bytes@.take(
                j as int,
            ));
        }
        proof {
            assert(bytes@.take(bytes@.len() as int) =~= bytes@);
            self.dropped@ = self.dropped@ + self.inner@.take(self.pos as int);
        }
        self.inner = kept;
        self.pos = 0;
        proof {
            assert(self.source() =~= source + bytes@);
            assert(self.source().subrange(0, done) =~= source.subrange(0, done));
        }
        Ok(())
    }

    /// Tells the decoder that its stream is complete.
    pub fn finish(&mut self)
        requires
            old(self).wf(),
        ensures
            final(self).wf(),
            final(self).closed(),
            final(self).source() == old(self).source(),
            final(self).window_bits() == old(self).window_bits(),
            final(self).delivered() == old(self).delivered(),
    {
        self.closed = true;
    }

    /// The token that the rest of the stream begins with.
    fn read_token(&self) -> (res: Result<CodeWord, Error>)
        requires
            self.wf(),
        ensures
            res is Ok <==> self.rest().len() >= 2,
            res matches Ok(token) ==> token.wf() && token.length_bits() == 16 - self.window_bits()
                && token.distance() == first_distance(self.rest(), self.window_bits())
                && token.length() == first_length(self.rest(), self.window_bits()),
            res matches Err(e) ==> e == Error::UnexpectedEnd,
    {
        if self.inner.len() - self.pos < 2 {
            return Err(Error::UnexpectedEnd);
        }
        let token_buf = slice_subrange(self.inner.as_slice(), self.pos, self.pos + 2);
        match CodeWord::new(16 - self.options.window_size) {
            Ok(mut cw) => {
                cw.read(token_buf);
                Ok(cw)
            },
            Err(_) => Err(Error::UnexpectedEnd),
        }
    }

    /// Decodes the record that the rest of the stream begins with into the
    /// window, or says what is wrong with it and changes nothing.
    fn next_record(&mut self) -> (res: Result<(), Error>)
        requires
            old(self).wf(),
            old(self).state is NoData,
            old(self).rest().len() > 0,
        ensures
            final(self).wf(),
            final(self).source() == old(self).source(),
            final(self).window_bits() == old(self).window_bits(),
            final(self).closed() == old(self).closed(),
            final(self).delivered() == old(self).delivered(),
            res is Ok ==> final(self).state is Data,
            res matches Err(e) ==> final(self).state is NoData && record_error(
                old(self).rest(),
                old(self).produced@,
                old(self).window_bits(),
            ) == Some(e) && final(self).pos == old(self).pos && final(self).produced@ == old(
                self,
            ).produced@,
    {
        let ghost hist = self.produced@;
        let ghost rest = self.rest();
        let ghost bits = self.window_bits();
        let ghost cap = self.window.capacity();
        let ghost done = self.dropped@.len() + self.pos;
        let ghost head = self.source().subrange(0, done);
        let token = match self.read_token() {
            Ok(token) => token,
            Err(e) => {
                return Err(e);
            },
        };
        let distance = token.get_distance() as usize;
        let length = token.get_length() as usize;
        proof {
            lemma_limits(bits);
            assert(rest.len() == self.inner@.len() - self.pos);
            assert(self.rest().len() >= 2);
            assert(self.pos + 2 <= self.inner@.len());
        }
        let total = self.inner.len();
        if distance == 0 {
            let payload = slice_subrange(self.inner.as_slice(), self.pos + 2, total);
            match self.window.read_to_buf(payload, length + 1) {
                Ok(()) => {},
                Err(e) => {
                    return Err(e);
                },
            }
            proof {
                assert(payload@.subrange(0, length + 1) =~= rest.subrange(2, 3 + length));
                lemma_retained_append(hist, rest.subrange(2, 3 + length), cap);
            }
            self.pos = self.pos + 3 + length;
        } else {
            if length > 0 && distance > self.window.len() {
                return Err(Error::InvalidDistance);
            }
            if total - self.pos < 3 {
                return Err(Error::UnexpectedEnd);
            }
            let ghost mut cur = hist;
            let mut k: usize = 0;
            while k < length
                invariant
                    self.window.wf(),
                    self.window.capacity() == cap,
                    self.window@ == retained(cur, cap),
                    cur.len() == hist.len() + k,
                    length > 0 ==> 1 <= distance <= self.window@.len(),
                    distance <= cap,
                    k <= length,
                    replay(hist, distance as int, length as int) == replay(
                        cur,
                        distance as int,
                        length - k,
                    ),
                    self.inner == old(self).inner,
                    self.pos == old(self).pos,
                    self.closed == old(self).closed,
                    self.dropped == old(self).dropped,
                    self.options == old(self).options,
                    self.state == old(self).state,
                    self.produced == old(self).produced,
                decreases length - k,
            {
                let idx = self.window.len() - distance;
                let c = *self.window.at(idx);
                self.window.push(c);
                proof {
                    assert(c == cur[cur.len() - distance]);
                    lemma_retained_append(cur, seq![c], cap);
                    assert(retained(cur, cap) + seq![c] =~= retained(cur, cap).push(c));
                    assert(cur + seq![c] =~= cur.push(c));
                    cur = cur.push(c);
                }
                k += 1;
            }
            let next = self.inner[self.pos + 2];
            self.window.push(next);
            proof {
                assert(rest[2] == next);
                assert(cur == replay(hist, distance as int, length as int));
                lemma_retained_append(cur, seq![next], cap);
                assert(retained(cur, cap) + seq![next] =~= retained(cur, cap).push(next));
                assert(cur + seq![next] =~= cur.push(next));
            }
            self.pos = self.pos + 3;
        }
        self.state = DecoderState::Data(length + 1);
        proof {
            let out = record_output(rest, hist, bits);
            let size = record_size(rest, bits);
            self.produced@ = out;
            lemma_record_extends(rest, hist, bits);
            lemma_decode_one_record(rest, hist, bits);
            lemma_decode_concat(head, rest.subrange(0, size), Seq::empty(), bits);
            assert(head + rest.subrange(0, size) =~= self.source().subrange(0, done + size));
        }
        Ok(())
    }

    /// Hands the caller the next decoded bytes: as many as `buf` takes, or
    /// fewer where the stream ends or goes wrong before. What goes wrong is
    /// reported once everything before it has been handed out, and again on
    /// every call after that; a complete stream that ends at a token boundary
    /// gives zero bytes from then on. While the stream is not complete, its
    /// end is no error, wherever it falls: the decoder hands out what it has
    /// and waits for more.
    pub fn read(&mut self, buf: &mut [u8]) -> (res: Result<usize, Error>)
        requires
            old(self).wf(),
        ensures
            final(self).wf(),
            final(self).source() == old(self).source(),
            final(self).window_bits() == old(self).window_bits(),
            final(self).closed() == old(self).closed(),
            final(buf)@.len() == old(buf)@.len(),
            res is Err <==> old(buf)@.len() > 0 && old(self).delivered() == old(self).output().len()
                && old(self).broken(),
            res matches Err(e) ==> old(self).error() == Some(e) && final(self).delivered() == old(
                self,
            ).delivered() && final(buf)@ == old(buf)@,
            res matches Ok(n) ==> {
                &&& n <= old(buf)@.len()
                &&& n <= old(self).output().len() - old(self).delivered()
                &&& n == old(buf)@.len() || n == old(self).output().len() - old(self).delivered()
                &&& final(self).delivered() == old(self).delivered() + n
                &&& final(buf)@.subrange(0, n as int) == old(self).output().subrange(
                    old(self).delivered(),
                    old(self).delivered() + n,
                )
                &&& forall|i: int| n <= i < old(buf)@.len() ==> final(buf)@[i] == old(buf)@[i]
            },
    {
        let ghost out = self.output();
        let ghost start = self.delivered();
        let len = buf.len();
        let mut pos: usize = 0;
        let mut done = false;
        proof {
            self.lemma_rest();
            assert(buf@.subrange(0, 0) =~= out.subrange(start, start));
        }
        while pos < len && !done
            invariant
                self.wf(),
                self.source() == old(self).source(),
                self.window_bits() == old(self).window_bits(),
                self.closed() == old(self).closed(),
                out == self.output(),
                buf@.len() == len,
                len == old(buf)@.len(),
                pos <= len,
                0 <= start,
                start == old(self).delivered(),
                out == old(self).output(),
                self.delivered() == start + pos,
                start + pos <= out.len(),
                buf@.subrange(0, pos as int) == out.subrange(start, start + pos),
                forall|i: int| pos <= i < len ==> buf@[i] == old(buf)@[i],
                done ==> self.delivered() == out.len() && (pos > 0 || !self.broken()),
            decreases
                    if done { 0int } else { 1int },
                    len - pos,
                    match self.state {
                        DecoderState::NoData => 1int,
                        _ => 0int,
                    },
        {
            proof {
                self.lemma_rest();
            }
            match self.state {
                DecoderState::Drained => {
                    done = true;
                },
                DecoderState::Data(size) => {
                    let left = len - pos;
                    let copy_size = if left < size { left } else { size };
                    let window_start = self.window.len() - size;
                    let ghost before = buf@;
                    let mut i: usize = 0;
                    while i < copy_size
                        invariant
                            self.wf(),
                            self.state == DecoderState::Data(size),
                            out == self.output(),
                            buf@.len() == len,
                            i <= copy_size,
                            pos + copy_size <= len,
                            copy_size <= size,
                            window_start + size == self.window@.len(),
                            window_start + size <= usize::MAX,
                            before.len() == len,
                            0 <= start,
                            self.delivered() == start + pos,
                            forall|j: int| 0 <= j < pos ==> buf@[j] == before[j],
                            forall|j: int| pos + i <= j < len ==> buf@[j] == before[j],
                            forall|j: int|
                                pos <= j < pos + i ==> buf@[j] == out[start + j],
                        decreases copy_size - i,
                    {
                        proof {
                            self.lemma_rest();
                            let at = self.produced@.len() - size + i;
                            assert(self.window@[window_start + i] == self.produced@[at]);
                            assert(out.subrange(0, self.produced@.len() as int)[at] == out[at]);
                        }
                        buf[pos + i] = *self.window.at(window_start + i);
                        i += 1;
                    }
                    if size - copy_size == 0 {
                        self.state = DecoderState::NoData;
                    } else {
                        self.state = DecoderState::Data(size - copy_size);
                    }
                    proof {
                        assert(buf@.subrange(0, pos + copy_size) =~= out.subrange(
                            start,
                            start + pos + copy_size,
                        )) by {
                            assert forall|j: int| 0 <= j < pos + copy_size implies buf@[j]
                                == out[start + j] by {
                                if j < pos {
                                    assert(buf@[j] == before.subrange(0, pos as int)[j]);
                                }
                            }
                        }
                    }
                    pos += copy_size;
                },
                DecoderState::NoData => {
                    if self.pos == self.inner.len() {
                        if self.closed {
                            self.state = DecoderState::Drained;
                        }
                        done = true;
                    } else {
                        let ghost rest = self.rest();
                        let ghost hist = self.produced@;
                        match self.next_record() {
                            Ok(()) => {},
                            Err(e) => {
                                assert(decode(rest, hist, self.window_bits()) == (Decoded {
                                    output: hist,
                                    error: Some(e),
                                }));
                                let starved = !self.closed && e == Error::UnexpectedEnd;
                                if pos == 0 && !starved {
                                    assert(buf@ =~= old(buf)@);
                                    return Err(e);
                                }
                                done = true;
                            },
                        }
                    }
                },
            }
        }
        proof {
            self.lemma_rest();
        }
        Ok(pos)
    }
}

} // verus!
