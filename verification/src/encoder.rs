//! The encoder: it takes raw bytes in pieces of any size and turns them into
//! the compressed stream.
use vstd::prelude::*;
use vstd::slice::slice_subrange;
use crate::Lz77Options;
use crate::buffer::{lemma_retained_append, retained, CombinedBuffer, RingBuffer, SizedBuffer};
use crate::codeword::{field_values, CodeWord};
use crate::errors::Error;
use crate::format::{
    decode, lemma_decode_concat, lemma_limits, lemma_literal_record, lemma_match_record,
    lemma_replay_copies, literal_record, match_record, max_run, replay, window_capacity, Decoded,
};
use crate::searcher::linear_search::linear_result;
use crate::searcher::{lemma_agreement, match_length, SearchResult, Searcher};

verus! {

/// What the encoder does with the byte at the front of its lookahead.
enum Lz77EncoderToken {
    /// It joins the pending literal run.
    Literal,
    /// It begins a match of the given distance and length.
    Match(usize, usize),
}

/// Whether a reported match can be written as a record: it begins inside the
/// window, leaves at least one byte of the lookahead for the trailing byte,
/// fits the length field, and covers equal bytes.
pub open spec fn usable(window: Seq<u8>, ahead: Seq<u8>, window_bits: int, found: SearchResult) -> bool {
    &&& found.position < window.len()
    &&& found.length < ahead.len()
    &&& found.length < max_run(window_bits)
    &&& forall|j: int|
        0 <= j < found.length ==> (window + ahead)[found.position + j] == #[trigger] ahead[j]
}

/// Whether the encoder writes a match record for what the match finder
/// reported.
pub open spec fn takes_match(
    window: Seq<u8>,
    ahead: Seq<u8>,
    window_bits: int,
    found: Option<SearchResult>,
) -> bool {
    found is Some && usable(window, ahead, window_bits, found->0)
}

/// How many bytes of the lookahead one step moves into the window.
pub open spec fn step_taken(
    window: Seq<u8>,
    ahead: Seq<u8>,
    window_bits: int,
    found: Option<SearchResult>,
) -> int {
    if takes_match(window, ahead, window_bits, found) {
        found->0.length + 1
    } else {
        1
    }
}

/// The bytes that one step adds to the compressed stream: for a match the
/// pending literal run, if there is one, and the match record; for a literal
/// nothing, unless it fills the run, which is then written.
pub open spec fn step_emitted(
    window: Seq<u8>,
    ahead: Seq<u8>,
    literals: Seq<u8>,
    window_bits: int,
    found: Option<SearchResult>,
) -> Seq<u8> {
    if takes_match(window, ahead, window_bits, found) {
        let run = if literals.len() > 0 {
            literal_record(literals, window_bits)
        } else {
            Seq::empty()
        };
        run + match_record(
            window.len() - found->0.position,
            found->0.length as int,
            ahead[found->0.length as int],
            window_bits,
        )
    } else if literals.len() + 1 == max_run(window_bits) {
        literal_record(literals.push(ahead[0]), window_bits)
    } else {
        Seq::empty()
    }
}

/// The pending literal run after one step.
pub open spec fn step_literals(
    window: Seq<u8>,
    ahead: Seq<u8>,
    literals: Seq<u8>,
    window_bits: int,
    found: Option<SearchResult>,
) -> Seq<u8> {
    if takes_match(window, ahead, window_bits, found) || literals.len() + 1 == max_run(
        window_bits,
    ) {
        Seq::empty()
    } else {
        literals.push(ahead[0])
    }
}

/// How far the encoder has come with its input.
pub struct Progress {
    /// The input bytes that have left the lookahead.
    pub history: Seq<u8>,
    /// The input bytes after them: the lookahead, and what is still to be
    /// taken into it.
    pub ahead: Seq<u8>,
    /// The literal run that waits to be written.
    pub literals: Seq<u8>,
    /// The compressed stream as far as it has been produced.
    pub emitted: Seq<u8>,
}

/// The lookahead that the encoder holds when `ahead` is the input still to
/// be encoded: one byte more than the longest run, or all that is left.
pub open spec fn lookahead_of(ahead: Seq<u8>, window_bits: int) -> Seq<u8> {
    if ahead.len() <= max_run(window_bits) + 1 {
        ahead
    } else {
        ahead.take(max_run(window_bits) + 1)
    }
}

/// The progress after one step with the report `found`.
pub open spec fn step(p: Progress, window_bits: int, found: Option<SearchResult>) -> Progress {
    let window = retained(p.history, window_capacity(window_bits));
    let lookahead = lookahead_of(p.ahead, window_bits);
    let taken = step_taken(window, lookahead, window_bits, found);
    Progress {
        history: p.history + lookahead.take(taken),
        ahead: p.ahead.skip(taken),
        literals: step_literals(window, lookahead, p.literals, window_bits, found),
        emitted: p.emitted + step_emitted(window, lookahead, p.literals, window_bits, found),
    }
}

/// The progress after one step for each of `reports`, in their order.
pub open spec fn stepped(
    p: Progress,
    window_bits: int,
    reports: Seq<Option<SearchResult>>,
) -> Progress
    decreases reports.len(),
{
    if reports.len() == 0 {
        p
    } else {
        step(stepped(p, window_bits, reports.drop_last()), window_bits, reports.last())
    }
}

/// Whether `report` is what a match finder of the strategy `S` may report
/// when it is asked, at the progress `p`, for the first `key_len` bytes of
/// the lookahead in window and lookahead taken together.
pub open spec fn reported_by<S: Searcher>(
    p: Progress,
    window_bits: int,
    key_len: int,
    report: Option<SearchResult>,
) -> bool {
    S::promised(
        retained(p.history, window_capacity(window_bits)) + lookahead_of(p.ahead, window_bits),
        lookahead_of(p.ahead, window_bits).take(key_len),
        report,
    )
}

/// An encoder that collects the compressed stream in memory; `take_output`
/// hands over what has been collected.
pub struct Lz77Encoder<S> where S: Searcher + Default {
    out: Vec<u8>,
    searcher: S,
    window: RingBuffer<u8>,
    unmatched_data: Vec<u8>,
    forward_search_size: usize,
    output_buffer: Vec<u8>,
    options: Lz77Options,
    consumed: Ghost<Seq<u8>>,
    emitted: Ghost<Seq<u8>>,
    reports: Ghost<Seq<Option<SearchResult>>>,
}

impl<S> Lz77Encoder<S> where S: Searcher + Default {
    /// The window size that the stream is written with.
    pub closed spec fn window_bits(&self) -> int {
        self.options.window_size as int
    }

    /// The input bytes that have left the lookahead, oldest first.
    pub closed spec fn history(&self) -> Seq<u8> {
        self.consumed@
    }

    /// What the window holds: the newest bytes of the history.
    pub closed spec fn window(&self) -> Seq<u8> {
        self.window@
    }

    /// The input bytes that wait to be matched.
    pub closed spec fn lookahead(&self) -> Seq<u8> {
        self.unmatched_data@
    }

    /// The literal run that waits to be written.
    pub closed spec fn literals(&self) -> Seq<u8> {
        self.output_buffer@
    }

    /// The compressed stream as far as it has been produced.
    pub closed spec fn emitted(&self) -> Seq<u8> {
        self.emitted@
    }

    /// The end of the compressed stream that has not been taken yet.
    pub closed spec fn pending_output(&self) -> Seq<u8> {
        self.out@
    }

    /// The reports of the match finder that the encoder has acted on, one
    /// for each step that it has taken.
    pub closed spec fn reports(&self) -> Seq<Option<SearchResult>> {
        self.reports@
    }

    /// How far the encoder has come with the input that it holds.
    pub open spec fn progress(&self) -> Progress {
        Progress {
            history: self.history(),
            ahead: self.lookahead(),
            literals: self.literals(),
            emitted: self.emitted(),
        }
    }

    /// Everything that has been written to the encoder.
    pub open spec fn input(&self) -> Seq<u8> {
        self.history() + self.lookahead()
    }

    /// Nothing waits inside the encoder.
    pub open spec fn idle(&self) -> bool {
        self.lookahead().len() == 0 && self.literals().len() == 0
    }

    /// What the stream produced so far and the pending literal run stand for.
    spec fn represented(&self) -> Seq<u8> {
        decode(self.emitted@, Seq::empty(), self.window_bits()).output + self.output_buffer@
    }

    /// The buffers have their sizes and the window follows the history.
    spec fn sound(&self) -> bool {
        &&& self.options.valid()
        &&& self.forward_search_size == max_run(self.window_bits())
        &&& self.window.wf()
        &&& self.window.capacity() == window_capacity(self.window_bits())
        &&& self.window@ == retained(self.consumed@, self.window.capacity())
        &&& self.unmatched_data@.len() <= self.forward_search_size + 1
        &&& self.output_buffer@.len() <= self.forward_search_size
        &&& self.out@.len() <= self.emitted@.len()
        &&& self.emitted@.skip(self.emitted@.len() - self.out@.len()) == self.out@
        &&& decode(self.emitted@, Seq::empty(), self.window_bits()).error is None
    }

    /// The encoder is sound, and the stream produced so far, followed by the
    /// pending literal run, stands for the history.
    pub closed spec fn wf(&self) -> bool {
        &&& self.sound()
        &&& self.output_buffer@.len() < self.forward_search_size
        &&& self.represented() == self.consumed@
    }

    /// Window, lookahead and history are the same in both.
    spec fn same_input(&self, other: &Self) -> bool {
        &&& self.window == other.window
        &&& self.unmatched_data == other.unmatched_data
        &&& self.forward_search_size == other.forward_search_size
        &&& self.options == other.options
        &&& self.consumed == other.consumed
        &&& self.reports == other.reports
    }

    /// The buffers other than the sink are the same in both.
    spec fn same_buffers(&self, other: &Self) -> bool {
        &&& self.window == other.window
        &&& self.unmatched_data == other.unmatched_data
        &&& self.forward_search_size == other.forward_search_size
        &&& self.output_buffer == other.output_buffer
        &&& self.options == other.options
        &&& self.consumed == other.consumed
        &&& self.reports == other.reports
    }

    /// What a well-formed encoder guarantees of the values that its contracts
    /// speak of.
    pub proof fn lemma_wf(&self)
        requires
            self.wf(),
        ensures
            1 <= self.window_bits() <= 15,
            self.window() == retained(self.history(), window_capacity(self.window_bits())),
            self.lookahead().len() <= max_run(self.window_bits()) + 1,
            self.literals().len() < max_run(self.window_bits()),
            self.literals().len() <= self.history().len(),
            decode(self.emitted(), Seq::empty(), self.window_bits()) == (Decoded {
                output: self.history().take(self.history().len() - self.literals().len()),
                error: None,
            }),
            self.history().skip(self.history().len() - self.literals().len()) == self.literals(),
            self.pending_output().len() <= self.emitted().len(),
            self.emitted().skip(self.emitted().len() - self.pending_output().len())
                == self.pending_output(),
    {
        let done = decode(self.emitted@, Seq::empty(), self.window_bits()).output;
        assert(self.consumed@.take(done.len() as int) =~= done);
        assert(self.consumed@.skip(done.len() as int) =~= self.output_buffer@);
    }

    /// An encoder that has seen no input.
    pub fn new(options: Lz77Options) -> (res: Result<Self, Error>)
        ensures
            res is Ok <==> options.valid(),
            res matches Ok(encoder) ==> {
                &&& encoder.wf()
                &&& encoder.window_bits() == options.window_size
                &&& encoder.history() == Seq::<u8>::empty()
                &&& encoder.lookahead() == Seq::<u8>::empty()
                &&& encoder.literals() == Seq::<u8>::empty()
                &&& encoder.emitted() == Seq::<u8>::empty()
                &&& encoder.pending_output() == Seq::<u8>::empty()
                &&& encoder.reports() == Seq::<Option<SearchResult>>::empty()
            },
            res matches Err(e) ==> e == Error::InvalidWindowSize,
    {
        if options.window_size == 0 || options.window_size >= 16 {
            return Err(Error::InvalidWindowSize);
        }
        let size: usize = field_values(options.window_size) - 1;
        let forward_search_size: usize = field_values(16 - options.window_size);
        let ring_buffer = RingBuffer::new(size);
        let searcher = S::default();
        let encoder = Lz77Encoder {
            out: Vec::new(),
            window: ring_buffer,
            unmatched_data: Vec::with_capacity(forward_search_size + 1),
            forward_search_size: forward_search_size,
            searcher: searcher,
            output_buffer: Vec::with_capacity(forward_search_size + 1),
            options: options,
            consumed: Ghost(Seq::empty()),
            emitted: Ghost(Seq::empty()),
            reports: Ghost(Seq::empty()),
        };
        proof {
            assert(encoder.emitted@.skip(0) =~= encoder.out@);
            assert(encoder.represented() =~= encoder.consumed@);
        }
        Ok(encoder)
    }

    /// Moves bytes from the front of `buf` into the lookahead until it holds
    /// one byte more than the longest run or `buf` is used up, and says how
    /// many it took if the lookahead is full now.
    fn fill_forward_buffer(&mut self, buf: &[u8]) -> (res: Option<usize>)
        requires
            old(self).wf(),
        ensures
            final(self).wf(),
            final(self).window_bits() == old(self).window_bits(),
            final(self).history() == old(self).history(),
            final(self).literals() == old(self).literals(),
            final(self).emitted() == old(self).emitted(),
            final(self).pending_output() == old(self).pending_output(),
            final(self).reports() == old(self).reports(),
            res matches Some(n) ==> n <= buf@.len() && final(self).lookahead() == old(
                self,
            ).lookahead() + buf@.take(n as int) && final(self).lookahead().len() == max_run(
                final(self).window_bits(),
            ) + 1,
            res is None ==> final(self).lookahead() == old(self).lookahead() + buf@
                && final(self).lookahead().len() <= max_run(final(self).window_bits()),
    {
        proof {
            lemma_limits(self.window_bits());
        }
        let mut extra_cap = self.forward_search_size + 1 - self.unmatched_data.len();
        if extra_cap > buf.len() {
            extra_cap = buf.len();
        }
        let mut i: usize = 0;
        while i < extra_cap
            invariant
                i <= extra_cap <= buf@.len(),
                old(self).unmatched_data@.len() + extra_cap <= self.forward_search_size + 1,
                self.unmatched_data@ == old(self).unmatched_data@ + buf@.take(i as int),
                self.out == old(self).out,
                self.emitted == old(self).emitted,
                self.same_buffers(
                    &Lz77Encoder { unmatched_data: self.unmatched_data, ..*old(self) },
                ),
            decreases extra_cap - i,
        {
            self.unmatched_data.push(buf[i]);
            i += 1;
            assert(self.unmatched_data@ =~= old(self).unmatched_data@ + buf@.take(i as int));
        }
        proof {
            assert(buf@.take(buf@.len() as int) =~= buf@);
        }
        if self.forward_search_size + 1 - self.unmatched_data.len() == 0 {
            Some(extra_cap)
        } else {
            None
        }
    }

    /// Appends `bytes` to the compressed stream.
    fn emit(&mut self, bytes: &[u8])
        requires
            old(self).out@.len() <= old(self).emitted@.len(),
            old(self).emitted@.skip(old(self).emitted@.len() - old(self).out@.len()) == old(
                self,
            ).out@,
        ensures
            final(self).out@ == old(self).out@ + bytes@,
            final(self).emitted@ == old(self).emitted@ + bytes@,
            final(self).emitted@.skip(final(self).emitted@.len() - final(self).out@.len())
                == final(self).out@,
            final(self).same_buffers(old(self)),
    {
        let mut i: usize = 0;
        while i < bytes.len()
            invariant
                i <= bytes@.len(),
                self.out@ == old(self).out@ + bytes@.take(i as int),
                self.emitted == old(self).emitted,
                self.same_buffers(old(self)),
            decreases bytes@.len() - i,
        {
            self.out.push(bytes[i]);
            i += 1;
            assert(self.out@ =~= old(self).out@ + bytes@.take(i as int));
        }
        proof {
            assert(bytes@.take(bytes@.len() as int) =~= bytes@);
            self.emitted@ = self.emitted@ + bytes@;
            assert(self.emitted@.skip(self.emitted@.len() - self.out@.len()) =~= self.out@);
        }
    }

    /// Writes the pending literal run, if there is one, as a record.
    fn write_output_buffer(&mut self)
        requires
            old(self).sound(),
        ensures
            final(self).sound(),
            final(self).same_input(old(self)),
            final(self).output_buffer@ == Seq::<u8>::empty(),
            final(self).represented() == old(self).represented(),
            final(self).emitted@ == old(self).emitted@ + (if old(self).output_buffer@.len() > 0 {
                literal_record(old(self).output_buffer@, old(self).window_bits())
            } else {
                Seq::empty()
            }),
            final(self).out@ == old(self).out@ + (if old(self).output_buffer@.len() > 0 {
                literal_record(old(self).output_buffer@, old(self).window_bits())
            } else {
                Seq::empty()
            }),
    {
        let ghost bits = self.window_bits();
        let ghost run = self.output_buffer@;
        let ghost sent = self.emitted@;
        proof {
            lemma_limits(bits);
        }
        if self.output_buffer.len() > 0 {
            let code = match CodeWord::new_with_data(
                16 - self.options.window_size,
                0u16,
                (self.output_buffer.len() - 1) as u16,
            ) {
                Ok(code) => code,
                Err(_) => {
                    assert(false);
                    return;
                },
            };
            let bytes = code.as_bytes();
            proof {
                code.lemma_word_is_packed();
            }
            self.emit(bytes.as_slice());
            let mut literals = Vec::new();
            core::mem::swap(&mut literals, &mut self.output_buffer);
            self.emit(literals.as_slice());
            proof {
                assert(self.emitted@ =~= sent + literal_record(run, bits));
                lemma_decode_concat(sent, literal_record(run, bits), Seq::empty(), bits);
                lemma_literal_record(
                    run,
                    decode(sent, Seq::empty(), bits).output,
                    bits,
                );
                assert(self.represented() =~= old(self).represented());
            }
        } else {
            assert(self.emitted@ =~= sent + Seq::<u8>::empty());
            assert(self.out@ =~= old(self).out@ + Seq::<u8>::empty());
            assert(self.output_buffer@ =~= Seq::<u8>::empty());
        }
    }

    /// Writes a match with its trailing byte `next`, or adds `next` to the
    /// pending literal run; a run is written before a match and when it is
    /// full.
    fn write_to_inner(&mut self, token: Lz77EncoderToken, next: u8)
        requires
            old(self).sound(),
            old(self).output_buffer@.len() < old(self).forward_search_size,
            token matches Lz77EncoderToken::Match(dist, len) ==> {
                &&& 1 <= dist <= window_capacity(old(self).window_bits())
                &&& len < max_run(old(self).window_bits())
                &&& len > 0 ==> dist <= old(self).represented().len()
            },
        ensures
            final(self).sound(),
            final(self).output_buffer@.len() < final(self).forward_search_size,
            final(self).same_input(old(self)),
            final(self).out@ == old(self).out@ + final(self).emitted@.skip(
                old(self).emitted@.len() as int,
            ),
            match token {
                Lz77EncoderToken::Match(dist, len) => {
                    &&& final(self).emitted@ == old(self).emitted@ + ((if old(
                        self,
                    ).output_buffer@.len() > 0 {
                        literal_record(old(self).output_buffer@, old(self).window_bits())
                    } else {
                        Seq::empty()
                    }) + match_record(dist as int, len as int, next, old(self).window_bits()))
                    &&& final(self).output_buffer@ == Seq::<u8>::empty()
                    &&& final(self).represented() == replay(
                        old(self).represented(),
                        dist as int,
                        len as int,
                    ).push(next)
                },
                Lz77EncoderToken::Literal => {
                    &&& final(self).emitted@ == old(self).emitted@ + (if old(
                        self,
                    ).output_buffer@.len() + 1 == old(self).forward_search_size {
                        literal_record(old(self).output_buffer@.push(next), old(self).window_bits())
                    } else {
                        Seq::empty()
                    })
                    &&& final(self).output_buffer@ == (if old(self).output_buffer@.len() + 1
                        == old(self).forward_search_size {
                        Seq::empty()
                    } else {
                        old(self).output_buffer@.push(next)
                    })
                    &&& final(self).represented() == old(self).represented().push(next)
                },
            },
    {
        let ghost bits = self.window_bits();
        let ghost sent = self.emitted@;
        let ghost rep = self.represented();
        proof {
            lemma_limits(bits);
        }
        match token {
            Lz77EncoderToken::Match(dist, len) => {
                self.write_output_buffer();
                let ghost mid = self.emitted@;
                let code = match CodeWord::new_with_data(
                    16 - self.options.window_size,
                    dist as u16,
                    len as u16,
                ) {
                    Ok(code) => code,
                    Err(_) => {
                        assert(false);
                        return;
                    },
                };
                let bytes = code.as_bytes();
                proof {
                    code.lemma_word_is_packed();
                }
                self.emit(bytes.as_slice());
                let trailing: [u8; 1] = [next];
                self.emit(trailing.as_slice());
                proof {
                    let record = match_record(dist as int, len as int, next, bits);
                    assert(self.emitted@ =~= mid + record);
                    assert(self.emitted@ =~= sent + ((if old(self).output_buffer@.len() > 0 {
                        literal_record(old(self).output_buffer@, bits)
                    } else {
                        Seq::empty()
                    }) + record));
                    lemma_decode_concat(mid, record, Seq::empty(), bits);
                    lemma_match_record(dist as int, len as int, next, rep, bits);
                    assert(rep =~= decode(mid, Seq::empty(), bits).output);
                    assert(self.represented() =~= replay(rep, dist as int, len as int).push(next));
                    assert(self.out@ =~= old(self).out@ + self.emitted@.skip(sent.len() as int));
                }
            },
            Lz77EncoderToken::Literal => {
                self.output_buffer.push(next);
                proof {
                    assert(self.represented() =~= rep.push(next));
                }
                if self.output_buffer.len() == self.forward_search_size {
                    self.write_output_buffer();
                }
                proof {
                    assert(self.out@ =~= old(self).out@ + self.emitted@.skip(sent.len() as int));
                }
            },
        }
    }

    /// Moves the first `n` bytes of the lookahead into the window.
    fn move_unmatched_to_window(&mut self, n: usize)
        requires
            old(self).sound(),
            n <= old(self).unmatched_data@.len(),
        ensures
            final(self).sound(),
            final(self).consumed@ == old(self).consumed@ + old(self).unmatched_data@.take(n as int),
            final(self).unmatched_data@ == old(self).unmatched_data@.skip(n as int),
            final(self).output_buffer == old(self).output_buffer,
            final(self).out == old(self).out,
            final(self).emitted == old(self).emitted,
            final(self).options == old(self).options,
            final(self).reports == old(self).reports,
    {
        let ghost cap = self.window.capacity();
        let mut i: usize = 0;
        proof {
            self.window.lemma_bounds();
            assert(old(self).consumed@ + old(self).unmatched_data@.take(0) =~= old(self).consumed@);
            assert(old(self).unmatched_data@.skip(0) =~= old(self).unmatched_data@);
        }
        while i < n
            invariant
                self.sound(),
                self.window.capacity() == cap,
                cap > 0,
                i <= n <= old(self).unmatched_data@.len(),
                self.consumed@ == old(self).consumed@ + old(self).unmatched_data@.take(i as int),
                self.unmatched_data@ == old(self).unmatched_data@.skip(i as int),
                self.output_buffer == old(self).output_buffer,
                self.out == old(self).out,
                self.emitted == old(self).emitted,
                self.options == old(self).options,
                self.reports == old(self).reports,
                self.forward_search_size == old(self).forward_search_size,
            decreases n - i,
        {
            let ghost before = self.consumed@;
            let byte = self.unmatched_data.remove(0);
            self.window.push(byte);
            proof {
                self.consumed@ = before.push(byte);
                lemma_retained_append(before, seq![byte], cap);
                assert(retained(before, cap) + seq![byte] =~= retained(before, cap).push(byte));
                assert(before + seq![byte] =~= before.push(byte));
                assert(self.consumed@ =~= old(self).consumed@ + old(self).unmatched_data@.take(
                    i + 1,
                ));
                assert(self.unmatched_data@ =~= old(self).unmatched_data@.skip(i + 1));
            }
            i += 1;
        }
    }

    /// Whether the encoder can write a match record for `found`.
    fn check_match(&self, found: &SearchResult) -> (ok: bool)
        requires
            self.sound(),
        ensures
            ok == usable(self.window@, self.unmatched_data@, self.window_bits(), *found),
    {
        proof {
            lemma_limits(self.window_bits());
        }
        if found.position >= self.window.len() || found.length >= self.unmatched_data.len()
            || found.length >= self.forward_search_size {
            return false;
        }
        proof {
            self.window.lemma_bounds();
        }
        let search_buf = CombinedBuffer(&self.window, &self.unmatched_data);
        let ghost hay = self.window@ + self.unmatched_data@;
        let ghost ahead = self.unmatched_data@;
        let position = found.position;
        let length = found.length;
        let mut j: usize = 0;
        let mut equal = true;
        while j < length && equal
            invariant
                search_buf.valid(),
                search_buf.content() == hay,
                ahead == self.unmatched_data@,
                hay.len() == position + (hay.len() - position),
                j <= length,
                position + length < hay.len(),
                length < ahead.len(),
                equal ==> forall|k: int| 0 <= k < j ==> hay[position + k] == #[trigger] ahead[k],
                !equal ==> exists|k: int| 0 <= k < length && hay[position + k] != #[trigger] ahead[k],
            decreases length - j,
        {
            if *search_buf.at(position + j) != self.unmatched_data[j] {
                assert(hay[position + j] != ahead[j as int]);
                equal = false;
            }
            j += 1;
        }
        equal
    }

    /// One step of the encoder, given what the match finder reported for the
    /// lookahead: a report that can be written as a record becomes a match
    /// record, after the pending literal run if there is one; with any other
    /// report, and with none, the first byte of the lookahead joins the
    /// literal run, which is written once it is full. It returns the number
    /// of bytes that left the lookahead, which is zero for an empty lookahead
    /// only.
    pub fn advance(&mut self, found: Option<SearchResult>) -> (taken: usize)
        requires
            old(self).wf(),
        ensures
            final(self).wf(),
            final(self).window_bits() == old(self).window_bits(),
            final(self).input() == old(self).input(),
            final(self).history() == old(self).history() + old(self).lookahead().take(
                taken as int,
            ),
            final(self).lookahead() == old(self).lookahead().skip(taken as int),
            final(self).pending_output() == old(self).pending_output() + final(self).emitted().skip(
                old(self).emitted().len() as int,
            ),
            old(self).lookahead().len() == 0 ==> {
                &&& taken == 0
                &&& final(self).literals() == old(self).literals()
                &&& final(self).emitted() == old(self).emitted()
                &&& final(self).reports() == old(self).reports()
            },
            old(self).lookahead().len() > 0 ==> {
                &&& final(self).reports() == old(self).reports().push(found)
                &&& final(self).progress() == step(
                    old(self).progress(),
                    old(self).window_bits(),
                    found,
                )
                &&& taken == step_taken(
                    old(self).window(),
                    old(self).lookahead(),
                    old(self).window_bits(),
                    found,
                )
                &&& final(self).literals() == step_literals(
                    old(self).window(),
                    old(self).lookahead(),
                    old(self).literals(),
                    old(self).window_bits(),
                    found,
                )
                &&& final(self).emitted() == old(self).emitted() + step_emitted(
                    old(self).window(),
                    old(self).lookahead(),
                    old(self).literals(),
                    old(self).window_bits(),
                    found,
                )
            },
    {
        if self.unmatched_data.len() == 0 {
            proof {
                assert(self.consumed@ + self.unmatched_data@.take(0) =~= self.consumed@);
                assert(self.unmatched_data@.skip(0) =~= self.unmatched_data@);
                assert(self.out@ + self.emitted@.skip(self.emitted@.len() as int) =~= self.out@);
            }
            return 0;
        }
        let ghost bits = self.window_bits();
        let ghost hist = self.consumed@;
        let ghost ahead = self.unmatched_data@;
        let ghost window = self.window@;
        let ghost sent = self.emitted@;
        proof {
            lemma_limits(bits);
        }
        let matched = match &found {
            Some(res) => self.check_match(res),
            None => false,
        };
        let fw = if matched {
            let res = match &found {
                Some(res) => res,
                None => {
                    assert(false);
                    return 0;
                },
            };
            let dist = self.window.len() - res.position;
            let next = self.unmatched_data[res.length];
            proof {
                assert forall|j: int| 0 <= j < res.length implies (hist + ahead)[hist.len() - dist
                    + j] == ahead[j] by {
                    assert((window + ahead)[res.position + j] == ahead[j]);
                }
                lemma_replay_copies(hist, dist as int, ahead, res.length as int);
            }
            self.write_to_inner(Lz77EncoderToken::Match(dist, res.length), next);
            proof {
                assert(hist + ahead.take(res.length as int).push(next) =~= hist + ahead.take(
                    res.length + 1,
                ));
                assert((hist + ahead.take(res.length as int)).push(next) =~= hist + ahead.take(
                    res.length + 1,
                ));
            }
            res.length + 1
        } else {
            let next = self.unmatched_data[0];
            self.write_to_inner(Lz77EncoderToken::Literal, next);
            proof {
                assert(hist.push(next) =~= hist + ahead.take(1));
            }
            1
        };
        proof {
            assert(self.out@ =~= old(self).out@ + self.emitted@.skip(sent.len() as int));
            assert(self.emitted@.skip(sent.len() as int) =~= step_emitted(
                window,
                ahead,
                old(self).output_buffer@,
                bits,
                found,
            ));
        }
        self.move_unmatched_to_window(fw);
        proof {
            self.reports@ = self.reports@.push(found);
            assert(self.input() =~= old(self).input()) by {
                assert(ahead.take(fw as int) + ahead.skip(fw as int) =~= ahead);
                assert(hist + ahead.take(fw as int) + ahead.skip(fw as int) =~= hist + ahead);
            }
        }
        fw
    }

    /// Asks the match finder for an earlier occurrence of the first
    /// `key_len` bytes of the lookahead in window and lookahead taken
    /// together. Of the answer only what the strategy promises is known.
    fn search(&mut self, key_len: usize) -> (found: Option<SearchResult>)
        requires
            old(self).wf(),
            key_len <= old(self).unmatched_data@.len(),
        ensures
            final(self).wf(),
            final(self).same_buffers(old(self)),
            final(self).out == old(self).out,
            final(self).emitted == old(self).emitted,
            reported_by::<S>(old(self).progress(), old(self).window_bits(), key_len as int, found),
    {
        proof {
            lemma_limits(self.window_bits());
            self.window.lemma_bounds();
        }
        let search_buf = CombinedBuffer(&self.window, &self.unmatched_data);
        let key = slice_subrange(self.unmatched_data.as_slice(), 0, key_len);
        self.searcher.find_longest_match(&search_buf, key)
    }

    /// Takes all of `full_buf` as further input and returns its length. Each
    /// time the lookahead holds one byte more than the longest run, the
    /// encoder asks the match finder and takes one step; what is left in the
    /// lookahead waits for more input or for `flush`.
    pub fn write(&mut self, full_buf: &[u8]) -> (size: usize)
        requires
            old(self).wf(),
        ensures
            final(self).wf(),
            size == full_buf@.len(),
            final(self).window_bits() == old(self).window_bits(),
            final(self).input() == old(self).input() + full_buf@,
            final(self).lookahead().len() <= max_run(final(self).window_bits()),
            old(self).emitted().len() <= final(self).emitted().len(),
            final(self).emitted().take(old(self).emitted().len() as int) == old(self).emitted(),
            final(self).pending_output() == old(self).pending_output() + final(self).emitted().skip(
                old(self).emitted().len() as int,
            ),
            old(self).reports().len() <= final(self).reports().len(),
            final(self).reports().take(old(self).reports().len() as int) == old(self).reports(),
            ({
                let before = Progress {
                    ahead: old(self).lookahead() + full_buf@,
                    ..old(self).progress()
                };
                let news = final(self).reports().skip(old(self).reports().len() as int);
                &&& final(self).progress() == stepped(before, old(self).window_bits(), news)
                &&& forall|j: int|
                    0 <= j < news.len() ==> {
                        let p = #[trigger] stepped(before, old(self).window_bits(), news.take(j));
                        &&& p.ahead.len() > max_run(old(self).window_bits())
                        &&& reported_by::<S>(
                            p,
                            old(self).window_bits(),
                            max_run(old(self).window_bits()) - 1,
                            news[j],
                        )
                    }
            }),
    {
        let size = full_buf.len();
        let ghost bits = self.window_bits();
        let ghost start = self.input();
        let ghost sent = self.emitted@;
        let ghost logged = self.reports@;
        let ghost before = Progress { ahead: self.lookahead() + full_buf@, ..self.progress() };
        let mut off: usize = 0;
        proof {
            lemma_limits(bits);
            assert(full_buf@.subrange(0, size as int) =~= full_buf@);
            assert(sent.take(sent.len() as int) =~= sent);
            assert(self.out@ =~= self.out@ + sent.skip(sent.len() as int));
            assert(logged.take(logged.len() as int) =~= logged);
        }
        let mut filled = self.fill_forward_buffer(slice_subrange(full_buf, 0, size));
        proof {
            if filled is Some {
                let n = filled->0 as int;
                assert(self.input() =~= start + full_buf@.take(n));
                assert(self.lookahead() + full_buf@.skip(n) =~= before.ahead);
            } else {
                assert(self.input() =~= start + full_buf@);
                assert(self.lookahead() + full_buf@.skip(size as int) =~= before.ahead);
            }
            assert(self.reports@.skip(logged.len() as int).len() == 0);
        }
        while filled.is_some()
            invariant
                self.wf(),
                self.window_bits() == bits,
                1 <= bits <= 15,
                self.forward_search_size == max_run(bits),
                2 <= self.forward_search_size <= 0x8000,
                size == full_buf@.len(),
                off <= size,
                sent == old(self).emitted@,
                start == old(self).input(),
                logged == old(self).reports@,
                before == (Progress {
                    ahead: old(self).lookahead() + full_buf@,
                    ..old(self).progress()
                }),
                sent.len() <= self.emitted@.len(),
                self.emitted@.take(sent.len() as int) == sent,
                self.out@ == old(self).out@ + self.emitted@.skip(sent.len() as int),
                logged.len() <= self.reports@.len(),
                self.reports@.take(logged.len() as int) == logged,
                match filled {
                    Some(n) => {
                        &&& off + n <= size
                        &&& self.input() == start + full_buf@.take(off + n)
                        &&& self.unmatched_data@.len() == self.forward_search_size + 1
                        &&& n == 0 ==> off == 0
                    },
                    None => {
                        &&& off <= size
                        &&& self.input() == start + full_buf@
                        &&& self.unmatched_data@.len() <= self.forward_search_size
                    },
                },
                (Progress {
                    ahead: self.lookahead() + full_buf@.skip(
                        match filled {
                            Some(n) => off + n,
                            None => size as int,
                        },
                    ),
                    ..self.progress()
                }) == stepped(before, bits, self.reports@.skip(logged.len() as int)),
                forall|j: int|
                    0 <= j < self.reports@.len() - logged.len() ==> {
                        let p = #[trigger] stepped(
                            before,
                            bits,
                            self.reports@.skip(logged.len() as int).take(j),
                        );
                        &&& p.ahead.len() > max_run(bits)
                        &&& reported_by::<S>(
                            p,
                            bits,
                            max_run(bits) - 1,
                            self.reports@.skip(logged.len() as int)[j],
                        )
                    },
            decreases
                    size - off,
                    if filled == Some(0usize) { 1int } else { 0int },
        {
            let n = match filled {
                Some(n) => n,
                None => 0,
            };
            let ghost news = self.reports@.skip(logged.len() as int);
            let ghost unread = full_buf@.skip(off + n);
            let ghost here = Progress { ahead: self.lookahead() + unread, ..self.progress() };
            let ghost full = self.lookahead();
            let found = self.search(self.forward_search_size - 1);
            proof {
                assert(lookahead_of(here.ahead, bits) =~= full);
                assert(lookahead_of(full, bits) =~= full);
                assert(reported_by::<S>(here, bits, max_run(bits) - 1, found));
            }
            let taken = self.advance(found);
            off = off + n;
            let ghost held = self.unmatched_data@;
            let ghost mid = self.input();
            proof {
                assert(mid == start + full_buf@.take(off as int));
                // The step saw the lookahead, and what is still unread follows it.
                assert(lookahead_of(here.ahead, bits) =~= full);
                assert(here.ahead.skip(taken as int) =~= held + unread);
                assert((Progress { ahead: held + unread, ..self.progress() }) == step(
                    here,
                    bits,
                    found,
                ));
                let grown = self.reports@.skip(logged.len() as int);
                assert(grown =~= news.push(found));
                assert(grown.drop_last() =~= news);
                assert(self.reports@.take(logged.len() as int) =~= logged);
                assert forall|j: int| 0 <= j < grown.len() implies ({
                    let p = #[trigger] stepped(before, bits, grown.take(j));
                    &&& p.ahead.len() > max_run(bits)
                    &&& reported_by::<S>(p, bits, max_run(bits) - 1, grown[j])
                }) by {
                    if j < news.len() {
                        assert(grown.take(j) =~= news.take(j));
                        assert(grown[j] == news[j]);
                    } else {
                        assert(grown.take(j) =~= news);
                        assert(grown[j] == found);
                    }
                }
            }
            filled = self.fill_forward_buffer(slice_subrange(full_buf, off, size));
            proof {
                let rest = full_buf@.subrange(off as int, size as int);
                assert(unread =~= rest);
                assert(self.emitted@.take(sent.len() as int) =~= sent);
                assert(self.out@ =~= old(self).out@ + self.emitted@.skip(sent.len() as int));
                if filled is Some {
                    let m = filled->0;
                    assert(self.input() =~= mid + rest.take(m as int));
                    assert(full_buf@.take(off as int) + rest.take(m as int) =~= full_buf@.take(
                        off + m,
                    ));
                    assert(self.input() =~= start + full_buf@.take(off + m));
                    assert(m > 0) by {
                        assert(held.len() <= self.forward_search_size);
                    }
                    assert(self.lookahead() + full_buf@.skip(off + m) =~= held + unread);
                } else {
                    assert(self.input() =~= mid + rest);
                    assert(full_buf@.take(off as int) + rest =~= full_buf@);
                    assert(self.input() =~= start + full_buf@);
                    assert(self.lookahead() + full_buf@.skip(size as int) =~= held + unread);
                }
            }
        }
        proof {
            assert(self.lookahead() + full_buf@.skip(size as int) =~= self.lookahead());
        }
        size
    }

    /// Works off the lookahead, asking the match finder with a key that
    /// shrinks with it, and then writes the pending literal run. After it the
    /// stream produced so far stands for the whole input; an encoder in which
    /// nothing waits writes nothing.
    pub fn flush(&mut self)
        requires
            old(self).wf(),
        ensures
            final(self).wf(),
            final(self).idle(),
            final(self).window_bits() == old(self).window_bits(),
            final(self).input() == old(self).input(),
            decode(final(self).emitted(), Seq::empty(), final(self).window_bits()) == (Decoded {
                output: final(self).input(),
                error: None,
            }),
            old(self).emitted().len() <= final(self).emitted().len(),
            final(self).emitted().take(old(self).emitted().len() as int) == old(self).emitted(),
            final(self).pending_output() == old(self).pending_output() + final(self).emitted().skip(
                old(self).emitted().len() as int,
            ),
            old(self).idle() ==> final(self).emitted() == old(self).emitted() && final(
                self
            ).pending_output() == old(self).pending_output(),
            old(self).reports().len() <= final(self).reports().len(),
            final(self).reports().take(old(self).reports().len() as int) == old(self).reports(),
            ({
                let news = final(self).reports().skip(old(self).reports().len() as int);
                let end = stepped(old(self).progress(), old(self).window_bits(), news);
                &&& end.ahead.len() == 0
                &&& final(self).history() == end.history
                &&& final(self).emitted() == end.emitted + (if end.literals.len() > 0 {
                    literal_record(end.literals, old(self).window_bits())
                } else {
                    Seq::empty()
                })
                &&& forall|j: int|
                    0 <= j < news.len() ==> {
                        let p = #[trigger] stepped(
                            old(self).progress(),
                            old(self).window_bits(),
                            news.take(j),
                        );
                        &&& p.ahead.len() > 0
                        &&& reported_by::<S>(
                            p,
                            old(self).window_bits(),
                            p.ahead.len() - 1,
                            news[j],
                        )
                    }
            }),
    {
        let ghost bits = self.window_bits();
        let ghost sent = self.emitted@;
        let ghost logged = self.reports@;
        let ghost before = self.progress();
        proof {
            lemma_limits(bits);
            assert(sent.take(sent.len() as int) =~= sent);
            assert(self.out@ =~= self.out@ + sent.skip(sent.len() as int));
            assert(logged.take(logged.len() as int) =~= logged);
            assert(self.reports@.skip(logged.len() as int).len() == 0);
        }
        while self.unmatched_data.len() != 0
            invariant
                self.wf(),
                self.window_bits() == bits,
                1 <= bits <= 15,
                self.input() == old(self).input(),
                sent == old(self).emitted@,
                logged == old(self).reports@,
                before == old(self).progress(),
                sent.len() <= self.emitted@.len(),
                self.emitted@.take(sent.len() as int) == sent,
                self.out@ == old(self).out@ + self.emitted@.skip(sent.len() as int),
                old(self).idle() ==> self.emitted@ == sent && self.output_buffer@.len() == 0
                    && self.unmatched_data@.len() == 0,
                logged.len() <= self.reports@.len(),
                self.reports@.take(logged.len() as int) == logged,
                self.progress() == stepped(before, bits, self.reports@.skip(logged.len() as int)),
                forall|j: int|
                    0 <= j < self.reports@.len() - logged.len() ==> {
                        let p = #[trigger] stepped(
                            before,
                            bits,
                            self.reports@.skip(logged.len() as int).take(j),
                        );
                        &&& p.ahead.len() > 0
                        &&& reported_by::<S>(
                            p,
                            bits,
                            p.ahead.len() - 1,
                            self.reports@.skip(logged.len() as int)[j],
                        )
                    },
            decreases self.unmatched_data@.len(),
        {
            let ghost news = self.reports@.skip(logged.len() as int);
            let ghost here = self.progress();
            let search_size = self.unmatched_data.len() - 1;
            let found = self.search(search_size);
            self.advance(found);
            proof {
                self.lemma_wf();
                assert(self.emitted@.take(sent.len() as int) =~= sent);
                assert(self.out@ =~= old(self).out@ + self.emitted@.skip(sent.len() as int));
                let grown = self.reports@.skip(logged.len() as int);
                assert(grown =~= news.push(found));
                assert(grown.drop_last() =~= news);
                assert(self.reports@.take(logged.len() as int) =~= logged);
                assert forall|j: int| 0 <= j < grown.len() implies ({
                    let p = #[trigger] stepped(before, bits, grown.take(j));
                    &&& p.ahead.len() > 0
                    &&& reported_by::<S>(p, bits, p.ahead.len() - 1, grown[j])
                }) by {
                    if j < news.len() {
                        assert(grown.take(j) =~= news.take(j));
                        assert(grown[j] == news[j]);
                    } else {
                        assert(grown.take(j) =~= news);
                        assert(grown[j] == found);
                    }
                }
            }
        }
        let ghost end = self.progress();
        self.write_output_buffer();
        proof {
            assert(self.emitted@.take(sent.len() as int) =~= sent);
            assert(self.out@ =~= old(self).out@ + self.emitted@.skip(sent.len() as int));
            assert(self.input() =~= self.consumed@);
            assert(self.represented() =~= decode(self.emitted@, Seq::empty(), bits).output);
            if old(self).idle() {
                assert(self.emitted@ =~= sent);
                assert(self.out@ =~= old(self).out@);
            }
        }
    }

    /// Hands over the part of the compressed stream that was produced since
    /// the last call.
    pub fn take_output(&mut self) -> (bytes: Vec<u8>)
        requires
            old(self).wf(),
        ensures
            final(self).wf(),
            bytes@ == old(self).pending_output(),
            final(self).pending_output() == Seq::<u8>::empty(),
            final(self).emitted() == old(self).emitted(),
            final(self).window_bits() == old(self).window_bits(),
            final(self).history() == old(self).history(),
            final(self).lookahead() == old(self).lookahead(),
            final(self).literals() == old(self).literals(),
            final(self).reports() == old(self).reports(),
    {
        let mut bytes = Vec::new();
        core::mem::swap(&mut bytes, &mut self.out);
        proof {
            assert(self.emitted@.skip(self.emitted@.len() - self.out@.len()) =~= self.out@);
        }
        bytes
    }
}

/// What the encoder has written once it is flushed, the decoder reads back
/// as the encoder's whole input, without an error: for every input, every
/// valid window size and every match finder.
pub proof fn lemma_round_trip<S>(encoder: &Lz77Encoder<S>, decoder: &crate::decoder::Lz77Decoder) where
    S: Searcher + Default,

    requires
        encoder.wf(),
        encoder.idle(),
        decoder.source() == encoder.emitted(),
        decoder.window_bits() == encoder.window_bits(),
    ensures
        decoder.output() == encoder.input(),
        decoder.error() is None,
{
    encoder.lemma_wf();
    let hist = encoder.history();
    assert(hist.take(hist.len() as int) =~= hist);
    assert(encoder.input() =~= hist);
}

/// The encoder writes every match that the linear scan reports: asked as the
/// encoder asks, with a key that is all of the lookahead but its last byte or
/// its last two, the scan finds only matches that begin inside the window
/// and can be written as a record.
pub proof fn lemma_linear_match_is_usable(
    window: Seq<u8>,
    ahead: Seq<u8>,
    key_len: int,
    window_bits: int,
    found: SearchResult,
)
    requires
        0 <= key_len < ahead.len() <= key_len + 2,
        key_len < max_run(window_bits),
        linear_result(window + ahead, ahead.take(key_len), Some(found)),
    ensures
        usable(window, ahead, window_bits, found),
{
    let hay = window + ahead;
    let key = ahead.take(key_len);
    lemma_agreement(hay, key, found.position as int, 0);
    assert(found.length == match_length(hay, key, found.position as int));
    assert forall|j: int| 0 <= j < found.length implies hay[found.position + j]
        == #[trigger] ahead[j] by {
        assert(hay[found.position + j] == key[j]);
    }
}

} // verus!
