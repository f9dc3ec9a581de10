//! A streaming LZ77 codec: a sliding window, a packed 16-bit token, a
//! pluggable match finder, and the encoder and decoder built on them.
pub mod errors;
pub mod codeword;
pub mod buffer;
pub mod format;
pub mod searcher;
pub mod encoder;
pub mod decoder;

use vstd::prelude::*;

pub use decoder::Lz77Decoder;
pub use encoder::Lz77Encoder;
pub use searcher::LinearSearcher;

verus! {

/// The one parameter that encoder and decoder have to agree on.
pub struct Lz77Options {
    /// The number of bits of a token that hold the distance: the window
    /// retains `2^window_size - 1` bytes, and a record stands for at most
    /// `2^(16 - window_size)` bytes.
    pub window_size: u8,
}

impl Lz77Options {
    /// The window size leaves at least one bit to each field of a token.
    pub open spec fn valid(&self) -> bool {
        1 <= self.window_size <= 15
    }
}

} // verus!
