//! The packed token: a distance and a length in one 16-bit word.
use vstd::prelude::*;
use byteorder::{BigEndian, ByteOrder};
use crate::errors::Error;

verus! {

/// The number of values that a field of `bits` bits can hold.
pub open spec fn field_limit(bits: int) -> int {
    vstd::arithmetic::power2::pow2(bits as nat) as int
}

/// The word whose big-endian bytes are `hi`, `lo`.
pub open spec fn word_of_bytes(hi: u8, lo: u8) -> int {
    hi as int * 256 + lo as int
}

/// The word that holds `distance` above a length field of `bits` bits.
pub open spec fn pack(bits: int, distance: int, length: int) -> int {
    distance * field_limit(bits) + length
}

/// The two bytes, high byte first, that a word is stored in.
pub open spec fn bytes_of_word(word: int) -> Seq<u8> {
    seq![(word / 256) as u8, (word % 256) as u8]
}

/// The number of values of a field of `bits` bits, as a machine integer.
pub fn field_values(bits: u8) -> (n: usize)
    requires
        1 <= bits <= 15,
    ensures
        n == field_limit(bits as int),
        2 <= n <= 0x8000,
{
    proof {
        lemma_fields(0u16, bits);
        vstd::arithmetic::power2::lemma2_to64();
        vstd::arithmetic::power2::lemma_pow2_strictly_increases(0, bits as nat);
        vstd::arithmetic::power2::lemma_pow2_strictly_increases(bits as nat, 16);
    }
    (1u16 << bits) as usize
}

/// Writes `n` into the first two bytes of `buf`, high byte first.
///
/// Calls `byteorder::BigEndian::write_u16`, which copies `n.to_be_bytes()` over
/// `buf[..2]` and panics on a shorter buffer: the contract asks for two bytes
/// and claims that the rest of the buffer stays as it was.
#[verifier::external_body]
fn be_write_u16(buf: &mut [u8], n: u16)
    requires
        old(buf)@.len() >= 2,
    ensures
        final(buf)@.len() == old(buf)@.len(),
        final(buf)@[0] as int == n as int / 256,
        final(buf)@[1] as int == n as int % 256,
        forall|i: int| 2 <= i < old(buf)@.len() ==> final(buf)@[i] == old(buf)@[i],
{
    BigEndian::write_u16(buf, n)
}

/// Reads the first two bytes of `buf` as one word, high byte first.
///
/// Calls `byteorder::BigEndian::read_u16`, which is `u16::from_be_bytes` on
/// `buf[..2]` and panics on a shorter buffer.
#[verifier::external_body]
fn be_read_u16(buf: &[u8]) -> (n: u16)
    requires
        buf@.len() >= 2,
    ensures
        n as int == word_of_bytes(buf@[0], buf@[1]),
{
    BigEndian::read_u16(buf)
}

/// A distance and a length packed into 16 bits: the distance in the high bits,
/// the length in the low `length_bits()` bits.
#[derive(Debug)]
pub struct CodeWord {
    inner: u16,
    len_field_size: u8,
}

impl CodeWord {
    /// The length field has between 1 and 15 bits, and the distance the rest.
    pub closed spec fn wf(&self) -> bool {
        1 <= self.len_field_size <= 15
    }

    /// The width of the length field.
    pub closed spec fn length_bits(&self) -> int {
        self.len_field_size as int
    }

    /// The 16 bits as one number.
    pub closed spec fn word(&self) -> int {
        self.inner as int
    }

    /// The distance that the word holds.
    pub open spec fn distance(&self) -> int {
        self.word() / field_limit(self.length_bits())
    }

    /// The length that the word holds.
    pub open spec fn length(&self) -> int {
        self.word() % field_limit(self.length_bits())
    }

    /// An all-zero token whose length field has `length_field_size` bits.
    pub fn new(length_field_size: u8) -> (res: Result<Self, Error>)
        ensures
            res is Ok <==> 1 <= length_field_size <= 15,
            res matches Ok(cw) ==> cw.wf() && cw.word() == 0 && cw.length_bits()
                == length_field_size,
            res matches Err(e) ==> e == Error::InvalidFieldSize,
    {
        if length_field_size == 0 || length_field_size >= 16 {
            Err(Error::InvalidFieldSize)
        } else {
            Ok(CodeWord { inner: 0, len_field_size: length_field_size })
        }
    }

    /// A token that holds `dist` and `length`.
    pub fn new_with_data(length_field_size: u8, dist: u16, length: u16) -> (res: Result<
        Self,
        Error,
    >)
        ensures
            res is Ok <==> 1 <= length_field_size <= 15 && dist < field_limit(
                16 - length_field_size,
            ) && length < field_limit(length_field_size as int),
            res matches Ok(cw) ==> cw.wf() && cw.length_bits() == length_field_size
                && cw.distance() == dist && cw.length() == length,
            res matches Err(e) ==> e == (if 1 <= length_field_size <= 15 {
                Error::FieldOverflow
            } else {
                Error::InvalidFieldSize
            }),
    {
        let mut ret = match CodeWord::new(length_field_size) {
            Ok(cw) => cw,
            Err(e) => {
                return Err(e);
            },
        };
        match ret.set_distance(dist) {
            Ok(()) => {},
            Err(e) => {
                return Err(e);
            },
        }
        match ret.set_length(length) {
            Ok(()) => {},
            Err(e) => {
                return Err(e);
            },
        }
        Ok(ret)
    }

    /// The distance field.
    pub fn get_distance(&self) -> (d: u16)
        requires
            self.wf(),
        ensures
            d == self.distance(),
            d < field_limit(16 - self.length_bits()),
    {
        proof {
            lemma_fields(self.inner, self.len_field_size);
        }
        self.inner >> self.len_field_size
    }

    /// The length field.
    pub fn get_length(&self) -> (l: u16)
        requires
            self.wf(),
        ensures
            l == self.length(),
            l < field_limit(self.length_bits()),
    {
        proof {
            lemma_fields(self.inner, self.len_field_size);
        }
        let mask = (1u16 << self.len_field_size) - 1;
        self.inner & mask
    }

    /// Stores `dist` in the distance field, or refuses it where it needs more
    /// bits than the field has.
    pub fn set_distance(&mut self, dist: u16) -> (res: Result<(), Error>)
        requires
            old(self).wf(),
        ensures
            final(self).wf(),
            final(self).length_bits() == old(self).length_bits(),
            res is Ok <==> dist < field_limit(16 - old(self).length_bits()),
            res is Ok ==> final(self).distance() == dist && final(self).length() == old(
                self,
            ).length(),
            res matches Err(e) ==> e == Error::FieldOverflow && *final(self) == *old(self),
    {
        let s = self.len_field_size;
        proof {
            lemma_fields(self.inner, s);
            lemma_distance_fits(dist, s);
        }
        if (dist << s) >> s == dist {
            let l = self.get_length();
            proof {
                lemma_pack(dist, l, s);
            }
            self.inner = (dist << s) ^ l;
            Ok(())
        } else {
            Err(Error::FieldOverflow)
        }
    }

    /// Stores `length` in the length field, or refuses it where it needs more
    /// bits than the field has.
    pub fn set_length(&mut self, length: u16) -> (res: Result<(), Error>)
        requires
            old(self).wf(),
        ensures
            final(self).wf(),
            final(self).length_bits() == old(self).length_bits(),
            res is Ok <==> length < field_limit(old(self).length_bits()),
            res is Ok ==> final(self).length() == length && final(self).distance() == old(
                self,
            ).distance(),
            res matches Err(e) ==> e == Error::FieldOverflow && *final(self) == *old(self),
    {
        let s = self.len_field_size;
        proof {
            lemma_fields(self.inner, s);
            lemma_fields(length, s);
        }
        let mask = (1u16 << s) - 1;
        if length & mask == length {
            let ghost d = self.inner >> s;
            proof {
                lemma_repack(self.inner, length, s);
                lemma_pack(d, length, s);
            }
            self.inner = (self.inner & !mask) ^ length;
            Ok(())
        } else {
            Err(Error::FieldOverflow)
        }
    }

    /// Stores the token in the first two bytes of `buf`, high byte first.
    pub fn write(&self, buf: &mut [u8])
        requires
            old(buf)@.len() >= 2,
        ensures
            final(buf)@.len() == old(buf)@.len(),
            final(buf)@.subrange(0, 2) == bytes_of_word(self.word()),
            forall|i: int| 2 <= i < old(buf)@.len() ==> final(buf)@[i] == old(buf)@[i],
    {
        be_write_u16(buf, self.inner);
        assert(buf@.subrange(0, 2) =~= bytes_of_word(self.word()));
    }

    /// Takes the token from the first two bytes of `buf`; the width of the
    /// length field stays.
    pub fn read(&mut self, buf: &[u8])
        requires
            buf@.len() >= 2,
        ensures
            final(self).word() == word_of_bytes(buf@[0], buf@[1]),
            final(self).length_bits() == old(self).length_bits(),
            old(self).wf() ==> final(self).wf(),
    {
        self.inner = be_read_u16(buf);
    }

    /// The token as its two bytes, high byte first.
    pub fn as_bytes(&self) -> (res: [u8; 2])
        ensures
            res@ == bytes_of_word(self.word()),
    {
        let mut res: [u8; 2] = [0, 0];
        self.write(&mut res);
        assert(res@ =~= res@.subrange(0, 2));
        res
    }

    /// The word of a token is its distance above its length.
    pub proof fn lemma_word_is_packed(&self)
        requires
            self.wf(),
        ensures
            0 <= self.word() < 0x10000,
            self.word() == pack(self.length_bits(), self.distance(), self.length()),
            0 <= self.distance() < field_limit(16 - self.length_bits()),
            0 <= self.length() < field_limit(self.length_bits()),
    {
        lemma_fields(self.inner, self.len_field_size);
        let p = field_limit(self.length_bits());
        let w = self.word();
        assert(w == (w / p) * p + w % p && 0 <= w % p < p) by (nonlinear_arith)
            requires
                p > 0,
                w >= 0,
        ;
    }
}

/// A token written to two bytes and read back is the token that was written:
/// whatever reads the bytes of `token` with the same field widths holds its
/// word, its distance and its length.
pub proof fn lemma_token_round_trip(token: CodeWord, back: CodeWord)
    requires
        token.wf(),
        back.length_bits() == token.length_bits(),
        back.word() == word_of_bytes(
            bytes_of_word(token.word())[0],
            bytes_of_word(token.word())[1],
        ),
    ensures
        back.word() == token.word(),
        back.distance() == token.distance(),
        back.length() == token.length(),
{
    token.lemma_word_is_packed();
    lemma_fields_round_trip(token.length_bits(), token.distance(), token.length());
}

/// Two values that fit their fields are read back from the bytes of the word
/// that packs them.
pub proof fn lemma_fields_round_trip(bits: int, distance: int, length: int)
    requires
        1 <= bits <= 15,
        0 <= distance < field_limit(16 - bits),
        0 <= length < field_limit(bits),
    ensures
        0 <= pack(bits, distance, length) < 0x10000,
        word_of_bytes(
            bytes_of_word(pack(bits, distance, length))[0],
            bytes_of_word(pack(bits, distance, length))[1],
        ) == pack(bits, distance, length),
        pack(bits, distance, length) / field_limit(bits) == distance,
        pack(bits, distance, length) % field_limit(bits) == length,
{
    let p = field_limit(bits);
    let q = field_limit(16 - bits);
    vstd::arithmetic::power2::lemma_pow2_adds(bits as nat, (16 - bits) as nat);
    vstd::arithmetic::power2::lemma2_to64();
    let w = pack(bits, distance, length);
    assert(0 <= w < 0x10000 && w / p == distance && w % p == length) by (nonlinear_arith)
        requires
            w == distance * p + length,
            0 <= length < p,
            0 <= distance < q,
            p * q == 0x10000,
    ;
}

/// Shifting and masking read the two fields of a word.
proof fn lemma_fields(x: u16, s: u8)
    requires
        1 <= s <= 15,
    ensures
        (1u16 << s) >= 1,
        (1u16 << s) as int == field_limit(s as int),
        (x >> s) as int == x as int / field_limit(s as int),
        (x & (((1u16 << s) - 1) as u16)) as int == x as int % field_limit(s as int),
        (x >> s) as int == 0 <==> (x as int) < field_limit(s as int),
        ((x & (((1u16 << s) - 1) as u16)) == x) <==> (x as int) < field_limit(s as int),
        (x >> s) as int * field_limit(s as int) <= 0xffff,
        ((x >> s) as int) < field_limit(16 - s),
{
    let s16 = s as u16;
    assert((1u16 << s) == (1u16 << s16)) by (bit_vector)
        requires
            s16 == s as u16,
    ;
    assert((x >> s) == (x >> s16)) by (bit_vector)
        requires
            s16 == s as u16,
    ;
    vstd::bits::lemma_u16_pow2_no_overflow(s as nat);
    vstd::bits::lemma_u16_shl_is_mul(1u16, s16);
    vstd::bits::lemma_u16_shr_is_div(x, s16);
    vstd::bits::lemma_u16_low_bits_mask_is_mod(x, s as nat);
    let p = field_limit(s as int);
    vstd::arithmetic::power2::lemma_pow2_adds(s as nat, (16 - s) as nat);
    vstd::arithmetic::power2::lemma2_to64();
    let q = field_limit(16 - s);
    assert(p * q == 0x10000);
    assert(p >= 2 && p <= 0x8000) by (nonlinear_arith)
        requires
            p * q == 0x10000,
            p > 0,
            q > 0,
            p == vstd::arithmetic::power2::pow2(s as nat),
            1 <= s <= 15,
    {
        vstd::arithmetic::power2::lemma_pow2_strictly_increases(0, s as nat);
        vstd::arithmetic::power2::lemma_pow2_strictly_increases(s as nat, 16);
        vstd::arithmetic::power2::lemma2_to64();
    }
    let xi = x as int;
    assert(xi / p * p <= xi && (xi / p == 0 <==> xi < p) && (xi % p == xi <==> xi < p) && xi / p
        < q) by (nonlinear_arith)
        requires
            p > 0,
            0 <= xi < 0x10000,
            p * q == 0x10000,
    ;
}

/// A distance survives the shift to its place and back exactly when it fits.
proof fn lemma_distance_fits(d: u16, s: u8)
    requires
        1 <= s <= 15,
    ensures
        ((d << s) >> s == d) <==> (d as int) < field_limit(16 - s),
{
    let t: u8 = (16 - s) as u8;
    assert(((d << s) >> s == d) <==> (d >> t) == 0) by (bit_vector)
        requires
            1 <= s <= 15,
            t == 16 - s,
    ;
    lemma_fields(d, t);
}

/// A distance and a length that fit are read back from the packed word.
proof fn lemma_pack(d: u16, l: u16, s: u8)
    requires
        1 <= s <= 15,
        (d as int) < field_limit(16 - s),
        (l as int) < field_limit(s as int),
    ensures
        (((d << s) ^ l) as int) / field_limit(s as int) == d,
        (((d << s) ^ l) as int) % field_limit(s as int) == l,
{
    let w: u16 = (d << s) ^ l;
    lemma_distance_fits(d, s);
    lemma_fields(l, s);
    lemma_fields(w, s);
    assert((w >> s) == d && (w & (((1u16 << s) - 1) as u16)) == l) by (bit_vector)
        requires
            1 <= s <= 15,
            (d << s) >> s == d,
            (l & (((1u16 << s) - 1) as u16)) == l,
            w == (d << s) ^ l,
    ;
}

/// Replacing the low bits of a word keeps its high bits.
proof fn lemma_repack(x: u16, l: u16, s: u8)
    requires
        1 <= s <= 15,
        (l as int) < field_limit(s as int),
    ensures
        (x & !(((1u16 << s) - 1) as u16)) ^ l == ((x >> s) << s) ^ l,
        ((x >> s) as int) < field_limit(16 - s),
{
    lemma_fields(x, s);
    assert((x & !(((1u16 << s) - 1) as u16)) == ((x >> s) << s)) by (bit_vector)
        requires
            1 <= s <= 15,
    ;
}

} // verus!
