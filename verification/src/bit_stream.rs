use vstd::prelude::*;
use vstd::arithmetic::power2::{pow2, lemma2_to64, lemma2_to64_rest, lemma_pow2_pos, lemma_pow2_adds, lemma_pow2_strictly_increases};
use vstd::arithmetic::div_mod::lemma_small_mod;
use vstd::bits::lemma_u8_shl_is_mul;
use vstd::arithmetic::mul::{lemma_mul_strict_inequality, lemma_mul_is_commutative};
use crate::bits::{bits_value, lemma_bit_at_bound, byte_mask, lemma_bit_index, lemma_bits_in_byte, lemma_bits_value_bound, lemma_bits_value_split, lemma_pow2_fits_byte, lemma_shl_one_is_pow2, lemma_shl_one_is_pow2_u16, lemma_shl_one_is_pow2_u32, lemma_shl_one_is_pow2_u64};
use crate::error::Error;
use vstd::utf8::{decode_utf8, encode_utf8, valid_utf8};
use crate::model::{StreamState, flag_read_state, string_fits, read_string_end, read_string_error, read_string_succeeds, string_bytes, string_len_field, whole_bytes_left, write_bytes_state, write_state, lemma_write_state_pos, lemma_write_state_split, lemma_read_halves, grown_to_cursor, write_accepted, write_error, write_u8_state, read_allowed, read_end, read_error, read_succeeds, read_value};

verus! {

/// A byte buffer read and written bit by bit, least significant bit first.
pub struct BitStream {
    data: Vec<u8>,
    bit_offset: u8,
    byte_offset: usize,
}

impl View for BitStream {
    type V = StreamState;

    closed spec fn view(&self) -> StreamState {
        StreamState {
            data: self.data@,
            byte_offset: self.byte_offset as nat,
            bit_offset: self.bit_offset as nat,
        }
    }
}

impl BitStream {
    /// A stream over `data` with the cursor at its start.
    pub fn new(data: Vec<u8>) -> (s: BitStream)
        ensures
            s@.data == data@,
            s@.byte_offset == 0,
            s@.bit_offset == 0,
    {
        BitStream { data, bit_offset: 0, byte_offset: 0 }
    }

    /// Whether the cursor is at or past the last byte.
    pub fn eof(&self) -> (r: bool)
        ensures
            r == self@.is_eof(),
    {
        self.byte_offset >= self.data.len()
    }

    /// The bytes of the stream, giving up the stream.
    pub fn into_bytes(self) -> (r: Vec<u8>)
        ensures
            r@ == self@.data,
    {
        self.data
    }

    /// The bytes of the stream.
    pub fn bytes(&self) -> (r: &Vec<u8>)
        ensures
            r@ == self@.data,
    {
        &self.data
    }

    /// Whether the cursor names a true bit within its byte (a bit offset
    /// below eight), which every read and write asks for.
    pub fn is_valid(&self) -> (r: bool)
        ensures
            r == self@.wf(),
    {
        self.bit_offset < 8
    }

    /// Moves the cursor to bit `bit_offset` of byte `byte_offset`.
    pub fn seek(&mut self, byte_offset: usize, bit_offset: u8)
        ensures
            final(self)@ == (StreamState {
                data: old(self)@.data,
                byte_offset: byte_offset as nat,
                bit_offset: bit_offset as nat,
            }),
    {
        self.byte_offset = byte_offset;
        self.bit_offset = bit_offset;
    }

    /// Reads `bits` bits (at most eight) at the cursor.
    pub fn read_bits_u8(&mut self, bits: u8) -> (r: Result<u8, Error>)
        requires
            read_allowed(old(self)@, bits as nat),
        ensures
            final(self)@.wf(),
            final(self)@.data == old(self)@.data,
            final(self)@.pos() == read_end(old(self)@, bits as nat, 8),
            match r {
                Ok(v) => read_succeeds(old(self)@, bits as nat, 8) && v == read_value(
                    old(self)@,
                    bits as nat,
                ),
                Err(e) => !read_succeeds(old(self)@, bits as nat, 8) && e == read_error(
                    old(self)@,
                    bits as nat,
                    8,
                ),
            },
    {
        let ghost s = self@;
        if bits > 8 {
            return Err(Error::ReadingTooManyBits);
        }
        if self.byte_offset >= self.data.len() || self.byte_offset == self.data.len() - 1
            && self.bit_offset + bits > 8 {
            return Err(Error::ReadEof);
        }
        let b = self.byte_offset;
        let bo = self.bit_offset;
        let x = self.data[b];
        proof {
            lemma_bit_index(b as int, bo as int);
        }
        let mut result: u8;
        if bo + bits >= 8 {
            let extra = (bo + bits) % 8;
            let remain = bits - extra;
            let first = x >> bo;
            result = first;
            self.byte_offset = b + 1;
            proof {
                lemma_bits_value_split(s.data, s.pos(), remain as nat, extra as nat);
                lemma_bits_in_byte(s.data, b as int, bo, remain);
                assert((x >> bo) & byte_mask(remain) == x >> bo) by (bit_vector)
                    requires
                        remain == 8 - bo,
                        bo < 8,
                ;
                assert(s.pos() + remain == 8 * (b + 1) + 0);
            }
            if extra > 0 {
                let z = self.data[b + 1];
                let y = z & (0xffu8 >> (8 - extra));
                let second = y << remain;
                proof {
                    lemma_bits_in_byte(s.data, b + 1, 0, extra);
                    assert(z >> 0u8 == z) by (bit_vector);
                    lemma_bits_value_bound(s.data, 8 * (b + 1) + 0, extra as nat);
                    lemma_pow2_fits_byte(extra as nat, remain as nat);
                    lemma_pow2_pos(remain as nat);
                    lemma_mul_strict_inequality(y as int, pow2(extra as nat) as int, pow2(remain as nat) as int);
                    lemma_u8_shl_is_mul(y, remain);
                    assert(first | second == first + second) by (bit_vector)
                        requires
                            first == x >> bo,
                            second == y << remain,
                            remain == 8 - bo,
                            bo < 8,
                    ;
                }
                result = first | second;
                proof {
                    let hi = bits_value(s.data, s.pos() + remain, extra as nat);
                    assert(hi == y as nat);
                    assert(first as nat == bits_value(s.data, s.pos(), remain as nat));
                    assert(second as nat == y * pow2(remain as nat));
                    lemma_mul_is_commutative(y as int, pow2(remain as nat) as int);
                    assert((remain + extra) as nat == bits as nat);
                }
            } else {
                proof {
                    assert(pow2(remain as nat) * 0 == 0);
                }
                assert(result == read_value(s, bits as nat));
            }
            self.bit_offset = extra;
        } else {
            result = (x >> bo) & (0xffu8 >> (8 - bits));
            self.bit_offset = bo + bits;
            proof {
                lemma_bits_in_byte(s.data, b as int, bo, bits);
            }
            assert(result == read_value(s, bits as nat));
        }
        assert(read_succeeds(s, bits as nat, 8));
        Ok(result)
    }

    /// Writes the low `bits` bits (at most eight) of `value` at the cursor.
    pub fn write_bits_u8(&mut self, value: u8, bits: u8) -> (r: Result<(), Error>)
        requires
            old(self)@.wf(),
            write_accepted(value as nat, bits as nat, 8) ==> bits > 0 && old(self)@.byte_offset
                < usize::MAX,
        ensures
            final(self)@.wf(),
            match r {
                Ok(()) => write_accepted(value as nat, bits as nat, 8) && final(self)@
                    == write_u8_state(old(self)@, value, bits),
                Err(e) => !write_accepted(value as nat, bits as nat, 8) && final(self)@ == old(
                    self,
                )@ && e == write_error(bits as nat, 8),
            },
    {
        if bits > 8 {
            return Err(Error::WritingTooManyBits);
        }
        proof {
            if bits < 8 {
                lemma_shl_one_is_pow2(bits);
            } else {
                lemma2_to64();
            }
        }
        if !(bits == 8 || value < (1u8 << bits)) {
            return Err(Error::ValueOverflowsBitCount);
        }
        let ghost s = self@;
        let san_value = value & (0xffu8 >> (8 - bits));
        assert(san_value == value) by (bit_vector)
            requires
                san_value == value & (0xffu8 >> ((8 - bits) as u8)),
                1 <= bits <= 8,
                bits == 8 || value < (1u8 << bits),
        ;
        if self.data.len() <= self.byte_offset {
            self.data.resize(self.byte_offset + 1, 0);
        }
        assert(self.data@ == grown_to_cursor(s));
        let b = self.byte_offset;
        let bo = self.bit_offset;
        let last = self.data[b];
        if bo + bits >= 8 {
            let extra = (bo + bits) % 8;
            let remain = bits - extra;
            let first = san_value & (0xffu8 >> (8 - remain));
            self.data[b] = last | (first << bo);
            if extra > 0 {
                let second = (san_value >> remain) & (0xffu8 >> (8 - extra));
                self.data.push(second);
            }
            self.byte_offset = b + 1;
            self.bit_offset = extra;
        } else {
            self.data[b] = last | ((san_value << bo) & (0xffu8 >> (8 - bits - bo)));
            self.bit_offset = bo + bits;
        }
        Ok(())
    }

    /// Reads `bits` bits (at most 16) at the cursor, as a read of the
    /// first half of them followed by a read of the rest.
    pub fn read_bits_u16(&mut self, bits: u8) -> (r: Result<u16, Error>)
        requires
            read_allowed(old(self)@, bits as nat),
        ensures
            final(self)@.wf(),
            final(self)@.data == old(self)@.data,
            final(self)@.pos() == read_end(old(self)@, bits as nat, 16),
            match r {
                Ok(v) => read_succeeds(old(self)@, bits as nat, 16) && v == read_value(
                    old(self)@,
                    bits as nat,
                ),
                Err(e) => !read_succeeds(old(self)@, bits as nat, 16) && e == read_error(
                    old(self)@,
                    bits as nat,
                    16,
                ),
            },
    {
        let ghost s = self@;
        let first = if bits < 8 { bits } else { 8 };
        let lower = match self.read_bits_u8(first) {
            Ok(v) => v,
            Err(e) => {
                proof {
                    lemma_read_halves(s, self@, bits as nat, 16);
                }
                return Err(e);
            },
        };
        if bits <= 8 {
            proof {
                lemma_read_halves(s, self@, bits as nat, 16);
            }
            return Ok(lower as u16);
        }
        let ghost s1 = self@;
        let upper = match self.read_bits_u8(bits - 8) {
            Ok(v) => v,
            Err(e) => {
                proof {
                    lemma_read_halves(s, s1, bits as nat, 16);
                }
                return Err(e);
            },
        };
        proof {
            lemma_read_halves(s, s1, bits as nat, 16);
            lemma_bits_value_split(s.data, s.pos(), 8 as nat, (bits - 8) as nat);
            lemma2_to64();
            assert((lower as u16) | ((upper as u16) << 8u16) == lower + 256 * upper) by (bit_vector);
        }
        Ok((lower as u16) | ((upper as u16) << 8u16))
    }

    /// Reads `bits` bits (at most 32) at the cursor, as a read of the
    /// first half of them followed by a read of the rest.
    pub fn read_bits_u32(&mut self, bits: u8) -> (r: Result<u32, Error>)
        requires
            read_allowed(old(self)@, bits as nat),
        ensures
            final(self)@.wf(),
            final(self)@.data == old(self)@.data,
            final(self)@.pos() == read_end(old(self)@, bits as nat, 32),
            match r {
                Ok(v) => read_succeeds(old(self)@, bits as nat, 32) && v == read_value(
                    old(self)@,
                    bits as nat,
                ),
                Err(e) => !read_succeeds(old(self)@, bits as nat, 32) && e == read_error(
                    old(self)@,
                    bits as nat,
                    32,
                ),
            },
    {
        let ghost s = self@;
        let first = if bits < 16 { bits } else { 16 };
        let lower = match self.read_bits_u16(first) {
            Ok(v) => v,
            Err(e) => {
                proof {
                    lemma_read_halves(s, self@, bits as nat, 32);
                }
                return Err(e);
            },
        };
        if bits <= 16 {
            proof {
                lemma_read_halves(s, self@, bits as nat, 32);
            }
            return Ok(lower as u32);
        }
        let ghost s1 = self@;
        let upper = match self.read_bits_u16(bits - 16) {
            Ok(v) => v,
            Err(e) => {
                proof {
                    lemma_read_halves(s, s1, bits as nat, 32);
                }
                return Err(e);
            },
        };
        proof {
            lemma_read_halves(s, s1, bits as nat, 32);
            lemma_bits_value_split(s.data, s.pos(), 16 as nat, (bits - 16) as nat);
            lemma2_to64();
            assert((lower as u32) | ((upper as u32) << 16u32) == lower + 65536 * upper) by (bit_vector);
        }
        Ok((lower as u32) | ((upper as u32) << 16u32))
    }

    /// Reads `bits` bits (at most 64) at the cursor, as a read of the
    /// first half of them followed by a read of the rest.
    pub fn read_bits_u64(&mut self, bits: u8) -> (r: Result<u64, Error>)
        requires
            read_allowed(old(self)@, bits as nat),
        ensures
            final(self)@.wf(),
            final(self)@.data == old(self)@.data,
            final(self)@.pos() == read_end(old(self)@, bits as nat, 64),
            match r {
                Ok(v) => read_succeeds(old(self)@, bits as nat, 64) && v == read_value(
                    old(self)@,
                    bits as nat,
                ),
                Err(e) => !read_succeeds(old(self)@, bits as nat, 64) && e == read_error(
                    old(self)@,
                    bits as nat,
                    64,
                ),
            },
    {
        let ghost s = self@;
        let first = if bits < 32 { bits } else { 32 };
        let lower = match self.read_bits_u32(first) {
            Ok(v) => v,
            Err(e) => {
                proof {
                    lemma_read_halves(s, self@, bits as nat, 64);
                }
                return Err(e);
            },
        };
        if bits <= 32 {
            proof {
                lemma_read_halves(s, self@, bits as nat, 64);
            }
            return Ok(lower as u64);
        }
        let ghost s1 = self@;
        let upper = match self.read_bits_u32(bits - 32) {
            Ok(v) => v,
            Err(e) => {
                proof {
                    lemma_read_halves(s, s1, bits as nat, 64);
                }
                return Err(e);
            },
        };
        proof {
            lemma_read_halves(s, s1, bits as nat, 64);
            lemma_bits_value_split(s.data, s.pos(), 32 as nat, (bits - 32) as nat);
            lemma2_to64();
            assert((lower as u64) | ((upper as u64) << 32u64) == lower + 4294967296 * upper) by (bit_vector);
        }
        Ok((lower as u64) | ((upper as u64) << 32u64))
    }

    /// Writes the low `bits` bits (at most 16) of `value` at the cursor,
    /// as a write of the first half of them followed by a write of the rest.
    pub fn write_bits_u16(&mut self, value: u16, bits: u8) -> (r: Result<(), Error>)
        requires
            old(self)@.wf(),
            bits <= 16,
            write_accepted(value as nat, bits as nat, 16) ==> bits > 0 && old(self)@.byte_offset
                + 2 <= usize::MAX,
        ensures
            final(self)@.wf(),
            match r {
                Ok(()) => write_accepted(value as nat, bits as nat, 16) && final(self)@
                    == write_state(old(self)@, value as nat, bits as nat),
                Err(e) => !write_accepted(value as nat, bits as nat, 16) && final(self)@ == old(
                    self,
                )@ && e == write_error(bits as nat, 16),
            },
    {
        let ghost s = self@;
        proof {
            lemma2_to64();
            lemma2_to64_rest();
            if bits < 16 {
                lemma_shl_one_is_pow2_u16(bits as u16);
            }
        }
        if !(bits == 16 || value < (1u16 << (bits as u16))) {
            return Err(Error::ValueOverflowsBitCount);
        }
        let first = if bits < 8 { bits } else { 8 };
        let low = (value & 0xffu16) as u8;
        proof {
            assert(value & 0xffu16 == value % 256) by (bit_vector);
            if bits <= 8 {
                if bits < 8 {
                    lemma_pow2_strictly_increases(bits as nat, 8);
                }
                lemma_small_mod(value as nat, 256);
            }
            lemma_write_state_pos(s, low as nat, first as nat);
        }
        match self.write_bits_u8(low, first) {
            Ok(()) => {},
            Err(e) => {
                return Err(e);
            },
        }
        if bits <= 8 {
            return Ok(());
        }
        let high = (value >> 8u16) as u8;
        proof {
            assert(value >> 8u16 == value / 256) by (bit_vector);
            lemma_pow2_adds(8, (bits - 8) as nat);
            lemma_write_state_split(s, value as nat, 8, bits as nat);
        }
        self.write_bits_u8(high, bits - 8)
    }

    /// Writes the low `bits` bits (at most 32) of `value` at the cursor,
    /// as a write of the first half of them followed by a write of the rest.
    pub fn write_bits_u32(&mut self, value: u32, bits: u8) -> (r: Result<(), Error>)
        requires
            old(self)@.wf(),
            bits <= 32,
            write_accepted(value as nat, bits as nat, 32) ==> bits > 0 && old(self)@.byte_offset
                + 4 <= usize::MAX,
        ensures
            final(self)@.wf(),
            match r {
                Ok(()) => write_accepted(value as nat, bits as nat, 32) && final(self)@
                    == write_state(old(self)@, value as nat, bits as nat),
                Err(e) => !write_accepted(value as nat, bits as nat, 32) && final(self)@ == old(
                    self,
                )@ && e == write_error(bits as nat, 32),
            },
    {
        let ghost s = self@;
        proof {
            lemma2_to64();
            lemma2_to64_rest();
            if bits < 32 {
                lemma_shl_one_is_pow2_u32(bits as u32);
            }
        }
        if !(bits == 32 || value < (1u32 << (bits as u32))) {
            return Err(Error::ValueOverflowsBitCount);
        }
        let first = if bits < 16 { bits } else { 16 };
        let low = (value & 0xffffu32) as u16;
        proof {
            assert(value & 0xffffu32 == value % 65536) by (bit_vector);
            if bits <= 16 {
                if bits < 16 {
                    lemma_pow2_strictly_increases(bits as nat, 16);
                }
                lemma_small_mod(value as nat, 65536);
            }
            lemma_write_state_pos(s, low as nat, first as nat);
        }
        match self.write_bits_u16(low, first) {
            Ok(()) => {},
            Err(e) => {
                return Err(e);
            },
        }
        if bits <= 16 {
            return Ok(());
        }
        let high = (value >> 16u32) as u16;
        proof {
            assert(value >> 16u32 == value / 65536) by (bit_vector);
            lemma_pow2_adds(16, (bits - 16) as nat);
            lemma_write_state_split(s, value as nat, 16, bits as nat);
        }
        self.write_bits_u16(high, bits - 16)
    }

    /// Writes the low `bits` bits (at most 64) of `value` at the cursor,
    /// as a write of the first half of them followed by a write of the rest.
    pub fn write_bits_u64(&mut self, value: u64, bits: u8) -> (r: Result<(), Error>)
        requires
            old(self)@.wf(),
            bits <= 64,
            write_accepted(value as nat, bits as nat, 64) ==> bits > 0 && old(self)@.byte_offset
                + 8 <= usize::MAX,
        ensures
            final(self)@.wf(),
            match r {
                Ok(()) => write_accepted(value as nat, bits as nat, 64) && final(self)@
                    == write_state(old(self)@, value as nat, bits as nat),
                Err(e) => !write_accepted(value as nat, bits as nat, 64) && final(self)@ == old(
                    self,
                )@ && e == write_error(bits as nat, 64),
            },
    {
        let ghost s = self@;
        proof {
            lemma2_to64();
            lemma2_to64_rest();
            if bits < 64 {
                lemma_shl_one_is_pow2_u64(bits as u64);
            }
        }
        if !(bits == 64 || value < (1u64 << (bits as u64))) {
            return Err(Error::ValueOverflowsBitCount);
        }
        let first = if bits < 32 { bits } else { 32 };
        let low = (value & 0xffff_ffffu64) as u32;
        proof {
            assert(value & 0xffff_ffffu64 == value % 4294967296) by (bit_vector);
            if bits <= 32 {
                if bits < 32 {
                    lemma_pow2_strictly_increases(bits as nat, 32);
                }
                lemma_small_mod(value as nat, 4294967296);
            }
            lemma_write_state_pos(s, low as nat, first as nat);
        }
        match self.write_bits_u32(low, first) {
            Ok(()) => {},
            Err(e) => {
                return Err(e);
            },
        }
        if bits <= 32 {
            return Ok(());
        }
        let high = (value >> 32u64) as u32;
        proof {
            assert(value >> 32u64 == value / 4294967296) by (bit_vector);
            lemma_pow2_adds(32, (bits - 32) as nat);
            lemma_write_state_split(s, value as nat, 32, bits as nat);
        }
        self.write_bits_u32(high, bits - 32)
    }

    /// Reads one bit as a flag.
    pub fn read_bool(&mut self) -> (r: Result<bool, Error>)
        requires
            old(self)@.wf(),
        ensures
            final(self)@.wf(),
            final(self)@.data == old(self)@.data,
            final(self)@.pos() == read_end(old(self)@, 1, 8),
            match r {
                Ok(b) => read_succeeds(old(self)@, 1, 8) && b == (read_value(old(self)@, 1) == 1),
                Err(e) => !read_succeeds(old(self)@, 1, 8) && e == read_error(old(self)@, 1, 8),
            },
    {
        match self.read_bits_u8(1) {
            Ok(v) => Ok(v == 1),
            Err(e) => Err(e),
        }
    }

    /// Reads a whole `u8`.
    pub fn read_u8(&mut self) -> (r: Result<u8, Error>)
        requires
            old(self)@.wf(),
        ensures
            final(self)@.wf(),
            final(self)@.data == old(self)@.data,
            final(self)@.pos() == read_end(old(self)@, 8, 8),
            match r {
                Ok(v) => read_succeeds(old(self)@, 8, 8) && v == read_value(old(self)@, 8),
                Err(e) => !read_succeeds(old(self)@, 8, 8) && e == Error::ReadEof,
            },
    {
        self.read_bits_u8(8)
    }

    /// Reads a whole `u16`.
    pub fn read_u16(&mut self) -> (r: Result<u16, Error>)
        requires
            old(self)@.wf(),
        ensures
            final(self)@.wf(),
            final(self)@.data == old(self)@.data,
            final(self)@.pos() == read_end(old(self)@, 16, 16),
            match r {
                Ok(v) => read_succeeds(old(self)@, 16, 16) && v == read_value(old(self)@, 16),
                Err(e) => !read_succeeds(old(self)@, 16, 16) && e == Error::ReadEof,
            },
    {
        self.read_bits_u16(16)
    }

    /// Reads a whole `u32`.
    pub fn read_u32(&mut self) -> (r: Result<u32, Error>)
        requires
            old(self)@.wf(),
        ensures
            final(self)@.wf(),
            final(self)@.data == old(self)@.data,
            final(self)@.pos() == read_end(old(self)@, 32, 32),
            match r {
                Ok(v) => read_succeeds(old(self)@, 32, 32) && v == read_value(old(self)@, 32),
                Err(e) => !read_succeeds(old(self)@, 32, 32) && e == Error::ReadEof,
            },
    {
        self.read_bits_u32(32)
    }

    /// Reads a whole `u64`.
    pub fn read_u64(&mut self) -> (r: Result<u64, Error>)
        requires
            old(self)@.wf(),
        ensures
            final(self)@.wf(),
            final(self)@.data == old(self)@.data,
            final(self)@.pos() == read_end(old(self)@, 64, 64),
            match r {
                Ok(v) => read_succeeds(old(self)@, 64, 64) && v == read_value(old(self)@, 64),
                Err(e) => !read_succeeds(old(self)@, 64, 64) && e == Error::ReadEof,
            },
    {
        self.read_bits_u64(64)
    }

    /// Writes a flag as one bit.
    pub fn write_bool(&mut self, value: bool) -> (r: Result<(), Error>)
        requires
            old(self)@.wf(),
            old(self)@.byte_offset < usize::MAX,
        ensures
            r is Ok,
            final(self)@.wf(),
            final(self)@ == write_u8_state(old(self)@, if value { 1 } else { 0 }, 1),
    {
        proof {
            lemma2_to64();
        }
        self.write_bits_u8(value as u8, 1)
    }

    /// Writes a whole `u8`.
    pub fn write_u8(&mut self, value: u8) -> (r: Result<(), Error>)
        requires
            old(self)@.wf(),
            old(self)@.byte_offset < usize::MAX,
        ensures
            r is Ok,
            final(self)@.wf(),
            final(self)@ == write_u8_state(old(self)@, value, 8),
    {
        proof {
            lemma2_to64();
        }
        self.write_bits_u8(value, 8)
    }

    /// Writes a whole `u16`.
    pub fn write_u16(&mut self, value: u16) -> (r: Result<(), Error>)
        requires
            old(self)@.wf(),
            old(self)@.byte_offset + 2 <= usize::MAX,
        ensures
            r is Ok,
            final(self)@.wf(),
            final(self)@ == write_state(old(self)@, value as nat, 16),
    {
        proof {
            lemma2_to64();
            lemma2_to64_rest();
        }
        self.write_bits_u16(value, 16)
    }

    /// Writes a whole `u32`.
    pub fn write_u32(&mut self, value: u32) -> (r: Result<(), Error>)
        requires
            old(self)@.wf(),
            old(self)@.byte_offset + 4 <= usize::MAX,
        ensures
            r is Ok,
            final(self)@.wf(),
            final(self)@ == write_state(old(self)@, value as nat, 32),
    {
        proof {
            lemma2_to64();
            lemma2_to64_rest();
        }
        self.write_bits_u32(value, 32)
    }

    /// Writes a whole `u64`.
    pub fn write_u64(&mut self, value: u64) -> (r: Result<(), Error>)
        requires
            old(self)@.wf(),
            old(self)@.byte_offset + 8 <= usize::MAX,
        ensures
            r is Ok,
            final(self)@.wf(),
            final(self)@ == write_state(old(self)@, value as nat, 64),
    {
        proof {
            lemma2_to64();
            lemma2_to64_rest();
        }
        self.write_bits_u64(value, 64)
    }

    /// Reads a string stored as a length byte followed by that many bytes
    /// of UTF-8.
    pub fn read_string(&mut self) -> (r: Result<String, Error>)
        requires
            old(self)@.wf(),
        ensures
            final(self)@.wf(),
            final(self)@.data == old(self)@.data,
            final(self)@.pos() == read_string_end(old(self)@),
            match r {
                Ok(text) => read_string_succeeds(old(self)@) && text@ == decode_utf8(
                    string_bytes(old(self)@),
                ),
                Err(e) => !read_string_succeeds(old(self)@) && e == read_string_error(old(self)@),
            },
    {
        let ghost s = self@;
        let length = match self.read_bits_u8(8) {
            Ok(v) => v,
            Err(e) => {
                assert(whole_bytes_left(s) == 0);
                return Err(e);
            },
        };
        let mut bytes: Vec<u8> = Vec::with_capacity(length as usize);
        let mut i: u8 = 0;
        while i < length
            invariant
                old(self)@ == s,
                self@.wf(),
                self@.data == s.data,
                self@.pos() == s.pos() + 8 + 8 * i,
                length == string_len_field(s),
                i <= length,
                whole_bytes_left(s) >= 1 + i,
                bytes@ == string_bytes(s).take(i as int),
            decreases length - i,
        {
            let ghost si = self@;
            let byte = match self.read_bits_u8(8) {
                Ok(v) => v,
                Err(e) => {
                    assert(whole_bytes_left(s) == 1 + i);
                    assert(!string_fits(s));
                    return Err(e);
                },
            };
            bytes.push(byte);
            i = i + 1;
            assert(bytes@ == string_bytes(s).take(i as int));
        }
        assert(bytes@ == string_bytes(s));
        match string_from_utf8(bytes) {
            Some(text) => Ok(text),
            None => Err(Error::InvalidUtf8),
        }
    }

    /// Writes a string as its byte length, cut to eight bits, followed by
    /// its UTF-8 bytes.
    pub fn write_string(&mut self, value: String) -> (r: Result<(), Error>)
        requires
            old(self)@.wf(),
            old(self)@.byte_offset + 1 + encode_utf8(value@).len() <= usize::MAX,
        ensures
            r is Ok,
            final(self)@.wf(),
            final(self)@ == write_bytes_state(
                write_u8_state(old(self)@, (encode_utf8(value@).len() % 256) as u8, 8),
                encode_utf8(value@),
            ),
    {
        let ghost s = self@;
        let bytes = value.as_str().as_bytes();
        let len = bytes.len();
        proof {
            lemma2_to64();
            lemma_write_state_pos(s, (len % 256) as nat, 8);
            assert((len as u8) as nat == len % 256) by (bit_vector);
        }
        let _ = self.write_bits_u8(#[verifier::truncate] (len as u8), 8);
        let ghost s1 = self@;
        let mut i: usize = 0;
        while i < len
            invariant
                len == bytes@.len(),
                bytes@ == encode_utf8(value@),
                s1.wf(),
                s1.byte_offset == s.byte_offset + 1,
                s.byte_offset + 1 + len <= usize::MAX,
                i <= len,
                self@ == write_bytes_state(s1, bytes@.take(i as int)),
                self@.wf(),
                self@.byte_offset == s1.byte_offset + i,
            decreases len - i,
        {
            proof {
                lemma2_to64();
                lemma_write_state_pos(self@, bytes@[i as int] as nat, 8);
            }
            let ghost before = self@;
            let _ = self.write_bits_u8(bytes[i], 8);
            proof {
                assert(bytes@.take((i + 1) as int).drop_last() == bytes@.take(i as int));
                assert(bytes@.take((i + 1) as int).last() == bytes@[i as int]);
                assert(self@ == write_state(before, bytes@[i as int] as nat, 8));
            }
            i = i + 1;
        }
        assert(bytes@.take(len as int) == bytes@);
        Ok(())
    }

    /// Reads a flag and, when it is set, a value with `read_fn`.
    pub fn read_optional<T, F>(&mut self, read_fn: F) -> (r: Result<Option<T>, Error>) where
        F: FnOnce(&mut BitStream) -> Result<T, Error>,

        requires
            old(self)@.wf(),
            forall|bs: &mut BitStream|
                #![trigger call_requires(read_fn, (bs,))]
                bs@ == flag_read_state(old(self)@) ==> call_requires(read_fn, (bs,)),
        ensures
            !read_succeeds(old(self)@, 1, 8) ==> r == Err::<Option<T>, Error>(
                read_error(old(self)@, 1, 8),
            ) && final(self)@ == old(self)@,
            read_succeeds(old(self)@, 1, 8) && read_value(old(self)@, 1) == 0 ==> r == Ok::<
                Option<T>,
                Error,
            >(None) && final(self)@ == flag_read_state(old(self)@),
            read_succeeds(old(self)@, 1, 8) && read_value(old(self)@, 1) == 1 ==> exists|
                bs: &mut BitStream,
            |
                bs@ == flag_read_state(old(self)@) && final(bs)@ == final(self)@ && match r {
                    Ok(Some(t)) => call_ensures(read_fn, (bs,), Ok(t)),
                    Ok(None) => false,
                    Err(e) => call_ensures(read_fn, (bs,), Err(e)),
                },
    {
        let ghost s = self@;
        proof {
            lemma_bit_at_bound(s.data, s.pos());
        }
        let flag = match self.read_bool() {
            Ok(b) => b,
            Err(e) => {
                return Err(e);
            },
        };
        if flag {
            match read_fn(self) {
                Ok(t) => Ok(Some(t)),
                Err(e) => Err(e),
            }
        } else {
            Ok(None)
        }
    }

    /// Writes whether `value` is present as a flag and, when it is, the
    /// value with `write_fn`.
    pub fn write_optional<T, F>(&mut self, value: Option<T>, write_fn: F) -> (r: Result<(), Error>) where
        F: Fn(&mut BitStream, T) -> Result<(), Error>,

        requires
            old(self)@.wf(),
            old(self)@.byte_offset < usize::MAX,
            value matches Some(v) ==> forall|bs: &mut BitStream|
                #![trigger call_requires(write_fn, (bs, v))]
                bs@ == write_u8_state(old(self)@, 1, 1) ==> call_requires(write_fn, (bs, v)),
        ensures
            value is None ==> r is Ok && final(self)@ == write_u8_state(old(self)@, 0, 1),
            value matches Some(v) ==> exists|bs: &mut BitStream|
                bs@ == write_u8_state(old(self)@, 1, 1) && final(bs)@ == final(self)@
                    && call_ensures(write_fn, (bs, v), r),
    {
        match value {
            Some(val) => {
                let _ = self.write_bool(true);
                write_fn(self, val)
            },
            None => self.write_bool(false),
        }
    }
}

/// Builds a string from bytes with `String::from_utf8`: there is one
/// exactly when the bytes are valid UTF-8, and its characters are the bytes
/// decoded.
#[verifier::external_body]
fn string_from_utf8(bytes: Vec<u8>) -> (r: Option<String>)
    ensures
        r is Some <==> valid_utf8(bytes@),
        r matches Some(text) ==> text@ == decode_utf8(bytes@),
{
    String::from_utf8(bytes).ok()
}

} // verus!
