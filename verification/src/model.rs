use vstd::prelude::*;
use crate::bits::{bits_value, byte_mask};
use vstd::arithmetic::power2::{pow2, lemma2_to64, lemma_pow2_adds, lemma_pow2_pos};
use vstd::arithmetic::div_mod::{lemma_mod_mod, lemma_div_denominator, lemma_mod_breakdown, lemma_fundamental_div_mod_converse};
use crate::error::Error;
use vstd::utf8::valid_utf8;

verus! {

/// The abstract state of a bit stream: its bytes and the cursor, kept as a
/// byte index and a bit index within that byte.
pub struct StreamState {
    pub data: Seq<u8>,
    pub byte_offset: nat,
    pub bit_offset: nat,
}

impl StreamState {
    /// The cursor as an absolute bit position.
    pub open spec fn pos(self) -> int {
        (8 * self.byte_offset + self.bit_offset) as int
    }

    /// The number of bits the data holds.
    pub open spec fn bit_len(self) -> int {
        (8 * self.data.len()) as int
    }

    /// The bit index within the current byte is a true bit index.
    pub open spec fn wf(self) -> bool {
        self.bit_offset < 8
    }

    /// The stream can be appended to: the cursor is in the last byte, or
    /// just past the end at a byte boundary, and no bit at or after it is
    /// set.
    pub open spec fn at_end(self) -> bool {
        &&& self.wf()
        &&& self.byte_offset <= self.data.len() <= self.byte_offset + 1
        &&& self.byte_offset == self.data.len() ==> self.bit_offset == 0
        &&& self.byte_offset < self.data.len() ==> self.data[self.byte_offset as int] >> (
        self.bit_offset as u8) == 0
    }

    /// The same data with the cursor at bit position `pos`.
    pub open spec fn with_pos(self, pos: int) -> StreamState {
        StreamState { data: self.data, byte_offset: (pos / 8) as nat, bit_offset: (pos % 8) as nat }
    }

    /// The same data with the cursor where it stands in `other`.
    pub open spec fn with_cursor_of(self, other: StreamState) -> StreamState {
        StreamState {
            data: self.data,
            byte_offset: other.byte_offset,
            bit_offset: other.bit_offset,
        }
    }

    /// The cursor is at or past the last byte.
    pub open spec fn is_eof(self) -> bool {
        self.byte_offset >= self.data.len()
    }
}

/// `n` bits starting at the cursor lie within the data, and the cursor
/// itself lies within the data.
pub open spec fn read_fits(s: StreamState, n: nat) -> bool {
    s.pos() < s.bit_len() && s.pos() + n <= s.bit_len()
}

/// A read of `n` bits into an integer of `width` bits proceeds in chunks of
/// eight bits; this is the number of full chunks read before the last one.
pub open spec fn leading_chunks(n: nat, width: nat) -> nat {
    if n > width {
        (width / 8 - 1) as nat
    } else if n == 0 {
        0
    } else {
        ((n - 1) / 8) as nat
    }
}

/// The number of whole bytes' worth of bits from the cursor to the end.
pub open spec fn whole_bytes_left(s: StreamState) -> nat {
    if s.pos() <= s.bit_len() {
        ((s.bit_len() - s.pos()) / 8) as nat
    } else {
        0
    }
}

/// A read of `n` bits into an integer of `width` bits succeeds.
pub open spec fn read_succeeds(s: StreamState, n: nat, width: nat) -> bool {
    n <= width && read_fits(s, n)
}

/// The error of a failed read of `n` bits into an integer of `width` bits.
pub open spec fn read_error(s: StreamState, n: nat, width: nat) -> Error {
    if n > width && leading_chunks(n, width) <= whole_bytes_left(s) {
        Error::ReadingTooManyBits
    } else {
        Error::ReadEof
    }
}

/// Where the cursor stands after a read of `n` bits into an integer of
/// `width` bits: past the bits on success; on failure, past the full
/// chunks read before the failing one.
pub open spec fn read_end(s: StreamState, n: nat, width: nat) -> int {
    if read_succeeds(s, n, width) {
        s.pos() + n
    } else if leading_chunks(n, width) <= whole_bytes_left(s) {
        s.pos() + 8 * leading_chunks(n, width)
    } else {
        s.pos() + 8 * whole_bytes_left(s)
    }
}

/// The value of the `n` bits at the cursor.
pub open spec fn read_value(s: StreamState, n: nat) -> nat {
    bits_value(s.data, s.pos(), n)
}

/// A read of `n` bits is free of the zero-width case that the byte reader
/// cannot handle away from the end of the data.
pub open spec fn read_allowed(s: StreamState, n: nat) -> bool {
    s.wf() && (n > 0 || s.is_eof())
}

/// A write of the low `n` bits of `v` into an integer of `width` bits is
/// accepted: the count is in range and the value fits in it.
pub open spec fn write_accepted(v: nat, n: nat, width: nat) -> bool {
    n <= width && v < pow2(n)
}

/// The data with zero bytes appended so that the current byte exists.
pub open spec fn grown_to_cursor(s: StreamState) -> Seq<u8> {
    if s.data.len() <= s.byte_offset {
        s.data + Seq::new((s.byte_offset + 1 - s.data.len()) as nat, |i: int| 0u8)
    } else {
        s.data
    }
}

/// The stream after writing the low `n` bits of `v` (`n <= 8`) at the
/// cursor: the bits are ORed into the current byte from the bit offset up;
/// bits that do not fit there go into a new byte appended to the data, and
/// the cursor moves past the `n` bits.
pub open spec fn write_u8_state(s: StreamState, v: u8, n: u8) -> StreamState {
    let d0 = grown_to_cursor(s);
    let b = s.byte_offset as int;
    let bo = s.bit_offset as u8;
    if bo + n >= 8 {
        let extra = (bo + n - 8) as u8;
        let remain = (8 - bo) as u8;
        let d1 = d0.update(b, d0[b] | ((v & byte_mask(remain)) << bo));
        let d2 = if extra > 0 {
            d1.push((v >> remain) & byte_mask(extra))
        } else {
            d1
        };
        StreamState { data: d2, byte_offset: s.byte_offset + 1, bit_offset: extra as nat }
    } else {
        StreamState {
            data: d0.update(b, d0[b] | ((v << bo) & byte_mask((n + bo) as u8))),
            byte_offset: s.byte_offset,
            bit_offset: (bo + n) as nat,
        }
    }
}

/// The error of a rejected write of `n` bits from an integer of `width`
/// bits.
pub open spec fn write_error(n: nat, width: nat) -> Error {
    if n > width {
        Error::WritingTooManyBits
    } else {
        Error::ValueOverflowsBitCount
    }
}

/// A read of `n` bits into an integer of `width` bits, done as a read of
/// at most half the width followed, when more bits are wanted, by a read of
/// the rest from where the first left off, succeeds, fails and moves the
/// cursor as the whole read does.
pub proof fn lemma_read_halves(s: StreamState, s1: StreamState, n: nat, width: nat)
    requires
        width == 16 || width == 32 || width == 64,
        s.wf(),
        s1.wf(),
        s1.data == s.data,
        s1.pos() == read_end(s, if n < width / 2 { n } else { width / 2 }, width / 2),
    ensures
        ({
            let h = width / 2;
            let n1 = if n < h { n } else { h };
            &&& !read_succeeds(s, n1, h) ==> {
                &&& !read_succeeds(s, n, width)
                &&& read_end(s, n, width) == read_end(s, n1, h)
                &&& read_error(s, n, width) == read_error(s, n1, h)
            }
            &&& read_succeeds(s, n1, h) && n <= h ==> {
                &&& read_succeeds(s, n, width)
                &&& read_end(s, n, width) == read_end(s, n1, h)
            }
            &&& read_succeeds(s, n1, h) && n > h ==> {
                &&& read_succeeds(s, n, width) == read_succeeds(s1, (n - h) as nat, h)
                &&& read_end(s, n, width) == read_end(s1, (n - h) as nat, h)
                &&& read_error(s, n, width) == read_error(s1, (n - h) as nat, h)
            }
        }),
{
}

/// The stream after writing the low `n` bits of `v` at the cursor in
/// chunks of eight bits, least significant first, the last chunk holding
/// the bits that remain.
pub open spec fn write_state(s: StreamState, v: nat, n: nat) -> StreamState
    decreases n,
{
    if n <= 8 {
        write_u8_state(s, v as u8, n as u8)
    } else {
        write_state(write_u8_state(s, (v % 256) as u8, 8), v / 256, (n - 8) as nat)
    }
}

/// Writing `n` bits equals writing their low `m` bits, for a whole number of
/// bytes `m` below `n`, and then the rest.
pub proof fn lemma_write_state_split(s: StreamState, v: nat, m: nat, n: nat)
    requires
        m % 8 == 0,
        0 < m < n,
    ensures
        write_state(s, v, n) == write_state(write_state(s, v % pow2(m), m), v / pow2(m), (n - m) as nat),
    decreases m,
{
    lemma2_to64();
    let s1 = write_u8_state(s, (v % 256) as u8, 8);
    if m == 8 {
        assert(write_state(s, v % 256, 8) == write_u8_state(s, ((v % 256) as nat) as u8, 8));
    } else {
        lemma_pow2_adds(8, (m - 8) as nat);
        let p = pow2((m - 8) as nat);
        lemma_pow2_pos((m - 8) as nat);
        lemma_write_state_split(s1, v / 256, (m - 8) as nat, (n - 8) as nat);
        lemma_mod_mod(v as int, 256, p as int);
        lemma_div_denominator(v as int, 256, p as int);
        lemma_mod_breakdown(v as int, 256, p as int);
        lemma_fundamental_div_mod_converse(
            (v % pow2(m)) as int,
            256,
            ((v / 256) % p) as int,
            (v % 256) as int,
        );
        assert(write_state(s, v % pow2(m), m) == write_state(
            write_u8_state(s, ((v % pow2(m)) % 256) as u8, 8),
            (v % pow2(m)) / 256,
            (m - 8) as nat,
        ));
        assert((n - 8 - (m - 8)) as nat == (n - m) as nat);
    }
}

/// A write leaves the cursor just past the bits it wrote.
pub proof fn lemma_write_state_pos(s: StreamState, v: nat, n: nat)
    requires
        s.wf(),
    ensures
        write_state(s, v, n).wf(),
        write_state(s, v, n).pos() == s.pos() + n,
    decreases n,
{
    if n > 8 {
        lemma_write_state_pos(write_u8_state(s, (v % 256) as u8, 8), v / 256, (n - 8) as nat);
    }
}

/// The length field of a string at the cursor: the byte there.
pub open spec fn string_len_field(s: StreamState) -> nat {
    read_value(s, 8)
}

/// The bytes of a string at the cursor: as many bytes as the length field
/// says, following it.
pub open spec fn string_bytes(s: StreamState) -> Seq<u8> {
    Seq::new(string_len_field(s), |i: int| bits_value(s.data, s.pos() + 8 + 8 * i, 8) as u8)
}

/// The length field and the bytes it announces lie within the data.
pub open spec fn string_fits(s: StreamState) -> bool {
    whole_bytes_left(s) >= 1 + string_len_field(s)
}

/// Reading a string at the cursor succeeds.
pub open spec fn read_string_succeeds(s: StreamState) -> bool {
    string_fits(s) && valid_utf8(string_bytes(s))
}

/// The error of a failed string read.
pub open spec fn read_string_error(s: StreamState) -> Error {
    if string_fits(s) {
        Error::InvalidUtf8
    } else {
        Error::ReadEof
    }
}

/// Where the cursor stands after a string read: past the string when all
/// of it lies within the data, else past the whole bytes that remained.
pub open spec fn read_string_end(s: StreamState) -> int {
    if string_fits(s) {
        s.pos() + 8 * (1 + string_len_field(s))
    } else {
        s.pos() + 8 * whole_bytes_left(s)
    }
}

/// The stream after writing each of `bytes` as eight bits, in order.
pub open spec fn write_bytes_state(s: StreamState, bytes: Seq<u8>) -> StreamState
    decreases bytes.len(),
{
    if bytes.len() == 0 {
        s
    } else {
        write_u8_state(write_bytes_state(s, bytes.drop_last()), bytes.last(), 8)
    }
}

/// The stream after a one-bit flag was read at the cursor.
pub open spec fn flag_read_state(s: StreamState) -> StreamState {
    StreamState {
        data: s.data,
        byte_offset: ((s.pos() + 1) / 8) as nat,
        bit_offset: ((s.pos() + 1) % 8) as nat,
    }
}

/// The data reaches no further than the byte after the cursor's.
pub open spec fn compact(s: StreamState) -> bool {
    s.data.len() <= s.byte_offset + 1
}

/// Writes keep a compact stream compact.
pub proof fn lemma_write_state_compact(s: StreamState, v: nat, n: nat)
    requires
        s.wf(),
        compact(s),
    ensures
        compact(write_state(s, v, n)),
    decreases n,
{
    if n > 8 {
        lemma_write_state_pos(write_u8_state(s, (v % 256) as u8, 8), v / 256, (n - 8) as nat);
        lemma_write_state_pos(s, v % 256, 8);
        lemma_write_state_compact(write_u8_state(s, (v % 256) as u8, 8), v / 256, (n - 8) as nat);
    }
}

/// Writing bytes moves the cursor one byte per byte written.
pub proof fn lemma_write_bytes_state_pos(s: StreamState, bytes: Seq<u8>)
    requires
        s.wf(),
    ensures
        write_bytes_state(s, bytes).wf(),
        write_bytes_state(s, bytes).pos() == s.pos() + 8 * bytes.len(),
        write_bytes_state(s, bytes).byte_offset == s.byte_offset + bytes.len(),
    decreases bytes.len(),
{
    if bytes.len() > 0 {
        lemma_write_bytes_state_pos(s, bytes.drop_last());
        lemma2_to64();
        lemma_write_state_pos(write_bytes_state(s, bytes.drop_last()), bytes.last() as nat, 8);
    }
}

} // verus!
