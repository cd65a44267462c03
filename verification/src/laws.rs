use vstd::prelude::*;
use vstd::arithmetic::power2::{pow2, lemma2_to64, lemma_pow2_pos, lemma_pow2_adds, lemma_pow2_strictly_increases};
use vstd::arithmetic::mul::{lemma_mul_strict_inequality, lemma_mul_is_commutative};
use vstd::bits::lemma_u8_shl_is_mul;
use vstd::utf8::{decode_utf8, encode_utf8, encode_utf8_decode_utf8, encode_utf8_valid_utf8};
use crate::bits::{bit_at, lemma_single_bit, bits_value, byte_mask, lemma_bit_index, lemma_bits_in_byte, lemma_bits_value_bound, lemma_bits_value_split, lemma_bits_value_same, lemma_pow2_fits_byte, lemma_shl_one_is_pow2};
use crate::layout::{Field, lemma_write_fields_compact, lemma_write_fields_pos, written_value, embeds, absent, lemma_fields_done, lemma_prefixed_assoc, lemma_prefixed_empty, lemma_read_step, layout_closed, field_bits, field_skip, field_width, layout_ok, read_fields, values_fit, write_fields};
use crate::error::Error;
use crate::recording::{Frame, after_frames, chunk_bytes, read_frames, write_frames, fresh_stream, frame_chunk, pad_chunk, extra_data_outcome, frame_from_values, frame_layout, frame_read, frame_values, frame_write, lemma_frame_layout, lemma_frame_values, ExtraData, Move, PhysicsData, SpeedrunHeader, extra_data_empty, extra_data_from_values, extra_data_layout, extra_data_values, lemma_extra_data_layout, lemma_extra_data_values, move_from_values, move_layout, move_values, physics_data_from_values, physics_data_layout, physics_data_values, speedrun_header_from_values, speedrun_header_layout, speedrun_header_values};
use crate::model::{StreamState, whole_bytes_left, lemma_write_state_pos, read_string_end, read_string_succeeds, string_bytes, string_len_field, write_bytes_state, grown_to_cursor, read_end, read_succeeds, read_value, write_u8_state, write_state};

verus! {

proof fn lemma_grown_to_cursor(s: StreamState)
    requires
        s.at_end(),
    ensures
        grown_to_cursor(s).len() == s.byte_offset + 1,
        grown_to_cursor(s)[s.byte_offset as int] >> (s.bit_offset as u8) == 0,
        forall|i: int| 0 <= i < s.data.len() ==> grown_to_cursor(s)[i] == s.data[i],
{
    if s.data.len() <= s.byte_offset {
        assert(grown_to_cursor(s)[s.byte_offset as int] == 0);
        assert(0u8 >> 0u8 == 0) by (bit_vector);
    }
}

/// Writing at most eight bits to an appendable stream puts the value's bits
/// at the cursor, keeps every earlier bit, and leaves the stream
/// appendable with the cursor past the new bits.
pub proof fn lemma_write_u8_at_end(s: StreamState, v: u8, n: u8)
    requires
        s.at_end(),
        1 <= n <= 8,
        v < pow2(n as nat),
    ensures
        write_u8_state(s, v, n).at_end(),
        write_u8_state(s, v, n).pos() == s.pos() + n,
        bits_value(write_u8_state(s, v, n).data, s.pos(), n as nat) == v,
        forall|i: int| i < s.pos() ==> bit_at(write_u8_state(s, v, n).data, i) == bit_at(s.data, i),
{
    let w = write_u8_state(s, v, n);
    let d0 = grown_to_cursor(s);
    let b = s.byte_offset as int;
    let bo = s.bit_offset as u8;
    let x = d0[b];
    lemma_grown_to_cursor(s);
    lemma2_to64();
    if n < 8 {
        lemma_shl_one_is_pow2(n);
    }
    assert(n == 8 || v < (1u8 << n));
    if bo + n >= 8 {
        let extra = (bo + n - 8) as u8;
        let remain = (8 - bo) as u8;
        let lo = v & byte_mask(remain);
        let y = x | (lo << bo);
        let d1 = d0.update(b, y);
        assert((y >> bo) & byte_mask(remain) == lo) by (bit_vector)
            requires
                y == x | ((v & (0xffu8 >> ((8 - remain) as u8))) << bo),
                lo == v & (0xffu8 >> ((8 - remain) as u8)),
                x >> bo == 0,
                remain == 8 - bo,
                bo < 8,
        ;
        lemma_bits_in_byte(w.data, b, bo, remain);
        assert(w.data[b] == y);
        lemma_bits_value_split(w.data, s.pos(), remain as nat, extra as nat);
        lemma_bit_index(b + 1, 0);
        assert(s.pos() + remain == 8 * (b + 1) + 0);
        if extra > 0 {
            let hi = (v >> remain) & byte_mask(extra);
            assert(w.data == d1.push(hi));
            lemma_bits_in_byte(w.data, b + 1, 0, extra);
            assert(hi >> 0u8 == hi && hi >> extra == 0 && (hi & (0xffu8 >> ((8 - extra) as u8))) == hi) by (bit_vector)
                requires
                    hi == (v >> remain) & (0xffu8 >> ((8 - extra) as u8)),
                    1 <= extra < 8,
            ;
            assert(w.data[b + 1] == hi);
            lemma_bits_value_bound(w.data, 8 * (b + 1) + 0, extra as nat);
            lemma_pow2_fits_byte(extra as nat, remain as nat);
            lemma_pow2_pos(remain as nat);
            lemma_mul_strict_inequality(hi as int, pow2(extra as nat) as int, pow2(remain as nat) as int);
            lemma_u8_shl_is_mul(hi, remain);
            lemma_mul_is_commutative(hi as int, pow2(remain as nat) as int);
            assert(v == lo + (hi << remain)) by (bit_vector)
                requires
                    lo == v & (0xffu8 >> ((8 - remain) as u8)),
                    hi == (v >> remain) & (0xffu8 >> ((8 - extra) as u8)),
                    remain + extra == n,
                    1 <= extra,
                    1 <= remain <= 8,
                    n <= 8,
                    n == 8 || v < (1u8 << n),
            ;
            assert(bits_value(w.data, s.pos(), remain as nat) == lo as nat);
            assert(bits_value(w.data, s.pos() + remain, extra as nat) == hi as nat);
            assert((remain + extra) as nat == n as nat);
            assert(bits_value(w.data, s.pos(), n as nat) == lo + pow2(remain as nat) * hi);
        } else {
            assert(lo == v) by (bit_vector)
                requires
                    lo == v & (0xffu8 >> ((8 - remain) as u8)),
                    remain == n,
                    1 <= n <= 8,
                    n == 8 || v < (1u8 << n),
            ;
            assert(bits_value(w.data, s.pos() + remain, 0) == 0);
            assert(remain == n);
        }
        assert forall|i: int| i < s.pos() implies bit_at(w.data, i) == bit_at(s.data, i) by {
            if 0 <= i {
                let j = (i % 8) as u8;
                lemma_bit_index(i / 8, i % 8);
                if i / 8 == b {
                    assert((y >> j) & 1u8 == (x >> j) & 1u8) by (bit_vector)
                        requires
                            y == x | ((v & (0xffu8 >> ((8 - remain) as u8))) << bo),
                            j < bo,
                    ;
                }
            }
        }
    } else {
        let y = x | ((v << bo) & byte_mask((n + bo) as u8));
        assert((y >> bo) & byte_mask(n) == v && y >> ((bo + n) as u8) == 0) by (bit_vector)
            requires
                y == x | ((v << bo) & (0xffu8 >> ((8 - ((n + bo) as u8)) as u8))),
                x >> bo == 0,
                bo + n < 8,
                1 <= n,
                v < (1u8 << n),
        ;
        lemma_bits_in_byte(w.data, b, bo, n);
        assert forall|i: int| i < s.pos() implies bit_at(w.data, i) == bit_at(s.data, i) by {
            if 0 <= i {
                let j = (i % 8) as u8;
                lemma_bit_index(i / 8, i % 8);
                if i / 8 == b {
                    assert((y >> j) & 1u8 == (x >> j) & 1u8) by (bit_vector)
                        requires
                            y == x | ((v << bo) & (0xffu8 >> ((8 - ((n + bo) as u8)) as u8))),
                            j < bo,
                    ;
                }
            }
        }
    }
}

/// Writing `n` bits to an appendable stream puts the value's bits at the
/// cursor, keeps every earlier bit, and leaves the stream appendable with
/// the cursor past the new bits.
pub proof fn lemma_write_at_end(s: StreamState, v: nat, n: nat)
    requires
        s.at_end(),
        n >= 1,
        v < pow2(n),
    ensures
        write_state(s, v, n).at_end(),
        write_state(s, v, n).pos() == s.pos() + n,
        bits_value(write_state(s, v, n).data, s.pos(), n) == v,
        forall|i: int| i < s.pos() ==> bit_at(write_state(s, v, n).data, i) == bit_at(s.data, i),
    decreases n,
{
    lemma2_to64();
    if n <= 8 {
        if n < 8 {
            lemma_pow2_strictly_increases(n, 8);
        }
        lemma_write_u8_at_end(s, v as u8, n as u8);
    } else {
        let lo = (v % 256) as u8;
        let s1 = write_u8_state(s, lo, 8);
        lemma_write_u8_at_end(s, lo, 8);
        lemma_pow2_adds(8, (n - 8) as nat);
        assert((8 + (n - 8)) as nat == n);
        lemma_write_at_end(s1, v / 256, (n - 8) as nat);
        let w = write_state(s1, v / 256, (n - 8) as nat);
        assert(w == write_state(s, v, n));
        lemma_bits_value_split(w.data, s.pos(), 8, (n - 8) as nat);
        lemma_bits_value_same(w.data, s1.data, s.pos(), 8);
    }
}

/// A value written to an appendable stream reads back unchanged, and the
/// read ends where the write ended, when the cursor is moved back to where
/// the write began.
pub proof fn lemma_write_then_read(s: StreamState, v: nat, n: nat, width: nat)
    requires
        s.at_end(),
        width == 8 || width == 16 || width == 32 || width == 64,
        1 <= n <= width,
        v < pow2(n),
    ensures
        ({
            let back = write_state(s, v, n).with_cursor_of(s);
            &&& read_succeeds(back, n, width)
            &&& read_value(back, n) == v
            &&& read_end(back, n, width) == s.pos() + n
        }),
{
    lemma_write_at_end(s, v, n);
}

/// Writing bytes to an appendable stream puts each at its place after the
/// cursor, keeps every earlier bit, and leaves the stream appendable.
pub proof fn lemma_write_bytes_at_end(s: StreamState, bytes: Seq<u8>)
    requires
        s.at_end(),
    ensures
        write_bytes_state(s, bytes).at_end(),
        write_bytes_state(s, bytes).pos() == s.pos() + 8 * bytes.len(),
        forall|i: int|
            0 <= i < bytes.len() ==> bits_value(write_bytes_state(s, bytes).data, s.pos() + 8 * i, 8)
                == bytes[i],
        forall|i: int|
            i < s.pos() ==> bit_at(write_bytes_state(s, bytes).data, i) == bit_at(s.data, i),
    decreases bytes.len(),
{
    if bytes.len() > 0 {
        let prefix = bytes.drop_last();
        let s1 = write_bytes_state(s, prefix);
        lemma_write_bytes_at_end(s, prefix);
        lemma2_to64();
        lemma_write_u8_at_end(s1, bytes.last(), 8);
        let w = write_bytes_state(s, bytes);
        assert forall|i: int| 0 <= i < bytes.len() implies bits_value(w.data, s.pos() + 8 * i, 8)
            == bytes[i] by {
            if i < prefix.len() {
                lemma_bits_value_same(w.data, s1.data, s.pos() + 8 * i, 8);
                assert(prefix[i] == bytes[i]);
            } else {
                assert(w == write_u8_state(s1, bytes.last(), 8));
                assert(s.pos() + 8 * i == s1.pos());
            }
        }
    }
}

/// A string written to an appendable stream, when its UTF-8 form is shorter
/// than 256 bytes, reads back unchanged once the cursor is moved back to
/// where the write began, and the read ends where the write ended.
pub proof fn lemma_write_string_then_read(s: StreamState, text: Seq<char>)
    requires
        s.at_end(),
        encode_utf8(text).len() < 256,
    ensures
        ({
            let bytes = encode_utf8(text);
            let w = write_bytes_state(write_u8_state(s, (bytes.len() % 256) as u8, 8), bytes);
            let back = w.with_cursor_of(s);
            &&& w.at_end()
            &&& read_string_succeeds(back)
            &&& decode_utf8(string_bytes(back)) == text
            &&& read_string_end(back) == w.pos()
        }),
{
    let bytes = encode_utf8(text);
    let len = bytes.len();
    lemma2_to64();
    let s1 = write_u8_state(s, len as u8, 8);
    lemma_write_u8_at_end(s, len as u8, 8);
    lemma_write_bytes_at_end(s1, bytes);
    let w = write_bytes_state(s1, bytes);
    let back = w.with_cursor_of(s);
    lemma_bits_value_same(w.data, s1.data, s.pos(), 8);
    assert(string_len_field(back) == len);
    assert(string_bytes(back) =~= bytes);
    encode_utf8_valid_utf8(text);
    encode_utf8_decode_utf8(text);
}

proof fn lemma_at_end_within(t: StreamState)
    requires
        t.at_end(),
    ensures
        t.pos() <= t.bit_len(),
{
}

proof fn lemma_with_pos_of_wf(a: StreamState, b: StreamState)
    requires
        b.wf(),
        a.data == b.data,
    ensures
        a.with_pos(b.pos()) == b,
{
    lemma_bit_index(b.byte_offset as int, b.bit_offset as int);
}

/// Writing values that fit a record's fields to an appendable stream
/// succeeds, keeps every earlier bit, and leaves the stream appendable; and
/// reading the fields back from where the write began, in any data that
/// holds the same bits up to where the write ended, gives the values and
/// ends where the write ended.
#[verifier::rlimit(30)]
pub proof fn lemma_fields_roundtrip_in(s: StreamState, fields: Seq<Field>, vals: Seq<Option<nat>>, i: nat, d: Seq<u8>)
    requires
        s.at_end(),
        layout_ok(fields),
        vals.len() == fields.len(),
        i <= fields.len(),
        values_fit(fields, vals, i),
        write_fields(s, fields, vals, i).1.pos() <= 8 * d.len(),
        forall|j: int|
            #![trigger bit_at(d, j)]
            j < write_fields(s, fields, vals, i).1.pos() ==> bit_at(d, j) == bit_at(
                write_fields(s, fields, vals, i).1.data,
                j,
            ),
    ensures
        ({
            let (ok, w) = write_fields(s, fields, vals, i);
            &&& ok
            &&& w.at_end()
            &&& w.pos() >= s.pos()
            &&& forall|j: int| j < s.pos() ==> bit_at(w.data, j) == bit_at(s.data, j)
            &&& read_fields(StreamState { data: d, ..s }, fields, i) == (
                Ok::<Seq<Option<nat>>, Error>(vals.subrange(i as int, vals.len() as int)),
                StreamState { data: d, ..w },
            )
        }),
    decreases fields.len() - i,
{
    reveal(read_fields);
    reveal(write_fields);
    if i >= fields.len() {
        assert(vals.subrange(i as int, vals.len() as int) =~= Seq::<Option<nat>>::empty());
    } else {
        let f = fields[i as int];
        let n = field_bits(f);
        let v = vals[i as int]->Some_0;
        let skip = field_skip(fields, i as int, v);
        let next = i + 1 + skip;
        assert(match fields[i as int] {
            Field::Bits(n, w) => 1 <= n <= w && (w == 8 || w == 16 || w == 32 || w == 64),
            Field::Flag(_) => true,
        });
        let s1 = write_state(s, v, n);
        lemma_write_at_end(s, v, n);
        assert(write_fields(s, fields, vals, i) == write_fields(s1, fields, vals, next));
        lemma_fields_roundtrip_in(s1, fields, vals, next, d);
        let (ok, w) = write_fields(s, fields, vals, i);
        let back = StreamState { data: d, ..s };
        lemma_at_end_within(w);
        assert(read_succeeds(back, n, field_width(f)));
        lemma_bits_value_same(d, s1.data, s.pos(), n);
        assert(read_value(back, n) == v);
        lemma_with_pos_of_wf(back, StreamState { data: d, ..s1 });
        assert(vals.subrange(i as int, vals.len() as int) =~= seq![Some(v)] + Seq::new(
            skip,
            |j: int| None::<nat>,
        ) + vals.subrange(next as int, vals.len() as int));
    }
}

proof fn lemma_write_fields_at_end(s: StreamState, fields: Seq<Field>, vals: Seq<Option<nat>>, i: nat)
    requires
        s.at_end(),
        layout_ok(fields),
        vals.len() == fields.len(),
        i <= fields.len(),
        values_fit(fields, vals, i),
    ensures
        write_fields(s, fields, vals, i).1.at_end(),
    decreases fields.len() - i,
{
    reveal(write_fields);
    if i < fields.len() {
        let n = field_bits(fields[i as int]);
        let v = vals[i as int]->Some_0;
        assert(match fields[i as int] {
            Field::Bits(n, w) => 1 <= n <= w && (w == 8 || w == 16 || w == 32 || w == 64),
            Field::Flag(_) => true,
        });
        lemma_write_at_end(s, v, n);
        lemma_write_fields_at_end(write_state(s, v, n), fields, vals, i + 1 + field_skip(fields, i as int, v));
    }
}

/// Writing values that fit a record's fields to an appendable stream
/// succeeds, keeps every earlier bit, leaves the stream appendable, and
/// reading the fields back from where the write began gives the values and
/// ends where the write ended.
pub proof fn lemma_fields_roundtrip(s: StreamState, fields: Seq<Field>, vals: Seq<Option<nat>>, i: nat)
    requires
        s.at_end(),
        layout_ok(fields),
        vals.len() == fields.len(),
        i <= fields.len(),
        values_fit(fields, vals, i),
    ensures
        ({
            let (ok, w) = write_fields(s, fields, vals, i);
            &&& ok
            &&& w.at_end()
            &&& w.pos() >= s.pos()
            &&& forall|j: int| j < s.pos() ==> bit_at(w.data, j) == bit_at(s.data, j)
            &&& read_fields(w.with_cursor_of(s), fields, i) == (
                Ok::<Seq<Option<nat>>, Error>(vals.subrange(i as int, vals.len() as int)),
                w,
            )
        }),
{
    let w = write_fields(s, fields, vals, i).1;
    lemma_write_fields_at_end(s, fields, vals, i);
    lemma_fields_roundtrip_in(s, fields, vals, i, w.data);
    assert(StreamState { data: w.data, ..w } == w);
}

/// A move's angles fit their 16 bits and its axes their 6 bits.
pub open spec fn move_fits(m: Move) -> bool {
    &&& (m.yaw matches Some(a) ==> a < 0x1_0000)
    &&& (m.pitch matches Some(a) ==> a < 0x1_0000)
    &&& (m.roll matches Some(a) ==> a < 0x1_0000)
    &&& m.mx < 64
    &&& m.my < 64
    &&& m.mz < 64
}

/// The values of a move that fits fit the move's fields.
pub proof fn lemma_move_values_fit(m: Move)
    requires
        move_fits(m),
    ensures
        values_fit(move_layout(), move_values(m), 0),
        layout_ok(move_layout()),
        move_values(m).len() == move_layout().len(),
        move_from_values(move_values(m)) == m,
{
    lemma2_to64();
    reveal_with_fuel(values_fit, 17);
    let vals = move_values(m);
    let l = move_layout();
    assert(l.len() == 16);
    assert(layout_ok(l));
    let back = move_from_values(vals);
    assert(back.triggers@ =~= m.triggers@);
    assert(back.triggers == m.triggers);
}

/// A move that fits, written to an appendable stream, reads back unchanged
/// from where the write began, and the read ends where the write ended.
pub proof fn lemma_move_roundtrip(s: StreamState, m: Move)
    requires
        s.at_end(),
        move_fits(m),
    ensures
        ({
            let (ok, w) = write_fields(s, move_layout(), move_values(m), 0);
            &&& ok
            &&& w.at_end()
            &&& read_fields(w.with_cursor_of(s), move_layout(), 0) == (
                Ok::<Seq<Option<nat>>, Error>(move_values(m)),
                w,
            )
            &&& move_from_values(move_values(m)) == m
        }),
{
    lemma_move_values_fit(m);
    lemma_fields_roundtrip(s, move_layout(), move_values(m), 0);
    let vals = move_values(m);
    assert(vals.subrange(0, vals.len() as int) =~= vals);
}

/// A speedrun header's values fit its fields and give it back.
pub proof fn lemma_speedrun_header_values_fit(h: SpeedrunHeader)
    ensures
        values_fit(speedrun_header_layout(), speedrun_header_values(h), 0),
        layout_ok(speedrun_header_layout()),
        layout_closed(speedrun_header_layout()),
        speedrun_header_values(h).len() == speedrun_header_layout().len(),
        speedrun_header_from_values(speedrun_header_values(h)) == h,
{
    lemma2_to64();
    reveal_with_fuel(values_fit, 9);
    assert(layout_ok(speedrun_header_layout()));
}

/// Physics data's values fit its fields and give it back.
pub proof fn lemma_physics_data_values_fit(p: PhysicsData)
    ensures
        values_fit(physics_data_layout(), physics_data_values(p), 0),
        layout_ok(physics_data_layout()),
        layout_closed(physics_data_layout()),
        physics_data_values(p).len() == physics_data_layout().len(),
        physics_data_from_values(physics_data_values(p)) == p,
{
    lemma2_to64();
    reveal_with_fuel(values_fit, 10);
    assert(layout_ok(physics_data_layout()));
}

/// A speedrun header written to an appendable stream reads back unchanged
/// from where the write began, and the read ends where the write ended.
pub proof fn lemma_speedrun_header_roundtrip(s: StreamState, h: SpeedrunHeader)
    requires
        s.at_end(),
    ensures
        ({
            let (ok, w) = write_fields(s, speedrun_header_layout(), speedrun_header_values(h), 0);
            &&& ok
            &&& w.at_end()
            &&& read_fields(w.with_cursor_of(s), speedrun_header_layout(), 0) == (
                Ok::<Seq<Option<nat>>, Error>(speedrun_header_values(h)),
                w,
            )
            &&& speedrun_header_from_values(speedrun_header_values(h)) == h
        }),
{
    lemma_speedrun_header_values_fit(h);
    lemma_fields_roundtrip(s, speedrun_header_layout(), speedrun_header_values(h), 0);
    let vals = speedrun_header_values(h);
    assert(vals.subrange(0, vals.len() as int) =~= vals);
}

/// Physics data written to an appendable stream reads back unchanged from
/// where the write began, and the read ends where the write ended.
pub proof fn lemma_physics_data_roundtrip(s: StreamState, p: PhysicsData)
    requires
        s.at_end(),
    ensures
        ({
            let (ok, w) = write_fields(s, physics_data_layout(), physics_data_values(p), 0);
            &&& ok
            &&& w.at_end()
            &&& read_fields(w.with_cursor_of(s), physics_data_layout(), 0) == (
                Ok::<Seq<Option<nat>>, Error>(physics_data_values(p)),
                w,
            )
            &&& physics_data_from_values(physics_data_values(p)) == p
        }),
{
    lemma_physics_data_values_fit(p);
    lemma_fields_roundtrip(s, physics_data_layout(), physics_data_values(p), 0);
    let vals = physics_data_values(p);
    assert(vals.subrange(0, vals.len() as int) =~= vals);
}

/// Extra data's times fit their 24 bits.
pub open spec fn extra_data_fits(x: ExtraData) -> bool {
    &&& (x.sys_time_delta matches Some(t) ==> t < 0x100_0000)
    &&& (x.game_elapsed matches Some(t) ==> t < 0x100_0000)
}

/// Extra data with at least one part present.
pub open spec fn extra_data_present(x: ExtraData) -> bool {
    x.speedrun_header is Some || x.sys_time_delta is Some || x.game_elapsed is Some
        || x.physics_data is Some
}

/// The values of extra data whose times fit fit its fields and give it
/// back.
pub proof fn lemma_extra_data_values_fit(x: ExtraData)
    requires
        extra_data_fits(x),
    ensures
        values_fit(extra_data_layout(), extra_data_values(x), 0),
        layout_ok(extra_data_layout()),
        extra_data_values(x).len() == extra_data_layout().len(),
        extra_data_from_values(extra_data_values(x)) == x,
        extra_data_empty(extra_data_values(x)) <==> !extra_data_present(x),
{
    lemma2_to64();
    lemma_extra_data_layout();
    lemma_extra_data_values(x);
    let l = extra_data_layout();
    let vals = extra_data_values(x);
    assert(layout_ok(l)) by {
        assert(layout_ok(speedrun_header_layout()));
        assert(layout_ok(physics_data_layout()));
    }
    assert(values_fit(l, vals, 23)) by {
        reveal_with_fuel(values_fit, 1);
    }
    match x.physics_data {
        Some(p) => {
            lemma_physics_data_values_fit(p);
            lemma_values_fit_optional(l, vals, 13, physics_data_layout(), physics_data_values(p));
            assert(vals.subrange(14, 23) =~= physics_data_values(p));
        },
        None => {
            lemma_values_fit_optional(l, vals, 13, physics_data_layout(), absent(9));
        },
    }
    assert(values_fit(l, vals, 11)) by {
        reveal_with_fuel(values_fit, 3);
    }
    assert(values_fit(l, vals, 9)) by {
        reveal_with_fuel(values_fit, 3);
    }
    match x.speedrun_header {
        Some(h) => {
            lemma_speedrun_header_values_fit(h);
            lemma_values_fit_optional(l, vals, 0, speedrun_header_layout(), speedrun_header_values(h));
            assert(vals.subrange(1, 9) =~= speedrun_header_values(h));
        },
        None => {
            lemma_values_fit_optional(l, vals, 0, speedrun_header_layout(), absent(8));
        },
    }
}

/// Extra data whose times fit, written to an appendable stream, reads back
/// from where the write began as the same data when some part is present,
/// and as an error when none is; the read ends where the write ended.
pub proof fn lemma_extra_data_roundtrip(s: StreamState, x: ExtraData)
    requires
        s.at_end(),
        extra_data_fits(x),
    ensures
        ({
            let (ok, w) = write_fields(s, extra_data_layout(), extra_data_values(x), 0);
            &&& ok
            &&& w.at_end()
            &&& read_fields(w.with_cursor_of(s), extra_data_layout(), 0) == (
                Ok::<Seq<Option<nat>>, Error>(extra_data_values(x)),
                w,
            )
            &&& extra_data_from_values(extra_data_values(x)) == x
            &&& (extra_data_empty(extra_data_values(x)) <==> !extra_data_present(x))
        }),
{
    lemma_extra_data_values_fit(x);
    lemma_fields_roundtrip(s, extra_data_layout(), extra_data_values(x), 0);
    let vals = extra_data_values(x);
    assert(vals.subrange(0, vals.len() as int) =~= vals);
}

/// Every bit at or after the cursor of an appendable stream is clear.
pub proof fn lemma_at_end_zeros(t: StreamState)
    requires
        t.at_end(),
    ensures
        forall|j: int| j >= t.pos() ==> #[trigger] bit_at(t.data, j) == 0,
{
    assert forall|j: int| j >= t.pos() implies #[trigger] bit_at(t.data, j) == 0 by {
        if j < 8 * t.data.len() {
            let b = t.byte_offset as int;
            lemma_bit_index(j / 8, j % 8);
            lemma_bit_index(b, t.bit_offset as int);
            if j / 8 == b {
                let x = t.data[b];
                let bo = t.bit_offset as u8;
                let k = (j % 8) as u8;
                assert((x >> k) & 1u8 == 0) by (bit_vector)
                    requires
                        x >> bo == 0,
                        bo <= k < 8,
                ;
            }
        }
    }
}

/// Reading extra data where every bit from the cursor on is clear keeps no
/// extra data: either the data ends, or every part reads as absent.
#[verifier::rlimit(30)]
pub proof fn lemma_zeros_extra_absent(t: StreamState)
    requires
        t.wf(),
        forall|j: int| j >= t.pos() ==> #[trigger] bit_at(t.data, j) == 0,
    ensures
        extra_data_outcome(read_fields(t, extra_data_layout(), 0).0) is None,
{
    let l = extra_data_layout();
    lemma_extra_data_layout();
    let mut cur = t;
    let ghost mut acc: Seq<Option<nat>> = Seq::empty();
    lemma_prefixed_empty(read_fields(t, l, 0));
    let idx = seq![0nat, 9nat, 11nat, 13nat];
    let skips = seq![8nat, 1nat, 1nat, 9nat];
    let t0 = t;
    lemma_single_bit(t0.data, t0.pos());
    let t1 = t0.with_pos(t0.pos() + 1);
    lemma_bit_index(t1.byte_offset as int, t1.bit_offset as int);
    lemma_read_step(t0, if read_succeeds(t0, 1, 8) { t1 } else { t0 }, l, 0);
    if read_succeeds(t0, 1, 8) {
        lemma_single_bit(t1.data, t1.pos());
        let t2 = t1.with_pos(t1.pos() + 1);
        lemma_bit_index(t2.byte_offset as int, t2.bit_offset as int);
        lemma_read_step(t1, if read_succeeds(t1, 1, 8) { t2 } else { t1 }, l, 9);
        if read_succeeds(t1, 1, 8) {
            lemma_single_bit(t2.data, t2.pos());
            let t3 = t2.with_pos(t2.pos() + 1);
            lemma_bit_index(t3.byte_offset as int, t3.bit_offset as int);
            lemma_read_step(t2, if read_succeeds(t2, 1, 8) { t3 } else { t2 }, l, 11);
            if read_succeeds(t2, 1, 8) {
                lemma_single_bit(t3.data, t3.pos());
                let t4 = t3.with_pos(t3.pos() + 1);
                lemma_bit_index(t4.byte_offset as int, t4.bit_offset as int);
                lemma_read_step(t3, if read_succeeds(t3, 1, 8) { t4 } else { t3 }, l, 13);
                if read_succeeds(t3, 1, 8) {
                    lemma_fields_done(t4, l, Seq::empty());
                    let a = seq![Some(0nat)] + absent(8);
                    let b = seq![Some(0nat)] + absent(1);
                    let c = seq![Some(0nat)] + absent(1);
                    let e = seq![Some(0nat)] + absent(9);
                    let fin = read_fields(t4, l, 23);
                    lemma_prefixed_assoc(c, e, fin);
                    lemma_prefixed_assoc(b, c + e, fin);
                    lemma_prefixed_assoc(a, b + (c + e), fin);
                    let vals = a + (b + (c + e)) + Seq::<Option<nat>>::empty();
                    assert(vals[0] == Some(0nat));
                    assert(vals[9] == Some(0nat));
                    assert(vals[11] == Some(0nat));
                    assert(vals[13] == Some(0nat));
                }
            }
        }
    }
}

/// An optional inner record's values fit where it stands in a record: a
/// set flag with the inner record's fitting values, or a clear flag with
/// its fields absent, followed by fitting values.
pub proof fn lemma_values_fit_optional(
    fields: Seq<Field>,
    vals: Seq<Option<nat>>,
    i: nat,
    inner: Seq<Field>,
    inner_vals: Seq<Option<nat>>,
)
    requires
        i < fields.len(),
        vals.len() == fields.len(),
        fields[i as int] == Field::Flag(inner.len()),
        embeds(fields, i + 1, inner),
        layout_closed(inner),
        inner_vals.len() == inner.len(),
        values_fit(fields, vals, i + 1 + inner.len()),
        vals[i as int] == Some(1nat) ==> values_fit(inner, inner_vals, 0) && forall|j: int|
            0 <= j < inner.len() ==> vals[i + 1 + j] == #[trigger] inner_vals[j],
        vals[i as int] == Some(0nat) ==> forall|j: int|
            0 <= j < inner.len() ==> #[trigger] vals[i + 1 + j] is None,
        vals[i as int] == Some(0nat) || vals[i as int] == Some(1nat),
    ensures
        values_fit(fields, vals, i),
{
    lemma2_to64();
    if vals[i as int] == Some(1nat) {
        lemma_values_fit_embed(fields, vals, i + 1, inner, inner_vals, 0);
        assert(values_fit(fields, vals, i + 1));
    } else {
        assert(forall|j: int| i + 1 <= j < i + 1 + inner.len() ==> vals[j] is None) by {
            assert forall|j: int| i + 1 <= j < i + 1 + inner.len() implies vals[j] is None by {
                assert(vals[i + 1 + (j - i - 1)] is None);
            }
        }
    }
}

/// Values that fit an inner record where it stands in a record, followed
/// by fitting values, fit the record from there.
pub proof fn lemma_values_fit_embed(
    fields: Seq<Field>,
    vals: Seq<Option<nat>>,
    off: nat,
    inner: Seq<Field>,
    inner_vals: Seq<Option<nat>>,
    j: nat,
)
    requires
        embeds(fields, off, inner),
        layout_closed(inner),
        off + inner.len() <= vals.len(),
        inner_vals.len() == inner.len(),
        forall|k: int| 0 <= k < inner.len() ==> vals[off + k] == #[trigger] inner_vals[k],
        j <= inner.len(),
        values_fit(inner, inner_vals, j),
        values_fit(fields, vals, off + inner.len()),
    ensures
        values_fit(fields, vals, off + j),
    decreases inner.len() - j,
{
    if j < inner.len() {
        let f = inner[j as int];
        assert(fields[(off + j) as int] == f);
        assert(vals[(off + j) as int] == inner_vals[j as int]);
        let v = inner_vals[j as int]->Some_0;
        let skip = field_skip(inner, j as int, v);
        assert(match f {
            Field::Flag(k) => j + k < inner.len(),
            Field::Bits(_, _) => true,
        });
        assert(field_skip(fields, (off + j) as int, v) == skip);
        lemma_values_fit_embed(fields, vals, off, inner, inner_vals, j + 1 + skip);
        assert(off + j + 1 + skip == off + (j + 1 + skip));
        assert forall|k: int| off + j + 1 <= k < off + j + 1 + skip implies vals[k] is None by {
            assert(vals[off + (k - off)] == inner_vals[k - off]);
        }
    }
}

/// A frame's moves, time delta and extra data fit their fields, and its
/// extra data, when it has some, has some part present.
pub open spec fn frame_fits(f: Frame) -> bool {
    &&& (f.moves@[0] matches Some(m) ==> move_fits(m))
    &&& (f.moves@[1] matches Some(m) ==> move_fits(m))
    &&& f.delta < 1024
    &&& (f.extra_data matches Some(x) ==> extra_data_fits(x) && extra_data_present(x))
}

/// The values of a frame that fits fit the frame's fields and give it back.
#[verifier::rlimit(30)]
pub proof fn lemma_frame_values_fit(f: Frame)
    requires
        frame_fits(f),
    ensures
        values_fit(frame_layout(), frame_values(f), 0),
        layout_ok(frame_layout()),
        frame_values(f).len() == frame_layout().len(),
        frame_from_values(frame_values(f), f.extra_data) == f,
{
    lemma2_to64();
    lemma_frame_layout();
    lemma_frame_values(f);
    let l = frame_layout();
    let vals = frame_values(f);
    assert(layout_ok(l)) by {
        assert(layout_ok(move_layout()));
    }
    let ml = move_layout();
    assert(values_fit(l, vals, 34)) by {
        reveal_with_fuel(values_fit, 2);
    }
    match f.moves@[1] {
        Some(m) => {
            lemma_move_values_fit(m);
            lemma_values_fit_optional(l, vals, 17, ml, move_values(m));
            assert(vals.subrange(18, 34) =~= move_values(m));
        },
        None => {
            lemma_values_fit_optional(l, vals, 17, ml, absent(16));
        },
    }
    match f.moves@[0] {
        Some(m) => {
            lemma_move_values_fit(m);
            lemma_values_fit_optional(l, vals, 0, ml, move_values(m));
            assert(vals.subrange(1, 17) =~= move_values(m));
        },
        None => {
            lemma_values_fit_optional(l, vals, 0, ml, absent(16));
        },
    }
    let back = frame_from_values(vals, f.extra_data);
    assert(back.moves@[0] == f.moves@[0]);
    assert(back.moves@[1] == f.moves@[1]);
    assert(back.moves@ =~= f.moves@);
    assert(back.moves == f.moves);
    assert(back.delta == f.delta);
}

/// A frame that fits, written to an appendable stream, succeeds and leaves
/// it appendable; and it reads back unchanged from where the write began,
/// in any data that holds the same bits and no set bit past them.
#[verifier::rlimit(30)]
pub proof fn lemma_frame_roundtrip_in(s: StreamState, f: Frame, d: Seq<u8>)
    requires
        s.at_end(),
        frame_fits(f),
        frame_write(s, f).1.pos() <= 8 * d.len(),
        forall|j: int| #![trigger bit_at(d, j)] bit_at(d, j) == bit_at(frame_write(s, f).1.data, j),
    ensures
        frame_write(s, f).0,
        frame_write(s, f).1.at_end(),
        frame_read(StreamState { data: d, ..s }).0 == Ok::<Frame, Error>(f),
{
    let fl = frame_layout();
    let fv = frame_values(f);
    lemma_frame_values_fit(f);
    let (ok1, wh) = write_fields(s, fl, fv, 0);
    lemma_fields_roundtrip(s, fl, fv, 0);
    let w = frame_write(s, f).1;
    match f.extra_data {
        Some(x) => {
            lemma_extra_data_values_fit(x);
            let el = extra_data_layout();
            let ev = extra_data_values(x);
            lemma_write_fields_at_end(wh, el, ev, 0);
            lemma_at_end_within(w);
            lemma_fields_roundtrip_in(wh, el, ev, 0, d);
            lemma_fields_roundtrip_in(s, fl, fv, 0, d);
            assert(ev.subrange(0, ev.len() as int) =~= ev);
        },
        None => {
            lemma_at_end_within(wh);
            lemma_fields_roundtrip_in(s, fl, fv, 0, d);
            lemma_at_end_zeros(wh);
            lemma_zeros_extra_absent(StreamState { data: d, ..wh });
        },
    }
    assert(fv.subrange(0, fv.len() as int) =~= fv);
}

/// A frame that fits, written to an appendable stream, reads back unchanged
/// from where the write began.
pub proof fn lemma_frame_roundtrip(s: StreamState, f: Frame)
    requires
        s.at_end(),
        frame_fits(f),
    ensures
        frame_write(s, f).0,
        frame_write(s, f).1.at_end(),
        frame_read(frame_write(s, f).1.with_cursor_of(s)).0 == Ok::<Frame, Error>(f),
{
    let w = frame_write(s, f).1;
    let fl = frame_layout();
    let fv = frame_values(f);
    lemma_frame_values_fit(f);
    lemma_write_fields_at_end(s, fl, fv, 0);
    let wh = write_fields(s, fl, fv, 0).1;
    if let Some(x) = f.extra_data {
        lemma_extra_data_values_fit(x);
        lemma_write_fields_at_end(wh, extra_data_layout(), extra_data_values(x), 0);
    }
    lemma_at_end_within(w);
    lemma_frame_roundtrip_in(s, f, w.data);
    assert(StreamState { data: w.data, ..s } == w.with_cursor_of(s));
}

/// The cursor is just past the last byte, at a byte boundary.
pub open spec fn aligned_end(s: StreamState) -> bool {
    s.bit_offset == 0 && s.byte_offset == s.data.len()
}

/// Writing a byte at an aligned end appends it.
pub proof fn lemma_aligned_write_u8(s: StreamState, v: u8)
    requires
        aligned_end(s),
    ensures
        write_u8_state(s, v, 8) == (StreamState {
            data: s.data.push(v),
            byte_offset: s.byte_offset + 1,
            bit_offset: 0,
        }),
{
    let d0 = grown_to_cursor(s);
    assert(d0 =~= s.data.push(0));
    assert((0u8 | ((v & (0xffu8 >> 0u8)) << 0u8)) == v) by (bit_vector);
    assert(d0.update(s.byte_offset as int, v) =~= s.data.push(v));
}

/// Writing bytes at an aligned end appends them.
pub proof fn lemma_aligned_write_bytes(s: StreamState, bytes: Seq<u8>)
    requires
        aligned_end(s),
    ensures
        write_bytes_state(s, bytes) == (StreamState {
            data: s.data + bytes,
            byte_offset: s.byte_offset + bytes.len(),
            bit_offset: 0,
        }),
    decreases bytes.len(),
{
    if bytes.len() == 0 {
        assert(s.data + bytes =~= s.data);
    } else {
        lemma_aligned_write_bytes(s, bytes.drop_last());
        let t = write_bytes_state(s, bytes.drop_last());
        lemma_aligned_write_u8(t, bytes.last());
        assert((s.data + bytes.drop_last()).push(bytes.last()) =~= s.data + bytes);
    }
}

/// The eight bits at a byte boundary are that byte.
pub proof fn lemma_byte_at_boundary(d: Seq<u8>, k: int)
    requires
        0 <= k < d.len(),
    ensures
        bits_value(d, 8 * k, 8) == d[k],
{
    lemma_bits_in_byte(d, k, 0, 8);
    let x = d[k];
    assert((x >> 0u8) & (0xffu8 >> 0u8) == x) by (bit_vector);
}

/// The sum of the bits of the fields from index `i` on.
pub open spec fn layout_bits(fields: Seq<Field>, i: nat) -> nat
    decreases fields.len() - i,
{
    if i >= fields.len() {
        0
    } else {
        field_bits(fields[i as int]) + layout_bits(fields, i + 1)
    }
}

proof fn lemma_layout_bits_mono(fields: Seq<Field>, i: nat, j: nat)
    requires
        i <= j,
    ensures
        layout_bits(fields, j) <= layout_bits(fields, i),
    decreases j - i,
{
    if i < j {
        lemma_layout_bits_mono(fields, i + 1, j);
    }
}

/// Writing fields moves the cursor by at most the sum of their bits.
pub proof fn lemma_write_fields_bits(s: StreamState, fields: Seq<Field>, vals: Seq<Option<nat>>, i: nat)
    requires
        s.wf(),
    ensures
        write_fields(s, fields, vals, i).1.pos() <= s.pos() + layout_bits(fields, i),
    decreases fields.len() - i,
{
    reveal(write_fields);
    if i < fields.len() {
        let n = field_bits(fields[i as int]);
        let v = written_value(vals, i as int);
        let next = i + 1 + field_skip(fields, i as int, v);
        lemma_write_state_pos(s, v, n);
        lemma_write_fields_bits(write_state(s, v, n), fields, vals, next);
        lemma_layout_bits_mono(fields, i + 1, next);
    }
}

/// The bits of an inner record count once where it stands in a record.
proof fn lemma_layout_bits_embed(fields: Seq<Field>, off: nat, inner: Seq<Field>, j: nat)
    requires
        embeds(fields, off, inner),
        j <= inner.len(),
    ensures
        layout_bits(fields, off + j) == layout_bits(inner, j) + layout_bits(fields, off + inner.len()),
    decreases inner.len() - j,
{
    if j < inner.len() {
        assert(fields[(off + j) as int] == inner[j as int]);
        lemma_layout_bits_embed(fields, off, inner, j + 1);
        assert(off + j + 1 == off + (j + 1));
    }
}

proof fn lemma_frame_layout_bits()
    ensures
        layout_bits(frame_layout(), 0) == 164,
{
    let l = frame_layout();
    lemma_frame_layout();
    assert(layout_bits(move_layout(), 0) == 76) by {
        reveal_with_fuel(layout_bits, 17);
    }
    lemma_layout_bits_embed(l, 1, move_layout(), 0);
    lemma_layout_bits_embed(l, 18, move_layout(), 0);
    assert(layout_bits(l, 34) == 10) by {
        reveal_with_fuel(layout_bits, 2);
    }
    assert(layout_bits(l, 17) == 1 + layout_bits(l, 18));
    assert(layout_bits(l, 0) == 1 + layout_bits(l, 1));
}

proof fn lemma_extra_data_layout_bits()
    ensures
        layout_bits(extra_data_layout(), 0) == 868,
{
    let l = extra_data_layout();
    lemma_extra_data_layout();
    assert(layout_bits(speedrun_header_layout(), 0) == 240) by {
        reveal_with_fuel(layout_bits, 9);
    }
    assert(layout_bits(physics_data_layout(), 0) == 576) by {
        reveal_with_fuel(layout_bits, 10);
    }
    lemma_layout_bits_embed(l, 1, speedrun_header_layout(), 0);
    lemma_layout_bits_embed(l, 14, physics_data_layout(), 0);
    assert(layout_bits(l, 9) == 51 + layout_bits(l, 14)) by {
        reveal_with_fuel(layout_bits, 6);
    }
    assert(layout_bits(l, 0) == 1 + layout_bits(l, 1));
}

/// A frame that fits takes four to 255 bytes within a recording, and reads
/// back from them.
pub proof fn lemma_frame_chunk(f: Frame)
    requires
        frame_fits(f),
    ensures
        frame_chunk(f) is Some,
        4 <= frame_chunk(f)->Some_0.len() <= 255,
        frame_read(fresh_stream(frame_chunk(f)->Some_0)).0 == Ok::<Frame, Error>(f),
{
    let e = fresh_stream(Seq::empty());
    assert(e.at_end());
    lemma_frame_roundtrip(e, f);
    let (ok, t) = frame_write(e, f);
    let c = pad_chunk(t.data);
    let fl = frame_layout();
    let fv = frame_values(f);
    lemma_write_fields_bits(e, fl, fv, 0);
    lemma_write_fields_compact(e, fl, fv, 0);
    lemma_frame_values_fit(f);
    lemma_write_fields_pos(e, fl, fv, 0);
    lemma_frame_layout_bits();
    let th = write_fields(e, fl, fv, 0).1;
    if let Some(x) = f.extra_data {
        let el = extra_data_layout();
        lemma_extra_data_values_fit(x);
        lemma_write_fields_bits(th, el, extra_data_values(x), 0);
        lemma_write_fields_compact(th, el, extra_data_values(x), 0);
        lemma_extra_data_layout_bits();
    }
    lemma_at_end_within(t);
    assert forall|j: int| #![trigger bit_at(c, j)] bit_at(c, j) == bit_at(t.data, j) by {
        if 0 <= j < 8 * c.len() && j >= 8 * t.data.len() {
            let z = c[j / 8];
            assert(z == 0);
            let k = (j % 8) as u8;
            assert((0u8 >> k) & 1u8 == 0) by (bit_vector);
        }
    }
    lemma_frame_roundtrip_in(e, f, c);
    assert(StreamState { data: c, ..e } == fresh_stream(c));
}

/// The bytes a recording stores its frames as: each frame's byte count and
/// bytes.
pub open spec fn chunks_bytes(frames: Seq<Frame>) -> Seq<u8>
    decreases frames.len(),
{
    if frames.len() == 0 {
        Seq::empty()
    } else {
        let c = frame_chunk(frames[0])->Some_0;
        seq![(c.len() % 256) as u8] + c + chunks_bytes(frames.drop_first())
    }
}

/// Writing frames that fit at an aligned end appends their bytes.
pub proof fn lemma_write_frames_aligned(st: StreamState, frames: Seq<Frame>)
    requires
        aligned_end(st),
        forall|k: int| 0 <= k < frames.len() ==> frame_fits(#[trigger] frames[k]),
    ensures
        write_frames(st, frames) == (
            true,
            StreamState {
                data: st.data + chunks_bytes(frames),
                byte_offset: st.byte_offset + chunks_bytes(frames).len(),
                bit_offset: 0,
            },
        ),
    decreases frames.len(),
{
    if frames.len() == 0 {
        assert(st.data + chunks_bytes(frames) =~= st.data);
    } else {
        let f = frames[0];
        lemma_frame_chunk(f);
        let c = frame_chunk(f)->Some_0;
        let len = (c.len() % 256) as u8;
        lemma_aligned_write_u8(st, len);
        let t = write_u8_state(st, len, 8);
        lemma_aligned_write_bytes(t, c);
        let t2 = write_bytes_state(t, c);
        let rest = frames.drop_first();
        assert forall|k: int| 0 <= k < rest.len() implies frame_fits(#[trigger] rest[k]) by {
            assert(rest[k] == frames[k + 1]);
        }
        lemma_write_frames_aligned(t2, rest);
        assert(t2.data + chunks_bytes(rest) =~= st.data + chunks_bytes(frames));
    }
}

/// Frames that fit read back from their bytes, to the end of the data.
#[verifier::rlimit(30)]
pub proof fn lemma_read_frames_aligned(d: Seq<u8>, b: nat, frames: Seq<Frame>)
    requires
        b <= d.len(),
        d.subrange(b as int, d.len() as int) == chunks_bytes(frames),
        forall|k: int| 0 <= k < frames.len() ==> frame_fits(#[trigger] frames[k]),
    ensures
        read_frames(StreamState { data: d, byte_offset: b, bit_offset: 0 }) == (
            Ok::<Seq<Frame>, Error>(frames),
            StreamState { data: d, byte_offset: d.len(), bit_offset: 0 },
        ),
    decreases frames.len(),
{
    let s = StreamState { data: d, byte_offset: b, bit_offset: 0 };
    if frames.len() == 0 {
        assert(d.subrange(b as int, d.len() as int).len() == 0);
        assert(frames =~= Seq::<Frame>::empty());
    } else {
        let f = frames[0];
        lemma_frame_chunk(f);
        let c = frame_chunk(f)->Some_0;
        let rest = frames.drop_first();
        let tail = d.subrange(b as int, d.len() as int);
        assert(tail == seq![(c.len() % 256) as u8] + c + chunks_bytes(rest));
        assert(d[b as int] == tail[0]);
        lemma_byte_at_boundary(d, b as int);
        assert(read_value(s, 8) == c.len());
        let u = s.with_pos(s.pos() + 8);
        lemma_bit_index((b + 1) as int, 0);
        assert(u == StreamState { data: d, byte_offset: b + 1, bit_offset: 0 });
        assert(whole_bytes_left(u) == d.len() - b - 1);
        assert forall|k: int| 0 <= k < c.len() implies #[trigger] chunk_bytes(u, c.len())[k] == c[k] by {
            lemma_byte_at_boundary(d, b + 1 + k);
            assert(8 * (b + 1 + k) == u.pos() + 8 * k);
            assert(d[b + 1 + k] == tail[1 + k]);
        }
        assert(chunk_bytes(u, c.len()) =~= c);
        let nb = b + 1 + c.len();
        lemma_bit_index(nb as int, 0);
        let v = u.with_pos(u.pos() + 8 * c.len());
        assert(v == StreamState { data: d, byte_offset: nb, bit_offset: 0 });
        assert(d.subrange(nb as int, d.len() as int) =~= chunks_bytes(rest)) by {
            assert(d.subrange(nb as int, d.len() as int) =~= tail.subrange((1 + c.len()) as int, tail.len() as int));
        }
        assert forall|k: int| 0 <= k < rest.len() implies frame_fits(#[trigger] rest[k]) by {
            assert(rest[k] == frames[k + 1]);
        }
        lemma_read_frames_aligned(d, nb, rest);
        assert(!s.is_eof());
        assert(read_succeeds(s, 8, 8));
        assert(s.with_pos(s.pos() + 8) == u);
        assert(frame_read(fresh_stream(chunk_bytes(u, c.len()))).0 == Ok::<Frame, Error>(f));
        assert(u.with_pos(u.pos() + 8 * c.len()) == v);
        assert(seq![f] + rest =~= frames);
        assert(read_frames(s) == after_frames(seq![f], read_frames(v)));
    }
}

/// A recording whose mission name takes fewer than 256 bytes and whose
/// frames fit, written at the aligned end of a stream, reads back
/// unchanged from where the write began, and the read ends where the write
/// ended.
#[verifier::rlimit(40)]
pub proof fn lemma_recording_roundtrip(s: StreamState, text: Seq<char>, frames: Seq<Frame>)
    requires
        aligned_end(s),
        encode_utf8(text).len() < 256,
        forall|k: int| 0 <= k < frames.len() ==> frame_fits(#[trigger] frames[k]),
    ensures
        ({
            let name = encode_utf8(text);
            let named = write_bytes_state(write_u8_state(s, (name.len() % 256) as u8, 8), name);
            let (ok, w) = write_frames(named, frames);
            let back = w.with_cursor_of(s);
            &&& ok
            &&& read_string_succeeds(back)
            &&& decode_utf8(string_bytes(back)) == text
            &&& read_frames(back.with_pos(read_string_end(back))) == (Ok::<Seq<Frame>, Error>(frames), w)
        }),
{
    let name = encode_utf8(text);
    let len = name.len();
    let lb = (len % 256) as u8;
    lemma_aligned_write_u8(s, lb);
    let t = write_u8_state(s, lb, 8);
    lemma_aligned_write_bytes(t, name);
    let named = write_bytes_state(t, name);
    lemma_write_frames_aligned(named, frames);
    let w = write_frames(named, frames).1;
    let d = w.data;
    let b = s.byte_offset;
    let back = w.with_cursor_of(s);
    assert(d =~= s.data + (seq![lb] + name) + chunks_bytes(frames));
    lemma_byte_at_boundary(d, b as int);
    assert(string_len_field(back) == len);
    assert forall|i: int| 0 <= i < len implies #[trigger] string_bytes(back)[i] == name[i] by {
        lemma_byte_at_boundary(d, b + 1 + i);
        assert(8 * (b + 1 + i) == back.pos() + 8 + 8 * i);
    }
    assert(string_bytes(back) =~= name);
    encode_utf8_valid_utf8(text);
    encode_utf8_decode_utf8(text);
    let nb = b + 1 + len;
    lemma_bit_index(nb as int, 0);
    assert(back.with_pos(read_string_end(back)) == StreamState { data: d, byte_offset: nb, bit_offset: 0 });
    assert(d.subrange(nb as int, d.len() as int) =~= chunks_bytes(frames));
    lemma_read_frames_aligned(d, nb, frames);
}

/// The total number of bits of a run of writes.
pub open spec fn bit_count(ns: Seq<nat>) -> nat
    decreases ns.len(),
{
    if ns.len() == 0 {
        0
    } else {
        ns[0] + bit_count(ns.drop_first())
    }
}

/// The stream after writing `vals[0]`, `vals[1]`, ... one after another,
/// each in the matching number of bits of `ns`.
pub open spec fn writes_state(s: StreamState, vals: Seq<nat>, ns: Seq<nat>) -> StreamState
    decreases vals.len(),
{
    if vals.len() == 0 {
        s
    } else {
        writes_state(write_state(s, vals[0], ns[0]), vals.drop_first(), ns.drop_first())
    }
}

/// The data holds exactly the bytes the cursor has reached or entered.
pub open spec fn tight(s: StreamState) -> bool {
    s.data.len() == (s.pos() + 7) / 8
}

/// One more write after a run of writes extends the run.
pub proof fn lemma_writes_state_push(s: StreamState, vals: Seq<nat>, ns: Seq<nat>, v: nat, n: nat)
    requires
        vals.len() == ns.len(),
    ensures
        writes_state(s, vals.push(v), ns.push(n)) == write_state(writes_state(s, vals, ns), v, n),
    decreases vals.len(),
{
    if vals.len() > 0 {
        assert(vals.push(v).drop_first() =~= vals.drop_first().push(v));
        assert(ns.push(n).drop_first() =~= ns.drop_first().push(n));
        assert(vals.push(v)[0] == vals[0] && ns.push(n)[0] == ns[0]);
        lemma_writes_state_push(write_state(s, vals[0], ns[0]), vals.drop_first(), ns.drop_first(), v, n);
    } else {
        assert(vals.push(v).drop_first() =~= Seq::<nat>::empty());
        assert(ns.push(n).drop_first() =~= Seq::<nat>::empty());
        assert(vals.push(v)[0] == v && ns.push(n)[0] == n);
        assert(writes_state(write_state(s, v, n), Seq::<nat>::empty(), Seq::<nat>::empty()) == write_state(s, v, n));
    }
}

proof fn lemma_write_u8_tight(s: StreamState, v: u8, n: u8)
    requires
        s.at_end(),
        tight(s),
        1 <= n <= 8,
    ensures
        tight(write_u8_state(s, v, n)),
{
    lemma_grown_to_cursor(s);
}

proof fn lemma_write_tight(s: StreamState, v: nat, n: nat)
    requires
        s.at_end(),
        tight(s),
        n >= 1,
        v < pow2(n),
    ensures
        tight(write_state(s, v, n)),
    decreases n,
{
    lemma2_to64();
    if n <= 8 {
        lemma_write_u8_tight(s, v as u8, n as u8);
    } else {
        let lo = (v % 256) as u8;
        lemma_write_u8_tight(s, lo, 8);
        lemma_write_u8_at_end(s, lo, 8);
        lemma_pow2_adds(8, (n - 8) as nat);
        assert((8 + (n - 8)) as nat == n);
        lemma_write_tight(write_u8_state(s, lo, 8), v / 256, (n - 8) as nat);
    }
}

/// The values a run of writes can read back: each fits its count of bits,
/// and each count is at least one and at most the width of the integer it
/// is read into, which is one the stream reads.
pub open spec fn writes_fit(vals: Seq<nat>, ns: Seq<nat>, ws: Seq<nat>) -> bool {
    &&& vals.len() == ns.len() == ws.len()
    &&& forall|k: int|
        0 <= k < vals.len() ==> {
            &&& 1 <= #[trigger] ns[k] <= ws[k]
            &&& (ws[k] == 8 || ws[k] == 16 || ws[k] == 32 || ws[k] == 64)
            &&& vals[k] < pow2(ns[k])
        }
}

/// Values written one after another to an appendable stream read back one
/// after another, in order, once the cursor is moved back to where the
/// writes began: the `k`-th read, from where the first `k` values end,
/// gives `vals[k]` and ends where the `k`-th value ends. The writes keep
/// every earlier bit and leave the stream appendable with the cursor past
/// all the bits; when the data held exactly the bytes the cursor had
/// reached, it does so after every write; and a read of more bits than
/// are left at the end fails.
pub proof fn lemma_writes_then_reads(s: StreamState, vals: Seq<nat>, ns: Seq<nat>, ws: Seq<nat>)
    requires
        s.at_end(),
        writes_fit(vals, ns, ws),
    ensures
        ({
            let w = writes_state(s, vals, ns);
            &&& w.at_end()
            &&& w.pos() == s.pos() + bit_count(ns)
            &&& forall|j: int| j < s.pos() ==> bit_at(w.data, j) == bit_at(s.data, j)
            &&& forall|k: int|
                0 <= k < vals.len() ==> {
                    let t = w.with_pos(s.pos() + bit_count(#[trigger] ns.take(k)));
                    &&& read_succeeds(t, ns[k], ws[k])
                    &&& read_value(t, ns[k]) == vals[k]
                    &&& read_end(t, ns[k], ws[k]) == s.pos() + bit_count(ns.take(k + 1))
                }
            &&& tight(s) ==> forall|k: int|
                0 <= k <= vals.len() ==> tight(#[trigger] writes_state(s, vals.take(k), ns.take(k)))
            &&& forall|m: nat, width: nat|
                w.pos() + m > w.bit_len() ==> !#[trigger] read_succeeds(w, m, width)
        }),
    decreases vals.len(),
{
    let w = writes_state(s, vals, ns);
    if vals.len() == 0 {
        assert forall|k: int| 0 <= k <= vals.len() implies writes_state(s, vals.take(k), ns.take(k))
            == s by {
            assert(vals.take(k) =~= Seq::<nat>::empty());
        }
    } else {
        let v = vals[0];
        let n = ns[0];
        let s1 = write_state(s, v, n);
        let vt = vals.drop_first();
        let nt = ns.drop_first();
        let wt = ws.drop_first();
        assert(1 <= ns[0] <= ws[0] && vals[0] < pow2(ns[0]));
        assert forall|k: int| 0 <= k < vt.len() implies {
            &&& 1 <= #[trigger] nt[k] <= wt[k]
            &&& (wt[k] == 8 || wt[k] == 16 || wt[k] == 32 || wt[k] == 64)
            &&& vt[k] < pow2(nt[k])
        } by {
            assert(1 <= ns[k + 1] <= ws[k + 1]);
        }
        lemma_write_at_end(s, v, n);
        lemma_writes_then_reads(s1, vt, nt, wt);
        assert(w == writes_state(s1, vt, nt));
        lemma_at_end_within(w);
        assert forall|k: int| 0 <= k < vals.len() implies {
            let t = w.with_pos(s.pos() + bit_count(#[trigger] ns.take(k)));
            &&& read_succeeds(t, ns[k], ws[k])
            &&& read_value(t, ns[k]) == vals[k]
            &&& read_end(t, ns[k], ws[k]) == s.pos() + bit_count(ns.take(k + 1))
        } by {
            assert(ns.take(k + 1).drop_first() =~= nt.take(k));
            assert(bit_count(ns.take(k + 1)) == ns[k] + bit_count(nt.take(k)) || k > 0);
            if k == 0 {
                assert(ns.take(0) =~= Seq::<nat>::empty());
                assert(nt.take(0) =~= Seq::<nat>::empty());
                let t = w.with_pos(s.pos());
                lemma_bits_value_same(w.data, s1.data, s.pos(), n);
                assert(t.pos() == s.pos());
            } else {
                assert(ns.take(k).drop_first() =~= nt.take(k - 1));
                assert(nt.take(k - 1 + 1) == nt.take(k));
                assert(nt[k - 1] == ns[k]);
                assert(wt[k - 1] == ws[k]);
                assert(vt[k - 1] == vals[k]);
            }
        }
        assert(bit_count(ns) == n + bit_count(nt));
        if tight(s) {
            lemma_write_tight(s, v, n);
            assert forall|k: int| 0 <= k <= vals.len() implies tight(
                #[trigger] writes_state(s, vals.take(k), ns.take(k)),
            ) by {
                if k == 0 {
                    assert(vals.take(0) =~= Seq::<nat>::empty());
                } else {
                    assert(vals.take(k).drop_first() =~= vt.take(k - 1));
                    assert(ns.take(k).drop_first() =~= nt.take(k - 1));
                    assert(writes_state(s, vals.take(k), ns.take(k)) == writes_state(
                        s1,
                        vt.take(k - 1),
                        nt.take(k - 1),
                    ));
                }
            }
        }
    }
}

/// The fields of a record of plain values, one per count of bits in `ns`,
/// each read into an integer of the matching width in `ws`.
pub open spec fn plain_fields(ns: Seq<nat>, ws: Seq<nat>) -> Seq<Field> {
    Seq::new(ns.len(), |k: int| Field::Bits(ns[k], ws[k]))
}

/// Values written one after another are the same as the values written as
/// a record of plain fields of the same counts of bits.
pub proof fn lemma_writes_as_fields(s: StreamState, vals: Seq<nat>, ns: Seq<nat>, ws: Seq<nat>, i: nat)
    requires
        writes_fit(vals, ns, ws),
        i <= vals.len(),
    ensures
        write_fields(s, plain_fields(ns, ws), vals.map_values(|v: nat| Some(v)), i) == (
            true,
            writes_state(s, vals.skip(i as int), ns.skip(i as int)),
        ),
    decreases vals.len() - i,
{
    reveal(write_fields);
    let fields = plain_fields(ns, ws);
    let opts = vals.map_values(|v: nat| Some(v));
    if i >= vals.len() {
        assert(vals.skip(i as int) =~= Seq::<nat>::empty());
    } else {
        assert(1 <= ns[i as int] <= ws[i as int]);
        assert(fields[i as int] == Field::Bits(ns[i as int], ws[i as int]));
        assert(field_skip(fields, i as int, vals[i as int]) == 0);
        assert(opts[i as int] == Some(vals[i as int]));
        lemma_writes_as_fields(write_state(s, vals[i as int], ns[i as int]), vals, ns, ws, i + 1);
        assert(vals.skip(i as int).drop_first() =~= vals.skip((i + 1) as int));
        assert(ns.skip(i as int).drop_first() =~= ns.skip((i + 1) as int));
        assert(vals.skip(i as int)[0] == vals[i as int]);
        assert(ns.skip(i as int)[0] == ns[i as int]);
    }
}

} // verus!
